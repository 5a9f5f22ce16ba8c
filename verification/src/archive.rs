//! Comic-book archives (CBZ): a ZIP file whose entries are a series' pages,
//! stored without compression, in upload order.
use crate::version::le_bytes;
use vstd::prelude::*;

verus! {

/// One step of the reflected CRC-32 (IEEE 802.3) shift register.
pub open spec fn crc_shift(c: u32) -> u32 {
    if c & 1 == 1 {
        (c >> 1) ^ 0xEDB8_8320u32
    } else {
        c >> 1
    }
}

/// `k` steps of the shift register.
pub open spec fn crc_shifts(c: u32, k: nat) -> u32
    decreases k,
{
    if k == 0 {
        c
    } else {
        crc_shift(crc_shifts(c, (k - 1) as nat))
    }
}

/// The shift register after feeding `data`, one byte at a time, starting
/// from all ones.
pub open spec fn crc_register(data: Seq<u8>) -> u32
    decreases data.len(),
{
    if data.len() == 0 {
        0xFFFF_FFFFu32
    } else {
        crc_shifts(crc_register(data.drop_last()) ^ (data.last() as u32), 8)
    }
}

/// The CRC-32 checksum of `data`, as ZIP records it.
pub open spec fn crc32(data: Seq<u8>) -> u32 {
    crc_register(data) ^ 0xFFFF_FFFFu32
}

fn crc_step(c: u32) -> (r: u32)
    ensures
        r == crc_shift(c),
{
    if c & 1 == 1 {
        (c >> 1) ^ 0xEDB8_8320u32
    } else {
        c >> 1
    }
}

/// Computes the CRC-32 checksum of `data`.
pub fn crc32_of(data: &[u8]) -> (r: u32)
    ensures
        r == crc32(data@),
{
    let mut c: u32 = 0xFFFF_FFFF;
    let mut i: usize = 0;
    while i < data.len()
        invariant
            i <= data@.len(),
            c == crc_register(data@.take(i as int)),
        decreases data@.len() - i,
    {
        proof {
            assert(data@.take(i + 1).drop_last() =~= data@.take(i as int));
        }
        let start: u32 = c ^ (data[i] as u32);
        c = start;
        let mut k: usize = 0;
        while k < 8
            invariant
                k <= 8,
                c == crc_shifts(start, k as nat),
            decreases 8 - k,
        {
            c = crc_step(c);
            k = k + 1;
        }
        i = i + 1;
    }
    proof {
        assert(data@.take(i as int) =~= data@);
    }
    c ^ 0xFFFF_FFFF
}

proof fn lemma_residue_steps(c: u32, y0: u32, y1: u32, y2: u32, y3: u32, y4: u32, y5: u32, y6: u32, y7: u32, y8: u32, y9: u32, y10: u32, y11: u32, y12: u32, y13: u32, y14: u32, y15: u32, y16: u32, y17: u32, y18: u32, y19: u32, y20: u32, y21: u32, y22: u32, y23: u32, y24: u32, y25: u32, y26: u32, y27: u32, y28: u32, y29: u32, y30: u32, y31: u32, y32: u32)
    by (bit_vector)
    requires
        y0 == c ^ ((c ^ 0xFFFF_FFFFu32) & 0xffu32),
        y1 == crc_shift(y0),
        y2 == crc_shift(y1),
        y3 == crc_shift(y2),
        y4 == crc_shift(y3),
        y5 == crc_shift(y4),
        y6 == crc_shift(y5),
        y7 == crc_shift(y6),
        y8 == crc_shift(y7),
        y9 == crc_shift((y8 ^ (((c ^ 0xFFFF_FFFFu32) >> 8u32) & 0xffu32))),
        y10 == crc_shift(y9),
        y11 == crc_shift(y10),
        y12 == crc_shift(y11),
        y13 == crc_shift(y12),
        y14 == crc_shift(y13),
        y15 == crc_shift(y14),
        y16 == crc_shift(y15),
        y17 == crc_shift((y16 ^ (((c ^ 0xFFFF_FFFFu32) >> 16u32) & 0xffu32))),
        y18 == crc_shift(y17),
        y19 == crc_shift(y18),
        y20 == crc_shift(y19),
        y21 == crc_shift(y20),
        y22 == crc_shift(y21),
        y23 == crc_shift(y22),
        y24 == crc_shift(y23),
        y25 == crc_shift((y24 ^ (((c ^ 0xFFFF_FFFFu32) >> 24u32) & 0xffu32))),
        y26 == crc_shift(y25),
        y27 == crc_shift(y26),
        y28 == crc_shift(y27),
        y29 == crc_shift(y28),
        y30 == crc_shift(y29),
        y31 == crc_shift(y30),
        y32 == crc_shift(y31),
    ensures
        y32 == 0xDEBB_20E3u32,
{
}

/// Eight steps of the shift register, written out.
proof fn lemma_shifts_eight(c: u32)
    ensures
        crc_shifts(c, 8) == crc_shift(crc_shift(crc_shift(crc_shift(crc_shift(crc_shift(crc_shift(crc_shift(c)))))))),
{
    reveal_with_fuel(crc_shifts, 9);
}

proof fn lemma_register_push(s: Seq<u8>, b: u8)
    ensures
        crc_register(s.push(b)) == crc_shifts(crc_register(s) ^ (b as u32), 8),
{
    assert(s.push(b).drop_last() =~= s);
}

/// The CRC-32 residue: appending a message's checksum to it, least
/// significant byte first, always leaves the checksum `0x2144DF1C`. This is
/// how a reader checks a message with its checksum attached, and it holds
/// only when every byte, `0x80` and above included, is fed in as its eight
/// bits.
pub proof fn lemma_crc_residue(data: Seq<u8>)
    ensures
        crc32(data + le_bytes(crc32(data) as nat, 4)) == 0x2144_DF1Cu32,
{
    let c = crc_register(data);
    let k = crc32(data);
    assert(k == c ^ 0xFFFF_FFFFu32);
    reveal_with_fuel(le_bytes, 5);
    let l = le_bytes(k as nat, 4);
    let b0 = (k as nat % 256) as u8;
    let b1 = ((k as nat / 256) % 256) as u8;
    let b2 = ((k as nat / 256 / 256) % 256) as u8;
    let b3 = ((k as nat / 256 / 256 / 256) % 256) as u8;
    assert(l =~= seq![b0, b1, b2, b3]);
    assert(b0 as u32 == k & 0xffu32) by (bit_vector)
        requires
            b0 == (k % 256) as u8,
    ;
    assert(b1 as u32 == (k >> 8u32) & 0xffu32) by (bit_vector)
        requires
            b1 == ((k / 256) % 256) as u8,
    ;
    assert(b2 as u32 == (k >> 16u32) & 0xffu32) by (bit_vector)
        requires
            b2 == ((k / 256 / 256) % 256) as u8,
    ;
    assert(b3 as u32 == (k >> 24u32) & 0xffu32) by (bit_vector)
        requires
            b3 == ((k / 256 / 256 / 256) % 256) as u8,
    ;
    let d1 = data.push(b0);
    let d2 = d1.push(b1);
    let d3 = d2.push(b2);
    let d4 = d3.push(b3);
    assert(data + l =~= d4);
    lemma_register_push(data, b0);
    lemma_register_push(d1, b1);
    lemma_register_push(d2, b2);
    lemma_register_push(d3, b3);
    let r1 = crc_register(d1);
    let r2 = crc_register(d2);
    let r3 = crc_register(d3);
    lemma_shifts_eight(c ^ (b0 as u32));
    lemma_shifts_eight(r1 ^ (b1 as u32));
    lemma_shifts_eight(r2 ^ (b2 as u32));
    lemma_shifts_eight(r3 ^ (b3 as u32));
    let y0 = c ^ (k & 0xffu32);
    let y1 = crc_shift(y0);
    let y2 = crc_shift(y1);
    let y3 = crc_shift(y2);
    let y4 = crc_shift(y3);
    let y5 = crc_shift(y4);
    let y6 = crc_shift(y5);
    let y7 = crc_shift(y6);
    let y8 = crc_shift(y7);
    let y9 = crc_shift((y8 ^ ((k >> 8u32) & 0xffu32)));
    let y10 = crc_shift(y9);
    let y11 = crc_shift(y10);
    let y12 = crc_shift(y11);
    let y13 = crc_shift(y12);
    let y14 = crc_shift(y13);
    let y15 = crc_shift(y14);
    let y16 = crc_shift(y15);
    let y17 = crc_shift((y16 ^ ((k >> 16u32) & 0xffu32)));
    let y18 = crc_shift(y17);
    let y19 = crc_shift(y18);
    let y20 = crc_shift(y19);
    let y21 = crc_shift(y20);
    let y22 = crc_shift(y21);
    let y23 = crc_shift(y22);
    let y24 = crc_shift(y23);
    let y25 = crc_shift((y24 ^ ((k >> 24u32) & 0xffu32)));
    let y26 = crc_shift(y25);
    let y27 = crc_shift(y26);
    let y28 = crc_shift(y27);
    let y29 = crc_shift(y28);
    let y30 = crc_shift(y29);
    let y31 = crc_shift(y30);
    let y32 = crc_shift(y31);
    assert(y8 == r1);
    assert(y16 == r2);
    assert(y24 == r3);
    assert(y32 == crc_register(d4));
    lemma_residue_steps(c, y0, y1, y2, y3, y4, y5, y6, y7, y8, y9, y10, y11, y12, y13, y14, y15, y16, y17, y18, y19, y20, y21, y22, y23, y24, y25, y26, y27, y28, y29, y30, y31, y32);
    assert(0xDEBB_20E3u32 ^ 0xFFFF_FFFFu32 == 0x2144_DF1Cu32) by (bit_vector);
}

/// Eight steps of the shift register, as one expression.
spec fn eight_shifts(c: u32) -> u32 {
    crc_shift(crc_shift(crc_shift(crc_shift(crc_shift(crc_shift(crc_shift(crc_shift(c))))))))
}

proof fn lemma_check_value_steps()
    by (bit_vector)
    ensures
        eight_shifts(0xFFFFFFFFu32 ^ 0x31u32) == 0x7C231048u32,
        eight_shifts(0x7C231048u32 ^ 0x32u32) == 0xB0ACBB32u32,
        eight_shifts(0xB0ACBB32u32 ^ 0x33u32) == 0x77B79C2Du32,
        eight_shifts(0x77B79C2Du32 ^ 0x34u32) == 0x641C1F5Cu32,
        eight_shifts(0x641C1F5Cu32 ^ 0x35u32) == 0x340AC5E3u32,
        eight_shifts(0x340AC5E3u32 ^ 0x36u32) == 0xF68D2C9Eu32,
        eight_shifts(0xF68D2C9Eu32 ^ 0x37u32) == 0xAFFC9660u32,
        eight_shifts(0xAFFC9660u32 ^ 0x38u32) == 0x651F2550u32,
        eight_shifts(0x651F2550u32 ^ 0x39u32) == 0x340BC6D9u32,
        eight_shifts(0xFFFFFFFFu32 ^ 0x80u32) == 0xC0459352u32,
        eight_shifts(0xFFFFFFFFu32 ^ 0x89u32) == 0xB9992BF6u32,
        eight_shifts(0xB9992BF6u32 ^ 0x50u32) == 0x3F0C9FF6u32,
        eight_shifts(0x3F0C9FF6u32 ^ 0x4Eu32) == 0xC5853721u32,
        eight_shifts(0xC5853721u32 ^ 0x47u32) == 0xA414415Au32,
        0x340B_C6D9u32 ^ 0xFFFF_FFFFu32 == 0xCBF4_3926u32,
        0xC045_9352u32 ^ 0xFFFF_FFFFu32 == 0x3FBA_6CADu32,
        0xA414_415Au32 ^ 0xFFFF_FFFFu32 == 0x5BEB_BEA5u32,
{
}

proof fn lemma_register_steps(s: Seq<u8>)
    ensures
        forall|n: int|
            0 < n <= s.len() ==> #[trigger] crc_register(s.take(n)) == eight_shifts(
                crc_register(s.take(n - 1)) ^ (s[n - 1] as u32),
            ),
{
    assert forall|n: int| 0 < n <= s.len() implies #[trigger] crc_register(s.take(n))
        == eight_shifts(crc_register(s.take(n - 1)) ^ (s[n - 1] as u32)) by {
        assert(s.take(n).drop_last() =~= s.take(n - 1));
        lemma_shifts_eight(crc_register(s.take(n - 1)) ^ (s[n - 1] as u32));
    }
}

/// The published check values of CRC-32 (the IEEE polynomial, reflected,
/// starting from and finishing with all ones): `"123456789"` gives
/// `0xCBF43926`, the byte `0x80` gives `0x3FBA6CAD`, and a PNG signature's
/// first four bytes give `0x5BEBBEA5`.
pub proof fn lemma_crc_check_values()
    ensures
        crc32(seq![0x31u8, 0x32, 0x33, 0x34, 0x35, 0x36, 0x37, 0x38, 0x39]) == 0xCBF4_3926u32,
        crc32(seq![0x80u8]) == 0x3FBA_6CADu32,
        crc32(seq![0x89u8, 0x50, 0x4e, 0x47]) == 0x5BEB_BEA5u32,
{
    lemma_check_value_steps();
    let d0 = seq![0x31u8, 0x32, 0x33, 0x34, 0x35, 0x36, 0x37, 0x38, 0x39];
    lemma_register_steps(d0);
    assert(d0.take(0) =~= Seq::<u8>::empty());
    assert(d0.take(9) =~= d0);
    let d1 = seq![0x80u8];
    lemma_register_steps(d1);
    assert(d1.take(0) =~= Seq::<u8>::empty());
    assert(d1.take(1) =~= d1);
    let d2 = seq![0x89u8, 0x50, 0x4e, 0x47];
    lemma_register_steps(d2);
    assert(d2.take(0) =~= Seq::<u8>::empty());
    assert(d2.take(4) =~= d2);
}

/// A 16-bit little-endian field holding `x` (modulo 2^16).
pub open spec fn field16(x: nat) -> Seq<u8> {
    le_bytes(x % 0x1_0000, 2)
}

/// A 32-bit little-endian field holding `x` (modulo 2^32).
pub open spec fn field32(x: nat) -> Seq<u8> {
    le_bytes(x % 0x1_0000_0000, 4)
}

/// The ASCII digit for the last decimal digit of `n`.
pub open spec fn digit(n: nat) -> u8 {
    (48 + n % 10) as u8
}

/// `n` as five decimal digits (ZIP holds at most 65535 entries).
pub open spec fn five_digits(n: nat) -> Seq<u8> {
    seq![digit(n / 10000), digit(n / 1000), digit(n / 100), digit(n / 10), digit(n)]
}

/// The file extension of an image, told by its first bytes: PNG, JPEG,
/// GIF or WebP; anything else is kept as `.bin`.
pub open spec fn image_extension(d: Seq<u8>) -> Seq<u8> {
    if d.len() >= 4 && d[0] == 0x89 && d[1] == 0x50 && d[2] == 0x4e && d[3] == 0x47 {
        seq![0x2eu8, 0x70, 0x6e, 0x67]
    } else if d.len() >= 3 && d[0] == 0xff && d[1] == 0xd8 && d[2] == 0xff {
        seq![0x2eu8, 0x6a, 0x70, 0x67]
    } else if d.len() >= 4 && d[0] == 0x47 && d[1] == 0x49 && d[2] == 0x46 && d[3] == 0x38 {
        seq![0x2eu8, 0x67, 0x69, 0x66]
    } else if d.len() >= 12 && d[0] == 0x52 && d[1] == 0x49 && d[2] == 0x46 && d[3] == 0x46
        && d[8] == 0x57 && d[9] == 0x45 && d[10] == 0x42 && d[11] == 0x50 {
        seq![0x2eu8, 0x77, 0x65, 0x62, 0x70]
    } else {
        seq![0x2eu8, 0x62, 0x69, 0x6e]
    }
}

/// The name of the page at position `i` (counted from 0): its number,
/// counted from 1, in five digits, then its extension; names sort in page
/// order.
pub open spec fn entry_name(i: nat, data: Seq<u8>) -> Seq<u8> {
    five_digits(i + 1) + image_extension(data)
}

/// A page's entry name starts with its page number, counted from 1, in
/// five ASCII decimal digits, so the names of different pages differ.
pub proof fn lemma_entry_name_number(i: nat, data: Seq<u8>, j: nat, other: Seq<u8>)
    requires
        i < 99999,
        j < 99999,
    ensures
        entry_name(i, data).len() >= 5,
        forall|k: int| 0 <= k < 5 ==> 48 <= #[trigger] entry_name(i, data)[k] <= 57,
        (entry_name(i, data)[0] - 48) * 10000 + (entry_name(i, data)[1] - 48) * 1000 + (entry_name(
            i,
            data,
        )[2] - 48) * 100 + (entry_name(i, data)[3] - 48) * 10 + (entry_name(i, data)[4] - 48) == i
            + 1,
        i != j ==> entry_name(i, data) != entry_name(j, other),
{
    let n = i + 1;
    let m = j + 1;
    assert(n == (n / 10000 % 10) * 10000 + (n / 1000 % 10) * 1000 + (n / 100 % 10) * 100 + (n / 10
        % 10) * 10 + n % 10) by (nonlinear_arith)
        requires
            0 < n < 100000,
    ;
    assert(m == (m / 10000 % 10) * 10000 + (m / 1000 % 10) * 1000 + (m / 100 % 10) * 100 + (m / 10
        % 10) * 10 + m % 10) by (nonlinear_arith)
        requires
            0 < m < 100000,
    ;
    let a = entry_name(i, data);
    let b = entry_name(j, other);
    assert(a[0] == digit(n / 10000) && a[1] == digit(n / 1000) && a[2] == digit(n / 100) && a[3]
        == digit(n / 10) && a[4] == digit(n));
    assert(b[0] == digit(m / 10000) && b[1] == digit(m / 1000) && b[2] == digit(m / 100) && b[3]
        == digit(m / 10) && b[4] == digit(m));
    if i != j && a == b {
        assert(a[0] == b[0] && a[1] == b[1] && a[2] == b[2] && a[3] == b[3] && a[4] == b[4]);
    }
}

/// ZIP's "version needed to extract" for stored entries (2.0).
pub open spec fn zip_version() -> nat {
    20
}

/// The DOS date every entry carries: 1980-01-01, the earliest ZIP can hold.
pub open spec fn zip_date() -> nat {
    0x21
}

/// A local file header: signature, version, no flags, stored (method 0),
/// time and date, checksum, both sizes, name length, no extra field, name.
pub open spec fn local_header(name: Seq<u8>, data: Seq<u8>) -> Seq<u8> {
    field32(0x0403_4b50) + field16(zip_version()) + field16(0) + field16(0) + field16(0)
        + field16(zip_date()) + field32(crc32(data) as nat) + field32(data.len())
        + field32(data.len()) + field16(name.len()) + field16(0) + name
}

/// A central directory header for an entry whose local header starts at
/// `offset`.
pub open spec fn central_header(name: Seq<u8>, data: Seq<u8>, offset: nat) -> Seq<u8> {
    field32(0x0201_4b50) + field16(zip_version()) + field16(zip_version()) + field16(0) + field16(
        0,
    ) + field16(0) + field16(zip_date()) + field32(crc32(data) as nat) + field32(data.len())
        + field32(data.len()) + field16(name.len()) + field16(0) + field16(0) + field16(0)
        + field16(0) + field32(0) + field32(offset) + name
}

/// The local part of the archive: each page's local header, then its bytes.
pub open spec fn local_part(pages: Seq<Seq<u8>>) -> Seq<u8>
    decreases pages.len(),
{
    if pages.len() == 0 {
        Seq::empty()
    } else {
        let i = (pages.len() - 1) as nat;
        local_part(pages.drop_last()) + local_header(entry_name(i, pages.last()), pages.last())
            + pages.last()
    }
}

/// The central directory: one header per page, pointing at its local header.
pub open spec fn central_part(pages: Seq<Seq<u8>>) -> Seq<u8>
    decreases pages.len(),
{
    if pages.len() == 0 {
        Seq::empty()
    } else {
        let i = (pages.len() - 1) as nat;
        central_part(pages.drop_last()) + central_header(
            entry_name(i, pages.last()),
            pages.last(),
            local_part(pages.drop_last()).len(),
        )
    }
}

/// The end of central directory record.
pub open spec fn end_record(count: nat, directory_size: nat, directory_offset: nat) -> Seq<u8> {
    field32(0x0605_4b50) + field16(0) + field16(0) + field16(count) + field16(count) + field32(
        directory_size,
    ) + field32(directory_offset) + field16(0)
}

/// The CBZ archive of `pages`.
pub open spec fn cbz_bytes(pages: Seq<Seq<u8>>) -> Seq<u8> {
    local_part(pages) + central_part(pages) + end_record(
        pages.len(),
        central_part(pages).len(),
        local_part(pages).len(),
    )
}

/// `pages` fit in a ZIP archive without its 64-bit extension: at most 65535
/// entries, and every size and offset below 2^32.
pub open spec fn cbz_fits(pages: Seq<Seq<u8>>) -> bool {
    pages.len() <= 0xFFFF && cbz_bytes(pages).len() <= 0xFFFF_FFFF
}

proof fn lemma_local_part_prefix(pages: Seq<Seq<u8>>, k: int)
    requires
        0 <= k <= pages.len(),
    ensures
        local_part(pages.take(k)).len() <= local_part(pages).len(),
        local_part(pages).take(local_part(pages.take(k)).len() as int) == local_part(pages.take(k)),
    decreases pages.len(),
{
    if k == pages.len() {
        assert(pages.take(k) =~= pages);
        assert(local_part(pages).take(local_part(pages).len() as int) =~= local_part(pages));
    } else {
        let init = pages.drop_last();
        assert(pages.take(k) =~= init.take(k));
        lemma_local_part_prefix(init, k);
        let l = local_part(pages.take(k)).len() as int;
        let i = (pages.len() - 1) as nat;
        let whole = local_part(init) + local_header(entry_name(i, pages.last()), pages.last())
            + pages.last();
        assert(local_part(pages) == whole);
        assert(whole.take(l) =~= local_part(init).take(l));
    }
}

/// Page `i` sits verbatim in the archive right after its local header: a
/// reader that follows the headers gets back exactly the bytes packed.
pub proof fn lemma_archive_holds_pages(pages: Seq<Seq<u8>>, i: int)
    requires
        0 <= i < pages.len(),
    ensures
        ({
            let start = (local_part(pages.take(i)).len() + local_header(
                entry_name(i as nat, pages[i]),
                pages[i],
            ).len()) as int;
            &&& start + pages[i].len() <= cbz_bytes(pages).len()
            &&& cbz_bytes(pages).subrange(start, start + pages[i].len() as int) == pages[i]
        }),
{
    let t = pages.take(i + 1);
    lemma_local_part_prefix(pages, i + 1);
    assert(t.drop_last() =~= pages.take(i));
    assert(t.last() == pages[i]);
    let header = local_header(entry_name(i as nat, pages[i]), pages[i]);
    let front = local_part(pages.take(i)) + header;
    assert(local_part(t) == front + pages[i]);
    let start = front.len() as int;
    let whole = cbz_bytes(pages);
    let lt = local_part(t).len() as int;
    assert(whole.take(lt) =~= local_part(t)) by {
        assert(whole.take(lt) =~= local_part(pages).take(lt));
    }
    let end = start + pages[i].len();
    assert(whole.subrange(start, end) =~= whole.take(lt).subrange(start, end));
    assert((front + pages[i]).subrange(start, end) =~= pages[i]);
}

/// The pages' bytes, as plain sequences.
pub open spec fn page_views(pages: Seq<Vec<u8>>) -> Seq<Seq<u8>> {
    pages.map_values(|p: Vec<u8>| p@)
}

fn push_le(out: &mut Vec<u8>, x: u64, n: usize)
    ensures
        final(out)@ == old(out)@ + le_bytes(x as nat, n as nat),
{
    let mut y: u64 = x;
    let mut i: usize = 0;
    while i < n
        invariant
            i <= n,
            old(out)@ + le_bytes(x as nat, n as nat) == out@ + le_bytes(y as nat, (n - i) as nat),
        decreases n - i,
    {
        let ghost before = out@;
        out.push((y % 256) as u8);
        proof {
            assert(le_bytes(y as nat, (n - i) as nat) == seq![(y % 256) as u8] + le_bytes(
                (y / 256) as nat,
                (n - i - 1) as nat,
            ));
            assert(before + (seq![(y % 256) as u8] + le_bytes((y / 256) as nat, (n - i - 1) as nat))
                =~= before.push((y % 256) as u8) + le_bytes((y / 256) as nat, (n - i - 1) as nat));
        }
        y = y / 256;
        i = i + 1;
    }
    assert(out@ + le_bytes(y as nat, 0) =~= out@);
}

fn push_field16(out: &mut Vec<u8>, x: u64)
    ensures
        final(out)@ == old(out)@ + field16(x as nat),
{
    push_le(out, x % 0x1_0000, 2);
}

fn push_field32(out: &mut Vec<u8>, x: u64)
    ensures
        final(out)@ == old(out)@ + field32(x as nat),
{
    push_le(out, x % 0x1_0000_0000, 4);
}

fn push_all(out: &mut Vec<u8>, data: &[u8])
    ensures
        final(out)@ == old(out)@ + data@,
{
    let mut i: usize = 0;
    while i < data.len()
        invariant
            i <= data@.len(),
            out@ == old(out)@ + data@.take(i as int),
        decreases data@.len() - i,
    {
        out.push(data[i]);
        assert(old(out)@ + data@.take(i + 1) =~= (old(out)@ + data@.take(i as int)).push(data@[i as int]));
        i = i + 1;
    }
    assert(data@.take(i as int) =~= data@);
}


fn entry_name_of(i: usize, data: &[u8]) -> (r: Vec<u8>)
    requires
        i < 0xFFFF,
    ensures
        r@ == entry_name(i as nat, data@),
{
    let n: u32 = (i + 1) as u32;
    let mut r: Vec<u8> = Vec::new();
    r.push((48 + n / 10000 % 10) as u8);
    r.push((48 + n / 1000 % 10) as u8);
    r.push((48 + n / 100 % 10) as u8);
    r.push((48 + n / 10 % 10) as u8);
    r.push((48 + n % 10) as u8);
    let len = data.len();
    if len >= 4 && data[0] == 0x89 && data[1] == 0x50 && data[2] == 0x4e && data[3] == 0x47 {
        r.push(0x2e);
        r.push(0x70);
        r.push(0x6e);
        r.push(0x67);
    } else if len >= 3 && data[0] == 0xff && data[1] == 0xd8 && data[2] == 0xff {
        r.push(0x2e);
        r.push(0x6a);
        r.push(0x70);
        r.push(0x67);
    } else if len >= 4 && data[0] == 0x47 && data[1] == 0x49 && data[2] == 0x46 && data[3] == 0x38 {
        r.push(0x2e);
        r.push(0x67);
        r.push(0x69);
        r.push(0x66);
    } else if len >= 12 && data[0] == 0x52 && data[1] == 0x49 && data[2] == 0x46 && data[3] == 0x46
        && data[8] == 0x57 && data[9] == 0x45 && data[10] == 0x42 && data[11] == 0x50 {
        r.push(0x2e);
        r.push(0x77);
        r.push(0x65);
        r.push(0x62);
        r.push(0x70);
    } else {
        r.push(0x2e);
        r.push(0x62);
        r.push(0x69);
        r.push(0x6e);
    }
    assert(r@ =~= entry_name(i as nat, data@));
    r
}

fn push_local_header(out: &mut Vec<u8>, name: &Vec<u8>, data: &[u8], crc: u32)
    requires
        crc == crc32(data@),
    ensures
        final(out)@ == old(out)@ + local_header(name@, data@),
{
    let size = data.len() as u64;
    push_field32(out, 0x0403_4b50);
    push_field16(out, 20);
    push_field16(out, 0);
    push_field16(out, 0);
    push_field16(out, 0);
    push_field16(out, 0x21);
    push_field32(out, crc as u64);
    push_field32(out, size);
    push_field32(out, size);
    push_field16(out, name.len() as u64);
    push_field16(out, 0);
    push_all(out, name.as_slice());
    assert(out@ =~= old(out)@ + local_header(name@, data@));
}

fn push_central_header(out: &mut Vec<u8>, name: &Vec<u8>, data: &[u8], crc: u32, offset: u64)
    requires
        crc == crc32(data@),
    ensures
        final(out)@ == old(out)@ + central_header(name@, data@, offset as nat),
{
    let size = data.len() as u64;
    push_field32(out, 0x0201_4b50);
    push_field16(out, 20);
    push_field16(out, 20);
    push_field16(out, 0);
    push_field16(out, 0);
    push_field16(out, 0);
    push_field16(out, 0x21);
    push_field32(out, crc as u64);
    push_field32(out, size);
    push_field32(out, size);
    push_field16(out, name.len() as u64);
    push_field16(out, 0);
    push_field16(out, 0);
    push_field16(out, 0);
    push_field16(out, 0);
    push_field32(out, 0);
    push_field32(out, offset);
    push_all(out, name.as_slice());
    assert(out@ =~= old(out)@ + central_header(name@, data@, offset as nat));
}

/// Packs pages into a CBZ archive: a ZIP file with one stored entry per
/// page, in order, named by its page number and image type. `None` when
/// the pages do not fit in a ZIP archive without its 64-bit extension.
pub fn cbz_archive(pages: &Vec<Vec<u8>>) -> (r: Option<Vec<u8>>)
    ensures
        match r {
            Some(bytes) => cbz_fits(page_views(pages@)) && bytes@ == cbz_bytes(page_views(pages@)),
            None => !cbz_fits(page_views(pages@)),
        },
{
    let ghost pv = page_views(pages@);
    if pages.len() > 0xFFFF {
        return None;
    }
    let mut local: Vec<u8> = Vec::new();
    let mut central: Vec<u8> = Vec::new();
    let mut i: usize = 0;
    while i < pages.len()
        invariant
            i <= pages@.len() <= 0xFFFF,
            pv == page_views(pages@),
            local@ == local_part(pv.take(i as int)),
            central@ == central_part(pv.take(i as int)),
        decreases pages@.len() - i,
    {
        let data = pages[i].as_slice();
        let name = entry_name_of(i, data);
        let crc = crc32_of(data);
        let offset = local.len() as u64;
        let ghost before_local = local@;
        let ghost before_central = central@;
        push_local_header(&mut local, &name, data, crc);
        push_all(&mut local, data);
        push_central_header(&mut central, &name, data, crc, offset);
        proof {
            let t = pv.take(i + 1);
            assert(t.drop_last() =~= pv.take(i as int));
            assert(t.last() == data@);
            assert(local@ =~= local_part(t));
            assert(central@ =~= central_part(t));
        }
        i = i + 1;
    }
    proof {
        assert(pv.take(i as int) =~= pv);
    }
    let directory_size = central.len() as u64;
    let directory_offset = local.len() as u64;
    let mut out = local;
    push_all(&mut out, central.as_slice());
    push_field32(&mut out, 0x0605_4b50);
    push_field16(&mut out, 0);
    push_field16(&mut out, 0);
    push_field16(&mut out, pages.len() as u64);
    push_field16(&mut out, pages.len() as u64);
    push_field32(&mut out, directory_size);
    push_field32(&mut out, directory_offset);
    push_field16(&mut out, 0);
    assert(out@ =~= cbz_bytes(pv));
    if out.len() > 0xFFFF_FFFF {
        None
    } else {
        Some(out)
    }
}

} // verus!
