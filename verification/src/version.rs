//! Catalogue versions: a fingerprint of a series (its title, its chapter
//! count and its chapters in id order) and the rule for when a peer's
//! version is worth syncing from.
use vstd::prelude::*;
use std::collections::hash_map::DefaultHasher;
use std::hash::Hasher;
use vstd::std_specs::hash::DefaultHasherAdditionalSpecFns;
use vstd::utf8::{decode_utf8, encode_utf8, encode_utf8_decode_utf8};
use vstd::arithmetic::power::{lemma_pow_positive, pow};
use vstd::arithmetic::div_mod::lemma_div_denominator;
use crate::models::{MangaMetadata, MangaVersion};
use crate::text::{lower_hex, to_lower_hex};

verus! {

/// The order of strings: lexicographic by code point, a proper prefix
/// first.
pub open spec fn text_less(a: Seq<char>, b: Seq<char>) -> bool
    decreases a.len(),
{
    if a.len() == 0 {
        b.len() > 0
    } else if b.len() == 0 {
        false
    } else if a[0] != b[0] {
        (a[0] as int) < (b[0] as int)
    } else {
        text_less(a.drop_first(), b.drop_first())
    }
}

/// The characters of `s`, in order.
fn chars_of(s: &str) -> (r: Vec<char>)
    ensures
        r@ == s@,
{
    let mut r: Vec<char> = Vec::new();
    let ghost t = s@;
    let ghost mut i: int = 0;
    for c in it: s.chars()
        invariant
            it.seq() == t,
            i == it.index(),
            r@ == t.take(i),
    {
        assert(it.seq()[i] == c);
        r.push(c);
        proof {
            assert(t.take(i + 1) =~= t.take(i).push(c));
            i = i + 1;
        }
    }
    proof {
        assert(i == t.len());
        assert(t.take(i) =~= t);
    }
    r
}

/// Whether `a` comes before `b`: lexicographic by code point, a proper
/// prefix first (the order std's `PartialOrd` gives `str`, which compares
/// the UTF-8 bytes, and UTF-8 keeps code-point order).
fn str_less(a: &str, b: &str) -> (r: bool)
    ensures
        r == text_less(a@, b@),
{
    let x = chars_of(a);
    let y = chars_of(b);
    let mut k: usize = 0;
    assert(a@.skip(0) =~= a@);
    assert(b@.skip(0) =~= b@);
    while k < x.len() && k < y.len() && x[k] == y[k]
        invariant
            k <= x@.len(),
            k <= y@.len(),
            x@ == a@,
            y@ == b@,
            text_less(a@, b@) == text_less(a@.skip(k as int), b@.skip(k as int)),
        decreases x@.len() - k,
    {
        proof {
            let p = a@.skip(k as int);
            let q = b@.skip(k as int);
            assert(p[0] == q[0]);
            assert(p.drop_first() =~= a@.skip(k + 1));
            assert(q.drop_first() =~= b@.skip(k + 1));
        }
        k = k + 1;
    }
    let ghost p = a@.skip(k as int);
    let ghost q = b@.skip(k as int);
    assert(p.len() == x@.len() - k);
    assert(q.len() == y@.len() - k);
    if k == x.len() {
        k < y.len()
    } else if k == y.len() {
        false
    } else {
        proof {
            assert(p[0] == x@[k as int]);
            assert(q[0] == y@[k as int]);
        }
        x[k] < y[k]
    }
}

/// No string comes before itself.
pub proof fn lemma_text_less_irreflexive(a: Seq<char>)
    ensures
        !text_less(a, a),
    decreases a.len(),
{
    if a.len() > 0 {
        lemma_text_less_irreflexive(a.drop_first());
    }
}

/// The order is transitive.
pub proof fn lemma_text_less_transitive(a: Seq<char>, b: Seq<char>, c: Seq<char>)
    requires
        text_less(a, b),
        text_less(b, c),
    ensures
        text_less(a, c),
    decreases a.len(),
{
    if a.len() > 0 && b.len() > 0 && c.len() > 0 {
        if a[0] == b[0] && b[0] == c[0] {
            lemma_text_less_transitive(a.drop_first(), b.drop_first(), c.drop_first());
        }
    }
}

/// A chapter as far as the version fingerprint is concerned: its id and
/// when it was created.
#[derive(Debug)]
pub struct ChapterStamp {
    pub id: String,
    pub created_at: i64,
}

impl ChapterStamp {
    /// A copy of this stamp.
    pub fn duplicate(&self) -> (c: ChapterStamp)
        ensures
            c.id@ == self.id@,
            c.created_at == self.created_at,
    {
        ChapterStamp { id: self.id.clone(), created_at: self.created_at }
    }
}

/// Stamps as plain values.
pub open spec fn stamp_views(s: Seq<ChapterStamp>) -> Seq<(Seq<char>, i64)> {
    s.map_values(|c: ChapterStamp| (c.id@, c.created_at))
}

/// Ordered by id: no stamp has a smaller id than one before it.
pub open spec fn sorted_by_id(s: Seq<(Seq<char>, i64)>) -> bool {
    forall|i: int, j: int| 0 <= i < j < s.len() ==> !text_less(#[trigger] s[j].0, #[trigger] s[i].0)
}

/// The creation times of the stamps with id `id`, in order.
pub open spec fn times_with_id(s: Seq<(Seq<char>, i64)>, id: Seq<char>) -> Seq<i64>
    decreases s.len(),
{
    if s.len() == 0 {
        Seq::empty()
    } else {
        let rest = times_with_id(s.drop_last(), id);
        if s.last().0 == id {
            rest.push(s.last().1)
        } else {
            rest
        }
    }
}

/// `r` is `s` sorted by id, stably: ordered by id, and for every id the
/// stamps with that id in the same order as in `s`.
pub open spec fn stable_sort_of(r: Seq<(Seq<char>, i64)>, s: Seq<(Seq<char>, i64)>) -> bool {
    &&& sorted_by_id(r)
    &&& r.len() == s.len()
    &&& forall|id: Seq<char>| #[trigger] times_with_id(r, id) == times_with_id(s, id)
}

proof fn lemma_times_concat(a: Seq<(Seq<char>, i64)>, b: Seq<(Seq<char>, i64)>, id: Seq<char>)
    ensures
        times_with_id(a + b, id) == times_with_id(a, id) + times_with_id(b, id),
    decreases b.len(),
{
    if b.len() == 0 {
        assert(a + b =~= a);
        assert(times_with_id(a, id) + Seq::<i64>::empty() =~= times_with_id(a, id));
    } else {
        lemma_times_concat(a, b.drop_last(), id);
        assert((a + b).drop_last() =~= a + b.drop_last());
        assert((a + b).last() == b.last());
        if b.last().0 == id {
            assert(times_with_id(a, id) + times_with_id(b.drop_last(), id).push(b.last().1)
                =~= (times_with_id(a, id) + times_with_id(b.drop_last(), id)).push(b.last().1));
        }
    }
}

proof fn lemma_times_absent(s: Seq<(Seq<char>, i64)>, id: Seq<char>)
    requires
        forall|q: int| 0 <= q < s.len() ==> #[trigger] s[q].0 != id,
    ensures
        times_with_id(s, id) == Seq::<i64>::empty(),
    decreases s.len(),
{
    if s.len() > 0 {
        lemma_times_absent(s.drop_last(), id);
    }
}

/// Inserting `x` after every stamp whose id is not above `x`'s and before
/// the first whose id is, keeps the order and the per-id order.
proof fn lemma_insert_sorted(s: Seq<(Seq<char>, i64)>, pos: int, x: (Seq<char>, i64))
    requires
        sorted_by_id(s),
        0 <= pos <= s.len(),
        forall|q: int| 0 <= q < pos ==> !text_less(x.0, #[trigger] s[q].0),
        pos < s.len() ==> text_less(x.0, s[pos].0),
    ensures
        sorted_by_id(s.insert(pos, x)),
        forall|id: Seq<char>|
            #[trigger] times_with_id(s.insert(pos, x), id) == if id == x.0 {
                times_with_id(s, id).push(x.1)
            } else {
                times_with_id(s, id)
            },
{
    let r = s.insert(pos, x);
    assert forall|q: int| pos <= q < s.len() implies !text_less(#[trigger] s[q].0, x.0) && s[q].0
        != x.0 by {
        if text_less(s[q].0, x.0) {
            lemma_text_less_transitive(s[q].0, x.0, s[pos].0);
            if q == pos {
                lemma_text_less_irreflexive(s[q].0);
            }
        }
        if s[q].0 == x.0 {
            if q == pos {
                lemma_text_less_irreflexive(x.0);
            }
        }
    }
    assert forall|i: int, j: int| 0 <= i < j < r.len() implies !text_less(
        #[trigger] r[j].0,
        #[trigger] r[i].0,
    ) by {
        if j < pos {
            assert(r[i] == s[i] && r[j] == s[j]);
        } else if j == pos {
            assert(r[i] == s[i] && r[j] == x);
        } else if i < pos {
            assert(r[i] == s[i] && r[j] == s[j - 1]);
        } else if i == pos {
            assert(r[i] == x && r[j] == s[j - 1]);
        } else {
            assert(r[i] == s[i - 1] && r[j] == s[j - 1]);
        }
    }
    let front = s.take(pos);
    let back = s.skip(pos);
    assert(s =~= front + back);
    assert(r =~= front + seq![x] + back);
    assert forall|id: Seq<char>|
        #[trigger] times_with_id(r, id) == if id == x.0 {
            times_with_id(s, id).push(x.1)
        } else {
            times_with_id(s, id)
        } by {
        lemma_times_concat(front + seq![x], back, id);
        lemma_times_concat(front, seq![x], id);
        lemma_times_concat(front, back, id);
        let one = seq![x];
        assert(one.drop_last() =~= Seq::<(Seq<char>, i64)>::empty());
        assert(one.last() == x);
        assert(times_with_id(one.drop_last(), id) =~= Seq::<i64>::empty());
        assert(times_with_id(one, id) =~= (if x.0 == id { seq![x.1] } else { Seq::<i64>::empty() }));
        if id == x.0 {
            assert forall|q: int| 0 <= q < back.len() implies #[trigger] back[q].0 != id by {
                assert(back[q] == s[pos + q]);
            }
            lemma_times_absent(back, id);
            assert(times_with_id(front, id) + seq![x.1] + Seq::<i64>::empty() =~= (times_with_id(
                front,
                id,
            ) + Seq::<i64>::empty()).push(x.1));
        } else {
            assert(times_with_id(front, id) + Seq::<i64>::empty() =~= times_with_id(front, id));
        }
    }
}

/// The stamps in id order; stamps with equal ids keep their relative order
/// (as `sort_by_key` does).
pub fn sort_chapters_by_id(chapters: &Vec<ChapterStamp>) -> (r: Vec<ChapterStamp>)
    ensures
        stable_sort_of(stamp_views(r@), stamp_views(chapters@)),
{
    let mut r: Vec<ChapterStamp> = Vec::new();
    let mut i: usize = 0;
    while i < chapters.len()
        invariant
            i <= chapters@.len(),
            stable_sort_of(stamp_views(r@), stamp_views(chapters@).take(i as int)),
        decreases chapters@.len() - i,
    {
        let x = chapters[i].duplicate();
        let mut pos: usize = 0;
        while pos < r.len() && !str_less(x.id.as_str(), r[pos].id.as_str())
            invariant
                pos <= r@.len(),
                forall|q: int| 0 <= q < pos ==> !text_less(x.id@, #[trigger] r@[q].id@),
            decreases r@.len() - pos,
        {
            pos = pos + 1;
        }
        let ghost s = stamp_views(r@);
        let ghost xv = (x.id@, x.created_at);
        proof {
            assert forall|q: int| 0 <= q < pos implies !text_less(xv.0, #[trigger] s[q].0) by {
                assert(s[q].0 == r@[q].id@);
            }
            lemma_insert_sorted(s, pos as int, xv);
        }
        r.insert(pos, x);
        proof {
            assert(stamp_views(r@) =~= s.insert(pos as int, xv));
            let before = stamp_views(chapters@).take(i as int);
            let after = stamp_views(chapters@).take(i + 1);
            assert(after =~= before.push(xv));
            assert(after.drop_last() =~= before);
            assert forall|id: Seq<char>| #[trigger] times_with_id(stamp_views(r@), id)
                == times_with_id(after, id) by {
            }
        }
        i = i + 1;
    }
    assert(stamp_views(chapters@).take(i as int) =~= stamp_views(chapters@));
    r
}

/// `x` as `n` little-endian bytes.
pub open spec fn le_bytes(x: nat, n: nat) -> Seq<u8>
    decreases n,
{
    if n == 0 {
        Seq::empty()
    } else {
        seq![(x % 256) as u8] + le_bytes(x / 256, (n - 1) as nat)
    }
}

/// The writes that hash a piece of text: its UTF-8 bytes, then the byte
/// `0xff` that ends it.
pub open spec fn text_writes(t: Seq<char>) -> Seq<Seq<u8>> {
    seq![encode_utf8(t), seq![0xffu8]]
}

/// The writes that hash each chapter in turn: its id, then its creation
/// time as eight little-endian bytes.
pub open spec fn chapter_writes(sorted: Seq<(Seq<char>, i64)>) -> Seq<Seq<u8>>
    decreases sorted.len(),
{
    if sorted.len() == 0 {
        Seq::empty()
    } else {
        chapter_writes(sorted.drop_last()) + text_writes(sorted.last().0) + seq![
            le_bytes((sorted.last().1 as u64) as nat, 8),
        ]
    }
}

/// Everything a series' fingerprint hashes, write by write: its title, its
/// chapter count as eight little-endian bytes, then each chapter, chapters
/// in id order. Counts and times are written as fixed little-endian bytes
/// on every machine; hashing the count as a `usize` and the times as `i64`
/// through `Hash` writes native-endian bytes (and four for the count on
/// 32-bit machines), so the two agree on 64-bit little-endian machines only.
pub open spec fn fingerprint_writes(title: Seq<char>, sorted: Seq<(Seq<char>, i64)>) -> Seq<
    Seq<u8>,
> {
    text_writes(title) + seq![le_bytes(sorted.len(), 8)] + chapter_writes(sorted)
}

/// `x` written as `n` little-endian bytes holds, at place `j`, the `j`-th
/// base-256 digit of `x`.
pub proof fn lemma_le_bytes_digits(x: nat, n: nat)
    ensures
        le_bytes(x, n).len() == n,
        forall|j: int|
            0 <= j < n ==> #[trigger] le_bytes(x, n)[j] as int == (x as int / pow(256, j as nat))
                % 256,
    decreases n,
{
    if n > 0 {
        lemma_le_bytes_digits(x / 256, (n - 1) as nat);
        let rest = le_bytes(x / 256, (n - 1) as nat);
        assert(le_bytes(x, n) == seq![(x % 256) as u8] + rest);
        assert forall|j: int| 0 <= j < n implies #[trigger] le_bytes(x, n)[j] as int == (x as int
            / pow(256, j as nat)) % 256 by {
            reveal(pow);
            if j == 0 {
                assert(pow(256, 0) == 1);
            } else {
                assert(le_bytes(x, n)[j] == rest[j - 1]);
                lemma_pow_positive(256, (j - 1) as nat);
                lemma_div_denominator(x as int, 256, pow(256, (j - 1) as nat));
                assert(pow(256, j as nat) == 256 * pow(256, (j - 1) as nat));
                assert((x / 256) as int == x as int / 256);
            }
        }
    }
}

proof fn lemma_chapter_writes_layout(sorted: Seq<(Seq<char>, i64)>)
    ensures
        chapter_writes(sorted).len() == 3 * sorted.len(),
        forall|i: int|
            0 <= i < sorted.len() ==> {
                &&& #[trigger] chapter_writes(sorted)[3 * i] == encode_utf8(sorted[i].0)
                &&& chapter_writes(sorted)[3 * i + 1] == seq![0xffu8]
                &&& chapter_writes(sorted)[3 * i + 2] == le_bytes((sorted[i].1 as u64) as nat, 8)
            },
    decreases sorted.len(),
{
    if sorted.len() > 0 {
        let init = sorted.drop_last();
        lemma_chapter_writes_layout(init);
        let w = chapter_writes(sorted);
        let wi = chapter_writes(init);
        assert forall|i: int| 0 <= i < sorted.len() implies {
            &&& #[trigger] w[3 * i] == encode_utf8(sorted[i].0)
            &&& w[3 * i + 1] == seq![0xffu8]
            &&& w[3 * i + 2] == le_bytes((sorted[i].1 as u64) as nat, 8)
        } by {
            if i < init.len() {
                assert(init[i] == sorted[i]);
                assert(wi[3 * i] == encode_utf8(init[i].0));
            }
        }
    }
}

/// What a series' fingerprint hashes, write by write, is what hashing its
/// parts with `Hash` writes: the title's UTF-8 bytes, then `0xff`; the
/// chapter count as eight little-endian bytes; then for each chapter its
/// id's UTF-8 bytes, `0xff`, and its creation time as eight little-endian
/// bytes. The title can be read back from the writes, so two different
/// titles never give the same writes.
pub proof fn lemma_fingerprint_writes(title: Seq<char>, sorted: Seq<(Seq<char>, i64)>)
    ensures
        fingerprint_writes(title, sorted).len() == 3 + 3 * sorted.len(),
        fingerprint_writes(title, sorted)[0] == encode_utf8(title),
        decode_utf8(fingerprint_writes(title, sorted)[0]) == title,
        fingerprint_writes(title, sorted)[1] == seq![0xffu8],
        fingerprint_writes(title, sorted)[2] == le_bytes(sorted.len(), 8),
        forall|i: int|
            0 <= i < sorted.len() ==> {
                &&& #[trigger] fingerprint_writes(title, sorted)[3 + 3 * i] == encode_utf8(
                    sorted[i].0,
                )
                &&& fingerprint_writes(title, sorted)[4 + 3 * i] == seq![0xffu8]
                &&& fingerprint_writes(title, sorted)[5 + 3 * i] == le_bytes(
                    (sorted[i].1 as u64) as nat,
                    8,
                )
            },
        forall|other: Seq<char>|
            other != title ==> #[trigger] fingerprint_writes(other, sorted) != fingerprint_writes(
                title,
                sorted,
            ),
{
    let w = fingerprint_writes(title, sorted);
    let head = text_writes(title) + seq![le_bytes(sorted.len(), 8)];
    lemma_chapter_writes_layout(sorted);
    assert(head.len() == 3);
    assert(w == head + chapter_writes(sorted));
    encode_utf8_decode_utf8(title);
    assert forall|i: int| 0 <= i < sorted.len() implies {
        &&& #[trigger] w[3 + 3 * i] == encode_utf8(sorted[i].0)
        &&& w[4 + 3 * i] == seq![0xffu8]
        &&& w[5 + 3 * i] == le_bytes((sorted[i].1 as u64) as nat, 8)
    } by {
        assert(w[3 + 3 * i] == chapter_writes(sorted)[3 * i]);
        assert(w[4 + 3 * i] == chapter_writes(sorted)[3 * i + 1]);
        assert(w[5 + 3 * i] == chapter_writes(sorted)[3 * i + 2]);
    }
    assert forall|other: Seq<char>| other != title implies #[trigger] fingerprint_writes(
        other,
        sorted,
    ) != w by {
        encode_utf8_decode_utf8(other);
        if fingerprint_writes(other, sorted) == w {
            assert(fingerprint_writes(other, sorted)[0] == encode_utf8(other));
        }
    }
}

/// The digest of a series' fingerprint: what a fresh `DefaultHasher`
/// finishes with after those writes.
pub open spec fn fingerprint_digest(title: Seq<char>, sorted: Seq<(Seq<char>, i64)>) -> u64 {
    DefaultHasher::spec_finish(fingerprint_writes(title, sorted))
}

fn u64_le_bytes(x: u64) -> (b: Vec<u8>)
    ensures
        b@ == le_bytes(x as nat, 8),
{
    let mut b: Vec<u8> = Vec::new();
    let mut y: u64 = x;
    let mut i: usize = 0;
    while i < 8
        invariant
            i <= 8,
            le_bytes(x as nat, 8) == b@ + le_bytes(y as nat, (8 - i) as nat),
        decreases 8 - i,
    {
        let ghost before = b@;
        b.push((y % 256) as u8);
        proof {
            assert(le_bytes(y as nat, (8 - i) as nat) == seq![(y % 256) as u8] + le_bytes(
                (y / 256) as nat,
                (8 - i - 1) as nat,
            ));
            assert(before + (seq![(y % 256) as u8] + le_bytes((y / 256) as nat, (8 - i - 1) as nat))
                =~= before.push((y % 256) as u8) + le_bytes((y / 256) as nat, (8 - i - 1) as nat));
        }
        y = y / 256;
        i = i + 1;
    }
    assert(b@ + Seq::<u8>::empty() =~= b@);
    b
}

fn write_text(h: &mut DefaultHasher, t: &str)
    ensures
        final(h)@ == old(h)@ + text_writes(t@),
{
    let bytes = t.as_bytes();
    assert(bytes@ == encode_utf8(t@));
    h.write(bytes);
    assert(h@ == old(h)@.push(encode_utf8(t@)));
    let mut end: Vec<u8> = Vec::new();
    end.push(0xffu8);
    assert(end@ =~= seq![0xffu8]);
    h.write(end.as_slice());
    assert(h@ == old(h)@.push(encode_utf8(t@)).push(seq![0xffu8]));
    assert(old(h)@.push(encode_utf8(t@)).push(seq![0xffu8]) =~= old(h)@ + text_writes(t@));
}

/// Hashes a series' fingerprint: the title, the chapter count and the
/// chapters (given in id order) written to a fresh `DefaultHasher`.
fn version_digest(title: &str, sorted: &Vec<ChapterStamp>) -> (d: u64)
    ensures
        d == fingerprint_digest(title@, stamp_views(sorted@)),
{
    let mut h = DefaultHasher::new();
    write_text(&mut h, title);
    let count = u64_le_bytes(sorted.len() as u64);
    h.write(count.as_slice());
    let ghost views = stamp_views(sorted@);
    assert(h@ =~= text_writes(title@) + seq![le_bytes(views.len(), 8)] + chapter_writes(
        views.take(0),
    )) by {
        assert(views.take(0) =~= Seq::<(Seq<char>, i64)>::empty());
        assert(chapter_writes(views.take(0)) =~= Seq::<Seq<u8>>::empty());
    }
    let mut i: usize = 0;
    while i < sorted.len()
        invariant
            i <= sorted@.len(),
            views == stamp_views(sorted@),
            h@ == text_writes(title@) + seq![le_bytes(views.len(), 8)] + chapter_writes(
                views.take(i as int),
            ),
        decreases sorted@.len() - i,
    {
        let ghost prior = h@;
        write_text(&mut h, sorted[i].id.as_str());
        let stamp = u64_le_bytes(sorted[i].created_at as u64);
        h.write(stamp.as_slice());
        proof {
            let t = views.take(i + 1);
            assert(t.drop_last() =~= views.take(i as int));
            assert(t.last() == views[i as int]);
            assert(h@ =~= prior + text_writes(views[i as int].0) + seq![
                le_bytes((views[i as int].1 as u64) as nat, 8),
            ]);
        }
        i = i + 1;
    }
    assert(views.take(i as int) =~= views);
    h.finish()
}

/// Where a chapter with id `key` goes among `r`: after every chapter whose
/// id is not above `key`, before the first whose id is.
pub open spec fn insert_pos(r: Seq<(Seq<char>, i64)>, key: Seq<char>) -> int
    decreases r.len(),
{
    if r.len() == 0 {
        0
    } else if text_less(key, r[0].0) {
        0
    } else {
        1 + insert_pos(r.drop_first(), key)
    }
}

/// The chapters in id order, those with equal ids in the order listed.
pub open spec fn id_order(s: Seq<(Seq<char>, i64)>) -> Seq<(Seq<char>, i64)>
    decreases s.len(),
{
    if s.len() == 0 {
        Seq::empty()
    } else {
        let r = id_order(s.drop_last());
        r.insert(insert_pos(r, s.last().0), s.last())
    }
}

proof fn lemma_insert_pos(r: Seq<(Seq<char>, i64)>, key: Seq<char>)
    ensures
        0 <= insert_pos(r, key) <= r.len(),
        forall|q: int| 0 <= q < insert_pos(r, key) ==> !text_less(key, #[trigger] r[q].0),
        insert_pos(r, key) < r.len() ==> text_less(key, r[insert_pos(r, key)].0),
    decreases r.len(),
{
    if r.len() > 0 && !text_less(key, r[0].0) {
        lemma_insert_pos(r.drop_first(), key);
        assert forall|q: int| 0 <= q < insert_pos(r, key) implies !text_less(
            key,
            #[trigger] r[q].0,
        ) by {
            if q > 0 {
                assert(r[q] == r.drop_first()[q - 1]);
            }
        }
        if insert_pos(r, key) < r.len() {
            assert(r[insert_pos(r, key)] == r.drop_first()[insert_pos(r.drop_first(), key)]);
        }
    }
}

/// [`id_order`] sorts stably.
pub proof fn lemma_id_order_sorts(s: Seq<(Seq<char>, i64)>)
    ensures
        stable_sort_of(id_order(s), s),
    decreases s.len(),
{
    if s.len() == 0 {
        assert(id_order(s) =~= Seq::<(Seq<char>, i64)>::empty());
        assert forall|id: Seq<char>| #[trigger] times_with_id(id_order(s), id) == times_with_id(
            s,
            id,
        ) by {}
    } else {
        let init = s.drop_last();
        lemma_id_order_sorts(init);
        let r = id_order(init);
        lemma_insert_pos(r, s.last().0);
        lemma_insert_sorted(r, insert_pos(r, s.last().0), s.last());
        assert forall|id: Seq<char>| #[trigger] times_with_id(id_order(s), id) == times_with_id(
            s,
            id,
        ) by {
            assert(times_with_id(r, id) == times_with_id(init, id));
        }
    }
}

/// A stable sort of `s` is [`id_order`] of `s`.
pub proof fn lemma_stable_sort_is_id_order(r: Seq<(Seq<char>, i64)>, s: Seq<(Seq<char>, i64)>)
    requires
        stable_sort_of(r, s),
    ensures
        r == id_order(s),
{
    lemma_id_order_sorts(s);
    assert forall|id: Seq<char>| #[trigger] times_with_id(r, id) == times_with_id(id_order(s), id) by {
        assert(times_with_id(r, id) == times_with_id(s, id));
        assert(times_with_id(id_order(s), id) == times_with_id(s, id));
    }
    lemma_sorted_unique(r, id_order(s));
}

/// The version record for a series with a given digest.
pub fn version_from_digest(
    manga_id: &String,
    chapter_count: usize,
    created_at: i64,
    digest: u64,
) -> (v: MangaVersion)
    ensures
        v.manga_id@ == manga_id@,
        v.hash@ == lower_hex(digest as nat),
        v.chapter_count == chapter_count,
        v.created_at == created_at,
{
    MangaVersion {
        manga_id: manga_id.clone(),
        hash: to_lower_hex(digest),
        chapter_count,
        created_at,
    }
}

/// The fingerprint of series `manga` (looked up as `manga_id`) holding
/// `chapters`: its id, its chapter count, its creation time, and the hex
/// digest of its title, chapter count and chapters in id order, whatever
/// order they are listed in. The digest is the same on every machine for
/// the same `DefaultHasher`; it equals hashing the count and times through
/// `Hash` only on 64-bit little-endian machines (see
/// [`fingerprint_writes`]).
pub fn compute_manga_version(
    manga_id: &String,
    manga: &MangaMetadata,
    chapters: &Vec<ChapterStamp>,
) -> (v: MangaVersion)
    ensures
        v.manga_id@ == manga_id@,
        v.chapter_count == chapters@.len(),
        v.created_at == manga.created_at,
        v.hash@ == lower_hex(
            fingerprint_digest(manga.title@, id_order(stamp_views(chapters@))) as nat,
        ),
{
    let sorted = sort_chapters_by_id(chapters);
    proof {
        lemma_stable_sort_is_id_order(stamp_views(sorted@), stamp_views(chapters@));
    }
    let digest = version_digest(manga.title.as_str(), &sorted);
    version_from_digest(manga_id, chapters.len(), manga.created_at, digest)
}

/// Whether a peer's version `remote` is worth syncing from: always when we
/// have nothing; otherwise when it has more chapters, or as many with a
/// different fingerprint.
pub open spec fn needs_sync(local: Option<MangaVersion>, remote: MangaVersion) -> bool {
    match local {
        None => true,
        Some(l) => remote.chapter_count > l.chapter_count || (remote.chapter_count
            == l.chapter_count && remote.hash@ != l.hash@),
    }
}

/// Decides whether to sync from `remote` given our own version.
pub fn should_sync(local: &Option<MangaVersion>, remote: &MangaVersion) -> (b: bool)
    ensures
        b == needs_sync(*local, *remote),
{
    match local {
        None => true,
        Some(l) => remote.chapter_count > l.chapter_count || (remote.chapter_count
            == l.chapter_count && !(remote.hash == l.hash)),
    }
}

/// Which of the peers' versions to sync from, in the order they came:
/// entry `i` says whether `remotes[i]` is worth syncing from.
pub fn sync_plan(local: &Option<MangaVersion>, remotes: &Vec<MangaVersion>) -> (r: Vec<bool>)
    ensures
        r@.len() == remotes@.len(),
        forall|i: int| 0 <= i < r@.len() ==> #[trigger] r@[i] == needs_sync(*local, remotes@[i]),
{
    let mut r: Vec<bool> = Vec::new();
    let mut i: usize = 0;
    while i < remotes.len()
        invariant
            i <= remotes@.len(),
            r@.len() == i,
            forall|j: int| 0 <= j < i ==> #[trigger] r@[j] == needs_sync(*local, remotes@[j]),
        decreases remotes@.len() - i,
    {
        r.push(should_sync(local, &remotes[i]));
        i = i + 1;
    }
    r
}

/// What a sync request is answered with.
#[derive(Clone, Copy, Debug, PartialEq, Eq)]
pub enum SyncReport {
    /// No peer reported a version of the series.
    NoPeers,
    /// Peers reported versions; `synced` says whether fetching from one of
    /// them succeeded.
    Checked { synced: bool, remote_versions_count: usize },
}

/// The answer to a sync request, given how many versions peers reported
/// and, for each fetch made from them, whether it succeeded.
pub fn sync_report(remote_versions_count: usize, fetched: &Vec<bool>) -> (r: SyncReport)
    ensures
        remote_versions_count == 0 ==> r == SyncReport::NoPeers,
        remote_versions_count > 0 ==> r == (SyncReport::Checked {
            synced: fetched@.contains(true),
            remote_versions_count,
        }),
{
    if remote_versions_count == 0 {
        return SyncReport::NoPeers;
    }
    let mut synced = false;
    let mut i: usize = 0;
    while i < fetched.len()
        invariant
            i <= fetched@.len(),
            synced == fetched@.take(i as int).contains(true),
        decreases fetched@.len() - i,
    {
        proof {
            let t = fetched@.take(i + 1);
            assert(t =~= fetched@.take(i as int).push(fetched@[i as int]));
            if fetched@[i as int] {
                assert(t[i as int] == true);
            }
            if t.contains(true) && !fetched@[i as int] {
                let k = choose|k: int| 0 <= k < t.len() && t[k] == true;
                assert(fetched@.take(i as int)[k] == true);
            }
            if fetched@.take(i as int).contains(true) {
                let k = choose|k: int| 0 <= k < i && fetched@.take(i as int)[k] == true;
                assert(t[k] == true);
            }
        }
        if fetched[i] {
            synced = true;
        }
        i = i + 1;
    }
    assert(fetched@.take(i as int) =~= fetched@);
    SyncReport::Checked { synced, remote_versions_count }
}

/// When to sync from a peer's version `remote` of a series held locally
/// as `local`: always when it has more chapters (whatever the local count,
/// none included), never when it has fewer, and with as many exactly when
/// the fingerprints differ. A series not held locally is always synced.
pub proof fn lemma_sync_rule(local: MangaVersion, remote: MangaVersion)
    ensures
        remote.chapter_count > local.chapter_count ==> needs_sync(Some(local), remote),
        remote.chapter_count < local.chapter_count ==> !needs_sync(Some(local), remote),
        remote.chapter_count == local.chapter_count ==> (needs_sync(Some(local), remote) <==> remote.hash@
            != local.hash@),
        needs_sync(None, remote),
{
}

/// A version never asks to sync from an equal one, and of two versions at
/// most one asks to sync from the other unless they hold as many chapters
/// with different fingerprints.
pub proof fn lemma_sync_direction(a: MangaVersion, b: MangaVersion)
    ensures
        a.chapter_count == b.chapter_count && a.hash@ == b.hash@ ==> !needs_sync(Some(a), b),
        needs_sync(Some(a), b) && needs_sync(Some(b), a) ==> a.chapter_count == b.chapter_count
            && a.hash@ != b.hash@,
        needs_sync(None, b),
{
}

/// Any two strings are equal or one comes before the other.
pub proof fn lemma_text_less_total(a: Seq<char>, b: Seq<char>)
    ensures
        a == b || text_less(a, b) || text_less(b, a),
    decreases a.len(),
{
    if a.len() == 0 {
        if b.len() == 0 {
            assert(a =~= b);
        }
    } else if b.len() > 0 {
        if a[0] != b[0] {
            assert((a[0] as int) != (b[0] as int));
        } else {
            lemma_text_less_total(a.drop_first(), b.drop_first());
            if a.drop_first() == b.drop_first() {
                assert(a.len() == b.len()) by {
                    assert(a.drop_first().len() == b.drop_first().len());
                }
                assert(a =~= b) by {
                    assert forall|i: int| 0 <= i < a.len() implies a[i] == b[i] by {
                        if i > 0 {
                            assert(a[i] == a.drop_first()[i - 1]);
                            assert(b[i] == b.drop_first()[i - 1]);
                        }
                    }
                }
            }
        }
    }
}

/// No two entries share an id.
pub open spec fn ids_distinct(s: Seq<(Seq<char>, i64)>) -> bool {
    forall|i: int, j: int| 0 <= i < s.len() && 0 <= j < s.len() && i != j ==> #[trigger] s[i].0
        != #[trigger] s[j].0
}

proof fn lemma_times_nonempty(s: Seq<(Seq<char>, i64)>, id: Seq<char>)
    requires
        times_with_id(s, id).len() > 0,
    ensures
        exists|q: int| 0 <= q < s.len() && #[trigger] s[q].0 == id,
    decreases s.len(),
{
    if s.last().0 == id {
        assert(s[s.len() - 1].0 == id);
    } else {
        lemma_times_nonempty(s.drop_last(), id);
        let q = choose|q: int| 0 <= q < s.drop_last().len() && #[trigger] s.drop_last()[q].0 == id;
        assert(s[q].0 == id);
    }
}

proof fn lemma_times_distinct(s: Seq<(Seq<char>, i64)>, id: Seq<char>)
    requires
        ids_distinct(s),
    ensures
        forall|q: int| 0 <= q < s.len() && #[trigger] s[q].0 == id ==> times_with_id(s, id) == seq![
            s[q].1,
        ],
        (forall|q: int| 0 <= q < s.len() ==> #[trigger] s[q].0 != id) ==> times_with_id(s, id)
            == Seq::<i64>::empty(),
    decreases s.len(),
{
    if s.len() > 0 {
        let init = s.drop_last();
        assert(ids_distinct(init)) by {
            assert forall|i: int, j: int|
                0 <= i < init.len() && 0 <= j < init.len() && i != j implies #[trigger] init[i].0
                != #[trigger] init[j].0 by {
                assert(init[i] == s[i] && init[j] == s[j]);
            }
        }
        lemma_times_distinct(init, id);
        let n = s.len() - 1;
        if s.last().0 == id {
            assert forall|q: int| 0 <= q < init.len() implies #[trigger] init[q].0 != id by {
                assert(init[q] == s[q]);
                assert(s[q].0 != s[n].0);
            }
            assert(times_with_id(init, id) == Seq::<i64>::empty());
            assert(Seq::<i64>::empty().push(s.last().1) =~= seq![s.last().1]);
            assert forall|q: int| 0 <= q < s.len() && #[trigger] s[q].0 == id implies times_with_id(
                s,
                id,
            ) == seq![s[q].1] by {
                if q != n {
                    assert(s[q].0 != s[n].0);
                }
            }
        } else {
            assert(times_with_id(s, id) == times_with_id(init, id));
            assert forall|q: int| 0 <= q < s.len() && #[trigger] s[q].0 == id implies times_with_id(
                s,
                id,
            ) == seq![s[q].1] by {
                assert(q < n);
                assert(init[q] == s[q]);
                assert(init[q].0 == id);
            }
            if forall|q2: int| 0 <= q2 < s.len() ==> #[trigger] s[q2].0 != id {
                assert forall|q: int| 0 <= q < init.len() implies #[trigger] init[q].0 != id by {
                    assert(init[q] == s[q]);
                }
            }
        }
    }
}

proof fn lemma_sorted_unique(r1: Seq<(Seq<char>, i64)>, r2: Seq<(Seq<char>, i64)>)
    requires
        sorted_by_id(r1),
        sorted_by_id(r2),
        r1.len() == r2.len(),
        forall|id: Seq<char>| #[trigger] times_with_id(r1, id) == times_with_id(r2, id),
    ensures
        r1 == r2,
    decreases r1.len(),
{
    if r1.len() == 0 {
        assert(r1 =~= r2);
    } else {
        let n = r1.len() - 1;
        let l1 = r1.last();
        let l2 = r2.last();
        assert(times_with_id(r1, l1.0).len() > 0);
        assert(times_with_id(r2, l1.0) == times_with_id(r1, l1.0));
        lemma_times_nonempty(r2, l1.0);
        assert(times_with_id(r1, l2.0) == times_with_id(r2, l2.0));
        assert(times_with_id(r2, l2.0).len() > 0);
        lemma_times_nonempty(r1, l2.0);
        if l1.0 != l2.0 {
            lemma_text_less_total(l1.0, l2.0);
            if text_less(l1.0, l2.0) {
                let p = choose|p: int| 0 <= p < r1.len() && #[trigger] r1[p].0 == l2.0;
                assert(p != n);
                assert(!text_less(r1[n].0, r1[p].0));
            } else {
                let q = choose|q: int| 0 <= q < r2.len() && #[trigger] r2[q].0 == l1.0;
                assert(q != n);
                assert(!text_less(r2[n].0, r2[q].0));
            }
        }
        assert(l1.0 == l2.0);
        assert(times_with_id(r1, l1.0).last() == l1.1);
        assert(times_with_id(r2, l2.0).last() == l2.1);
        assert(l1 == l2);
        let d1 = r1.drop_last();
        let d2 = r2.drop_last();
        assert forall|id: Seq<char>| #[trigger] times_with_id(d1, id) == times_with_id(d2, id) by {
            assert(times_with_id(r1, id) == times_with_id(r2, id));
            if id == l1.0 {
                assert(times_with_id(d1, id) =~= times_with_id(r1, id).drop_last());
                assert(times_with_id(d2, id) =~= times_with_id(r2, id).drop_last());
            }
        }
        assert(sorted_by_id(d1)) by {
            assert forall|i: int, j: int| 0 <= i < j < d1.len() implies !text_less(
                #[trigger] d1[j].0,
                #[trigger] d1[i].0,
            ) by {
                assert(d1[i] == r1[i] && d1[j] == r1[j]);
            }
        }
        assert(sorted_by_id(d2)) by {
            assert forall|i: int, j: int| 0 <= i < j < d2.len() implies !text_less(
                #[trigger] d2[j].0,
                #[trigger] d2[i].0,
            ) by {
                assert(d2[i] == r2[i] && d2[j] == r2[j]);
            }
        }
        lemma_sorted_unique(d1, d2);
        assert(r1 =~= d1.push(l1));
        assert(r2 =~= d2.push(l2));
    }
}

/// A series' fingerprint does not depend on the order its chapters are
/// listed in: two listings of the same chapters (ids distinct, as chapter
/// ids are) put the chapters in the same id order, so their fingerprints
/// hash the same writes and give the same digest.
pub proof fn lemma_fingerprint_order_independent(
    title: Seq<char>,
    a: Seq<(Seq<char>, i64)>,
    b: Seq<(Seq<char>, i64)>,
)
    requires
        ids_distinct(a),
        ids_distinct(b),
        a.to_set() == b.to_set(),
    ensures
        id_order(a) == id_order(b),
        fingerprint_digest(title, id_order(a)) == fingerprint_digest(title, id_order(b)),
{
    let sorted_a = id_order(a);
    let sorted_b = id_order(b);
    lemma_id_order_sorts(a);
    lemma_id_order_sorts(b);
    assert forall|id: Seq<char>| #[trigger] times_with_id(a, id) == times_with_id(b, id) by {
        lemma_times_distinct(a, id);
        lemma_times_distinct(b, id);
        if exists|q: int| 0 <= q < a.len() && #[trigger] a[q].0 == id {
            let q = choose|q: int| 0 <= q < a.len() && #[trigger] a[q].0 == id;
            assert(a.to_set().contains(a[q]));
            assert(b.to_set().contains(a[q]));
            let p = choose|p: int| 0 <= p < b.len() && b[p] == a[q];
            assert(b[p].0 == id);
        } else if exists|p: int| 0 <= p < b.len() && #[trigger] b[p].0 == id {
            let p = choose|p: int| 0 <= p < b.len() && #[trigger] b[p].0 == id;
            assert(b.to_set().contains(b[p]));
            assert(a.to_set().contains(b[p]));
            let q = choose|q: int| 0 <= q < a.len() && a[q] == b[p];
            assert(a[q].0 == id);
        }
    }
    assert(a.len() == b.len()) by {
        assert(a.no_duplicates()) by {
            assert forall|i: int, j: int| 0 <= i < a.len() && 0 <= j < a.len() && i != j implies a[i]
                != a[j] by {
                assert(a[i].0 != a[j].0);
            }
        }
        assert(b.no_duplicates()) by {
            assert forall|i: int, j: int| 0 <= i < b.len() && 0 <= j < b.len() && i != j implies b[i]
                != b[j] by {
                assert(b[i].0 != b[j].0);
            }
        }
        a.unique_seq_to_set();
        b.unique_seq_to_set();
    }
    assert forall|id: Seq<char>| #[trigger] times_with_id(sorted_a, id) == times_with_id(
        sorted_b,
        id,
    ) by {
        assert(times_with_id(sorted_a, id) == times_with_id(a, id));
        assert(times_with_id(sorted_b, id) == times_with_id(b, id));
    }
    lemma_sorted_unique(sorted_a, sorted_b);
}

} // verus!
