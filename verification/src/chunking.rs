//! Splitting content into stored chunks and describing them for the
//! chunk table.
use vstd::prelude::*;
use crate::hashing::{calculate_sha256, hex_encoding, sha256_digest};
use crate::models::ChunkMetadata;
use crate::pending::string_views;

verus! {

/// The size of the pieces a whole upload is cut into: one mebibyte.
pub const CHUNK_SIZE: usize = 1048576;

/// `data` cut into consecutive pieces of `size` bytes, the last one possibly
/// shorter; no pieces at all for empty data.
pub open spec fn chunks_of(data: Seq<u8>, size: nat) -> Seq<Seq<u8>>
    decreases data.len(),
{
    if data.len() == 0 || size == 0 {
        Seq::empty()
    } else if data.len() <= size {
        seq![data]
    } else {
        seq![data.take(size as int)] + chunks_of(data.skip(size as int), size)
    }
}

/// Cuts `data` into pieces of `size` bytes (as `<[u8]>::chunks` does).
pub fn split_into_chunks(data: &[u8], size: usize) -> (r: Vec<Vec<u8>>)
    requires
        size > 0,
    ensures
        r@.map_values(|c: Vec<u8>| c@) == chunks_of(data@, size as nat),
{
    let mut r: Vec<Vec<u8>> = Vec::new();
    let mut start: usize = 0;
    assert(data@.skip(0) =~= data@);
    assert(r@.map_values(|c: Vec<u8>| c@) =~= Seq::<Seq<u8>>::empty());
    while start < data.len()
        invariant
            size > 0,
            start <= data@.len(),
            r@.map_values(|c: Vec<u8>| c@) + chunks_of(data@.skip(start as int), size as nat)
                == chunks_of(data@, size as nat),
        decreases data@.len() - start,
    {
        let rest = data.len() - start;
        let end = if rest <= size {
            data.len()
        } else {
            start + size
        };
        let piece = vstd::slice::slice_to_vec(vstd::slice::slice_subrange(data, start, end));
        let ghost before = r@;
        let ghost tail = data@.skip(start as int);
        r.push(piece);
        proof {
            assert(r@.map_values(|c: Vec<u8>| c@) =~= before.map_values(|c: Vec<u8>| c@).push(
                piece@,
            ));
            if rest <= size {
                assert(piece@ =~= tail);
                assert(data@.skip(end as int) =~= Seq::<u8>::empty());
                assert(chunks_of(tail, size as nat) == seq![tail]);
            } else {
                assert(piece@ =~= tail.take(size as int));
                assert(data@.skip(end as int) =~= tail.skip(size as int));
            }
            assert(chunks_of(data@.skip(end as int), size as nat) == chunks_of(
                data@.skip(end as int),
                size as nat,
            ));
            assert(before.map_values(|c: Vec<u8>| c@).push(piece@) + chunks_of(
                data@.skip(end as int),
                size as nat,
            ) =~= before.map_values(|c: Vec<u8>| c@) + (seq![piece@] + chunks_of(
                data@.skip(end as int),
                size as nat,
            )));
            assert(seq![piece@] + chunks_of(data@.skip(end as int), size as nat) =~= chunks_of(
                tail,
                size as nat,
            ));
        }
        start = end;
    }
    assert(data@.skip(start as int) =~= Seq::<u8>::empty());
    assert(r@.map_values(|c: Vec<u8>| c@) + Seq::<Seq<u8>>::empty() =~= r@.map_values(
        |c: Vec<u8>| c@,
    ));
    r
}

/// Putting the pieces back together gives the data; every piece holds
/// between one and `size` bytes, and all but the last exactly `size`.
pub proof fn lemma_chunks_reassemble(data: Seq<u8>, size: nat)
    requires
        size > 0,
    ensures
        chunks_of(data, size).flatten() == data,
        forall|i: int|
            0 <= i < chunks_of(data, size).len() ==> 0 < #[trigger] chunks_of(data, size)[i].len()
                <= size,
        forall|i: int|
            0 <= i < chunks_of(data, size).len() - 1 ==> #[trigger] chunks_of(data, size)[i].len()
                == size,
        chunks_of(data, size).len() == (data.len() + size - 1) / size as int,
    decreases data.len(),
{
    let c = chunks_of(data, size);
    if data.len() == 0 {
        assert(c.flatten() =~= data);
        assert((size - 1) / size as int == 0) by (nonlinear_arith)
            requires
                size > 0,
        ;
    } else if data.len() <= size {
        assert(c == seq![data]);
        assert(seq![data].flatten() =~= data) by {
            let one = seq![data];
            assert(one.drop_first() =~= Seq::<Seq<u8>>::empty());
            assert(one.drop_first().flatten() == Seq::<u8>::empty());
            assert(one.first() == data);
            assert(one.flatten() == one.first() + one.drop_first().flatten());
        }
        assert((data.len() + size - 1) / size as int == 1) by (nonlinear_arith)
            requires
                size > 0,
                0 < data.len() <= size,
        ;
    } else {
        let rest = data.skip(size as int);
        lemma_chunks_reassemble(rest, size);
        assert(c == seq![data.take(size as int)] + chunks_of(rest, size));
        assert(c.drop_first() =~= chunks_of(rest, size));
        assert(c.flatten() == c[0] + c.drop_first().flatten());
        assert(data.take(size as int) + rest =~= data);
        assert forall|i: int| 0 <= i < c.len() implies 0 < #[trigger] c[i].len() <= size by {
            if i > 0 {
                assert(c[i] == chunks_of(rest, size)[i - 1]);
            }
        }
        assert forall|i: int| 0 <= i < c.len() - 1 implies #[trigger] c[i].len() == size by {
            if i > 0 {
                assert(c[i] == chunks_of(rest, size)[i - 1]);
            }
        }
        assert((data.len() + size - 1) / size as int == (rest.len() + size - 1) / size as int + 1)
            by (nonlinear_arith)
            requires
                size > 0,
                rest.len() == data.len() - size,
        ;
    }
}

/// The chunk record for one page: the page's content address, its chapter,
/// its size and its position.
pub open spec fn page_chunk(chapter_id: Seq<char>, index: i32, data: Seq<u8>) -> (
    Seq<char>,
    Seq<char>,
    i64,
    i32,
) {
    (hex_encoding(sha256_digest(data)), chapter_id, data.len() as i64, index)
}

/// A chunk record as plain values: hash, chapter, size, position.
pub open spec fn chunk_fields(c: ChunkMetadata) -> (Seq<char>, Seq<char>, i64, i32) {
    (c.hash@, c.chapter_id@, c.size, c.sequence_index)
}

/// The chunk records of a batch of pages, each given with its position.
pub open spec fn chunk_records(records: Seq<ChunkMetadata>) -> Seq<(Seq<char>, Seq<char>, i64, i32)> {
    records.map_values(|c: ChunkMetadata| chunk_fields(c))
}

/// The records for storing a chapter's pages: one per page, in the order
/// given, addressed by the SHA-256 of the page's bytes.
pub fn chapter_chunks(chapter_id: &String, pages: &Vec<(i32, Vec<u8>)>) -> (r: Vec<ChunkMetadata>)
    ensures
        chunk_records(r@) == pages@.map_values(
            |p: (i32, Vec<u8>)| page_chunk(chapter_id@, p.0, p.1@),
        ),
{
    let mut r: Vec<ChunkMetadata> = Vec::new();
    let mut i: usize = 0;
    while i < pages.len()
        invariant
            i <= pages@.len(),
            chunk_records(r@) == pages@.take(i as int).map_values(
                |p: (i32, Vec<u8>)| page_chunk(chapter_id@, p.0, p.1@),
            ),
        decreases pages@.len() - i,
    {
        let index = pages[i].0;
        let data = &pages[i].1;
        let hash = calculate_sha256(data.as_slice());
        let chunk = ChunkMetadata {
            hash,
            chapter_id: chapter_id.clone(),
            size: data.len() as i64,
            sequence_index: index,
        };
        let ghost before = r@;
        r.push(chunk);
        assert(chunk_records(r@) =~= chunk_records(before).push(chunk_fields(chunk)));
        assert(pages@.take(i + 1) =~= pages@.take(i as int).push(pages@[i as int]));
        i = i + 1;
    }
    assert(pages@.take(i as int) =~= pages@);
    r
}

/// The chunk records for a chapter whose pages are known only by address:
/// page `i` sits at position `i` and its size is not yet known (0).
pub fn placeholder_chunks(chapter_id: &String, pages: &Vec<String>) -> (r: Vec<ChunkMetadata>)
    ensures
        r@.len() == pages@.len(),
        forall|i: int|
            0 <= i < pages@.len() ==> #[trigger] chunk_fields(r@[i]) == (
                pages@[i]@,
                chapter_id@,
                0i64,
                i as i32,
            ),
{
    let mut r: Vec<ChunkMetadata> = Vec::new();
    let mut i: usize = 0;
    while i < pages.len()
        invariant
            i <= pages@.len(),
            r@.len() == i,
            forall|j: int|
                0 <= j < i ==> #[trigger] chunk_fields(r@[j]) == (
                    pages@[j]@,
                    chapter_id@,
                    0i64,
                    j as i32,
                ),
        decreases pages@.len() - i,
    {
        let chunk = ChunkMetadata {
            hash: pages[i].clone(),
            chapter_id: chapter_id.clone(),
            size: 0,
            sequence_index: i as i32,
        };
        r.push(chunk);
        i = i + 1;
    }
    r
}

/// The page addresses of a chapter, in the order of its chunk records.
pub fn page_hashes(chunks: &Vec<ChunkMetadata>) -> (r: Vec<String>)
    ensures
        string_views(r@) == chunks@.map_values(|c: ChunkMetadata| c.hash@),
{
    let mut r: Vec<String> = Vec::new();
    let mut i: usize = 0;
    while i < chunks.len()
        invariant
            i <= chunks@.len(),
            string_views(r@) == chunks@.take(i as int).map_values(|c: ChunkMetadata| c.hash@),
        decreases chunks@.len() - i,
    {
        let h = chunks[i].hash.clone();
        let ghost before = r@;
        r.push(h);
        assert(string_views(r@) =~= string_views(before).push(h@));
        assert(chunks@.take(i + 1) =~= chunks@.take(i as int).push(chunks@[i as int]));
        i = i + 1;
    }
    assert(chunks@.take(i as int) =~= chunks@);
    r
}

/// Some record of `s` sits at position `index`.
pub open spec fn position_used(s: Seq<ChunkMetadata>, index: i32) -> bool {
    exists|q: int| 0 <= q < s.len() && #[trigger] s[q].sequence_index == index
}

/// The records that a chapter keeps when its chunk table holds one record
/// per position: for each position, the first record given for it, in the
/// order given.
pub open spec fn first_per_position(s: Seq<ChunkMetadata>) -> Seq<ChunkMetadata>
    decreases s.len(),
{
    if s.len() == 0 {
        Seq::empty()
    } else {
        let rest = first_per_position(s.drop_last());
        if position_used(s.drop_last(), s.last().sequence_index) {
            rest
        } else {
            rest.push(s.last())
        }
    }
}

proof fn lemma_position_used_push(s: Seq<ChunkMetadata>, x: ChunkMetadata, index: i32)
    ensures
        position_used(s.push(x), index) <==> (position_used(s, index) || x.sequence_index
            == index),
{
    let t = s.push(x);
    if position_used(s, index) {
        let q = choose|q: int| 0 <= q < s.len() && #[trigger] s[q].sequence_index == index;
        assert(t[q].sequence_index == index);
    }
    if x.sequence_index == index {
        assert(t[s.len() as int].sequence_index == index);
    }
    if position_used(t, index) {
        let q = choose|q: int| 0 <= q < t.len() && #[trigger] t[q].sequence_index == index;
        if q < s.len() {
            assert(s[q].sequence_index == index);
        }
    }
}

proof fn lemma_first_per_position_used(s: Seq<ChunkMetadata>, index: i32)
    ensures
        position_used(first_per_position(s), index) <==> position_used(s, index),
    decreases s.len(),
{
    if s.len() > 0 {
        let init = s.drop_last();
        let x = s.last();
        assert(s =~= init.push(x));
        lemma_first_per_position_used(init, index);
        lemma_position_used_push(init, x, index);
        if !position_used(init, x.sequence_index) {
            lemma_position_used_push(first_per_position(init), x, index);
        }
    }
}

/// Record `q` of `s` is the first given for its position.
pub open spec fn first_for_position(s: Seq<ChunkMetadata>, q: int) -> bool {
    forall|p: int| 0 <= p < q ==> #[trigger] s[p].sequence_index != s[q].sequence_index
}

proof fn lemma_kept_are_first(s: Seq<ChunkMetadata>)
    ensures
        forall|i: int|
            0 <= i < first_per_position(s).len() ==> exists|q: int|
                0 <= q < s.len() && s[q] == #[trigger] first_per_position(s)[i]
                    && first_for_position(s, q),
    decreases s.len(),
{
    if s.len() > 0 {
        let init = s.drop_last();
        let x = s.last();
        let n = s.len() - 1;
        lemma_kept_are_first(init);
        let fi = first_per_position(init);
        let f = first_per_position(s);
        assert forall|i: int| 0 <= i < f.len() implies exists|q: int|
            0 <= q < s.len() && s[q] == #[trigger] f[i] && first_for_position(s, q) by {
            if i < fi.len() {
                assert(f[i] == fi[i]);
                let q = choose|q: int|
                    0 <= q < init.len() && init[q] == #[trigger] fi[i] && first_for_position(init, q);
                assert(s[q] == init[q]);
                assert forall|p: int| 0 <= p < q implies #[trigger] s[p].sequence_index
                    != s[q].sequence_index by {
                    assert(s[p] == init[p]);
                }
            } else {
                assert(!position_used(init, x.sequence_index));
                assert(f[i] == x);
                assert forall|p: int| 0 <= p < n implies #[trigger] s[p].sequence_index
                    != s[n].sequence_index by {
                    assert(s[p] == init[p]);
                }
                assert(s[n] == f[i]);
            }
        }
    }
}

proof fn lemma_kept_positions_distinct(s: Seq<ChunkMetadata>)
    ensures
        forall|i: int, j: int|
            0 <= i < j < first_per_position(s).len() ==> #[trigger] first_per_position(s)[i].sequence_index
                != #[trigger] first_per_position(s)[j].sequence_index,
    decreases s.len(),
{
    if s.len() > 0 {
        let init = s.drop_last();
        let x = s.last();
        lemma_kept_positions_distinct(init);
        lemma_kept_are_first(init);
        let fi = first_per_position(init);
        let f = first_per_position(s);
        if !position_used(init, x.sequence_index) {
            assert forall|i: int| 0 <= i < fi.len() implies #[trigger] fi[i].sequence_index
                != x.sequence_index by {
                let q = choose|q: int|
                    0 <= q < init.len() && init[q] == #[trigger] fi[i] && first_for_position(init, q);
                if fi[i].sequence_index == x.sequence_index {
                    assert(init[q].sequence_index == x.sequence_index);
                }
            }
            assert forall|i: int, j: int| 0 <= i < j < f.len() implies #[trigger] f[i].sequence_index
                != #[trigger] f[j].sequence_index by {
                assert(f[i] == fi[i]);
                if j < fi.len() {
                    assert(f[j] == fi[j]);
                } else {
                    assert(f[j] == x);
                }
            }
        }
    }
}

proof fn lemma_positions_covered(s: Seq<ChunkMetadata>)
    ensures
        forall|q: int|
            #![trigger s[q]]
            0 <= q < s.len() ==> exists|i: int|
                #![trigger first_per_position(s)[i]]
                0 <= i < first_per_position(s).len() && first_per_position(s)[i].sequence_index
                    == s[q].sequence_index,
    decreases s.len(),
{
    if s.len() > 0 {
        let init = s.drop_last();
        let x = s.last();
        let n = s.len() - 1;
        lemma_positions_covered(init);
        let fi = first_per_position(init);
        let f = first_per_position(s);
        assert forall|q: int|
            #![trigger s[q]]
            0 <= q < s.len() implies exists|i: int|
            #![trigger f[i]]
            0 <= i < f.len() && f[i].sequence_index == s[q].sequence_index by {
            let target = if q < n { q } else {
                if position_used(init, x.sequence_index) {
                    choose|w: int| 0 <= w < init.len() && #[trigger] init[w].sequence_index
                        == x.sequence_index
                } else {
                    -1
                }
            };
            if target >= 0 {
                assert(init[target].sequence_index == s[q].sequence_index);
                let i = choose|i: int|
                    #![trigger fi[i]]
                    0 <= i < fi.len() && fi[i].sequence_index == init[target].sequence_index;
                assert(f[i] == fi[i]);
            } else {
                assert(f[fi.len() as int] == x);
            }
        }
    }
}

/// The rows kept for a chapter, described without building them: no two
/// share a position; every position given has a row; and each row is the
/// first record given for its position.
pub proof fn lemma_first_per_position_rows(s: Seq<ChunkMetadata>)
    ensures
        forall|i: int, j: int|
            0 <= i < j < first_per_position(s).len() ==> #[trigger] first_per_position(s)[i].sequence_index
                != #[trigger] first_per_position(s)[j].sequence_index,
        forall|q: int|
            #![trigger s[q]]
            0 <= q < s.len() ==> exists|i: int|
                #![trigger first_per_position(s)[i]]
                0 <= i < first_per_position(s).len() && first_per_position(s)[i].sequence_index
                    == s[q].sequence_index,
        forall|i: int|
            0 <= i < first_per_position(s).len() ==> exists|q: int|
                0 <= q < s.len() && s[q] == #[trigger] first_per_position(s)[i]
                    && first_for_position(s, q),
{
    lemma_kept_positions_distinct(s);
    lemma_kept_are_first(s);
    let f = first_per_position(s);
    assert forall|q: int|
        #![trigger s[q]]
        0 <= q < s.len() implies exists|i: int|
        #![trigger f[i]]
        0 <= i < f.len() && f[i].sequence_index == s[q].sequence_index by {
        lemma_positions_covered(s);
        let i = choose|i: int|
            #![trigger f[i]]
            0 <= i < f.len() && f[i].sequence_index == s[q].sequence_index;
        assert(f[i].sequence_index == s[q].sequence_index);
    }
}

/// The rows a chapter's chunk table ends up with when `records` are added
/// one by one and a record for a position already filled is ignored: for
/// each position, the first record given for it.
pub fn rows_kept(records: &Vec<ChunkMetadata>) -> (r: Vec<ChunkMetadata>)
    ensures
        chunk_records(r@) == chunk_records(first_per_position(records@)),
{
    let mut r: Vec<ChunkMetadata> = Vec::new();
    let mut i: usize = 0;
    while i < records.len()
        invariant
            i <= records@.len(),
            chunk_records(r@) == chunk_records(first_per_position(records@.take(i as int))),
            r@.len() == first_per_position(records@.take(i as int)).len(),
            forall|q: int| 0 <= q < r@.len() ==> #[trigger] r@[q].sequence_index == first_per_position(
                records@.take(i as int),
            )[q].sequence_index,
        decreases records@.len() - i,
    {
        let index = records[i].sequence_index;
        let mut taken = false;
        let mut j: usize = 0;
        while j < r.len()
            invariant
                j <= r@.len(),
                !taken ==> forall|q: int| 0 <= q < j ==> #[trigger] r@[q].sequence_index != index,
                taken ==> exists|q: int| 0 <= q < r@.len() && #[trigger] r@[q].sequence_index == index,
            decreases r@.len() - j,
        {
            if r[j].sequence_index == index {
                taken = true;
            }
            j = j + 1;
        }
        let ghost p = records@.take(i as int);
        let ghost p1 = records@.take(i + 1);
        proof {
            assert(p1 =~= p.push(records@[i as int]));
            assert(p1.drop_last() =~= p);
            let fp = first_per_position(p);
            lemma_first_per_position_used(p, index);
            assert(taken == position_used(fp, index)) by {
                if taken {
                    let q = choose|q: int| 0 <= q < r@.len() && #[trigger] r@[q].sequence_index == index;
                    assert(fp[q].sequence_index == index);
                } else if position_used(fp, index) {
                    let q = choose|q: int| 0 <= q < fp.len() && #[trigger] fp[q].sequence_index == index;
                    assert(r@[q].sequence_index == index);
                }
            }
        }
        if !taken {
            let rec = ChunkMetadata {
                hash: records[i].hash.clone(),
                chapter_id: records[i].chapter_id.clone(),
                size: records[i].size,
                sequence_index: index,
            };
            let ghost before = r@;
            r.push(rec);
            proof {
                assert(chunk_records(r@) =~= chunk_records(before).push(chunk_fields(rec)));
                assert(chunk_records(first_per_position(p).push(records@[i as int])) =~= chunk_records(
                    first_per_position(p),
                ).push(chunk_fields(records@[i as int])));
            }
        }
        i = i + 1;
    }
    assert(records@.take(i as int) =~= records@);
    r
}

} // verus!
