//! A table of outstanding lookups: for each key (a manga id, chapter id or
//! block hash) the tickets of everyone waiting for the answer, in the order
//! they asked.
use vstd::prelude::*;

verus! {

/// The waiters registered for one key.
#[derive(Clone, Debug)]
pub struct PendingEntry {
    pub key: String,
    pub waiters: Vec<u64>,
}

/// Outstanding lookups keyed by what they ask for; no key occurs twice.
#[derive(Debug)]
pub struct PendingTable {
    entries: Vec<PendingEntry>,
}

/// No two entries of `s` have the same key.
pub open spec fn keys_distinct(s: Seq<PendingEntry>) -> bool {
    forall|i: int, j: int| 0 <= i < s.len() && 0 <= j < s.len() && i != j ==> #[trigger] s[i].key@
        != #[trigger] s[j].key@
}

/// The keys of `ks` other than `key`, in order.
pub open spec fn without_key(ks: Seq<Seq<char>>, key: Seq<char>) -> Seq<Seq<char>> {
    ks.filter(|k: Seq<char>| k != key)
}

/// The character sequences of a list of strings.
pub open spec fn string_views(ks: Seq<String>) -> Seq<Seq<char>> {
    ks.map_values(|k: String| k@)
}

/// Some entry of `s` has key `k`.
pub open spec fn has_key(s: Seq<PendingEntry>, k: Seq<char>) -> bool {
    exists|i: int| 0 <= i < s.len() && #[trigger] s[i].key@ == k
}

/// The entries as a map from key to waiters.
pub open spec fn entries_map(s: Seq<PendingEntry>) -> Map<Seq<char>, Seq<u64>> {
    Map::new(
        |k: Seq<char>| has_key(s, k),
        |k: Seq<char>| s[choose|i: int| 0 <= i < s.len() && #[trigger] s[i].key@ == k].waiters@,
    )
}

/// The keys of the entries, in table order.
pub open spec fn entries_keys(s: Seq<PendingEntry>) -> Seq<Seq<char>> {
    s.map_values(|e: PendingEntry| e.key@)
}

proof fn lemma_lookup(s: Seq<PendingEntry>, i: int)
    requires
        keys_distinct(s),
        0 <= i < s.len(),
    ensures
        entries_map(s).contains_key(s[i].key@),
        entries_map(s)[s[i].key@] == s[i].waiters@,
{
    let k = s[i].key@;
    assert(has_key(s, k));
    let j = choose|j: int| 0 <= j < s.len() && #[trigger] s[j].key@ == k;
    assert(j == i);
}

impl PendingTable {
    #[verifier::type_invariant]
    spec fn well_formed(self) -> bool {
        keys_distinct(self.entries@)
    }

    /// Who waits for what.
    pub closed spec fn view(&self) -> Map<Seq<char>, Seq<u64>> {
        entries_map(self.entries@)
    }

    /// The pending keys in the order they were first asked for.
    pub closed spec fn key_order(&self) -> Seq<Seq<char>> {
        entries_keys(self.entries@)
    }

    /// An empty table.
    pub fn new() -> (t: PendingTable)
        ensures
            t@ == Map::<Seq<char>, Seq<u64>>::empty(),
            t.key_order() == Seq::<Seq<char>>::empty(),
    {
        let t = PendingTable { entries: Vec::new() };
        assert(t@ =~= Map::<Seq<char>, Seq<u64>>::empty());
        assert(t.key_order() =~= Seq::<Seq<char>>::empty());
        t
    }

    /// Whether nobody waits for anything.
    pub fn is_empty(&self) -> (b: bool)
        ensures
            b <==> self@.dom() == Set::<Seq<char>>::empty(),
    {
        let b = self.entries.len() == 0;
        if !b {
            proof {
                use_type_invariant(self);
                lemma_lookup(self.entries@, 0);
            }
            assert(self@.dom().contains(self.entries@[0].key@));
        } else {
            assert(self@.dom() =~= Set::<Seq<char>>::empty());
        }
        b
    }

    fn position(&self, key: &String) -> (r: Option<usize>)
        ensures
            match r {
                Some(i) => i < self.entries@.len() && self.entries@[i as int].key@ == key@,
                None => !has_key(self.entries@, key@),
            },
    {
        let mut i: usize = 0;
        while i < self.entries.len()
            invariant
                i <= self.entries@.len(),
                forall|j: int| 0 <= j < i ==> self.entries@[j].key@ != key@,
            decreases self.entries@.len() - i,
        {
            if self.entries[i].key == *key {
                return Some(i);
            }
            i = i + 1;
        }
        None
    }

    /// Registers `ticket` as waiting for `key`, after those already waiting.
    pub fn add_waiter(&mut self, key: String, ticket: u64)
        ensures
            final(self)@ == old(self)@.insert(
                key@,
                if old(self)@.contains_key(key@) {
                    old(self)@[key@].push(ticket)
                } else {
                    seq![ticket]
                },
            ),
            old(self)@.contains_key(key@) ==> final(self).key_order() == old(self).key_order(),
            !old(self)@.contains_key(key@) ==> final(self).key_order() == old(self).key_order().push(
                key@,
            ),
    {
        proof {
            use_type_invariant(&*self);
        }
        let ghost s0 = self.entries@;
        match self.position(&key) {
            Some(i) => {
                proof {
                    lemma_lookup(s0, i as int);
                }
                let mut entries: Vec<PendingEntry> = Vec::new();
                std::mem::swap(&mut entries, &mut self.entries);
                let mut e = entries.remove(i);
                e.waiters.push(ticket);
                entries.insert(i, e);
                let ghost s1 = entries@;
                assert(s1 =~= s0.update(i as int, e));
                assert(keys_distinct(s1));
                self.entries = entries;
                proof {
                    assert forall|k: Seq<char>| #[trigger] has_key(s1, k) == has_key(s0, k) by {
                        if has_key(s0, k) {
                            let j = choose|j: int| 0 <= j < s0.len() && #[trigger] s0[j].key@ == k;
                            assert(s1[j].key@ == k);
                        }
                        if has_key(s1, k) {
                            let j = choose|j: int| 0 <= j < s1.len() && #[trigger] s1[j].key@ == k;
                            assert(s0[j].key@ == k);
                        }
                    }
                    assert forall|k: Seq<char>| #[trigger] has_key(s1, k) implies entries_map(s1)[k]
                        == (if k == key@ {
                        s0[i as int].waiters@.push(ticket)
                    } else {
                        entries_map(s0)[k]
                    }) by {
                        let j = choose|j: int| 0 <= j < s1.len() && #[trigger] s1[j].key@ == k;
                        lemma_lookup(s1, j);
                        lemma_lookup(s0, j);
                    }
                    assert(entries_map(s1) =~= entries_map(s0).insert(
                        key@,
                        s0[i as int].waiters@.push(ticket),
                    ));
                    assert(entries_keys(s1) =~= entries_keys(s0));
                }
            },
            None => {
                let e = PendingEntry { key: key, waiters: vec![ticket] };
                let mut entries: Vec<PendingEntry> = Vec::new();
                std::mem::swap(&mut entries, &mut self.entries);
                entries.push(e);
                let ghost s1 = entries@;
                assert(s1 =~= s0.push(e));
                assert(keys_distinct(s1));
                self.entries = entries;
                proof {
                    assert(e.waiters@ =~= seq![ticket]);
                    lemma_lookup(s1, s0.len() as int);
                    assert forall|k: Seq<char>| #[trigger] has_key(s1, k) == (has_key(s0, k) || k
                        == e.key@) by {
                        if has_key(s0, k) {
                            let j = choose|j: int| 0 <= j < s0.len() && #[trigger] s0[j].key@ == k;
                            assert(s1[j].key@ == k);
                        }
                        if has_key(s1, k) && k != e.key@ {
                            let j = choose|j: int| 0 <= j < s1.len() && #[trigger] s1[j].key@ == k;
                            assert(s0[j].key@ == k);
                        }
                    }
                    assert forall|k: Seq<char>| #[trigger] has_key(s0, k) implies entries_map(s1)[k]
                        == entries_map(s0)[k] by {
                        let j = choose|j: int| 0 <= j < s0.len() && #[trigger] s0[j].key@ == k;
                        lemma_lookup(s1, j);
                        lemma_lookup(s0, j);
                    }
                    assert(entries_map(s1) =~= entries_map(s0).insert(key@, seq![ticket]));
                    assert(entries_keys(s1) =~= entries_keys(s0).push(key@));
                }
            },
        }
    }

    /// Removes `key` and hands back everyone who was waiting for it, in the
    /// order they asked; `None` when nobody was.
    pub fn take(&mut self, key: &String) -> (r: Option<Vec<u64>>)
        ensures
            match r {
                Some(w) => old(self)@.contains_key(key@) && w@ == old(self)@[key@],
                None => !old(self)@.contains_key(key@),
            },
            final(self)@ == old(self)@.remove(key@),
            final(self).key_order() == without_key(old(self).key_order(), key@),
    {
        proof {
            use_type_invariant(&*self);
        }
        let ghost s0 = self.entries@;
        match self.position(key) {
            Some(i) => {
                proof {
                    lemma_lookup(s0, i as int);
                }
                let mut entries: Vec<PendingEntry> = Vec::new();
                std::mem::swap(&mut entries, &mut self.entries);
                let e = entries.remove(i);
                let ghost s1 = entries@;
                assert(s1 =~= s0.remove(i as int));
                assert(keys_distinct(s1));
                self.entries = entries;
                proof {
                    assert forall|k: Seq<char>| #[trigger] has_key(s1, k) == (has_key(s0, k) && k
                        != key@) by {
                        if has_key(s0, k) && k != key@ {
                            let j = choose|j: int| 0 <= j < s0.len() && #[trigger] s0[j].key@ == k;
                            if j < i {
                                assert(s1[j].key@ == k);
                            } else {
                                assert(s1[j - 1].key@ == k);
                            }
                        }
                        if has_key(s1, k) {
                            let j = choose|j: int| 0 <= j < s1.len() && #[trigger] s1[j].key@ == k;
                            if j < i {
                                assert(s0[j].key@ == k);
                            } else {
                                assert(s0[j + 1].key@ == k);
                            }
                        }
                    }
                    assert forall|k: Seq<char>| #[trigger] has_key(s1, k) implies entries_map(s1)[k]
                        == entries_map(s0)[k] by {
                        let j = choose|j: int| 0 <= j < s1.len() && #[trigger] s1[j].key@ == k;
                        lemma_lookup(s1, j);
                        if j < i {
                            lemma_lookup(s0, j);
                        } else {
                            lemma_lookup(s0, j + 1);
                        }
                    }
                    assert(entries_map(s1) =~= entries_map(s0).remove(key@));
                    lemma_keys_remove(s0, i as int, key@);
                }
                Some(e.waiters)
            },
            None => {
                proof {
                    assert(entries_map(s0) =~= entries_map(s0).remove(key@));
                    lemma_keys_filter_absent(entries_keys(s0), key@);
                }
                None
            },
        }
    }

    /// The pending keys, each once, in the order they were first asked for.
    pub fn keys(&self) -> (ks: Vec<String>)
        ensures
            string_views(ks@) == self.key_order(),
            self.key_order().no_duplicates(),
            self.key_order().to_set() == self@.dom(),
    {
        proof {
            use_type_invariant(self);
            lemma_keys_cover(self.entries@);
        }
        let mut ks: Vec<String> = Vec::new();
        let mut i: usize = 0;
        while i < self.entries.len()
            invariant
                i <= self.entries@.len(),
                string_views(ks@) == entries_keys(self.entries@).take(i as int),
            decreases self.entries@.len() - i,
        {
            let k = self.entries[i].key.clone();
            let ghost before = ks@;
            ks.push(k);
            assert(string_views(ks@) =~= string_views(before).push(k@));
            assert(entries_keys(self.entries@).take(i + 1) =~= entries_keys(self.entries@).take(
                i as int,
            ).push(self.entries@[i as int].key@));
            i = i + 1;
        }
        assert(entries_keys(self.entries@).take(i as int) =~= entries_keys(self.entries@));
        ks
    }
}

proof fn lemma_keys_cover(s: Seq<PendingEntry>)
    requires
        keys_distinct(s),
    ensures
        entries_keys(s).no_duplicates(),
        entries_keys(s).to_set() == entries_map(s).dom(),
{
    let ks = entries_keys(s);
    assert forall|k: Seq<char>| ks.to_set().contains(k) <==> entries_map(s).dom().contains(k) by {
        if ks.to_set().contains(k) {
            let i = choose|i: int| 0 <= i < ks.len() && ks[i] == k;
            assert(s[i].key@ == k);
        }
        if entries_map(s).dom().contains(k) {
            let i = choose|i: int| 0 <= i < s.len() && #[trigger] s[i].key@ == k;
            assert(ks[i] == k);
        }
    }
    assert(ks.to_set() =~= entries_map(s).dom());
    assert forall|i: int, j: int| 0 <= i < ks.len() && 0 <= j < ks.len() && i != j implies ks[i] != ks[j] by {
        assert(ks[i] == s[i].key@);
        assert(ks[j] == s[j].key@);
    }
}

proof fn lemma_keys_filter_absent(ks: Seq<Seq<char>>, key: Seq<char>)
    requires
        !ks.contains(key),
    ensures
        without_key(ks, key) == ks,
    decreases ks.len(),
{
    reveal_with_fuel(Seq::filter, 1);
    if ks.len() > 0 {
        lemma_keys_filter_absent(ks.drop_last(), key);
        assert(ks.drop_last().push(ks.last()) =~= ks);
    } else {
        assert(without_key(ks, key) =~= ks);
    }
}

proof fn lemma_keys_remove(s: Seq<PendingEntry>, i: int, key: Seq<char>)
    requires
        keys_distinct(s),
        0 <= i < s.len(),
        s[i].key@ == key,
    ensures
        entries_keys(s.remove(i)) == without_key(entries_keys(s), key),
    decreases s.len(),
{
    reveal_with_fuel(Seq::filter, 1);
    if i == s.len() - 1 {
        assert(s.remove(i) =~= s.drop_last());
        assert(entries_keys(s).drop_last() =~= entries_keys(s.drop_last()));
        assert(!entries_keys(s.drop_last()).contains(key));
        lemma_keys_filter_absent(entries_keys(s.drop_last()), key);
    } else {
        let t = s.drop_last();
        lemma_keys_remove(t, i, key);
        assert(s.remove(i) =~= t.remove(i).push(s.last()));
        assert(entries_keys(s).drop_last() =~= entries_keys(t));
        assert(entries_keys(s.remove(i)) =~= entries_keys(t.remove(i)).push(s.last().key@));
        assert(s.last().key@ != key);
    }
}

} // verus!
