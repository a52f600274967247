use vstd::prelude::*;

verus! {

/// A locator for one record within one segment: the segment's generation,
/// the byte offset of the record's first byte, and the record's exact byte
/// count.
#[derive(Clone, Copy, Debug, PartialEq, Eq, Structural)]
pub struct CommandPos {
    pub gen: u64,
    pub pos: usize,
    pub len: usize,
}

impl CommandPos {
    /// Build a locator from a generation and the record's byte range.
    pub fn new(gen: u64, start: usize, end: usize) -> (cp: CommandPos)
        requires
            start <= end,
        ensures
            cp.gen == gen && cp.pos == start && cp.len == end - start,
    {
        CommandPos { gen, pos: start, len: (end - start) }
    }
}

/// One entry of the index: a key and the locator of its latest `Set` record.
pub struct IndexEntry {
    pub key: String,
    pub cp: CommandPos,
}

/// The in-memory key-to-locator mapping, stored as an association list with
/// unique keys and viewed as a `Map`.
pub struct Index {
    pub entries: Vec<IndexEntry>,
}

/// The map described by an association list: later entries win, though a
/// well-formed index never repeats a key.
pub open spec fn map_of(es: Seq<IndexEntry>) -> Map<Seq<char>, CommandPos>
    decreases es.len(),
{
    if es.len() == 0 {
        Map::empty()
    } else {
        map_of(es.drop_last()).insert(es.last().key@, es.last().cp)
    }
}

/// A key occurs in `map_of(es)` exactly when some entry holds it.
pub proof fn lemma_map_of_contains(es: Seq<IndexEntry>)
    ensures
        forall|k: Seq<char>|
            #[trigger] map_of(es).contains_key(k) <==> exists|i: int|
                0 <= i < es.len() && es[i].key@ == k,
    decreases es.len(),
{
    if es.len() > 0 {
        lemma_map_of_contains(es.drop_last());
        assert forall|k: Seq<char>| #[trigger]
            map_of(es).contains_key(k) implies exists|i: int|
            0 <= i < es.len() && es[i].key@ == k by {
            if k == es.last().key@ {
                assert(es[es.len() - 1].key@ == k);
            } else {
                assert(map_of(es) == map_of(es.drop_last()).insert(es.last().key@, es.last().cp));
                assert(map_of(es.drop_last()).contains_key(k));
                let i = choose|i: int| 0 <= i < es.drop_last().len() && es.drop_last()[i].key@
                    == k;
                assert(es.drop_last()[i] == es[i]);
                assert(es[i].key@ == k);
            }
        }
        assert forall|k: Seq<char>|
            (exists|i: int| 0 <= i < es.len() && es[i].key@ == k) implies #[trigger]
            map_of(es).contains_key(k) by {
            let i = choose|i: int| 0 <= i < es.len() && es[i].key@ == k;
            if i < es.len() - 1 {
                assert(es.drop_last()[i].key@ == k);
            }
        }
    }
}

/// Keys are pairwise distinct.
pub open spec fn unique_keys(es: Seq<IndexEntry>) -> bool {
    forall|i: int, j: int| 0 <= i < j < es.len() ==> es[i].key@ != es[j].key@
}

/// With unique keys, `map_of` sends each entry's key to that entry's locator.
pub proof fn lemma_map_of_value(es: Seq<IndexEntry>, i: int)
    requires
        unique_keys(es),
        0 <= i < es.len(),
    ensures
        map_of(es).contains_key(es[i].key@),
        map_of(es)[es[i].key@] == es[i].cp,
    decreases es.len(),
{
    lemma_map_of_contains(es);
    if i == es.len() - 1 {
    } else {
        assert(unique_keys(es.drop_last()));
        lemma_map_of_value(es.drop_last(), i);
        assert(es[i].key@ != es.last().key@);
    }
}

/// With unique keys, replacing the locator of entry `i` updates the map at
/// that entry's key and nothing else.
pub proof fn lemma_map_of_update(es: Seq<IndexEntry>, i: int, e2: IndexEntry)
    requires
        unique_keys(es),
        0 <= i < es.len(),
        e2.key@ == es[i].key@,
    ensures
        map_of(es.update(i, e2)) =~= map_of(es).insert(e2.key@, e2.cp),
    decreases es.len(),
{
    let es2 = es.update(i, e2);
    if i == es.len() - 1 {
        assert(es2.drop_last() =~= es.drop_last());
        assert(es2.last() == e2);
    } else {
        assert(unique_keys(es.drop_last()));
        assert(es2.drop_last() =~= es.drop_last().update(i, e2));
        assert(es2.last() == es.last());
        lemma_map_of_update(es.drop_last(), i, e2);
        assert(es[i].key@ != es.last().key@);
    }
}

/// With unique keys, removing entry `i` removes exactly that entry's key
/// from the map.
pub proof fn lemma_map_of_remove(es: Seq<IndexEntry>, i: int)
    requires
        unique_keys(es),
        0 <= i < es.len(),
    ensures
        map_of(es.remove(i)) =~= map_of(es).remove(es[i].key@),
    decreases es.len(),
{
    lemma_map_of_contains(es);
    lemma_map_of_contains(es.drop_last());
    let es2 = es.remove(i);
    if i == es.len() - 1 {
        assert(es2 =~= es.drop_last());
        assert(!map_of(es.drop_last()).contains_key(es[i].key@));
        assert(map_of(es.drop_last()).remove(es[i].key@) =~= map_of(es.drop_last()));
    } else {
        assert(unique_keys(es.drop_last()));
        assert(es2.drop_last() =~= es.drop_last().remove(i));
        assert(es2.last() == es.last());
        lemma_map_of_remove(es.drop_last(), i);
        assert(es[i].key@ != es.last().key@);
    }
}

/// The sum of the record lengths named by the entries: the byte count of
/// the store's live records.
pub open spec fn entries_len_sum(es: Seq<IndexEntry>) -> int
    decreases es.len(),
{
    if es.len() == 0 {
        0
    } else {
        entries_len_sum(es.drop_last()) + es.last().cp.len
    }
}

/// Two entry lists whose records have the same lengths carry the same live
/// byte count.
pub proof fn lemma_len_sum_pointwise(es1: Seq<IndexEntry>, es2: Seq<IndexEntry>)
    requires
        es1.len() == es2.len(),
        forall|j: int| 0 <= j < es1.len() ==> es1[j].cp.len == es2[j].cp.len,
    ensures
        entries_len_sum(es1) == entries_len_sum(es2),
    decreases es1.len(),
{
    if es1.len() > 0 {
        lemma_len_sum_pointwise(es1.drop_last(), es2.drop_last());
    }
}

impl View for Index {
    type V = Map<Seq<char>, CommandPos>;

    open spec fn view(&self) -> Map<Seq<char>, CommandPos> {
        map_of(self.entries@)
    }
}

impl Index {
    /// Keys are pairwise distinct.
    pub open spec fn wf(self) -> bool {
        unique_keys(self.entries@)
    }

    /// An empty index.
    pub fn new() -> (r: Index)
        ensures
            r.wf(),
            r@ == Map::<Seq<char>, CommandPos>::empty(),
            r.entries@.len() == 0,
    {
        Index { entries: Vec::new() }
    }

    /// The number of live keys.
    pub fn len(&self) -> (n: usize)
        ensures
            n == self.entries@.len(),
    {
        self.entries.len()
    }

    /// The position of the entry holding `key`, if any.
    fn find(&self, key: &String) -> (r: Option<usize>)
        ensures
            match r {
                Some(i) => i < self.entries@.len() && self.entries@[i as int].key@ == key@,
                None => forall|i: int|
                    0 <= i < self.entries@.len() ==> self.entries@[i].key@ != key@,
            },
    {
        let n = self.entries.len();
        let mut i: usize = 0;
        while i < n
            invariant
                n == self.entries@.len(),
                i <= n,
                forall|j: int| 0 <= j < i ==> self.entries@[j].key@ != key@,
            decreases n - i,
        {
            if self.entries[i].key.eq(key) {
                return Some(i);
            }
            i = i + 1;
        }
        None
    }

    /// Look up the locator for `key`.
    pub fn get(&self, key: &String) -> (r: Option<CommandPos>)
        requires
            self.wf(),
        ensures
            self@.contains_key(key@) ==> r == Some(self@[key@]),
            !self@.contains_key(key@) ==> r is None,
    {
        proof {
            lemma_map_of_contains(self.entries@);
        }
        match self.find(key) {
            Some(i) => {
                proof {
                    lemma_map_of_value(self.entries@, i as int);
                }
                Some(self.entries[i].cp)
            },
            None => None,
        }
    }

    /// Install `cp` as the locator for `key`, returning the displaced
    /// locator if the key was already present.
    pub fn insert(&mut self, key: String, cp: CommandPos) -> (prev: Option<CommandPos>)
        requires
            old(self).wf(),
        ensures
            final(self).wf(),
            final(self)@ =~= old(self)@.insert(key@, cp),
            old(self)@.contains_key(key@) ==> prev == Some(old(self)@[key@])
                && final(self).entries@.len() == old(self).entries@.len(),
            !old(self)@.contains_key(key@) ==> prev is None && final(self).entries@.len()
                == old(self).entries@.len() + 1,
    {
        proof {
            lemma_map_of_contains(self.entries@);
        }
        match self.find(&key) {
            Some(i) => {
                proof {
                    lemma_map_of_value(self.entries@, i as int);
                    lemma_map_of_update(
                        self.entries@,
                        i as int,
                        IndexEntry { key: self.entries@[i as int].key, cp },
                    );
                }
                let prev_cp = self.entries[i].cp;
                let old_entry = self.entries.remove(i);
                self.entries.insert(i, IndexEntry { key: old_entry.key, cp });
                proof {
                    assert(self.entries@ =~= old(self).entries@.update(
                        i as int,
                        IndexEntry { key: old(self).entries@[i as int].key, cp },
                    ));
                    assert(unique_keys(self.entries@));
                }
                Some(prev_cp)
            },
            None => {
                self.entries.push(IndexEntry { key, cp });
                proof {
                    assert(self.entries@.drop_last() =~= old(self).entries@);
                    assert(unique_keys(self.entries@));
                }
                None
            },
        }
    }

    /// Remove the entry for `key`, returning its locator if it was present.
    pub fn remove(&mut self, key: &String) -> (prev: Option<CommandPos>)
        requires
            old(self).wf(),
        ensures
            final(self).wf(),
            final(self)@ =~= old(self)@.remove(key@),
            old(self)@.contains_key(key@) ==> prev == Some(old(self)@[key@]),
            !old(self)@.contains_key(key@) ==> prev is None && *final(self) == *old(self),
    {
        proof {
            lemma_map_of_contains(self.entries@);
        }
        match self.find(key) {
            Some(i) => {
                proof {
                    lemma_map_of_value(self.entries@, i as int);
                    lemma_map_of_remove(self.entries@, i as int);
                }
                let e = self.entries.remove(i);
                proof {
                    assert(unique_keys(self.entries@));
                }
                Some(e.cp)
            },
            None => {
                proof {
                    assert(self@.remove(key@) =~= self@);
                }
                None
            },
        }
    }

    /// The key of entry `i`.
    pub fn key_at(&self, i: usize) -> (k: &String)
        requires
            i < self.entries@.len(),
        ensures
            k@ == self.entries@[i as int].key@,
    {
        &self.entries[i].key
    }

    /// The locator of entry `i`.
    pub fn cp_at(&self, i: usize) -> (cp: CommandPos)
        requires
            i < self.entries@.len(),
        ensures
            cp == self.entries@[i as int].cp,
    {
        self.entries[i].cp
    }

    /// Replace the locator of entry `i`, keeping its key.
    pub fn set_cp_at(&mut self, i: usize, cp: CommandPos)
        requires
            old(self).wf(),
            i < old(self).entries@.len(),
        ensures
            final(self).wf(),
            final(self).entries@ =~= old(self).entries@.update(
                i as int,
                (IndexEntry { key: old(self).entries@[i as int].key, cp }),
            ),
            final(self)@ =~= old(self)@.insert(old(self).entries@[i as int].key@, cp),
    {
        proof {
            lemma_map_of_update(
                self.entries@,
                i as int,
                IndexEntry { key: self.entries@[i as int].key, cp },
            );
        }
        let old_entry = self.entries.remove(i);
        self.entries.insert(i, IndexEntry { key: old_entry.key, cp });
        proof {
            assert(self.entries@ =~= old(self).entries@.update(
                i as int,
                IndexEntry { key: old(self).entries@[i as int].key, cp },
            ));
            assert(unique_keys(self.entries@));
        }
    }
}

} // verus!
