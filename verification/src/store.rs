use vstd::prelude::*;
use crate::codec::Command;
use crate::codec::SpecCommand;
use crate::codec::encode_command;
use crate::codec::parse_command;
use crate::codec::spec_encode;
use crate::codec::spec_parse;
use crate::codec::lemma_parse_encode;
use crate::codec::lemma_parse_len;
use crate::codec::lemma_parse_stable;
use crate::error::KvsError;
use crate::index::CommandPos;
use crate::index::Index;
use crate::index::IndexEntry;
use crate::index::entries_len_sum;
use crate::index::lemma_len_sum_pointwise;
use crate::index::lemma_map_of_contains;
use crate::index::lemma_map_of_value;
use crate::index::map_of;
use crate::log::lemma_seg_replay_append;
use crate::log::Segment;
use crate::log::apply_cmd;
use crate::log::gens_sorted;
use crate::log::has_gen;
use crate::log::is_put_for;
use crate::log::lemma_replay_append_last;
use crate::log::lemma_replay_split;
use crate::log::lemma_total_data_last;
use crate::log::lemma_seg_idx_unique;
use crate::log::record_of;
use crate::log::seg_idx;
use crate::log::seg_replay;
use crate::log::seg_stale;
use crate::log::spec_replay;
use crate::log::spec_sat_add;
use crate::log::spec_stale;
use crate::log::total_data;
use crate::log::valid_locator;
use crate::log::value_at;

verus! {

/// Once at least this many stale bytes have accumulated, `set` triggers a
/// compaction.
pub const COMPACTION_THRESHOLD: u64 = 1048576;

/// The store a list of segments and an index describe: each live key is
/// bound to the value of the `Put` record its locator points at.
pub open spec fn spec_view_of(
    segs: Seq<Segment>,
    m: Map<Seq<char>, CommandPos>,
) -> Map<Seq<char>, Seq<char>> {
    m.map_values(|cp: CommandPos| value_at(segs, cp))
}

fn sat_add(a: u64, b: u64) -> (r: u64)
    ensures
        r == spec_sat_add(a, b),
{
    if a <= u64::MAX - b {
        a + b
    } else {
        u64::MAX
    }
}

/// The stale bytes that installing or removing `k` displaces: the length
/// of the record the index held for `k`, if any.
pub open spec fn spec_displaced_len(m: Map<Seq<char>, CommandPos>, k: Seq<char>) -> u64 {
    if m.contains_key(k) {
        m[k].len as u64
    } else {
        0
    }
}

/// The segment list after one append to the active segment: every other
/// segment is untouched, and the active (last) segment keeps its
/// generation and gains exactly the bytes of `rec` at its end.
pub open spec fn segs_appended(
    old_segs: Seq<Segment>,
    new_segs: Seq<Segment>,
    rec: Seq<u8>,
) -> bool {
    &&& old_segs.len() >= 1
    &&& new_segs.len() == old_segs.len()
    &&& forall|j: int| 0 <= j < old_segs.len() - 1 ==> new_segs[j] == old_segs[j]
    &&& new_segs.last().gen == old_segs.last().gen
    &&& new_segs.last().data@ == old_segs.last().data@ + rec
}

/// Find the position of the segment carrying generation `gen`.
fn find_segment(segments: &Vec<Segment>, gen: u64) -> (si: usize)
    requires
        has_gen(segments@, gen),
    ensures
        si < segments@.len(),
        segments@[si as int].gen == gen,
{
    let n = segments.len();
    let mut i: usize = 0;
    while i < n
        invariant
            n == segments@.len(),
            i <= n,
            has_gen(segments@, gen),
            forall|j: int| 0 <= j < i ==> segments@[j].gen != gen,
        decreases n - i,
    {
        if segments[i].gen == gen {
            return i;
        }
        i = i + 1;
    }
    proof {
        let w = choose|j: int| 0 <= j < segments@.len() && segments@[j].gen == gen;
        assert(false);
    }
    0
}

/// The log-structured key-value store: a list of log segments (the last one
/// is the active segment being appended to), the in-memory index, and the
/// count of bytes made stale by overwrites and removes.
pub struct KvStore {
    segments: Vec<Segment>,
    index: Index,
    current_gen: u64,
    uncompacted: u64,
}

impl View for KvStore {
    type V = Map<Seq<char>, Seq<char>>;

    closed spec fn view(&self) -> Map<Seq<char>, Seq<char>> {
        spec_view_of(self.segments@, self.index@)
    }
}

impl KvStore {
    /// The store's segments, oldest first.
    pub closed spec fn spec_segments(self) -> Seq<Segment> {
        self.segments@
    }

    /// The in-memory index as a map from key to locator.
    pub closed spec fn spec_index(self) -> Map<Seq<char>, CommandPos> {
        self.index@
    }

    /// The generation of the active segment.
    pub closed spec fn spec_current_gen(self) -> u64 {
        self.current_gen
    }

    /// The stale-byte counter.
    pub closed spec fn spec_uncompacted(self) -> u64 {
        self.uncompacted
    }

    /// The engine's invariant.  The index has unique keys; the segment list
    /// is nonempty and sorted by strictly increasing generation; the last
    /// segment is the active one; every index entry points at a whole `Put`
    /// record for its key inside an existing segment; and replaying all
    /// segments in order reproduces the index exactly.
    pub closed spec fn wf(self) -> bool {
        &&& self.index.wf()
        &&& self.segments@.len() >= 1
        &&& gens_sorted(self.segments@)
        &&& self.segments@.last().gen == self.current_gen
        &&& self.current_gen >= 1
        &&& forall|k: Seq<char>| #[trigger]
            self.index@.contains_key(k) ==> valid_locator(self.segments@, k, self.index@[k])
        &&& spec_replay(self.segments@, Map::empty()) == Some(self.index@)
    }

    /// Open a store from the segments found in its directory, given oldest
    /// first.  Replays every record in order to rebuild the index, counts
    /// the bytes made stale by overwrites and removes, and starts a fresh
    /// active segment with the next unused generation.  Fails with
    /// `Serialization` exactly when some segment's bytes do not decode as a
    /// whole number of records.
    pub fn open(segments: Vec<Segment>) -> (r: Result<KvStore, KvsError>)
        requires
            gens_sorted(segments@),
            segments@.len() > 0 ==> segments@.last().gen < u64::MAX,
        ensures
            r is Ok <==> spec_replay(segments@, Map::empty()) is Some,
            r matches Ok(kv) ==> kv.wf() && kv@ == spec_view_of(
                segments@,
                spec_replay(segments@, Map::empty()).unwrap(),
            ),
            r matches Ok(kv) ==> kv.spec_current_gen() == if segments@.len() == 0 {
                1
            } else {
                segments@.last().gen + 1
            },
            r matches Ok(kv) ==> {
                &&& kv.spec_segments().len() == segments@.len() + 1
                &&& (forall|j: int| 0 <= j < segments@.len() ==> kv.spec_segments()[j]
                    == segments@[j])
                &&& kv.spec_segments().last().gen == kv.spec_current_gen()
                &&& kv.spec_segments().last().data@ == Seq::<u8>::empty()
                &&& kv.spec_index() == spec_replay(segments@, Map::empty()).unwrap()
                &&& kv.spec_uncompacted() == spec_stale(segments@, Map::empty(), 0)
            },
            r matches Err(e) ==> e == KvsError::Serialization,
    {
        let mut segs = segments;
        let mut index = Index::new();
        let mut uncompacted: u64 = 0;
        let n = segs.len();
        let mut i: usize = 0;
        proof {
            assert(segs@.skip(0) =~= segs@);
        }
        while i < n
            invariant
                segs@ == segments@,
                n == segs@.len(),
                i <= n,
                gens_sorted(segs@),
                index.wf(),
                spec_replay(segs@.take(i as int), Map::empty()) == Some(index@),
                spec_stale(segs@, Map::empty(), 0) == spec_stale(
                    segs@.skip(i as int),
                    index@,
                    uncompacted,
                ),
                forall|k: Seq<char>| #[trigger]
                    index@.contains_key(k) ==> valid_locator(segs@, k, index@[k]),
            decreases n - i,
        {
            let ghost entry_map = index@;
            let ghost unc_entry = uncompacted;
            let seg_gen = segs[i].gen;
            let data_len = segs[i].data.len();
            let mut pos: usize = 0;
            proof {
                assert(seg_replay(seg_gen, segs@[i as int].data@, 0, entry_map) == seg_replay(
                    seg_gen,
                    segs@[i as int].data@,
                    0 as int,
                    index@,
                ));
            }
            while pos < data_len
                invariant
                    segs@ == segments@,
                    n == segs@.len(),
                    i < n,
                    gens_sorted(segs@),
                    seg_gen == segs@[i as int].gen,
                    data_len == segs@[i as int].data@.len(),
                    pos <= data_len,
                    index.wf(),
                    spec_replay(segs@.take(i as int), Map::empty()) == Some(entry_map),
                    spec_stale(segs@, Map::empty(), 0) == spec_stale(
                        segs@.skip(i as int),
                        entry_map,
                        unc_entry,
                    ),
                    seg_replay(seg_gen, segs@[i as int].data@, 0, entry_map) == seg_replay(
                        seg_gen,
                        segs@[i as int].data@,
                        pos as int,
                        index@,
                    ),
                    seg_stale(seg_gen, segs@[i as int].data@, 0, entry_map, unc_entry)
                        == seg_stale(
                        seg_gen,
                        segs@[i as int].data@,
                        pos as int,
                        index@,
                        uncompacted,
                    ),
                    forall|k: Seq<char>| #[trigger]
                        index@.contains_key(k) ==> valid_locator(segs@, k, index@[k]),
                decreases data_len - pos,
            {
                let ghost data = segs@[i as int].data@;
                let ghost tail = data.subrange(pos as int, data.len() as int);
                match parse_command(segs[i].data.as_slice(), pos) {
                    Ok((cmd, cn)) => {
                        proof {
                            lemma_parse_len(tail);
                            let rec = data.subrange(pos as int, pos + cn);
                            assert(rec =~= tail.subrange(0, cn as int));
                            assert(rec.subrange(0, cn as int) =~= tail.subrange(0, cn as int));
                            lemma_parse_stable(tail, rec);
                            lemma_seg_idx_unique(segs@, i as int);
                        }
                        let ghost prev_index = index@;
                        let ghost prev_unc = uncompacted;
                        let cp = CommandPos { gen: seg_gen, pos, len: cn };
                        match cmd {
                            Command::Put { key, value } => {
                                match index.insert(key, cp) {
                                    Some(old_cp) => {
                                        uncompacted = sat_add(uncompacted, old_cp.len as u64);
                                    },
                                    None => {
                                    },
                                }
                            },
                            Command::Remove { key } => {
                                match index.remove(&key) {
                                    Some(old_cp) => {
                                        uncompacted = sat_add(uncompacted, old_cp.len as u64);
                                    },
                                    None => {
                                    },
                                }
                                uncompacted = sat_add(uncompacted, cn as u64);
                            },
                        }
                        proof {
                            assert(index@ == apply_cmd(prev_index, cmd@, cp));
                            assert(seg_replay(seg_gen, data, pos as int, prev_index)
                                == seg_replay(seg_gen, data, pos + cn, index@));
                            assert(seg_stale(seg_gen, data, pos as int, prev_index, prev_unc)
                                == seg_stale(seg_gen, data, pos + cn, index@, uncompacted));
                            assert forall|k: Seq<char>| #[trigger]
                                index@.contains_key(k) implies valid_locator(
                                segs@,
                                k,
                                index@[k],
                            ) by {
                                if index@[k] == cp && is_put_for(cmd@, k) {
                                } else {
                                    assert(prev_index.contains_key(k) && prev_index[k]
                                        == index@[k]);
                                }
                            }
                        }
                        pos = pos + cn;
                    },
                    Err(_) => {
                        proof {
                            assert(seg_replay(seg_gen, data, pos as int, index@) is None);
                            assert(seg_replay(seg_gen, data, 0, entry_map) is None);
                            lemma_replay_split(segs@, i as int, Map::empty());
                            assert(segs@.skip(i as int)[0] == segs@[i as int]);
                            assert(spec_replay(segs@.skip(i as int), entry_map) is None);
                        }
                        return Err(KvsError::Serialization);
                    },
                }
            }
            proof {
                assert(seg_replay(seg_gen, segs@[i as int].data@, pos as int, index@) == Some(
                    index@,
                ));
                assert(seg_stale(seg_gen, segs@[i as int].data@, pos as int, index@, uncompacted)
                    == uncompacted);
                assert(seg_stale(seg_gen, segs@[i as int].data@, 0, entry_map, unc_entry)
                    == uncompacted);
                assert(segs@.skip(i as int)[0] == segs@[i as int]);
                assert(segs@.skip(i as int).drop_first() =~= segs@.skip(i as int + 1));
                assert(seg_replay(segs@.skip(i as int)[0].gen, segs@.skip(i as int)[0].data@, 0, entry_map) == Some(index@));
                assert(seg_stale(segs@.skip(i as int)[0].gen, segs@.skip(i as int)[0].data@, 0, entry_map, unc_entry) == uncompacted);
                assert(spec_stale(segs@.skip(i as int), entry_map, unc_entry) == spec_stale(
                    segs@.skip(i as int + 1),
                    index@,
                    uncompacted,
                ));
                lemma_replay_split(segs@.take(i as int + 1), i as int, Map::empty());
                assert(segs@.take(i as int + 1).take(i as int) =~= segs@.take(i as int));
                assert(segs@.take(i as int + 1).skip(i as int) =~= seq![segs@[i as int]]);
                let one = seq![segs@[i as int]];
                assert(one[0] == segs@[i as int]);
                assert(one.drop_first() =~= Seq::<Segment>::empty());
                assert(one[0].gen == seg_gen && one[0].data@ == segs@[i as int].data@);
                assert(seg_replay(one[0].gen, one[0].data@, 0, entry_map) == Some(index@));
                assert(spec_replay(one.drop_first(), index@) == Some(index@));
                assert(spec_replay(one, entry_map) == Some(index@));
            }
            i = i + 1;
        }
        proof {
            assert(segs@.take(n as int) =~= segs@);
            assert(segs@.skip(n as int) =~= Seq::<Segment>::empty());
            assert(spec_stale(segs@.skip(n as int), index@, uncompacted) == uncompacted);
            assert(spec_stale(segs@, Map::empty(), 0) == uncompacted);
        }
        let current_gen: u64 = if n == 0 {
            1
        } else {
            segs[n - 1].gen + 1
        };
        let ghost old_segs = segs@;
        segs.push(Segment { gen: current_gen, data: Vec::new() });
        proof {
            assert(forall|j: int| 0 <= j < old_segs.len() ==> segs@[j] == old_segs[j]);
            assert forall|a: int, b: int| 0 <= a < b < segs@.len() implies segs@[a].gen
                < segs@[b].gen by {
                if b == segs@.len() - 1 {
                    if n > 0 {
                        if a < n - 1 {
                            assert(old_segs[a].gen < old_segs[n - 1].gen);
                        }
                    }
                }
            }
            lemma_replay_split(segs@, n as int, Map::empty());
            assert(segs@.take(n as int) =~= old_segs);
            assert(segs@.skip(n as int) =~= seq![segs@[n as int]]);
            let one = seq![segs@[n as int]];
            assert(one[0].data@ =~= Seq::<u8>::empty());
            assert(seg_replay(one[0].gen, one[0].data@, 0, index@) == Some(index@));
            assert(one.drop_first() =~= Seq::<Segment>::empty());
            assert(spec_replay(one.drop_first(), index@) == Some(index@));
            assert(spec_replay(one, index@) == Some(index@));
            assert(spec_replay(segs@, Map::empty()) == Some(index@));
            assert forall|k: Seq<char>| #[trigger] index@.contains_key(k) implies valid_locator(
                segs@,
                k,
                index@[k],
            ) by {
                let cp = index@[k];
                assert(valid_locator(old_segs, k, cp));
                let si = seg_idx(old_segs, cp.gen);
                lemma_seg_idx_unique(segs@, si);
                assert(record_of(segs@, cp) =~= record_of(old_segs, cp));
            }
        }
        let kv = KvStore { segments: segs, index, current_gen, uncompacted };
        proof {
            assert(kv.wf());
            assert forall|k: Seq<char>| true implies #[trigger] spec_view_of(
                old_segs,
                kv.index@,
            ).contains_key(k) == kv@.contains_key(k) && (kv@.contains_key(k)
                ==> spec_view_of(old_segs, kv.index@)[k] == kv@[k]) by {
                if kv.index@.contains_key(k) {
                    let cp = kv.index@[k];
                    let si = seg_idx(old_segs, cp.gen);
                    lemma_seg_idx_unique(kv.segments@, si);
                    assert(record_of(kv.segments@, cp) =~= record_of(old_segs, cp));
                }
            }
            assert(spec_view_of(old_segs, kv.index@) =~= kv@);
        }
        Ok(kv)
    }

    /// Append one serialized record to the active segment.  The index is
    /// untouched; the caller installs or removes its entry afterwards.
    fn append_record(&mut self, rec: Vec<u8>, Ghost(c): Ghost<SpecCommand>) -> (cp: CommandPos)
        requires
            old(self).wf(),
            spec_parse(rec@) == Some((c, rec@.len() as int)),
        ensures
            final(self).index == old(self).index,
            final(self).current_gen == old(self).current_gen,
            final(self).uncompacted == old(self).uncompacted,
            final(self).segments@.len() == old(self).segments@.len(),
            gens_sorted(final(self).segments@),
            final(self).segments@.last().gen == final(self).current_gen,
            segs_appended(old(self).segments@, final(self).segments@, rec@),
            cp == (CommandPos {
                gen: old(self).current_gen,
                pos: old(self).segments@.last().data@.len() as usize,
                len: rec@.len() as usize,
            }),
            spec_replay(final(self).segments@, Map::empty()) == Some(
                apply_cmd(old(self).index@, c, cp),
            ),
            forall|k: Seq<char>, cp2: CommandPos| #[trigger]
                valid_locator(old(self).segments@, k, cp2) ==> valid_locator(
                    final(self).segments@,
                    k,
                    cp2,
                ) && value_at(final(self).segments@, cp2) == value_at(old(self).segments@, cp2),
            c matches SpecCommand::Put { key, value } ==> valid_locator(
                final(self).segments@,
                key,
                cp,
            ) && value_at(final(self).segments@, cp) == value,
            total_data(final(self).segments@) == total_data(old(self).segments@) + rec@.len(),
    {
        proof {
            lemma_parse_len(rec@);
        }
        let mut rec_v = rec;
        let ghost rec_seq = rec@;
        let ghost old_segs = self.segments@;
        let mut active = match self.segments.pop() {
            Some(s) => s,
            None => {
                proof {
                    assert(false);
                }
                Segment { gen: 0, data: Vec::new() }
            },
        };
        let pos = active.data.len();
        active.data.append(&mut rec_v);
        let new_len = active.data.len();
        self.segments.push(active);
        let cp = CommandPos { gen: self.current_gen, pos, len: new_len - pos };
        proof {
            let segs2 = self.segments@;
            let last = old_segs.len() - 1;
            assert(segs2.len() == old_segs.len());
            assert(forall|j: int| 0 <= j < last ==> segs2[j] == old_segs[j]);
            assert(segs2.last().gen == old_segs.last().gen);
            assert(segs2.last().data@ == old_segs.last().data@ + rec_seq);
            assert(forall|j: int| 0 <= j < segs2.len() ==> segs2[j].gen == old_segs[j].gen);
            lemma_replay_append_last(old_segs, segs2, Map::empty(), rec_seq, c);
            assert(total_data(segs2) == total_data(old_segs) + rec_seq.len()) by {
                assert(segs2.drop_last() =~= old_segs.drop_last());
                lemma_total_data_last(old_segs);
                lemma_total_data_last(segs2);
            }
            assert forall|k: Seq<char>, cp2: CommandPos| #[trigger]
                valid_locator(old_segs, k, cp2) implies valid_locator(segs2, k, cp2)
                && value_at(segs2, cp2) == value_at(old_segs, cp2) by {
                let si = seg_idx(old_segs, cp2.gen);
                lemma_seg_idx_unique(segs2, si);
                assert(record_of(segs2, cp2) =~= record_of(old_segs, cp2));
            }
            if c matches SpecCommand::Put { key, value } {
                lemma_seg_idx_unique(segs2, last);
                assert(record_of(segs2, cp) =~= rec_seq);
            }
        }
        cp
    }

    /// Remove `key` from the store.  When the key is present, appends a
    /// `Remove` record to the active segment, discards the index entry, and
    /// counts the displaced record's bytes as stale.  When it is absent,
    /// fails with `KeyNotFound` and changes nothing.
    pub fn remove(&mut self, key: String) -> (r: Result<(), KvsError>)
        requires
            old(self).wf(),
        ensures
            final(self).wf(),
            old(self)@.contains_key(key@) ==> r is Ok && final(self)@ == old(self)@.remove(
                key@,
            ),
            !old(self)@.contains_key(key@) ==> r == Err::<(), KvsError>(KvsError::KeyNotFound)
                && *final(self) == *old(self),
            final(self).spec_current_gen() == old(self).spec_current_gen(),
            old(self)@.contains_key(key@) ==> ({
                &&& segs_appended(
                    old(self).spec_segments(),
                    final(self).spec_segments(),
                    spec_encode((SpecCommand::Remove { key: key@ })),
                )
                &&& final(self).spec_index() == old(self).spec_index().remove(key@)
                &&& final(self).spec_uncompacted() == spec_sat_add(
                    old(self).spec_uncompacted(),
                    old(self).spec_index()[key@].len as u64,
                )
                &&& total_data(final(self).spec_segments()) == total_data(
                    old(self).spec_segments(),
                ) + spec_encode((SpecCommand::Remove { key: key@ })).len()
            }),
    {
        let present = match self.index.get(&key) {
            Some(_) => true,
            None => false,
        };
        if !present {
            return Err(KvsError::KeyNotFound);
        }
        let ghost old_index = self.index@;
        let ghost old_segs = self.segments@;
        let cmd = Command::remove(key);
        let rec = encode_command(&cmd);
        proof {
            lemma_parse_encode(cmd@, Seq::<u8>::empty());
            assert(spec_encode(cmd@) + Seq::<u8>::empty() =~= spec_encode(cmd@));
        }
        let cp = self.append_record(rec, Ghost(cmd@));
        match cmd {
            Command::Remove { key: key2 } => {
                match self.index.remove(&key2) {
                    Some(old_cp) => {
                        self.uncompacted = sat_add(self.uncompacted, old_cp.len as u64);
                    },
                    None => {
                        proof {
                            assert(false);
                        }
                    },
                }
                proof {
                    assert(self.index@ =~= apply_cmd(old_index, cmd@, cp));
                    assert forall|k: Seq<char>| #[trigger]
                        self.index@.contains_key(k) implies valid_locator(
                        self.segments@,
                        k,
                        self.index@[k],
                    ) by {
                        assert(valid_locator(old_segs, k, old_index[k]));
                    }
                    assert(self.wf());
                    assert forall|k: Seq<char>| true implies #[trigger] self@.contains_key(k)
                        == old(self)@.remove(key2@).contains_key(k) && (self@.contains_key(k)
                        ==> self@[k] == old(self)@.remove(key2@)[k]) by {
                        if self.index@.contains_key(k) {
                            assert(valid_locator(old_segs, k, old_index[k]));
                        }
                    }
                    assert(self@ =~= old(self)@.remove(key2@));
                    assert(self.index@ == old_index.remove(key2@));
                    assert(self.uncompacted == spec_sat_add(
                        old(self).spec_uncompacted(),
                        old_index[key2@].len as u64,
                    ));
                    assert(segs_appended(old_segs, self.segments@, spec_encode(cmd@)));
                }
                Ok(())
            },
            Command::Put { .. } => {
                proof {
                    assert(false);
                }
                Err(KvsError::UnexpectedCommandType)
            },
        }
    }

    /// The byte count of the store's live records: the records the index
    /// points at.
    pub closed spec fn spec_live_bytes(self) -> int {
        entries_len_sum(self.index.entries@)
    }

    /// Closing a store and reopening it from its own segments yields the
    /// same observable contents.  Replaying a well-formed store's segments
    /// rebuilds exactly its index, and the view that index describes over
    /// those segments is the store's view; `open`'s contract then gives a
    /// store with an equal view for any sequence of mutations that led
    /// here.
    pub proof fn lemma_reopen_preserves_view(self)
        requires
            self.wf(),
        ensures
            spec_replay(self.spec_segments(), Map::empty()) == Some(self.spec_index()),
            spec_view_of(self.spec_segments(), self.spec_index()) == self@,
            gens_sorted(self.spec_segments()),
            self.spec_segments().last().gen == self.spec_current_gen(),
    {
    }

    /// Rewrite every live record into a fresh compaction segment, repoint
    /// the index at it, and drop all older segments.  Afterwards the store
    /// holds exactly two segments — the compaction output and a new, empty
    /// active segment two generations ahead — the observable contents are
    /// unchanged, the stale counter is zero, and the bytes on disk are
    /// exactly the live bytes.
    pub fn compact(&mut self) -> (r: Result<(), KvsError>)
        requires
            old(self).wf(),
            old(self).spec_current_gen() <= u64::MAX - 2,
        ensures
            r is Ok,
            final(self).wf(),
            final(self)@ == old(self)@,
            final(self).spec_current_gen() == old(self).spec_current_gen() + 2,
            final(self).spec_uncompacted() == 0,
            final(self).spec_segments().len() == 2,
            final(self).spec_live_bytes() == old(self).spec_live_bytes(),
            total_data(final(self).spec_segments()) == final(self).spec_live_bytes(),
            final(self).spec_segments()[0].gen == old(self).spec_current_gen() + 1,
            final(self).spec_segments()[1].gen == old(self).spec_current_gen() + 2,
            final(self).spec_segments()[1].data@ == Seq::<u8>::empty(),
            forall|k: Seq<char>| #[trigger]
                final(self).spec_index().contains_key(k) ==> final(self).spec_index()[k].gen
                    == old(self).spec_current_gen() + 1,
    {
        let compaction_gen = self.current_gen + 1;
        let new_gen = self.current_gen + 2;
        let ghost old_segs = self.segments@;
        let ghost old_entries = self.index.entries@;
        let ghost old_index = self.index@;
        let n = self.index.len();
        let mut new_data: Vec<u8> = Vec::new();
        let ghost mut mm = Map::<Seq<char>, CommandPos>::empty();
        let mut i: usize = 0;
        proof {
            assert(self.index.entries@.take(0) =~= Seq::<IndexEntry>::empty());
        }
        while i < n
            invariant
                old(self).wf(),
                self.segments@ == old_segs,
                old_segs == old(self).spec_segments(),
                old_entries == old(self).index.entries@,
                old_index == old(self).index@,
                self.current_gen == old(self).spec_current_gen(),
                compaction_gen == self.current_gen + 1,
                self.index.wf(),
                n == self.index.entries@.len(),
                n == old_entries.len(),
                i <= n,
                forall|j: int|
                    0 <= j < n ==> self.index.entries@[j].key@ == old_entries[j].key@,
                forall|j: int| i <= j < n ==> self.index.entries@[j] == old_entries[j],
                forall|j: int|
                    0 <= j < i ==> {
                        let ncp = #[trigger] self.index.entries@[j].cp;
                        &&& ncp.gen == compaction_gen
                        &&& ncp.len == old_entries[j].cp.len
                        &&& ncp.pos + ncp.len <= new_data@.len()
                        &&& new_data@.subrange(ncp.pos as int, ncp.pos + ncp.len) == record_of(
                            old_segs,
                            old_entries[j].cp,
                        )
                    },
                seg_replay(compaction_gen, new_data@, 0, Map::<Seq<char>, CommandPos>::empty())
                    == Some(mm),
                mm == map_of(self.index.entries@.take(i as int)),
                new_data@.len() == entries_len_sum(self.index.entries@.take(i as int)),
            decreases n - i,
        {
            let ghost entries_in = self.index.entries@;
            let cp = self.index.cp_at(i);
            proof {
                assert(self.index.entries@[i as int] == old_entries[i as int]);
                lemma_map_of_value(old_entries, i as int);
                assert(old_index.contains_key(old_entries[i as int].key@));
                assert(valid_locator(old_segs, old_entries[i as int].key@, cp));
            }
            let si = find_segment(&self.segments, cp.gen);
            proof {
                lemma_seg_idx_unique(self.segments@, si as int);
                assert(cp.pos + cp.len <= self.segments@[si as int].data@.len());
            }
            let seg = &self.segments[si];
            let dlen = seg.data.len();
            assert(cp.pos + cp.len <= dlen);
            let sl = vstd::slice::slice_subrange(seg.data.as_slice(), cp.pos, cp.pos + cp.len);
            proof {
                assert(sl@ =~= record_of(old_segs, cp));
            }
            let ghost prev_nd = new_data@;
            let new_pos = new_data.len();
            crate::codec::push_bytes(&mut new_data, sl);
            let after_len = new_data.len();
            proof {
                assert(after_len == prev_nd.len() + cp.len);
            }
            let ncp = CommandPos { gen: compaction_gen, pos: new_pos, len: cp.len };
            proof {
                let c = spec_parse(sl@).unwrap().0;
                assert(spec_parse(sl@) == Some((c, sl@.len() as int)));
                lemma_seg_replay_append(
                    compaction_gen,
                    prev_nd,
                    0,
                    Map::<Seq<char>, CommandPos>::empty(),
                    sl@,
                    c,
                );
                assert(is_put_for(c, old_entries[i as int].key@));
                assert(seg_replay(
                    compaction_gen,
                    new_data@,
                    0,
                    Map::<Seq<char>, CommandPos>::empty(),
                ) == Some(mm.insert(old_entries[i as int].key@, ncp)));
                mm = mm.insert(old_entries[i as int].key@, ncp);
            }
            self.index.set_cp_at(i, ncp);
            proof {
                let es = self.index.entries@;
                assert(es.take(i as int) =~= entries_in.take(i as int));
                assert(es.take(i as int + 1).drop_last() =~= es.take(i as int));
                assert(es.take(i as int + 1).last() == es[i as int]);
                assert(es[i as int].key@ == old_entries[i as int].key@);
                assert(es[i as int].cp == ncp);
                assert(mm == map_of(es.take(i as int + 1)));
                assert(entries_len_sum(es.take(i as int + 1)) == entries_len_sum(
                    es.take(i as int),
                ) + ncp.len);
                assert forall|j: int|
                    0 <= j < i + 1 implies {
                    let ncp2 = #[trigger] es[j].cp;
                    &&& ncp2.gen == compaction_gen
                    &&& ncp2.len == old_entries[j].cp.len
                    &&& ncp2.pos + ncp2.len <= new_data@.len()
                    &&& new_data@.subrange(ncp2.pos as int, ncp2.pos + ncp2.len) == record_of(
                        old_segs,
                        old_entries[j].cp,
                    )
                } by {
                    if j < i {
                        assert(es[j].cp == entries_in[j].cp);
                        let ncp2 = es[j].cp;
                        assert(new_data@.subrange(ncp2.pos as int, ncp2.pos + ncp2.len)
                            =~= prev_nd.subrange(ncp2.pos as int, ncp2.pos + ncp2.len));
                    } else {
                        assert(new_data@.subrange(ncp.pos as int, ncp.pos + ncp.len) =~= sl@);
                    }
                }
            }
            i = i + 1;
        }
        let ghost nd = new_data@;
        proof {
            assert(self.index.entries@.take(n as int) =~= self.index.entries@);
            assert(mm == self.index@);
        }
        let mut new_segments: Vec<Segment> = Vec::new();
        new_segments.push(Segment { gen: compaction_gen, data: new_data });
        new_segments.push(Segment { gen: new_gen, data: Vec::new() });
        self.segments = new_segments;
        self.current_gen = new_gen;
        self.uncompacted = 0;
        proof {
            let segs2 = self.segments@;
            assert(segs2.len() == 2);
            assert(segs2[0].gen == compaction_gen && segs2[0].data@ == nd);
            assert(segs2[1].gen == new_gen && segs2[1].data@ =~= Seq::<u8>::empty());
            assert(gens_sorted(segs2));
            assert(seg_replay(segs2[0].gen, segs2[0].data@, 0, Map::<Seq<char>,
                CommandPos>::empty()) == Some(self.index@));
            assert(segs2.drop_first() =~= seq![segs2[1]]);
            let one = seq![segs2[1]];
            assert(one[0] == segs2[1]);
            assert(seg_replay(one[0].gen, one[0].data@, 0, self.index@) == Some(self.index@));
            assert(one.drop_first() =~= Seq::<Segment>::empty());
            assert(spec_replay(one.drop_first(), self.index@) == Some(self.index@));
            assert(spec_replay(one, self.index@) == Some(self.index@));
            assert(spec_replay(segs2, Map::empty()) == Some(self.index@));
            lemma_map_of_contains(self.index.entries@);
            lemma_map_of_contains(old_entries);
            assert forall|k: Seq<char>| #[trigger] self.index@.contains_key(k) implies
                valid_locator(segs2, k, self.index@[k]) && old_index.contains_key(k)
                && value_at(segs2, self.index@[k]) == value_at(old_segs, old_index[k])
                && self.index@[k].gen == compaction_gen by {
                let j = choose|j: int|
                    0 <= j < self.index.entries@.len() && self.index.entries@[j].key@ == k;
                lemma_map_of_value(self.index.entries@, j);
                let ncp2 = self.index.entries@[j].cp;
                assert(self.index@[k] == ncp2);
                lemma_seg_idx_unique(segs2, 0);
                assert(record_of(segs2, ncp2) =~= nd.subrange(
                    ncp2.pos as int,
                    ncp2.pos + ncp2.len,
                ));
                assert(record_of(segs2, ncp2) == record_of(old_segs, old_entries[j].cp));
                assert(old_entries[j].key@ == k);
                lemma_map_of_value(old_entries, j);
                assert(old_index[k] == old_entries[j].cp);
                assert(valid_locator(old_segs, k, old_entries[j].cp));
            }
            assert(self.wf());
            assert forall|k: Seq<char>| #[trigger] old_index.contains_key(k) implies
                self.index@.contains_key(k) by {
                let j = choose|j: int| 0 <= j < old_entries.len() && old_entries[j].key@ == k;
                assert(self.index.entries@[j].key@ == k);
            }
            assert(self@ =~= old(self)@);
            lemma_len_sum_pointwise(self.index.entries@, old_entries);
            assert(total_data(segs2) == nd.len()) by {
                lemma_total_data_last(segs2);
                assert(segs2.drop_last() =~= seq![segs2[0]]);
                lemma_total_data_last(seq![segs2[0]]);
                assert(seq![segs2[0]].drop_last() =~= Seq::<Segment>::empty());
            }
        }
        Ok(())
    }

    /// Bind `key` to `value`.  Appends a `Put` record to the active segment
    /// and repoints the index at it; the record that held the key's previous
    /// value, if any, becomes stale.  Once the stale bytes pass
    /// `COMPACTION_THRESHOLD`, the store compacts itself.
    pub fn set(&mut self, key: String, value: String) -> (r: Result<(), KvsError>)
        requires
            old(self).wf(),
            old(self).spec_current_gen() <= u64::MAX - 2,
        ensures
            r is Ok,
            final(self).wf(),
            final(self)@ == old(self)@.insert(key@, value@),
            final(self).spec_uncompacted() <= COMPACTION_THRESHOLD,
            final(self).spec_current_gen() == old(self).spec_current_gen()
                || final(self).spec_current_gen() == old(self).spec_current_gen() + 2,
            ({
                let unc2 = spec_sat_add(
                    old(self).spec_uncompacted(),
                    spec_displaced_len(old(self).spec_index(), key@),
                );
                final(self).spec_current_gen() == old(self).spec_current_gen() + 2 <==> unc2
                    > COMPACTION_THRESHOLD
            }),
            final(self).spec_current_gen() == old(self).spec_current_gen() + 2 ==> ({
                &&& final(self).spec_segments().len() == 2
                &&& total_data(final(self).spec_segments()) == final(self).spec_live_bytes()
                &&& final(self).spec_uncompacted() == 0
            }),
            final(self).spec_current_gen() == old(self).spec_current_gen() ==> ({
                let rec = spec_encode(SpecCommand::Put { key: key@, value: value@ });
                &&& segs_appended(old(self).spec_segments(), final(self).spec_segments(), rec)
                &&& total_data(final(self).spec_segments()) == total_data(
                    old(self).spec_segments(),
                ) + rec.len()
                &&& final(self).spec_index() == old(self).spec_index().insert(
                    key@,
                    (CommandPos {
                        gen: old(self).spec_current_gen(),
                        pos: old(self).spec_segments().last().data@.len() as usize,
                        len: rec.len() as usize,
                    }),
                )
                &&& final(self).spec_uncompacted() == spec_sat_add(
                    old(self).spec_uncompacted(),
                    spec_displaced_len(old(self).spec_index(), key@),
                )
            }),
    {
        let ghost k = key@;
        let ghost v = value@;
        let ghost old_index = self.index@;
        let ghost old_segs = self.segments@;
        let cmd = Command::set(key, value);
        let rec = encode_command(&cmd);
        proof {
            lemma_parse_encode(cmd@, Seq::<u8>::empty());
            assert(spec_encode(cmd@) + Seq::<u8>::empty() =~= spec_encode(cmd@));
        }
        let cp = self.append_record(rec, Ghost(cmd@));
        match cmd {
            Command::Put { key: key2, value: value2 } => {
                match self.index.insert(key2, cp) {
                    Some(old_cp) => {
                        self.uncompacted = sat_add(self.uncompacted, old_cp.len as u64);
                    },
                    None => {
                    },
                }
                proof {
                    assert(self.index@ =~= apply_cmd(old_index, cmd@, cp));
                    assert forall|k2: Seq<char>| #[trigger]
                        self.index@.contains_key(k2) implies valid_locator(
                        self.segments@,
                        k2,
                        self.index@[k2],
                    ) by {
                        if k2 != k {
                            assert(old_index.contains_key(k2) && old_index[k2]
                                == self.index@[k2]);
                            assert(valid_locator(old_segs, k2, old_index[k2]));
                        }
                    }
                    assert(self.wf());
                    assert forall|k2: Seq<char>| true implies #[trigger] self@.contains_key(k2)
                        == old(self)@.insert(k, v).contains_key(k2) && (self@.contains_key(k2)
                        ==> self@[k2] == old(self)@.insert(k, v)[k2]) by {
                        if k2 != k && self.index@.contains_key(k2) {
                            assert(valid_locator(old_segs, k2, old_index[k2]));
                        }
                    }
                    assert(self@ =~= old(self)@.insert(k, v));
                    assert(self.index@ =~= old_index.insert(k, cp));
                    assert(self.index@ == old_index.insert(k, cp));
                    assert(self.uncompacted == spec_sat_add(
                        old(self).spec_uncompacted(),
                        spec_displaced_len(old_index, k),
                    ));
                    assert(segs_appended(old_segs, self.segments@, spec_encode(cmd@)));
                }
            },
            Command::Remove { .. } => {
                proof {
                    assert(false);
                }
            },
        }
        if self.uncompacted > COMPACTION_THRESHOLD {
            match self.compact() {
                Ok(()) => Ok(()),
                Err(e) => {
                    proof {
                        assert(false);
                    }
                    Err(e)
                },
            }
        } else {
            Ok(())
        }
    }

    /// The store's segments, oldest first; the last one is the active
    /// segment.  Callers that mirror the store onto a filesystem write one
    /// file per segment, named by `crate::paths::log_path`.
    pub fn segments(&self) -> (r: &Vec<Segment>)
        ensures
            r@ == self.spec_segments(),
    {
        &self.segments
    }

    /// The generation of the active segment.
    pub fn current_gen(&self) -> (g: u64)
        ensures
            g == self.spec_current_gen(),
    {
        self.current_gen
    }

    /// The stale-byte counter: an advisory estimate of the bytes in the
    /// segments that no live index entry points at.
    pub fn uncompacted(&self) -> (u: u64)
        ensures
            u == self.spec_uncompacted(),
    {
        self.uncompacted
    }

    /// Look up the value for `key`.  Returns `Ok(None)` when the key is
    /// absent; when present, seeks the segment the index names and decodes
    /// exactly the record's bytes.  On a well-formed store the decode cannot
    /// fail, so the result is always `Ok`.
    pub fn get(&self, key: String) -> (r: Result<Option<String>, KvsError>)
        requires
            self.wf(),
        ensures
            r is Ok,
            r matches Ok(v) ==> (match v {
                Some(s) => self@.contains_key(key@) && s@ == self@[key@],
                None => !self@.contains_key(key@),
            }),
    {
        match self.index.get(&key) {
            None => Ok(None),
            Some(cp) => {
                proof {
                    assert(self.index@.contains_key(key@));
                    assert(valid_locator(self.segments@, key@, cp));
                }
                let si = find_segment(&self.segments, cp.gen);
                proof {
                    lemma_seg_idx_unique(self.segments@, si as int);
                    assert(cp.pos + cp.len <= self.segments@[si as int].data@.len());
                }
                let seg = &self.segments[si];
                let dlen = seg.data.len();
                assert(cp.pos + cp.len <= dlen);
                let sl = vstd::slice::slice_subrange(seg.data.as_slice(), cp.pos, cp.pos + cp.len);
                proof {
                    assert(sl@ =~= record_of(self.segments@, cp));
                    assert(sl@.subrange(0, sl@.len() as int) =~= sl@);
                }
                match parse_command(sl, 0) {
                    Ok((cmd, n)) => {
                        match cmd {
                            Command::Put { key: _, value } => Ok(Some(value)),
                            Command::Remove { key: _ } => {
                                proof {
                                    assert(false);
                                }
                                Err(KvsError::UnexpectedCommandType)
                            },
                        }
                    },
                    Err(e) => {
                        proof {
                            assert(false);
                        }
                        Err(e)
                    },
                }
            },
        }
    }
}


/// The contents described by a sequence of mutations applied in order:
/// each `Put` binds its key, each `Remove` erases it.  `set` and `remove`
/// ensure that the store's view evolves by exactly these two steps, so a
/// store that served the mutations `ops` from empty has view
/// `run_cmds(ops, Map::empty())`.
pub open spec fn run_cmds(
    ops: Seq<SpecCommand>,
    m: Map<Seq<char>, Seq<char>>,
) -> Map<Seq<char>, Seq<char>>
    decreases ops.len(),
{
    if ops.len() == 0 {
        m
    } else {
        match ops.last() {
            SpecCommand::Put { key, value } => run_cmds(ops.drop_last(), m).insert(key, value),
            SpecCommand::Remove { key } => run_cmds(ops.drop_last(), m).remove(key),
        }
    }
}

/// The value of the most recent `Put` of `k` in `ops`, unless a `Remove`
/// of `k` came after it; `None` when `k` was never put or was erased last.
pub open spec fn last_write(ops: Seq<SpecCommand>, k: Seq<char>) -> Option<Seq<char>>
    decreases ops.len(),
{
    if ops.len() == 0 {
        None
    } else {
        match ops.last() {
            SpecCommand::Put { key, value } => if key == k {
                Some(value)
            } else {
                last_write(ops.drop_last(), k)
            },
            SpecCommand::Remove { key } => if key == k {
                None
            } else {
                last_write(ops.drop_last(), k)
            },
        }
    }
}

/// The last write wins.  After any sequence of mutations on an empty
/// store, a key reads as the value of its most recent `Put` that no later
/// `Remove` erased, and is absent otherwise.  Together with the contracts
/// of `set`, `remove` and `get` — which evolve and read the view exactly
/// as `run_cmds` does — this is the store's sequential semantics.
pub proof fn lemma_last_write_wins(ops: Seq<SpecCommand>, k: Seq<char>)
    ensures
        run_cmds(ops, Map::empty()).contains_key(k) <==> last_write(ops, k) is Some,
        last_write(ops, k) matches Some(v) ==> run_cmds(ops, Map::empty())[k] == v,
    decreases ops.len(),
{
    if ops.len() > 0 {
        lemma_last_write_wins(ops.drop_last(), k);
    }
}

} // verus!
