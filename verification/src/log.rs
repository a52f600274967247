use vstd::prelude::*;
use crate::codec::SpecCommand;
use crate::codec::spec_parse;
use crate::codec::lemma_parse_len;
use crate::codec::lemma_parse_stable;
use crate::index::CommandPos;

verus! {

/// One log segment: a generation number and the segment's bytes, which are
/// serialized records laid back to back with no framing between them.
pub struct Segment {
    pub gen: u64,
    pub data: Vec<u8>,
}

/// Generations strictly increase along the segment list, so the list is in
/// replay order and no two segments share a generation.
pub open spec fn gens_sorted(segs: Seq<Segment>) -> bool {
    forall|i: int, j: int| 0 <= i < j < segs.len() ==> segs[i].gen < segs[j].gen
}

/// Some segment carries generation `gen`.
pub open spec fn has_gen(segs: Seq<Segment>, gen: u64) -> bool {
    exists|i: int| 0 <= i < segs.len() && segs[i].gen == gen
}

/// The position of the segment carrying generation `gen`.
pub open spec fn seg_idx(segs: Seq<Segment>, gen: u64) -> int {
    choose|i: int| 0 <= i < segs.len() && segs[i].gen == gen
}

/// In a sorted list the segment at position `i` is the one `seg_idx` finds
/// for its generation.
pub proof fn lemma_seg_idx_unique(segs: Seq<Segment>, i: int)
    requires
        gens_sorted(segs),
        0 <= i < segs.len(),
    ensures
        has_gen(segs, segs[i].gen),
        seg_idx(segs, segs[i].gen) == i,
{
    let g = segs[i].gen;
    assert(has_gen(segs, g));
    let j = seg_idx(segs, g);
    if j < i {
        assert(segs[j].gen < segs[i].gen);
    } else if j > i {
        assert(segs[i].gen < segs[j].gen);
    }
}

/// The bytes of the record that locator `cp` points at.
pub open spec fn record_of(segs: Seq<Segment>, cp: CommandPos) -> Seq<u8> {
    segs[seg_idx(segs, cp.gen)].data@.subrange(cp.pos as int, cp.pos + cp.len)
}

/// Does `c` store key `k`?
pub open spec fn is_put_for(c: SpecCommand, k: Seq<char>) -> bool {
    match c {
        SpecCommand::Put { key, value } => key == k,
        SpecCommand::Remove { key } => false,
    }
}

/// The value a `Put` command stores.
pub open spec fn put_value(c: SpecCommand) -> Seq<char> {
    match c {
        SpecCommand::Put { key, value } => value,
        SpecCommand::Remove { key } => Seq::empty(),
    }
}

/// A locator is valid for key `k` when its generation names a segment, its
/// byte range lies within that segment, and those bytes decode to a whole
/// `Put` record whose key is `k`.
pub open spec fn valid_locator(segs: Seq<Segment>, k: Seq<char>, cp: CommandPos) -> bool {
    &&& has_gen(segs, cp.gen)
    &&& cp.pos + cp.len <= segs[seg_idx(segs, cp.gen)].data@.len()
    &&& (spec_parse(record_of(segs, cp)) matches Some(p) && is_put_for(p.0, k) && p.1
        == cp.len as int)
}

/// The value stored by the record that `cp` points at.
pub open spec fn value_at(segs: Seq<Segment>, cp: CommandPos) -> Seq<char> {
    match spec_parse(record_of(segs, cp)) {
        Some(p) => put_value(p.0),
        None => Seq::empty(),
    }
}

/// How one replayed command changes the index: a `Put` installs the record's
/// locator under its key, a `Remove` discards the key.
pub open spec fn apply_cmd(
    m: Map<Seq<char>, CommandPos>,
    c: SpecCommand,
    cp: CommandPos,
) -> Map<Seq<char>, CommandPos> {
    match c {
        SpecCommand::Put { key, value } => m.insert(key, cp),
        SpecCommand::Remove { key } => m.remove(key),
    }
}

/// Replay the records of one segment from byte offset `pos` onward, folding
/// each into `m`.  `None` marks a decode failure.
pub open spec fn seg_replay(
    gen: u64,
    data: Seq<u8>,
    pos: int,
    m: Map<Seq<char>, CommandPos>,
) -> Option<Map<Seq<char>, CommandPos>>
    decreases data.len() - pos,
{
    if pos == data.len() {
        Some(m)
    } else if pos < 0 || pos > data.len() {
        None
    } else {
        match spec_parse(data.subrange(pos, data.len() as int)) {
            None => None,
            Some((c, n)) => if n < 1 || pos + n > data.len() {
                None
            } else {
                seg_replay(
                    gen,
                    data,
                    pos + n,
                    apply_cmd(m, c, CommandPos { gen, pos: pos as usize, len: n as usize }),
                )
            },
        }
    }
}

/// Addition saturating at the top of `u64`: how the stale-byte counter
/// grows.  The counter is a trigger, not an exact count, so capping it is
/// harmless.
pub open spec fn spec_sat_add(a: u64, b: u64) -> u64 {
    if a + b <= u64::MAX {
        (a + b) as u64
    } else {
        u64::MAX
    }
}

/// The stale-byte count replaying one segment accumulates from byte offset
/// `pos` onward, starting from `acc`, with `m` the index at that point: a
/// `Put` adds the length of the record it displaces; a `Remove` adds the
/// length of the record it deletes, if any, and then its own byte span —
/// a `Remove` of an absent key counts only its own bytes.  Where the bytes
/// do not decode the count stops; the loader fails there and reports
/// nothing.
pub open spec fn seg_stale(
    gen: u64,
    data: Seq<u8>,
    pos: int,
    m: Map<Seq<char>, CommandPos>,
    acc: u64,
) -> u64
    decreases data.len() - pos,
{
    if pos < 0 || pos >= data.len() {
        acc
    } else {
        match spec_parse(data.subrange(pos, data.len() as int)) {
            None => acc,
            Some((c, n)) => if n < 1 || pos + n > data.len() {
                acc
            } else {
                let acc2 = match c {
                    SpecCommand::Put { key, value } => if m.contains_key(key) {
                        spec_sat_add(acc, m[key].len as u64)
                    } else {
                        acc
                    },
                    SpecCommand::Remove { key } => spec_sat_add(
                        if m.contains_key(key) {
                            spec_sat_add(acc, m[key].len as u64)
                        } else {
                            acc
                        },
                        n as u64,
                    ),
                };
                seg_stale(
                    gen,
                    data,
                    pos + n,
                    apply_cmd(m, c, CommandPos { gen, pos: pos as usize, len: n as usize }),
                    acc2,
                )
            },
        }
    }
}

/// The stale-byte count replaying a list of segments accumulates, oldest
/// first.
pub open spec fn spec_stale(files: Seq<Segment>, m: Map<Seq<char>, CommandPos>, acc: u64) -> u64
    decreases files.len(),
{
    if files.len() == 0 {
        acc
    } else {
        let acc2 = seg_stale(files[0].gen, files[0].data@, 0, m, acc);
        match seg_replay(files[0].gen, files[0].data@, 0, m) {
            None => acc2,
            Some(m2) => spec_stale(files.drop_first(), m2, acc2),
        }
    }
}

/// Replay a list of segments in order, oldest first: the last write to a key
/// wins, and a `Remove` erases it.
pub open spec fn spec_replay(
    segs: Seq<Segment>,
    m: Map<Seq<char>, CommandPos>,
) -> Option<Map<Seq<char>, CommandPos>>
    decreases segs.len(),
{
    if segs.len() == 0 {
        Some(m)
    } else {
        match seg_replay(segs[0].gen, segs[0].data@, 0, m) {
            None => None,
            Some(m2) => spec_replay(segs.drop_first(), m2),
        }
    }
}

/// Replaying a list is replaying a prefix and then the rest.
pub proof fn lemma_replay_split(segs: Seq<Segment>, i: int, m: Map<Seq<char>, CommandPos>)
    requires
        0 <= i <= segs.len(),
    ensures
        spec_replay(segs, m) == (match spec_replay(segs.take(i), m) {
            None => None,
            Some(m2) => spec_replay(segs.skip(i), m2),
        }),
    decreases i,
{
    if i == 0 {
        assert(segs.take(0) =~= Seq::<Segment>::empty());
        assert(segs.skip(0) =~= segs);
    } else {
        assert(segs.take(i)[0] == segs[0]);
        match seg_replay(segs[0].gen, segs[0].data@, 0, m) {
            None => {
            },
            Some(m2) => {
                assert(segs.take(i).drop_first() =~= segs.drop_first().take(i - 1));
                assert(segs.skip(i) =~= segs.drop_first().skip(i - 1));
                lemma_replay_split(segs.drop_first(), i - 1, m2);
            },
        }
    }
}

/// Appending one whole record to a segment extends its replay by exactly
/// that command, located at the old end of the segment.
pub proof fn lemma_seg_replay_append(
    gen: u64,
    data: Seq<u8>,
    pos: int,
    m: Map<Seq<char>, CommandPos>,
    r: Seq<u8>,
    c: SpecCommand,
)
    requires
        0 <= pos <= data.len(),
        seg_replay(gen, data, pos, m) is Some,
        spec_parse(r) == Some((c, r.len() as int)),
        data.len() + r.len() <= usize::MAX,
    ensures
        seg_replay(gen, data + r, pos, m) == Some(
            apply_cmd(
                seg_replay(gen, data, pos, m).unwrap(),
                c,
                CommandPos { gen, pos: data.len() as usize, len: r.len() as usize },
            ),
        ),
    decreases data.len() - pos,
{
    lemma_parse_len(r);
    let whole = data + r;
    if pos == data.len() {
        assert(whole.subrange(pos, whole.len() as int) =~= r);
        assert(seg_replay(gen, whole, pos + r.len(), apply_cmd(m, c, CommandPos { gen, pos: pos as usize, len: r.len() as usize })) == Some(apply_cmd(m, c, CommandPos { gen, pos: pos as usize, len: r.len() as usize })));
    } else {
        let tail = data.subrange(pos, data.len() as int);
        let wtail = whole.subrange(pos, whole.len() as int);
        let p = spec_parse(tail).unwrap();
        lemma_parse_len(tail);
        assert(tail.subrange(0, p.1) =~= wtail.subrange(0, p.1));
        lemma_parse_stable(tail, wtail);
        let m2 = apply_cmd(m, p.0, CommandPos { gen, pos: pos as usize, len: p.1 as usize });
        lemma_seg_replay_append(gen, data, pos + p.1, m2, r, c);
    }
}

/// Appending one whole record to the last segment of a list extends the
/// list's replay by exactly that command.
pub proof fn lemma_replay_append_last(
    segs: Seq<Segment>,
    segs2: Seq<Segment>,
    m: Map<Seq<char>, CommandPos>,
    r: Seq<u8>,
    c: SpecCommand,
)
    requires
        segs.len() >= 1,
        segs2.len() == segs.len(),
        forall|j: int| 0 <= j < segs.len() - 1 ==> segs2[j] == segs[j],
        segs2.last().gen == segs.last().gen,
        segs2.last().data@ == segs.last().data@ + r,
        spec_replay(segs, m) is Some,
        spec_parse(r) == Some((c, r.len() as int)),
        segs.last().data@.len() + r.len() <= usize::MAX,
    ensures
        spec_replay(segs2, m) == Some(
            apply_cmd(
                spec_replay(segs, m).unwrap(),
                c,
                CommandPos {
                    gen: segs.last().gen,
                    pos: segs.last().data@.len() as usize,
                    len: r.len() as usize,
                },
            ),
        ),
    decreases segs.len(),
{
    lemma_parse_len(r);
    if segs.len() == 1 {
        assert(segs2.last() == segs2[0]);
        assert(segs.last() == segs[0]);
        lemma_seg_replay_append(segs[0].gen, segs[0].data@, 0, m, r, c);
        assert(segs2[0].gen == segs[0].gen);
        assert(segs2[0].data@ == segs[0].data@ + r);
        assert(segs.drop_first() =~= Seq::<Segment>::empty());
        assert(segs2.drop_first() =~= Seq::<Segment>::empty());
        assert(seg_replay(segs[0].gen, segs[0].data@, 0, m) is Some);
        let m1 = seg_replay(segs[0].gen, segs[0].data@, 0, m).unwrap();
        assert(spec_replay(segs, m) == Some(m1));
        let cp = CommandPos {
            gen: segs.last().gen,
            pos: segs.last().data@.len() as usize,
            len: r.len() as usize,
        };
        assert(seg_replay(segs2[0].gen, segs2[0].data@, 0, m) == Some(apply_cmd(m1, c, cp)));
        assert(spec_replay(segs2, m) == spec_replay(segs2.drop_first(), apply_cmd(m1, c, cp)));
        assert(spec_replay(segs2.drop_first(), apply_cmd(m1, c, cp)) == Some(
            apply_cmd(m1, c, cp),
        ));
        assert(spec_replay(segs2, m) == Some(apply_cmd(m1, c, cp)));
    } else {
        assert(segs2[0] == segs[0]);
        let first = seg_replay(segs[0].gen, segs[0].data@, 0, m);
        assert(first is Some) by {
            if first is None {
                assert(spec_replay(segs, m) is None);
            }
        }
        let m2 = first.unwrap();
        assert(spec_replay(segs, m) == spec_replay(segs.drop_first(), m2));
        assert(spec_replay(segs2, m) == spec_replay(segs2.drop_first(), m2));
        assert(forall|j: int|
            0 <= j < segs.drop_first().len() - 1 ==> segs2.drop_first()[j]
                == segs.drop_first()[j]);
        assert(segs.drop_first().last() == segs.last());
        assert(segs2.drop_first().last() == segs2.last());
        lemma_replay_append_last(segs.drop_first(), segs2.drop_first(), m2, r, c);
    }
}

/// The total byte count across all segments.
pub open spec fn total_data(segs: Seq<Segment>) -> int
    decreases segs.len(),
{
    if segs.len() == 0 {
        0
    } else {
        total_data(segs.drop_last()) + segs.last().data@.len()
    }
}

/// One unfolding of `total_data`, for callers that replace the last segment.
pub proof fn lemma_total_data_last(segs: Seq<Segment>)
    requires
        segs.len() >= 1,
    ensures
        total_data(segs) == total_data(segs.drop_last()) + segs.last().data@.len(),
{
}

} // verus!
