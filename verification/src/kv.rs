//! The log-structured storage engine.
//!
//! The store keeps an ordered family of append-only segments.  The last
//! segment is the *active* one — the only write target; every earlier
//! segment is *sealed* and never changes.  A volatile index maps each
//! live key to the segment and offset of its authoritative `Set` record.
//!
//! The central invariant, [`KvStore::wf`], states that the index equals
//! the *replay* of the segments: folding every record of every segment,
//! in ascending segment order, over an empty map.  Everything else —
//! that reads resolve to well-formed records, that reopening a store
//! rebuilds the same index, that compaction preserves every observable
//! value — follows from it.

use vstd::prelude::*;

use crate::codec::{
    decode_command, encode_command, spec_decode, spec_encode, Command, CommandType, Op,
};
use crate::config::Config;
use crate::engine::KvsEngine;
use crate::error::KvStoreError;

verus! {

/// Where a key's authoritative record lives.
#[derive(Clone, Copy, PartialEq, Eq, Structural, Debug)]
pub struct FilePointer {
    /// The id of the segment holding the record.
    pub segment_id: u16,
    /// The character offset of the record inside that segment.
    pub offset: usize,
}

/// One log segment: an id and the characters appended to it so far.
#[derive(Debug)]
pub struct Segment {
    /// The integer identity of the segment; its file is named after it.
    pub id: u16,
    /// The segment's contents: a stream of encoded records.
    pub data: Vec<char>,
}

// ------------------------------------------------------------------
// Replaying a log.
// ------------------------------------------------------------------

/// One record's effect on the index.
pub open spec fn apply_op(
    m: Map<Seq<char>, FilePointer>,
    op: Op,
    sid: u16,
    off: usize,
) -> Map<Seq<char>, FilePointer> {
    match op {
        Op::Put { key, .. } => m.insert(key, FilePointer { segment_id: sid, offset: off }),
        Op::Rm { key } => m.remove(key),
    }
}

/// Folds the records of one segment, from `off` on, over `m`.
pub open spec fn replay_seg(
    m: Map<Seq<char>, FilePointer>,
    sid: u16,
    data: Seq<char>,
    off: int,
) -> Map<Seq<char>, FilePointer>
    decreases data.len() - off,
{
    if off < 0 || off >= data.len() || off > usize::MAX {
        m
    } else {
        match spec_decode(data, off) {
            Some((op, end)) => if off < end <= data.len() {
                replay_seg(apply_op(m, op, sid, off as usize), sid, data, end)
            } else {
                m
            },
            None => m,
        }
    }
}

/// The index a log dictates: every record of every segment, replayed in
/// order over the empty map.
pub open spec fn replay(segs: Seq<Segment>) -> Map<Seq<char>, FilePointer>
    decreases segs.len(),
{
    if segs.len() == 0 {
        Map::empty()
    } else {
        replay_seg(replay(segs.drop_last()), segs.last().id, segs.last().data@, 0)
    }
}

/// The stream starting at `off` is a whole number of records.
pub open spec fn decodes_from(data: Seq<char>, off: int) -> bool
    decreases data.len() - off,
{
    if off == data.len() {
        true
    } else if off < 0 || off > data.len() {
        false
    } else {
        match spec_decode(data, off) {
            Some((op, end)) => off < end <= data.len() && decodes_from(data, end),
            None => false,
        }
    }
}

/// The whole segment is a stream of records.
pub open spec fn stream_ok(data: Seq<char>) -> bool {
    decodes_from(data, 0)
}

// ------------------------------------------------------------------
// Finding a segment by id.
// ------------------------------------------------------------------

/// Segment ids strictly increase left to right.
pub open spec fn sorted_ids(segs: Seq<Segment>) -> bool {
    forall|i: int, j: int| 0 <= i < j < segs.len() ==> segs[i].id < segs[j].id
}

/// The position of the segment with id `sid`, if any (the rightmost,
/// which under [`sorted_ids`] is the only one).
pub open spec fn find_seg(segs: Seq<Segment>, sid: u16) -> Option<int>
    decreases segs.len(),
{
    if segs.len() == 0 {
        None
    } else if segs.last().id == sid {
        Some(segs.len() - 1)
    } else {
        find_seg(segs.drop_last(), sid)
    }
}

/// What `find_seg` returns is a real position carrying that id.
pub proof fn lemma_find_seg_some(segs: Seq<Segment>, sid: u16)
    requires
        find_seg(segs, sid) is Some,
    ensures
        0 <= find_seg(segs, sid)->Some_0 < segs.len(),
        segs[find_seg(segs, sid)->Some_0].id == sid,
    decreases segs.len(),
{
    if segs.len() > 0 && segs.last().id != sid {
        lemma_find_seg_some(segs.drop_last(), sid);
    }
}

/// Under sorted ids, any position carrying `sid` is the one found.
pub proof fn lemma_find_seg_at(segs: Seq<Segment>, i: int)
    requires
        sorted_ids(segs),
        0 <= i < segs.len(),
    ensures
        find_seg(segs, segs[i].id) == Some(i),
    decreases segs.len(),
{
    if i == segs.len() - 1 {
    } else {
        assert(segs[i].id < segs.last().id);
        lemma_find_seg_at(segs.drop_last(), i);
    }
}

// ------------------------------------------------------------------
// Validity of the locations replay produces.
// ------------------------------------------------------------------

/// `fp` points into a present segment, at a canonical `Set` record for
/// exactly the key `k`.
pub open spec fn loc_valid(segs: Seq<Segment>, k: Seq<char>, fp: FilePointer) -> bool {
    &&& find_seg(segs, fp.segment_id) is Some
    &&& {
        let data = segs[find_seg(segs, fp.segment_id)->Some_0].data@;
        match spec_decode(data, fp.offset as int) {
            Some((op, end)) => op matches Op::Put { key, .. } && key == k,
            None => false,
        }
    }
}

/// The value stored at a location.
pub open spec fn value_at(segs: Seq<Segment>, fp: FilePointer) -> Seq<char> {
    let data = segs[find_seg(segs, fp.segment_id)->Some_0].data@;
    match spec_decode(data, fp.offset as int) {
        Some((op, end)) => match op {
            Op::Put { value, .. } => value,
            Op::Rm { .. } => Seq::empty(),
        },
        None => Seq::empty(),
    }
}

/// Every entry of `m` is a valid location.
pub open spec fn locs_valid(m: Map<Seq<char>, FilePointer>, segs: Seq<Segment>) -> bool {
    forall|k: Seq<char>| #[trigger] m.contains_key(k) ==> loc_valid(segs, k, m[k])
}

/// Replaying a segment that is part of `segs` only adds valid locations.
proof fn lemma_replay_seg_valid(
    m: Map<Seq<char>, FilePointer>,
    sid: u16,
    data: Seq<char>,
    off: int,
    segs: Seq<Segment>,
    at: int,
)
    requires
        locs_valid(m, segs),
        0 <= at < segs.len(),
        segs[at].id == sid,
        segs[at].data@ == data,
        find_seg(segs, sid) == Some(at),
    ensures
        locs_valid(replay_seg(m, sid, data, off), segs),
    decreases data.len() - off,
{
    if 0 <= off && off < data.len() && off <= usize::MAX {
        match spec_decode(data, off) {
            Some((op, end)) => {
                if off < end <= data.len() {
                    let m2 = apply_op(m, op, sid, off as usize);
                    assert forall|k: Seq<char>| #[trigger] m2.contains_key(k) implies loc_valid(
                        segs,
                        k,
                        m2[k],
                    ) by {
                        match op {
                            Op::Put { key, value } => {
                                if k == key {
                                    assert(m2[k] == FilePointer {
                                        segment_id: sid,
                                        offset: off as usize,
                                    });
                                } else {
                                    assert(m.contains_key(k) && m2[k] == m[k]);
                                }
                            },
                            Op::Rm { key } => {
                                assert(m.contains_key(k) && m2[k] == m[k]);
                            },
                        }
                    }
                    lemma_replay_seg_valid(m2, sid, data, end, segs, at);
                }
            },
            None => {},
        }
    }
}

/// Every location the replay of a sorted log produces is valid.
pub proof fn lemma_replay_valid(segs: Seq<Segment>)
    requires
        sorted_ids(segs),
    ensures
        locs_valid(replay(segs), segs),
    decreases segs.len(),
{
    if segs.len() == 0 {
    } else {
        let prefix = segs.drop_last();
        assert(sorted_ids(prefix)) by {
            assert forall|i: int, j: int| 0 <= i < j < prefix.len() implies prefix[i].id
                < prefix[j].id by {
                assert(segs[i].id < segs[j].id);
            }
        }
        lemma_replay_valid(prefix);
        let m = replay(prefix);
        // Entries valid for the prefix stay valid when the last segment
        // is appended: their segments and positions do not move.
        assert forall|k: Seq<char>| #[trigger] m.contains_key(k) implies loc_valid(
            segs,
            k,
            m[k],
        ) by {
            let fp = m[k];
            lemma_find_seg_some(prefix, fp.segment_id);
            let i = find_seg(prefix, fp.segment_id)->Some_0;
            assert(prefix[i] == segs[i]);
            assert(segs[i].id < segs.last().id);
            lemma_find_seg_at(segs, i);
        }
        lemma_find_seg_at(segs, segs.len() - 1);
        lemma_replay_seg_valid(m, segs.last().id, segs.last().data@, 0, segs, segs.len() - 1);
    }
}

// ------------------------------------------------------------------
// Appending a record to the active segment.
// ------------------------------------------------------------------

/// A decode that succeeded still succeeds, with the same result, in any
/// stream that carries the same characters over the consumed window.
pub proof fn lemma_decode_stable(data: Seq<char>, data2: Seq<char>, off: int)
    requires
        spec_decode(data, off) is Some,
        spec_decode(data, off)->Some_0.1 <= data2.len(),
        data2.subrange(off, spec_decode(data, off)->Some_0.1) == data.subrange(
            off,
            spec_decode(data, off)->Some_0.1,
        ),
    ensures
        spec_decode(data2, off) == spec_decode(data, off),
{
    let (op, end) = spec_decode(data, off)->Some_0;
    crate::codec::lemma_decode_sound(data, off);
    crate::codec::lemma_decode_encode(op, data2, off);
}

/// Appending characters to a segment leaves the replay of its earlier
/// records unchanged.
proof fn lemma_replay_seg_extend(
    m: Map<Seq<char>, FilePointer>,
    sid: u16,
    data: Seq<char>,
    off: int,
    op: Op,
)
    requires
        0 <= off,
        decodes_from(data, off),
        data.len() + spec_encode(op).len() <= usize::MAX,
    ensures
        replay_seg(m, sid, data + spec_encode(op), off) == apply_op(
            replay_seg(m, sid, data, off),
            op,
            sid,
            data.len() as usize,
        ),
        decodes_from(data + spec_encode(op), off),
    decreases data.len() - off,
{
    let enc = spec_encode(op);
    let data2 = data + enc;
    if off == data.len() {
        assert(replay_seg(m, sid, data, off) == m);
        assert(data2.subrange(off, off + enc.len()) =~= enc);
        crate::codec::lemma_decode_encode(op, data2, off);
        let end = off + enc.len();
        crate::codec::lemma_decode_sound(data2, off);
        if end < data2.len() {
            assert(false);
        }
        assert(replay_seg(m, sid, data2, off) == if off < data2.len() {
            replay_seg(apply_op(m, op, sid, off as usize), sid, data2, end)
        } else {
            m
        });
        if off < data2.len() {
            assert(replay_seg(apply_op(m, op, sid, off as usize), sid, data2, end) == apply_op(
                m,
                op,
                sid,
                off as usize,
            ));
        } else {
            // The record encoding is never empty.
            crate::codec::lemma_decode_sound(data2, off);
            assert(false);
        }
        assert(decodes_from(data2, end));
        assert(decodes_from(data2, off));
    } else {
        let (op2, end) = spec_decode(data, off)->Some_0;
        crate::codec::lemma_decode_sound(data, off);
        assert(data2.subrange(off, end) =~= data.subrange(off, end));
        lemma_decode_stable(data, data2, off);
        lemma_replay_seg_extend(apply_op(m, op2, sid, off as usize), sid, data, end, op);
    }
}

/// Appending one encoded record to the last segment applies exactly that
/// record's effect to the replayed index, and keeps the stream whole.
pub proof fn lemma_replay_extend(segs: Seq<Segment>, segs2: Seq<Segment>, op: Op)
    requires
        segs.len() > 0,
        segs2.len() == segs.len(),
        segs2.drop_last() == segs.drop_last(),
        segs2.last().id == segs.last().id,
        segs2.last().data@ == segs.last().data@ + spec_encode(op),
        stream_ok(segs.last().data@),
        segs.last().data@.len() + spec_encode(op).len() <= usize::MAX,
    ensures
        replay(segs2) == apply_op(
            replay(segs),
            op,
            segs.last().id,
            segs.last().data@.len() as usize,
        ),
        stream_ok(segs2.last().data@),
{
    lemma_replay_seg_extend(replay(segs.drop_last()), segs.last().id, segs.last().data@, 0, op);
}

// ------------------------------------------------------------------
// Ordering segments by id.
// ------------------------------------------------------------------

/// Places a segment after every segment with an id not above its own.
pub open spec fn insert_seg(sorted: Seq<Segment>, seg: Segment) -> Seq<Segment>
    decreases sorted.len(),
{
    if sorted.len() == 0 {
        seq![seg]
    } else if sorted.last().id <= seg.id {
        sorted.push(seg)
    } else {
        insert_seg(sorted.drop_last(), seg).push(sorted.last())
    }
}

/// The segments reordered so that ids never decrease.
pub open spec fn sort_segs(segs: Seq<Segment>) -> Seq<Segment>
    decreases segs.len(),
{
    if segs.len() == 0 {
        Seq::empty()
    } else {
        insert_seg(sort_segs(segs.drop_last()), segs.last())
    }
}

/// Where the insertion lands: just after the rightmost id not above the
/// new segment's.
proof fn lemma_insert_seg_at(sorted: Seq<Segment>, seg: Segment, p: int)
    requires
        0 <= p <= sorted.len(),
        forall|t: int| p <= t < sorted.len() ==> sorted[t].id > seg.id,
        p == 0 || sorted[p - 1].id <= seg.id,
    ensures
        insert_seg(sorted, seg) == sorted.insert(p, seg),
    decreases sorted.len(),
{
    if sorted.len() == 0 {
        assert(insert_seg(sorted, seg) =~= sorted.insert(0, seg));
    } else if sorted.last().id <= seg.id {
        assert(p == sorted.len());
        assert(sorted.push(seg) =~= sorted.insert(p, seg));
    } else {
        assert(p < sorted.len());
        lemma_insert_seg_at(sorted.drop_last(), seg, p);
        assert(insert_seg(sorted.drop_last(), seg).push(sorted.last()) =~= sorted.insert(p, seg));
    }
}

/// Sorting a log whose ids already strictly increase changes nothing.
pub proof fn lemma_sort_segs_identity(segs: Seq<Segment>)
    requires
        sorted_ids(segs),
    ensures
        sort_segs(segs) == segs,
    decreases segs.len(),
{
    if segs.len() > 0 {
        let prefix = segs.drop_last();
        assert(sorted_ids(prefix)) by {
            assert forall|i: int, j: int| 0 <= i < j < prefix.len() implies prefix[i].id
                < prefix[j].id by {
                assert(segs[i].id < segs[j].id);
            }
        }
        lemma_sort_segs_identity(prefix);
        if prefix.len() > 0 {
            assert(prefix.last().id < segs.last().id);
            assert(insert_seg(prefix, segs.last()) == prefix.push(segs.last()));
        }
        assert(sort_segs(segs) =~= segs);
    } else {
        assert(sort_segs(segs) =~= segs);
    }
}

/// Reorders segments so that ids never decrease.
fn sort_segments(segments: Vec<Segment>) -> (r: Vec<Segment>)
    ensures
        r@ == sort_segs(segments@),
{
    let ghost orig = segments@;
    let mut rest = segments;
    let mut acc: Vec<Segment> = Vec::new();
    proof {
        assert(orig.take(0) =~= Seq::<Segment>::empty());
        assert(rest@ == orig.skip(0));
    }
    while rest.len() > 0
        invariant
            rest@ == orig.skip(orig.len() - rest.len()),
            acc@ == sort_segs(orig.take(orig.len() - rest.len())),
            rest.len() <= orig.len(),
        decreases rest.len(),
    {
        let ghost i = orig.len() - rest@.len();
        let seg = rest.remove(0);
        proof {
            assert(seg == orig[i]);
            assert(rest@ =~= orig.skip(i + 1));
        }
        let mut p = acc.len();
        while p > 0 && acc[p - 1].id > seg.id
            invariant
                p <= acc.len(),
                forall|t: int| p <= t < acc@.len() ==> acc@[t].id > seg.id,
            decreases p,
        {
            p = p - 1;
        }
        proof {
            lemma_insert_seg_at(acc@, seg, p as int);
            assert(orig.take(i + 1).drop_last() =~= orig.take(i));
            assert(orig.take(i + 1).last() == orig[i]);
        }
        acc.insert(p, seg);
    }
    proof {
        assert(orig.take(orig.len() as int) =~= orig);
    }
    acc
}

// ------------------------------------------------------------------
// The store.
// ------------------------------------------------------------------

/// The next active segment id after the sorted sealed segments: one
/// above the highest id seen, or zero for a fresh store.
pub open spec fn next_active_id(sorted: Seq<Segment>) -> int {
    if sorted.len() == 0 {
        0
    } else {
        sorted.last().id + 1
    }
}

/// A fully decodable, strictly ordered log: what `open` accepts.
pub open spec fn openable(segs: Seq<Segment>) -> bool {
    &&& sorted_ids(sort_segs(segs))
    &&& next_active_id(sort_segs(segs)) <= u16::MAX
    &&& forall|i: int|
        0 <= i < sort_segs(segs).len() ==> stream_ok(#[trigger] sort_segs(segs)[i].data@)
}

/// The log-structured key-value store, over an in-memory image of its
/// segment files.  The last segment is the active one; every earlier
/// segment is sealed.
pub struct KvStore {
    segments: Vec<Segment>,
    index: vstd::hash_map::StringHashMap<FilePointer>,
    config: Config,
}

impl KvStore {
    /// The segments, in ascending id order; the last one is active.
    pub closed spec fn segs(&self) -> Seq<Segment> {
        self.segments@
    }

    /// The id of the active segment.
    pub closed spec fn active_id(&self) -> u16 {
        self.segs().last().id
    }

    /// The volatile index: each live key's location.
    pub closed spec fn index_view(&self) -> Map<Seq<char>, FilePointer> {
        self.index@
    }

    /// The size past which the active segment is sealed.
    pub closed spec fn filesize_limit(&self) -> u64 {
        self.config.filesize_limit
    }

    /// The rollover-count multiple that launches compaction.
    pub closed spec fn compaction_thresh(&self) -> u16 {
        self.config.compaction_thresh
    }

    /// The store's well-formedness: at least the active segment exists,
    /// ids strictly increase, every segment is a whole stream of
    /// records, and the index is exactly the replay of the log.
    pub closed spec fn wf(&self) -> bool {
        &&& self.segs().len() >= 1
        &&& sorted_ids(self.segs())
        &&& forall|i: int| 0 <= i < self.segs().len() ==> stream_ok(#[trigger] self.segs()[i].data@)
        &&& self.index@ == replay(self.segs())
    }

    /// What the store holds: each live key bound to the value of its
    /// indexed record.
    pub closed spec fn contents(&self) -> Map<Seq<char>, Seq<char>> {
        Map::new(
            |k: Seq<char>| self.index@.contains_key(k),
            |k: Seq<char>| value_at(self.segs(), self.index@[k]),
        )
    }

    /// A write arriving now would roll the log over: the active
    /// segment has outgrown the limit, and the id space still has room
    /// for the new active segment and the reserved compaction slot.
    pub open spec fn will_roll(&self) -> bool {
        self.segs().last().data@.len() > self.filesize_limit() && self.active_id() + 2
            <= u16::MAX
    }

    /// Loads a store from the segments read out of its directory, in any
    /// order.  The segments are replayed in ascending id order to rebuild
    /// the index, and a fresh, empty active segment is opened one past
    /// the highest id seen.  A record that cannot be decoded is fatal:
    /// the store refuses to open.
    pub fn open(segments: Vec<Segment>) -> (r: Result<KvStore, KvStoreError>)
        ensures
            match r {
                Ok(s) => {
                    &&& openable(segments@)
                    &&& s.wf()
                    &&& s.segs().drop_last() == sort_segs(segments@)
                    &&& s.segs().last().id == next_active_id(sort_segs(segments@))
                    &&& s.segs().last().data@ == Seq::<char>::empty()
                    &&& s.index_view() == replay(sort_segs(segments@))
                    &&& s.filesize_limit() == 1024
                    &&& s.compaction_thresh() == 4
                },
                Err(e) => {
                    &&& !openable(segments@)
                    &&& (e is IoError || e is SerdeError)
                    &&& (e is SerdeError <==> (sorted_ids(sort_segs(segments@))
                        && next_active_id(sort_segs(segments@)) <= u16::MAX))
                },
            },
    {
        let ghost input = segments@;
        let sorted = sort_segments(segments);
        // Refuse ids that collide or leave no room for an active segment.
        let mut j: usize = 1;
        while j < sorted.len()
            invariant
                1 <= j,
                segments@ == input,
                sorted@ == sort_segs(input),
                forall|a: int, b: int| 0 <= a < b < j && b < sorted@.len() ==> sorted@[a].id
                    < sorted@[b].id,
            decreases sorted.len() - j,
        {
            if sorted[j - 1].id >= sorted[j].id {
                proof {
                    // Ids never decrease after sorting, so a collision
                    // here means the input ids were not distinct.
                    assert(!sorted_ids(sort_segs(input)));
                    assert(!openable(input));
                }
                return Err(
                    KvStoreError::IoError { error: "segment ids collide".to_owned() },
                );
            }
            proof {
                assert forall|a: int, b: int|
                    0 <= a < b < j + 1 && b < sorted@.len() implies sorted@[a].id
                    < sorted@[b].id by {
                    if b == j {
                        if a < j - 1 {
                            assert(sorted@[a].id < sorted@[j - 1].id);
                        }
                    }
                }
            }
            j = j + 1;
        }
        assert(sorted_ids(sorted@));
        let next: u16 = if sorted.len() == 0 {
            0
        } else {
            let last_id = sorted[sorted.len() - 1].id;
            if last_id == u16::MAX {
                proof {
                    assert(!openable(input));
                }
                return Err(
                    KvStoreError::IoError { error: "segment id space exhausted".to_owned() },
                );
            }
            last_id + 1
        };
        // Replay every record, in order, over an empty index.
        let mut index = vstd::hash_map::StringHashMap::<FilePointer>::new();
        let mut si: usize = 0;
        proof {
            assert(sorted@.take(0) =~= Seq::<Segment>::empty());
        }
        while si < sorted.len()
            invariant
                si <= sorted.len(),
                segments@ == input,
                sorted@ == sort_segs(input),
                sorted_ids(sorted@),
                sorted@.len() == 0 || sorted@.last().id < u16::MAX,
                index@ == replay(sorted@.take(si as int)),
                forall|i: int| 0 <= i < si ==> stream_ok(#[trigger] sorted@[i].data@),
            decreases sorted.len() - si,
        {
            let data_len = sorted[si].len_of_data();
            let sid: u16 = sorted[si].id;
            let ghost data = sorted@[si as int].data@;
            let ghost m0 = index@;
            let mut off: usize = 0;
            while off < data_len
                invariant
                    off <= data_len,
                    data_len == data.len(),
                    si < sorted.len(),
                    segments@ == input,
                    sorted@ == sort_segs(input),
                    sorted_ids(sorted@),
                    sorted@.last().id < u16::MAX,
                    sorted@[si as int].id == sid,
                    sorted@[si as int].data@ == data,
                    replay_seg(index@, sid, data, off as int) == replay_seg(m0, sid, data, 0),
                    decodes_from(data, off as int) == decodes_from(data, 0),
                decreases data_len - off,
            {
                let (cmd, end) = match decode_command(sorted[si].borrow_data(), off) {
                    Ok(x) => x,
                    Err(e) => {
                        proof {
                            assert(!decodes_from(data, off as int));
                            assert(sort_segs(input)[si as int].data@ == data);
                            assert(!stream_ok(sort_segs(input)[si as int].data@));
                            assert(!openable(input));
                            assert(sort_segs(input).last().id < u16::MAX);
                            assert(next_active_id(sort_segs(input)) <= u16::MAX);
                        }
                        return Err(e);
                    },
                };
                match cmd.cmd {
                    CommandType::Put => {
                        index.insert(cmd.key, FilePointer { segment_id: sid, offset: off });
                    },
                    CommandType::Rm => {
                        index.remove(cmd.key.as_str());
                    },
                }
                off = end;
            }
            proof {
                assert(replay_seg(index@, sid, data, off as int) == index@);
                assert(sorted@.take(si + 1).drop_last() =~= sorted@.take(si as int));
                assert(sorted@.take(si + 1).last() == sorted@[si as int]);
                assert(decodes_from(data, off as int));
            }
            si = si + 1;
        }
        proof {
            assert(sorted@.take(sorted@.len() as int) =~= sorted@);
        }
        let ghost sortedv = sorted@;
        let mut segs = sorted;
        segs.push(Segment { id: next, data: Vec::new() });
        proof {
            assert(segs@.drop_last() =~= sort_segs(input));
            assert(replay(segs@) == replay(sort_segs(input)));
            assert(decodes_from(Seq::<char>::empty(), 0));
            assert forall|a: int, b: int| 0 <= a < b < segs@.len() implies segs@[a].id
                < segs@[b].id by {
                if b < segs@.len() - 1 {
                    assert(sortedv[a].id < sortedv[b].id);
                } else {
                    if a < segs@.len() - 2 {
                        assert(sortedv[a].id < sortedv[sortedv.len() - 1].id);
                    }
                }
            }
            assert forall|i: int| 0 <= i < segs@.len() implies stream_ok(
                #[trigger] segs@[i].data@,
            ) by {
                if i < segs@.len() - 1 {
                    assert(stream_ok(sortedv[i].data@));
                }
            }
        }
        let store = KvStore { segments: segs, index, config: Config::default() };
        Ok(store)
    }
}

// ------------------------------------------------------------------
// Record boundaries.
// ------------------------------------------------------------------

/// The record walk that starts at `off` passes through `b`.
pub open spec fn reaches(data: Seq<char>, off: int, b: int) -> bool
    decreases data.len() - off,
{
    if off == b {
        true
    } else if off < 0 || off >= data.len() || off > usize::MAX {
        false
    } else {
        match spec_decode(data, off) {
            Some((op, end)) => off < end <= data.len() && reaches(data, end, b),
            None => false,
        }
    }
}

/// Walk positions never decrease.
proof fn lemma_reaches_monotone(data: Seq<char>, off: int, b: int)
    requires
        reaches(data, off, b),
    ensures
        off <= b,
    decreases data.len() - off,
{
    if off != b {
        let (op, end) = spec_decode(data, off)->Some_0;
        lemma_reaches_monotone(data, end, b);
    }
}

/// A walk that passes `b` after one more record still passes `b`.
proof fn lemma_reaches_step(data: Seq<char>, off: int, b: int, end: int)
    requires
        reaches(data, off, b),
        0 <= b < data.len(),
        b <= usize::MAX,
        spec_decode(data, b) == Some((spec_decode(data, b)->Some_0.0, end)),
        b < end <= data.len(),
    ensures
        reaches(data, off, end),
    decreases data.len() - off,
{
    if off == b {
        assert(reaches(data, end, end));
        assert(reaches(data, b, end));
    } else {
        let (op, e2) = spec_decode(data, off)->Some_0;
        lemma_reaches_step(data, e2, b, end);
    }
}

/// The walk is deterministic: of two positions it passes, the later is
/// reachable from the earlier.
proof fn lemma_walk_deterministic(data: Seq<char>, off: int, a: int, b: int)
    requires
        reaches(data, off, a),
        reaches(data, off, b),
        a <= b,
    ensures
        reaches(data, a, b),
    decreases data.len() - off,
{
    if off == a {
    } else {
        lemma_reaches_monotone(data, off, a);
        let (op, end) = spec_decode(data, off)->Some_0;
        if off == b {
            lemma_reaches_monotone(data, off, a);
            assert(a == b);
        } else {
            lemma_walk_deterministic(data, end, a, b);
        }
    }
}

/// No walk position lies strictly inside another record: a position the
/// walk passes is at or before `a`, or at or past the record's end.
proof fn lemma_no_interior_boundary(data: Seq<char>, off: int, a: int, b: int, end: int)
    requires
        reaches(data, off, a),
        reaches(data, off, b),
        0 <= a < data.len(),
        a <= usize::MAX,
        spec_decode(data, a) == Some((spec_decode(data, a)->Some_0.0, end)),
        a < end <= data.len(),
    ensures
        b <= a || b >= end,
{
    if a < b && b < end {
        lemma_walk_deterministic(data, off, a, b);
        // From `a` the walk jumps straight to `end`, past `b`.
        let (op, e2) = spec_decode(data, a)->Some_0;
        lemma_reaches_monotone(data, e2, b);
        assert(false);
    }
}

/// Every location of `m` is a walk boundary of its segment.
pub open spec fn locs_boundary(m: Map<Seq<char>, FilePointer>, segs: Seq<Segment>) -> bool {
    forall|k: Seq<char>| #[trigger] m.contains_key(k) ==> {
        let fp = m[k];
        &&& find_seg(segs, fp.segment_id) is Some
        &&& reaches(segs[find_seg(segs, fp.segment_id)->Some_0].data@, 0, fp.offset as int)
    }
}

/// Replaying part of a segment, from a walk position on, only adds
/// locations at walk positions.
proof fn lemma_replay_seg_boundary(
    m: Map<Seq<char>, FilePointer>,
    sid: u16,
    data: Seq<char>,
    off: int,
    segs: Seq<Segment>,
    at: int,
)
    requires
        locs_boundary(m, segs),
        0 <= at < segs.len(),
        segs[at].id == sid,
        segs[at].data@ == data,
        find_seg(segs, sid) == Some(at),
        reaches(data, 0, off),
    ensures
        locs_boundary(replay_seg(m, sid, data, off), segs),
    decreases data.len() - off,
{
    lemma_reaches_monotone(data, 0, off);
    if 0 <= off && off < data.len() && off <= usize::MAX {
        match spec_decode(data, off) {
            Some((op, end)) => {
                if off < end <= data.len() {
                    let m2 = apply_op(m, op, sid, off as usize);
                    assert forall|k: Seq<char>| #[trigger] m2.contains_key(k) implies {
                        let fp = m2[k];
                        &&& find_seg(segs, fp.segment_id) is Some
                        &&& reaches(
                            segs[find_seg(segs, fp.segment_id)->Some_0].data@,
                            0,
                            fp.offset as int,
                        )
                    } by {
                        match op {
                            Op::Put { key, value } => {
                                if k != key {
                                    assert(m.contains_key(k) && m2[k] == m[k]);
                                }
                            },
                            Op::Rm { key } => {
                                assert(m.contains_key(k) && m2[k] == m[k]);
                            },
                        }
                    }
                    lemma_reaches_step(data, 0, off, end);
                    lemma_replay_seg_boundary(m2, sid, data, end, segs, at);
                }
            },
            None => {},
        }
    }
}

/// Every location the replay of a sorted log produces is a walk
/// boundary of its segment.
proof fn lemma_replay_boundary(segs: Seq<Segment>)
    requires
        sorted_ids(segs),
    ensures
        locs_boundary(replay(segs), segs),
    decreases segs.len(),
{
    if segs.len() == 0 {
    } else {
        let prefix = segs.drop_last();
        assert(sorted_ids(prefix)) by {
            assert forall|i: int, j: int| 0 <= i < j < prefix.len() implies prefix[i].id
                < prefix[j].id by {
                assert(segs[i].id < segs[j].id);
            }
        }
        lemma_replay_boundary(prefix);
        let m = replay(prefix);
        assert forall|k: Seq<char>| #[trigger] m.contains_key(k) implies {
            let fp = m[k];
            &&& find_seg(segs, fp.segment_id) is Some
            &&& reaches(segs[find_seg(segs, fp.segment_id)->Some_0].data@, 0, fp.offset as int)
        } by {
            let fp = m[k];
            assert(find_seg(prefix, fp.segment_id) is Some);
            lemma_find_seg_some(prefix, fp.segment_id);
            let i = find_seg(prefix, fp.segment_id)->Some_0;
            assert(prefix[i] == segs[i]);
            assert(segs[i].id < segs.last().id);
            lemma_find_seg_at(segs, i);
        }
        lemma_find_seg_at(segs, segs.len() - 1);
        lemma_replay_seg_boundary(m, segs.last().id, segs.last().data@, 0, segs, segs.len() - 1);
    }
}

/// A whole stream stays whole from any position its walk passes.
proof fn lemma_decodes_from_reaches(data: Seq<char>, off: int, b: int)
    requires
        decodes_from(data, off),
        reaches(data, off, b),
    ensures
        decodes_from(data, b),
    decreases data.len() - off,
{
    if off != b {
        let (op, end) = spec_decode(data, off)->Some_0;
        lemma_decodes_from_reaches(data, end, b);
    }
}

// ------------------------------------------------------------------
// Stability of reads under the write paths.
// ------------------------------------------------------------------

/// Segment lookup depends only on the ids.
proof fn lemma_find_seg_same_ids(a: Seq<Segment>, b: Seq<Segment>, sid: u16)
    requires
        a.len() == b.len(),
        forall|i: int| 0 <= i < a.len() ==> a[i].id == b[i].id,
    ensures
        find_seg(a, sid) == find_seg(b, sid),
    decreases a.len(),
{
    if a.len() > 0 {
        assert(a.last().id == b.last().id);
        if a.last().id != sid {
            assert forall|i: int| 0 <= i < a.drop_last().len() implies a.drop_last()[i].id
                == b.drop_last()[i].id by {
                assert(a[i].id == b[i].id);
            }
            lemma_find_seg_same_ids(a.drop_last(), b.drop_last(), sid);
        }
    }
}

/// Opening a fresh, higher-id segment moves no record: every valid
/// location still resolves to the same value.
proof fn lemma_value_stable_push(segs: Seq<Segment>, seg: Segment, k: Seq<char>, fp: FilePointer)
    requires
        loc_valid(segs, k, fp),
        fp.segment_id != seg.id,
    ensures
        loc_valid(segs.push(seg), k, fp),
        value_at(segs.push(seg), fp) == value_at(segs, fp),
{
    let segs2 = segs.push(seg);
    assert(segs2.drop_last() =~= segs);
    lemma_find_seg_some(segs, fp.segment_id);
    let i = find_seg(segs, fp.segment_id)->Some_0;
    assert(segs2[i] == segs[i]);
}

/// Appending characters to the active segment moves no record: every
/// location valid beforehand still resolves to the same value.
proof fn lemma_value_stable_extend(
    segs: Seq<Segment>,
    segs2: Seq<Segment>,
    k: Seq<char>,
    fp: FilePointer,
)
    requires
        segs.len() > 0,
        segs2.len() == segs.len(),
        segs2.drop_last() == segs.drop_last(),
        segs2.last().id == segs.last().id,
        segs2.last().data@.len() >= segs.last().data@.len(),
        segs2.last().data@.subrange(0, segs.last().data@.len() as int) == segs.last().data@,
        loc_valid(segs, k, fp),
    ensures
        loc_valid(segs2, k, fp),
        value_at(segs2, fp) == value_at(segs, fp),
{
    assert forall|i: int| 0 <= i < segs.len() implies segs[i].id == segs2[i].id by {
        if i < segs.len() - 1 {
            assert(segs.drop_last()[i] == segs2.drop_last()[i]);
            assert(segs.drop_last()[i] == segs[i]);
            assert(segs2.drop_last()[i] == segs2[i]);
            assert(segs[i].id == segs2[i].id);
        } else {
            assert(i == segs.len() - 1);
            assert(segs[i] == segs.last());
            assert(segs2[i] == segs2.last());
            assert(segs[i].id == segs2[i].id);
        }
    }
    lemma_find_seg_same_ids(segs, segs2, fp.segment_id);
    lemma_find_seg_some(segs, fp.segment_id);
    let i = find_seg(segs, fp.segment_id)->Some_0;
    if i < segs.len() - 1 {
        assert(segs2[i] == segs.drop_last()[i]);
        assert(segs2[i] == segs[i]);
    } else {
        let data = segs.last().data@;
        let data2 = segs2.last().data@;
        let (op, end) = spec_decode(data, fp.offset as int)->Some_0;
        crate::codec::lemma_decode_sound(data, fp.offset as int);
        assert(data2.subrange(fp.offset as int, end) =~= data.subrange(fp.offset as int, end));
        lemma_decode_stable(data, data2, fp.offset as int);
    }
}

impl KvStore {
    /// Looks a segment up by id, scanning from the newest backwards.
    fn find_segment(&self, sid: u16) -> (r: Option<usize>)
        ensures
            match r {
                Some(i) => find_seg(self.segs(), sid) == Some(i as int),
                None => find_seg(self.segs(), sid) is None,
            },
    {
        let mut i = self.segments.len();
        proof {
            assert(self.segs().take(self.segs().len() as int) =~= self.segs());
        }
        while i > 0
            invariant
                i <= self.segments.len(),
                find_seg(self.segs(), sid) == find_seg(self.segs().take(i as int), sid),
            decreases i,
    {
            i = i - 1;
            proof {
                assert(self.segs().take(i + 1).last() == self.segs()[i as int]);
                assert(self.segs().take(i + 1).drop_last() =~= self.segs().take(i as int));
            }
            if self.segments[i].id == sid {
                return Some(i);
            }
        }
        None
    }

    /// Seals the active segment and opens a fresh one two ids above it,
    /// reserving the intermediate id for a compacted segment.
    fn roll_active(&mut self)
        requires
            old(self).wf(),
            old(self).active_id() + 2 <= u16::MAX,
        ensures
            final(self).wf(),
            final(self).contents() == old(self).contents(),
            final(self).index_view() == old(self).index_view(),
            final(self).segs().drop_last() == old(self).segs(),
            final(self).active_id() == old(self).active_id() + 2,
            final(self).segs().last().data@ == Seq::<char>::empty(),
            final(self).config == old(self).config,
    {
        let ghost oldsegs = self.segments@;
        let ghost oldmodel = self.contents();
        let n = self.segments.len();
        let new_id = self.segments[n - 1].id + 2;
        self.segments.push(Segment { id: new_id, data: Vec::new() });
        proof {
            let segs2 = self.segments@;
            assert(segs2.drop_last() =~= oldsegs);
            assert(replay(segs2) == replay(oldsegs));
            assert(decodes_from(Seq::<char>::empty(), 0));
            assert forall|a: int, b: int| 0 <= a < b < segs2.len() implies segs2[a].id
                < segs2[b].id by {
                if b < segs2.len() - 1 {
                    assert(oldsegs[a].id < oldsegs[b].id);
                } else {
                    if a < segs2.len() - 2 {
                        assert(oldsegs[a].id < oldsegs[oldsegs.len() - 1].id);
                    }
                }
            }
            assert forall|i: int| 0 <= i < segs2.len() implies stream_ok(
                #[trigger] segs2[i].data@,
            ) by {
                if i < segs2.len() - 1 {
                    assert(stream_ok(oldsegs[i].data@));
                }
            }
            lemma_replay_valid(oldsegs);
            assert forall|k: Seq<char>| true implies #[trigger] self.contents().contains_key(k)
                == oldmodel.contains_key(k) && (oldmodel.contains_key(k)
                ==> self.contents()[k] == oldmodel[k]) by {
                if oldmodel.contains_key(k) {
                    let fp = self.index@[k];
                    assert(loc_valid(oldsegs, k, fp));
                    lemma_find_seg_some(oldsegs, fp.segment_id);
                    let i = find_seg(oldsegs, fp.segment_id)->Some_0;
                    assert(oldsegs[i].id < new_id);
                    lemma_value_stable_push(oldsegs, segs2.last(), k, fp);
                }
            }
            assert(self.contents() =~= oldmodel);
        }
    }

    /// Appends one record to the active segment, flushing it into the
    /// in-memory image, and returns where it starts.
    fn append_record(&mut self, cmd: &Command) -> (off: usize)
        requires
            old(self).wf(),
        ensures
            final(self).wf(),
            final(self).index_view() == apply_op(
                old(self).index_view(),
                cmd.op(),
                old(self).active_id(),
                off,
            ),
            off == old(self).segs().last().data@.len(),
            final(self).segs().len() == old(self).segs().len(),
            final(self).segs().drop_last() == old(self).segs().drop_last(),
            final(self).segs().last().id == old(self).segs().last().id,
            final(self).segs().last().data@ == old(self).segs().last().data@ + spec_encode(
                cmd.op(),
            ),
            final(self).config == old(self).config,
    {
        let ghost oldsegs = self.segments@;
        let rec = encode_command(cmd);
        let mut rec_v = rec;
        let mut seg = match self.segments.pop() {
            Some(s) => s,
            None => {
                proof {
                    assert(false);
                }
                Segment { id: 0, data: Vec::new() }
            },
        };
        let off = seg.data.len();
        seg.data.append(&mut rec_v);
        let _new_len = seg.data.len();
        let sid = seg.id;
        self.segments.push(seg);
        let fp = FilePointer { segment_id: sid, offset: off };
        match cmd.cmd {
            CommandType::Put => {
                let key_copy = clone_string(&cmd.key);
                self.index.insert(key_copy, fp);
            },
            CommandType::Rm => {
                self.index.remove(cmd.key.as_str());
            },
        }
        proof {
            let segs2 = self.segments@;
            assert(segs2.drop_last() =~= oldsegs.drop_last());
            assert(segs2.last().data@ == oldsegs.last().data@ + spec_encode(cmd.op()));
            lemma_replay_extend(oldsegs, segs2, cmd.op());
            assert forall|a: int, b: int| 0 <= a < b < segs2.len() implies segs2[a].id
                < segs2[b].id by {
                assert(oldsegs[a].id < oldsegs[b].id);
                if a < segs2.len() - 1 {
                    assert(segs2[a] == oldsegs.drop_last()[a]);
                }
                if b < segs2.len() - 1 {
                    assert(segs2[b] == oldsegs.drop_last()[b]);
                }
            }
            assert forall|i: int| 0 <= i < segs2.len() implies stream_ok(
                #[trigger] segs2[i].data@,
            ) by {
                if i < segs2.len() - 1 {
                    assert(segs2[i] == oldsegs.drop_last()[i]);
                    assert(stream_ok(oldsegs[i].data@));
                }
            }
        }
        off
    }

    /// Binds `key` to `value`: appends a `Set` record to the active
    /// segment and points the index at it.  Rolls the log over first
    /// when the active segment has outgrown the configured limit.
    #[verifier::rlimit(60)]
    fn do_set(&mut self, key: String, value: String) -> (r: Result<(), KvStoreError>)
        requires
            old(self).wf(),
        ensures
            final(self).wf(),
            r is Ok,
            final(self).contents() == old(self).contents().insert(key@, value@),
            final(self).active_id() == if old(self).will_roll() {
                (old(self).active_id() + 2) as u16
            } else {
                old(self).active_id()
            },
            !old(self).will_roll() ==> {
                &&& final(self).segs().len() == old(self).segs().len()
                &&& final(self).segs().drop_last() == old(self).segs().drop_last()
                &&& final(self).segs().last().data@ == old(self).segs().last().data@
                    + spec_encode(Op::Put { key: key@, value: value@ })
                &&& final(self).index_view() == old(self).index_view().insert(
                    key@,
                    FilePointer {
                        segment_id: old(self).active_id(),
                        offset: old(self).segs().last().data@.len() as usize,
                    },
                )
            },
            old(self).will_roll() ==> {
                &&& final(self).segs().last().data@ == spec_encode(
                    Op::Put { key: key@, value: value@ },
                )
                &&& final(self).index_view().contains_key(key@)
                &&& final(self).index_view()[key@] == (FilePointer {
                    segment_id: (old(self).active_id() + 2) as u16,
                    offset: 0,
                })
            },
            final(self).filesize_limit() == old(self).filesize_limit(),
            final(self).compaction_thresh() == old(self).compaction_thresh(),
    {
        let n = self.segments.len();
        let active_len = self.segments[n - 1].data.len();
        let active_id = self.segments[n - 1].id;
        if active_len as u64 > self.config.filesize_limit && active_id <= u16::MAX - 2 {
            let ghost segs0 = self.segs();
            self.roll_active();
            // After a rollover, a new active id at a positive multiple
            // of the threshold launches one compaction.
            let new_id = active_id + 2;
            if self.config.compaction_thresh > 0 && new_id % self.config.compaction_thresh == 0 {
                proof {
                    assert(self.segs().drop_last() == segs0);
                    assert forall|i: int| 0 <= i < self.segs().len() - 1 implies (
                    #[trigger] self.segs()[i].id) + 1 < self.active_id() by {
                        assert(self.segs()[i] == segs0[i]);
                        if i < segs0.len() - 1 {
                            assert(segs0[i].id < segs0[segs0.len() - 1].id);
                        }
                    }
                }
                self.compact_sealed();
            }
        }
        let ghost presegs = self.segments@;
        let ghost premodel = self.contents();
        let ghost preindex = self.index@;
        proof {
            if old(self).will_roll() {
                assert(presegs.last().data@ =~= Seq::<char>::empty());
                assert(presegs.last().id == old(self).active_id() + 2);
            } else {
                assert(presegs == old(self).segs());
            }
        }
        let cmd = Command { cmd: CommandType::Put, key, value };
        let off = self.append_record(&cmd);
        proof {
            let segs2 = self.segments@;
            let fp = FilePointer { segment_id: presegs.last().id, offset: off };
            assert(self.index@ == preindex.insert(cmd.key@, fp));
            // The fresh record decodes to exactly this binding.
            let data2 = segs2.last().data@;
            assert(data2.subrange(off as int, data2.len() as int) =~= spec_encode(cmd.op()));
            crate::codec::lemma_decode_encode(cmd.op(), data2, off as int);
            assert(find_seg(segs2, fp.segment_id) == Some(segs2.len() - 1));
            assert(value_at(segs2, fp) == cmd.value@);
            // Every older binding still reads the same.
            lemma_replay_valid(presegs);
            assert forall|k: Seq<char>| #[trigger] preindex.contains_key(k) && k != cmd.key@
                implies loc_valid(segs2, k, preindex[k]) && value_at(segs2, preindex[k])
                == value_at(presegs, preindex[k]) by {
                assert(loc_valid(presegs, k, preindex[k]));
                assert(segs2.last().data@.subrange(0, presegs.last().data@.len() as int)
                    =~= presegs.last().data@);
                lemma_value_stable_extend(presegs, segs2, k, preindex[k]);
            }
            assert(self.contents() =~= premodel.insert(cmd.key@, cmd.value@));
            if old(self).will_roll() {
                assert(segs2.last().data@ =~= spec_encode(cmd.op()));
            }
        }
        Ok(())
    }

    /// Reads the value bound to `key`: resolves the index, decodes the
    /// record it points at, and returns its value; `None` when the key
    /// is absent.
    fn do_get(&self, key: String) -> (r: Result<Option<String>, KvStoreError>)
        requires
            self.wf(),
        ensures
            r is Ok,
            match r {
                Ok(opt) => match opt {
                    Some(v) => self.contents().contains_key(key@) && v@ == self.contents()[key@],
                    None => !self.contents().contains_key(key@),
                },
                Err(_) => true,
            },
    {
        let fp = match self.index.get(key.as_str()) {
            None => {
                return Ok(None);
            },
            Some(fp) => *fp,
        };
        proof {
            lemma_replay_valid(self.segs());
            assert(loc_valid(self.segs(), key@, fp));
        }
        let i = match self.find_segment(fp.segment_id) {
            Some(i) => i,
            None => {
                proof {
                    assert(false);
                }
                return Ok(None);
            },
        };
        proof {
            lemma_find_seg_some(self.segs(), fp.segment_id);
        }
        let (cmd, _end) = match decode_command(self.segments[i].borrow_data(), fp.offset) {
            Ok(x) => x,
            Err(e) => {
                proof {
                    assert(false);
                }
                return Err(e);
            },
        };
        match cmd.cmd {
            CommandType::Put => Ok(Some(cmd.value)),
            CommandType::Rm => {
                proof {
                    assert(false);
                }
                Ok(None)
            },
        }
    }

    /// Unbinds `key`: appends a `Remove` record and drops the index
    /// entry.  A key that is not bound is reported, and nothing is
    /// written for it.
    fn do_remove(&mut self, key: String) -> (r: Result<(), KvStoreError>)
        requires
            old(self).wf(),
        ensures
            final(self).wf(),
            old(self).contents().contains_key(key@) ==> r is Ok && final(self).contents() == old(
                self,
            ).contents().remove(key@),
            !old(self).contents().contains_key(key@) ==> (r matches Err(e) && e
                is KeyNotFoundError) && *final(self) == *old(self),
            old(self).contents().contains_key(key@) ==> {
                &&& final(self).segs().len() == old(self).segs().len()
                &&& final(self).segs().drop_last() == old(self).segs().drop_last()
                &&& final(self).segs().last().id == old(self).active_id()
                &&& final(self).segs().last().data@ == old(self).segs().last().data@
                    + spec_encode(Op::Rm { key: key@ })
                &&& final(self).index_view() == old(self).index_view().remove(key@)
            },
    {
        if !self.index.contains_key(key.as_str()) {
            return Err(KvStoreError::KeyNotFoundError);
        }
        let ghost presegs = self.segments@;
        let ghost premodel = self.contents();
        let ghost preindex = self.index@;
        let cmd = Command { cmd: CommandType::Rm, key, value: new_string() };
        let off = self.append_record(&cmd);
        proof {
            let segs2 = self.segments@;
            assert(self.index@ == preindex.remove(cmd.key@));
            lemma_replay_valid(presegs);
            assert forall|k: Seq<char>| #[trigger] preindex.contains_key(k) && k != cmd.key@
                implies loc_valid(segs2, k, preindex[k]) && value_at(segs2, preindex[k])
                == value_at(presegs, preindex[k]) by {
                assert(loc_valid(presegs, k, preindex[k]));
                assert(segs2.last().data@.subrange(0, presegs.last().data@.len() as int)
                    =~= presegs.last().data@);
                lemma_value_stable_extend(presegs, segs2, k, preindex[k]);
            }
            assert(self.contents() =~= premodel.remove(cmd.key@));
        }
        Ok(())
    }
}

// ------------------------------------------------------------------
// Compaction.
// ------------------------------------------------------------------

/// The number of characters the log occupies on disk.
pub open spec fn spec_total_size(segs: Seq<Segment>) -> int
    decreases segs.len(),
{
    if segs.len() == 0 {
        0
    } else {
        spec_total_size(segs.drop_last()) + segs.last().data@.len()
    }
}

/// The index entries a list of copied records dictates, later entries
/// winning.
spec fn entries_map(es: Seq<(String, FilePointer)>) -> Map<Seq<char>, FilePointer>
    decreases es.len(),
{
    if es.len() == 0 {
        Map::empty()
    } else {
        entries_map(es.drop_last()).insert(es.last().0@, es.last().1)
    }
}

/// The index after writing a list of copied entries over `m0`, in order.
spec fn patched(
    m0: Map<Seq<char>, FilePointer>,
    es: Seq<(String, FilePointer)>,
) -> Map<Seq<char>, FilePointer>
    decreases es.len(),
{
    if es.len() == 0 {
        m0
    } else {
        patched(m0, es.drop_last()).insert(es.last().0@, es.last().1)
    }
}

/// Patching writes exactly the listed entries; everything else keeps
/// its old binding.
proof fn lemma_patched_entries(m0: Map<Seq<char>, FilePointer>, es: Seq<(String, FilePointer)>)
    ensures
        forall|k: Seq<char>| #[trigger] patched(m0, es).contains_key(k) <==> (entries_map(
            es,
        ).contains_key(k) || m0.contains_key(k)),
        forall|k: Seq<char>| #[trigger] entries_map(es).contains_key(k) ==> patched(m0, es)[k]
            == entries_map(es)[k],
        forall|k: Seq<char>|
            m0.contains_key(k) && !(#[trigger] entries_map(es).contains_key(k)) ==> patched(
                m0,
                es,
            )[k] == m0[k],
    decreases es.len(),
{
    if es.len() > 0 {
        lemma_patched_entries(m0, es.drop_last());
        let lk = es.last().0@;
        assert forall|k: Seq<char>| #[trigger] patched(m0, es).contains_key(k) <==> (entries_map(
            es,
        ).contains_key(k) || m0.contains_key(k)) by {
            if k != lk {
                assert(patched(m0, es).contains_key(k) == patched(m0, es.drop_last()).contains_key(
                    k,
                ));
                assert(entries_map(es).contains_key(k) == entries_map(
                    es.drop_last(),
                ).contains_key(k));
            }
        }
        assert forall|k: Seq<char>| #[trigger] entries_map(es).contains_key(k) implies patched(
            m0,
            es,
        )[k] == entries_map(es)[k] by {
            if k != lk {
                assert(entries_map(es.drop_last()).contains_key(k));
            }
        }
        assert forall|k: Seq<char>|
            m0.contains_key(k) && !(#[trigger] entries_map(es).contains_key(k)) implies patched(
            m0,
            es,
        )[k] == m0[k] by {
            assert(!entries_map(es.drop_last()).contains_key(k));
        }
    }
}

/// Every listed entry's key ends up in the entry map.
proof fn lemma_entries_map_mem(es: Seq<(String, FilePointer)>, i: int)
    requires
        0 <= i < es.len(),
    ensures
        entries_map(es).contains_key(es[i].0@),
    decreases es.len(),
{
    if i < es.len() - 1 {
        lemma_entries_map_mem(es.drop_last(), i);
    }
}

/// When every listed entry points at the merged segment, so does
/// every binding of the entry map.
proof fn lemma_entries_map_values(es: Seq<(String, FilePointer)>, mid: u16)
    requires
        forall|i: int| 0 <= i < es.len() ==> (#[trigger] es[i]).1.segment_id == mid,
    ensures
        forall|k: Seq<char>| #[trigger] entries_map(es).contains_key(k) ==> entries_map(es)[k].segment_id
            == mid,
    decreases es.len(),
{
    if es.len() > 0 {
        assert(es[es.len() - 1].1.segment_id == mid);
        assert forall|i: int| 0 <= i < es.drop_last().len() implies (#[trigger] es.drop_last()[i]).1.segment_id
            == mid by {
            assert(es[i].1.segment_id == mid);
        }
        lemma_entries_map_values(es.drop_last(), mid);
        let lk = es.last().0@;
        assert forall|k: Seq<char>| #[trigger] entries_map(es).contains_key(k) implies entries_map(
            es,
        )[k].segment_id == mid by {
            if k != lk {
                assert(entries_map(es.drop_last()).contains_key(k));
            }
        }
    }
}

/// The scan position a location lies before, in scan order.
spec fn scanned(segs: Seq<Segment>, fp: FilePointer, si: int, off: int) -> bool {
    match find_seg(segs, fp.segment_id) {
        Some(j) => j < si || (j == si && fp.offset < off),
        None => false,
    }
}

/// The compaction scan's running agreement: the merged segment holds
/// exactly the live records whose locations the scan has passed, each
/// decoding to its key's original value, and no more space than the
/// records scanned.
spec fn scan_inv(
    segs: Seq<Segment>,
    m0: Map<Seq<char>, FilePointer>,
    mid: u16,
    merged: Seq<char>,
    es: Seq<(String, FilePointer)>,
    si: int,
    off: int,
) -> bool {
    &&& stream_ok(merged)
    &&& merged.len() <= usize::MAX
    &&& replay_seg(Map::empty(), mid, merged, 0) == entries_map(es)
    &&& forall|k: Seq<char>| #[trigger] entries_map(es).contains_key(k) ==> m0.contains_key(k)
        && scanned(segs, m0[k], si, off)
    &&& forall|k: Seq<char>| #[trigger] m0.contains_key(k) && scanned(segs, m0[k], si, off)
        ==> entries_map(es).contains_key(k)
    &&& forall|k: Seq<char>| #[trigger] entries_map(es).contains_key(k) ==> {
        let fp = entries_map(es)[k];
        &&& fp.segment_id == mid
        &&& spec_decode(merged, fp.offset as int) matches Some((op, e)) && op == (Op::Put {
            key: k,
            value: value_at(segs, m0[k]),
        })
    }
    &&& forall|i: int| 0 <= i < es.len() ==> (#[trigger] es[i]).1.segment_id == mid
    &&& merged.len() <= spec_total_size(segs.take(si)) + off
}

impl KvStore {
    /// Rewrites every sealed segment into one merged segment holding
    /// only the live records, publishes it under the reserved id just
    /// below the active segment, repoints the index at it, and drops
    /// the sealed segments.  No key's observable value changes, and the
    /// log never grows.
    fn compact_sealed(&mut self)
        requires
            old(self).wf(),
            old(self).segs().last().data@.len() == 0,
            old(self).active_id() >= 1,
            forall|i: int|
                0 <= i < old(self).segs().len() - 1 ==> (#[trigger] old(self).segs()[i].id) + 1
                    < old(self).active_id(),
        ensures
            final(self).wf(),
            final(self).contents() == old(self).contents(),
            spec_total_size(final(self).segs()) <= spec_total_size(old(self).segs()),
            final(self).active_id() == old(self).active_id(),
            final(self).config == old(self).config,
            old(self).segs().len() == 1 ==> *final(self) == *old(self),
            old(self).segs().len() >= 2 ==> {
                &&& final(self).segs().len() == 2
                &&& final(self).segs()[0].id + 1 == old(self).active_id()
                &&& final(self).segs()[1] == old(self).segs().last()
                &&& replay_seg(
                    Map::<Seq<char>, FilePointer>::empty(),
                    final(self).segs()[0].id,
                    final(self).segs()[0].data@,
                    0,
                ) == final(self).index_view()
            },
    {
        let n = self.segments.len();
        if n == 1 {
            return ;
        }
        let ghost segs0 = self.segs();
        let ghost m0 = self.index@;
        let ghost model0 = self.contents();
        let aid = self.segments[n - 1].id;
        let mid = aid - 1;
        let mut merged: Vec<char> = Vec::new();
        let mut entries: Vec<(String, FilePointer)> = Vec::new();
        proof {
            lemma_replay_valid(segs0);
            lemma_replay_boundary(segs0);
            assert(decodes_from(Seq::<char>::empty(), 0));
            assert(segs0.take(0) =~= Seq::<Segment>::empty());
            assert(merged@ =~= Seq::<char>::empty());
            assert(entries@ =~= Seq::<(String, FilePointer)>::empty());
            assert(entries_map(entries@) =~= Map::<Seq<char>, FilePointer>::empty());
            assert(replay_seg(Map::<Seq<char>, FilePointer>::empty(), mid, merged@, 0)
                == Map::<Seq<char>, FilePointer>::empty());
            assert forall|k: Seq<char>| #[trigger] m0.contains_key(k) && scanned(
                segs0,
                m0[k],
                0,
                0,
            ) implies entries_map(entries@).contains_key(k) by {
                lemma_find_seg_some(segs0, m0[k].segment_id);
            }
            assert(scan_inv(segs0, m0, mid, merged@, entries@, 0, 0));
        }
        let mut si: usize = 0;
        while si < n - 1
            invariant
                self.wf(),
                self.segs() == segs0,
                self.index@ == m0,
                self.config == old(self).config,
                n == segs0.len(),
                2 <= n,
                si <= n - 1,
                aid == segs0.last().id,
                mid == aid - 1,
                forall|i: int| 0 <= i < n - 1 ==> (#[trigger] segs0[i].id) + 1 < aid,
                locs_valid(m0, segs0),
                locs_boundary(m0, segs0),
                scan_inv(segs0, m0, mid, merged@, entries@, si as int, 0),
            decreases n - 1 - si,
        {
            let sid = self.segments[si].id;
            let data_len = self.segments[si].data.len();
            let ghost data = segs0[si as int].data@;
            let mut off: usize = 0;
            while off < data_len
                invariant
                    self.wf(),
                    self.segs() == segs0,
                    self.index@ == m0,
                    self.config == old(self).config,
                    n == segs0.len(),
                    2 <= n,
                    si < n - 1,
                    aid == segs0.last().id,
                    mid == aid - 1,
                    forall|i: int| 0 <= i < n - 1 ==> (#[trigger] segs0[i].id) + 1 < aid,
                    locs_valid(m0, segs0),
                    locs_boundary(m0, segs0),
                    sid == segs0[si as int].id,
                    data == segs0[si as int].data@,
                    data_len == data.len(),
                    off <= data_len,
                    reaches(data, 0, off as int),
                    scan_inv(segs0, m0, mid, merged@, entries@, si as int, off as int),
                decreases data_len - off,
            {
                proof {
                    assert(stream_ok(segs0[si as int].data@));
                    lemma_decodes_from_reaches(data, 0, off as int);
                }
                let (cmd, end) = match decode_command(self.segments[si].borrow_data(), off) {
                    Ok(x) => x,
                    Err(_) => {
                        proof {
                            assert(false);
                        }
                        return ;
                    },
                };
                let ghost op = cmd.op();
                proof {
                    crate::codec::lemma_decode_sound(data, off as int);
                    lemma_reaches_step(data, 0, off as int, end as int);
                    lemma_find_seg_at(segs0, si as int);
                }
                let mut copied = false;
                match cmd.cmd {
                    CommandType::Put => {
                        let hit = match self.index.get(cmd.key.as_str()) {
                            Some(cur) => cur.segment_id == sid && cur.offset == off,
                            None => false,
                        };
                        if hit {
                            let rec = encode_command(&cmd);
                            let moff = merged.len();
                            let ghost mergedpre = merged@;
                            let ghost espre = entries@;
                            let mut rec_v = rec;
                            merged.append(&mut rec_v);
                            let _ml = merged.len();
                            entries.push((cmd.key, FilePointer { segment_id: mid, offset: moff }));
                            copied = true;
                            proof {
                                let k0 = op.key();
                                let fpnew = FilePointer { segment_id: mid, offset: moff };
                                assert(entries@.drop_last() =~= espre);
                                assert(entries_map(entries@) == entries_map(espre).insert(
                                    k0,
                                    fpnew,
                                ));
                                lemma_replay_seg_extend(
                                    Map::<Seq<char>, FilePointer>::empty(),
                                    mid,
                                    mergedpre,
                                    0,
                                    op,
                                );
                                assert(merged@.subrange(
                                    moff as int,
                                    merged@.len() as int,
                                ) =~= spec_encode(op));
                                crate::codec::lemma_decode_encode(op, merged@, moff as int);
                                // Older copies decode unchanged in the grown segment.
                                assert forall|k: Seq<char>| #[trigger] entries_map(
                                    espre,
                                ).contains_key(k) implies {
                                    let fp = entries_map(espre)[k];
                                    &&& spec_decode(merged@, fp.offset as int) matches Some(
                                        (op2, e2),
                                    ) && op2 == (Op::Put {
                                        key: k,
                                        value: value_at(segs0, m0[k]),
                                    })
                                } by {
                                    let fp = entries_map(espre)[k];
                                    let (op2, e2) = spec_decode(
                                        mergedpre,
                                        fp.offset as int,
                                    )->Some_0;
                                    crate::codec::lemma_decode_sound(mergedpre, fp.offset as int);
                                    assert(merged@.subrange(fp.offset as int, e2)
                                        =~= mergedpre.subrange(fp.offset as int, e2));
                                    lemma_decode_stable(mergedpre, merged@, fp.offset as int);
                                }
                                // The fresh copy holds the key's original value.
                                assert(m0[k0] == FilePointer { segment_id: sid, offset: off });
                                assert(value_at(segs0, m0[k0]) == op_value_of(op));
                            }
                        }
                    },
                    CommandType::Rm => {},
                }
                proof {
                    let esnow = entries@;
                    // Scan order advances: the locations passed are the old
                    // ones plus, when the record was live, this one.
                    assert forall|k: Seq<char>| #[trigger] m0.contains_key(k) && scanned(
                        segs0,
                        m0[k],
                        si as int,
                        end as int,
                    ) implies entries_map(esnow).contains_key(k) by {
                        let fp = m0[k];
                        lemma_find_seg_some(segs0, fp.segment_id);
                        let j = find_seg(segs0, fp.segment_id)->Some_0;
                        if j == si as int && fp.offset >= off {
                            // A boundary cannot sit inside the record just read.
                            assert(reaches(data, 0, fp.offset as int));
                            lemma_no_interior_boundary(
                                data,
                                0,
                                off as int,
                                fp.offset as int,
                                end as int,
                            );
                            assert(fp.offset == off);
                            assert(fp.segment_id == sid);
                            // The record here names exactly one key.
                            assert(loc_valid(segs0, k, fp));
                            assert(k == op.key());
                            assert(copied);
                            lemma_entries_map_mem(esnow, esnow.len() - 1);
                        }
                    }
                    assert(scan_inv(segs0, m0, mid, merged@, entries@, si as int, end as int));
                }
                off = end;
            }
            proof {
                // Every location in this segment lies before its end.
                assert forall|k: Seq<char>| #[trigger] m0.contains_key(k) && scanned(
                    segs0,
                    m0[k],
                    si + 1,
                    0,
                ) implies scanned(segs0, m0[k], si as int, off as int) by {
                    let fp = m0[k];
                    lemma_find_seg_some(segs0, fp.segment_id);
                    let j = find_seg(segs0, fp.segment_id)->Some_0;
                    if j == si as int {
                        assert(loc_valid(segs0, k, fp));
                        crate::codec::lemma_decode_sound(data, fp.offset as int);
                    }
                }
                assert(segs0.take(si + 1).drop_last() =~= segs0.take(si as int));
                assert(segs0.take(si + 1).last() == segs0[si as int]);
                assert(scan_inv(segs0, m0, mid, merged@, entries@, si + 1, 0));
            }
            si = si + 1;
        }
        // Publication: the merged segment replaces every sealed one, and
        // the index is repointed at it.
        let active = match self.segments.pop() {
            Some(s) => s,
            None => {
                proof {
                    assert(false);
                }
                Segment { id: 0, data: Vec::new() }
            },
        };
        let ghost mergedv = merged@;
        let ghost esfull = entries@;
        let mut newsegs: Vec<Segment> = Vec::new();
        newsegs.push(Segment { id: mid, data: merged });
        newsegs.push(active);
        self.segments = newsegs;
        let mut pi: usize = 0;
        proof {
            assert(entries@.take(0) =~= Seq::<(String, FilePointer)>::empty());
        }
        while pi < entries.len()
            invariant
                pi <= entries.len(),
                entries@ == esfull,
                self.config == old(self).config,
                self.index@ == patched(m0, esfull.take(pi as int)),
                self.segs().len() == 2,
                self.segs()[0].id == mid,
                self.segs()[0].data@ == mergedv,
                self.segs()[1] == segs0.last(),
                mid == aid - 1,
                aid == segs0.last().id,
                segs0.last().data@.len() == 0,
                n == segs0.len(),
                2 <= n,
                locs_valid(m0, segs0),
                forall|i: int| 0 <= i < n - 1 ==> (#[trigger] segs0[i].id) + 1 < aid,
                scan_inv(segs0, m0, mid, mergedv, esfull, n - 1, 0),
            decreases entries.len() - pi,
        {
            let fp = entries[pi].1;
            let do_patch = match self.index.get(entries[pi].0.as_str()) {
                Some(cur) => cur.segment_id <= mid,
                None => false,
            };
            proof {
                let key = esfull[pi as int].0@;
                let prefix = esfull.take(pi as int);
                lemma_entries_map_mem(esfull, pi as int);
                assert(m0.contains_key(key));
                lemma_patched_entries(m0, prefix);
                assert forall|i: int| 0 <= i < prefix.len() implies (#[trigger] prefix[i]).1.segment_id
                    == mid by {
                    assert(esfull[i].1.segment_id == mid);
                }
                lemma_entries_map_values(prefix, mid);
                if !entries_map(prefix).contains_key(key) {
                    // Still carrying its pre-compaction location, which
                    // lies in a sealed segment below the merged id.
                    let fpcur = m0[key];
                    assert(loc_valid(segs0, key, fpcur));
                    lemma_find_seg_some(segs0, fpcur.segment_id);
                    let j = find_seg(segs0, fpcur.segment_id)->Some_0;
                    if j == n - 1 {
                        assert(false);
                    }
                    assert(segs0[j].id + 1 < aid);
                }
                assert(esfull.take(pi + 1).drop_last() =~= prefix);
                assert(esfull.take(pi + 1).last() == esfull[pi as int]);
            }
            if do_patch {
                self.index.insert(clone_string(&entries[pi].0), fp);
            } else {
                proof {
                    assert(false);
                }
            }
            pi = pi + 1;
        }
        proof {
            assert(esfull.take(esfull.len() as int) =~= esfull);
            lemma_patched_entries(m0, esfull);
            // At the end of the scan every live location has been passed,
            // so the patched index is exactly the entry map.
            assert forall|k: Seq<char>| #[trigger] m0.contains_key(k) implies entries_map(
                esfull,
            ).contains_key(k) by {
                let fp = m0[k];
                assert(loc_valid(segs0, k, fp));
                lemma_find_seg_some(segs0, fp.segment_id);
                let j = find_seg(segs0, fp.segment_id)->Some_0;
                if j == segs0.len() - 1 {
                    // The active segment is empty, so nothing points there.
                    assert(false);
                }
                crate::codec::lemma_decode_sound(segs0[j].data@, fp.offset as int);
                assert(scanned(segs0, fp, segs0.len() - 1, 0));
            }
            assert(self.index@ =~= entries_map(esfull));
            // The new log replays to exactly that map.
            let segs2 = self.segs();
            let single = seq![segs2[0]];
            assert(segs2.last() == segs2[1]);
            assert(segs2.last().data@.len() == 0);
            assert(segs2.drop_last() =~= single);
            assert(single.last() == segs2[0]);
            assert(single.drop_last() =~= Seq::<Segment>::empty());
            assert(replay(Seq::<Segment>::empty()) == Map::<Seq<char>, FilePointer>::empty());
            assert(replay(single) == replay_seg(
                Map::<Seq<char>, FilePointer>::empty(),
                mid,
                segs2[0].data@,
                0,
            ));
            assert(replay(segs2) == replay_seg(replay(single), aid, segs2.last().data@, 0));
            assert(replay(segs2) == replay(single));
            assert(self.index@ == replay(segs2));
            assert forall|a: int, b: int| 0 <= a < b < segs2.len() implies segs2[a].id
                < segs2[b].id by {}
            assert forall|i: int| 0 <= i < segs2.len() implies stream_ok(
                #[trigger] segs2[i].data@,
            ) by {
                assert(stream_ok(segs2[0].data@));
                assert(stream_ok(segs2[1].data@));
            }
            // The values read back are untouched.
            assert forall|k: Seq<char>| true implies #[trigger] self.contents().contains_key(k)
                == model0.contains_key(k) && (model0.contains_key(k) ==> self.contents()[k]
                == model0[k]) by {
                if model0.contains_key(k) {
                    let fp = entries_map(esfull)[k];
                    assert(segs2.last().id == aid);
                    assert(segs2.drop_last() =~= single);
                    assert(single.last().id == mid);
                    assert(find_seg(single, mid) == Some(0int));
                    assert(find_seg(segs2, mid) == Some(0int));
                    assert(value_at(segs2, fp) == value_at(segs0, m0[k]));
                }
            }
            assert(self.contents() =~= model0);
            // And the log only shrank: the merged segment is no larger
            // than the sealed ones it replaces.
            assert(segs0.drop_last() =~= segs0.take(n - 1));
            assert(spec_total_size(segs0) == spec_total_size(segs0.take(n - 1))
                + segs0.last().data@.len());
            assert(spec_total_size(single) == spec_total_size(Seq::<Segment>::empty())
                + segs2[0].data@.len());
            assert(spec_total_size(segs2) == spec_total_size(single) + segs2.last().data@.len());
            assert(spec_total_size(segs2) <= spec_total_size(segs0));
        }
    }
}

impl KvStore {
    /// Compacts the store: seals the active segment, merges every
    /// sealed segment into one that keeps only the live records —
    /// published under the reserved id just below the fresh active
    /// segment — and leaves exactly those two segments, the merged one
    /// replaying to the whole index.  Reads are unchanged and the log
    /// never grows.  When the id space is exhausted, nothing happens
    /// at all.
    pub fn compact(&mut self)
        requires
            old(self).wf(),
        ensures
            final(self).wf(),
            final(self).contents() == old(self).contents(),
            spec_total_size(final(self).segs()) <= spec_total_size(old(self).segs()),
            old(self).active_id() + 2 > u16::MAX ==> *final(self) == *old(self),
            old(self).active_id() + 2 <= u16::MAX ==> {
                &&& final(self).segs().len() == 2
                &&& final(self).segs()[0].id == old(self).active_id() + 1
                &&& final(self).active_id() == old(self).active_id() + 2
                &&& final(self).segs().last().data@ == Seq::<char>::empty()
                &&& replay_seg(
                    Map::<Seq<char>, FilePointer>::empty(),
                    final(self).segs()[0].id,
                    final(self).segs()[0].data@,
                    0,
                ) == final(self).index_view()
            },
    {
        let n = self.segments.len();
        let active_id = self.segments[n - 1].id;
        if active_id > u16::MAX - 2 {
            return ;
        }
        let ghost segs0 = self.segs();
        self.roll_active();
        proof {
            assert(self.segs().drop_last() == segs0);
            assert(spec_total_size(self.segs()) == spec_total_size(segs0) + self.segs(
            ).last().data@.len());
            assert forall|i: int| 0 <= i < self.segs().len() - 1 implies (#[trigger] self.segs(
            )[i].id) + 1 < self.active_id() by {
                assert(self.segs()[i] == segs0[i]);
                if i < segs0.len() - 1 {
                    assert(segs0[i].id < segs0[segs0.len() - 1].id);
                }
            }
        }
        self.compact_sealed();
    }
}

/// The value a `Set` operation writes.
spec fn op_value_of(op: Op) -> Seq<char> {
    match op {
        Op::Put { value, .. } => value,
        Op::Rm { .. } => Seq::empty(),
    }
}

// ------------------------------------------------------------------
// Segment file names.
// ------------------------------------------------------------------

/// The decimal digit characters, and 10 for everything else.
pub open spec fn digit_val(c: char) -> int {
    if c == '0' {
        0
    } else if c == '1' {
        1
    } else if c == '2' {
        2
    } else if c == '3' {
        3
    } else if c == '4' {
        4
    } else if c == '5' {
        5
    } else if c == '6' {
        6
    } else if c == '7' {
        7
    } else if c == '8' {
        8
    } else if c == '9' {
        9
    } else {
        10
    }
}

/// `c` is a decimal digit.
pub open spec fn is_digit(c: char) -> bool {
    digit_val(c) < 10
}

/// A non-empty, all-digit string.
pub open spec fn is_digits(s: Seq<char>) -> bool {
    s.len() >= 1 && forall|i: int| 0 <= i < s.len() ==> is_digit(#[trigger] s[i])
}

/// The number a digit string denotes.
pub open spec fn dec_value(s: Seq<char>) -> int
    decreases s.len(),
{
    if s.len() == 0 {
        0
    } else {
        dec_value(s.drop_last()) * 10 + digit_val(s.last())
    }
}

/// The digit character for one place.
pub open spec fn dec_digit(d: int) -> char {
    if d == 0 {
        '0'
    } else if d == 1 {
        '1'
    } else if d == 2 {
        '2'
    } else if d == 3 {
        '3'
    } else if d == 4 {
        '4'
    } else if d == 5 {
        '5'
    } else if d == 6 {
        '6'
    } else if d == 7 {
        '7'
    } else if d == 8 {
        '8'
    } else {
        '9'
    }
}

/// The decimal spelling of a non-negative number, no leading zeros.
pub open spec fn u16_dec(n: int) -> Seq<char>
    decreases n,
{
    if n < 10 {
        seq![dec_digit(n)]
    } else {
        u16_dec(n / 10).push(dec_digit(n % 10))
    }
}

/// The file name of a segment: its id in decimal with the log
/// extension.
pub open spec fn log_name(id: int) -> Seq<char> {
    u16_dec(id) + seq!['.', 'l', 'o', 'g']
}

/// Digit strings denote non-negative numbers.
proof fn lemma_dec_value_nonneg(s: Seq<char>)
    ensures
        dec_value(s) >= 0,
    decreases s.len(),
{
    if s.len() > 0 {
        lemma_dec_value_nonneg(s.drop_last());
        assert(digit_val(s.last()) >= 0);
    }
}

/// A digit string denotes at least what any prefix of it does.
proof fn lemma_dec_value_monotone(s: Seq<char>, i: int)
    requires
        0 <= i <= s.len(),
    ensures
        dec_value(s) >= dec_value(s.take(i)),
    decreases s.len() - i,
{
    if i < s.len() {
        lemma_dec_value_monotone(s, i + 1);
        assert(s.take(i + 1).drop_last() =~= s.take(i));
        lemma_dec_value_nonneg(s.take(i));
        assert(digit_val(s.take(i + 1).last()) >= 0);
    } else {
        assert(s.take(i) =~= s);
    }
}

/// Spelling a number and reading it back is the identity.
pub proof fn lemma_dec_roundtrip(n: int)
    requires
        0 <= n,
    ensures
        is_digits(u16_dec(n)),
        dec_value(u16_dec(n)) == n,
    decreases n,
{
    if n < 10 {
        assert(u16_dec(n) =~= seq![dec_digit(n)]);
        assert(u16_dec(n).drop_last() =~= Seq::<char>::empty());
        assert(dec_value(Seq::<char>::empty()) == 0);
        assert(u16_dec(n).last() == dec_digit(n));
        assert(digit_val(dec_digit(n)) == n);
    } else {
        lemma_dec_roundtrip(n / 10);
        assert(u16_dec(n).drop_last() =~= u16_dec(n / 10));
        assert(u16_dec(n).last() == dec_digit(n % 10));
        assert(digit_val(dec_digit(n % 10)) == n % 10);
        assert forall|i: int| 0 <= i < u16_dec(n).len() implies is_digit(
            #[trigger] u16_dec(n)[i],
        ) by {
            if i < u16_dec(n).len() - 1 {
                assert(u16_dec(n)[i] == u16_dec(n / 10)[i]);
            }
        }
    }
}

/// Different ids spell different file names.
pub proof fn lemma_log_name_injective(a: int, b: int)
    requires
        0 <= a,
        0 <= b,
        a != b,
    ensures
        log_name(a) != log_name(b),
{
    lemma_dec_roundtrip(a);
    lemma_dec_roundtrip(b);
    if log_name(a) == log_name(b) {
        let da = u16_dec(a);
        let db = u16_dec(b);
        if da.len() == db.len() {
            assert forall|i: int| 0 <= i < da.len() implies da[i] == db[i] by {
                assert(log_name(a)[i] == log_name(b)[i]);
            }
            assert(da =~= db);
            assert(false);
        } else if da.len() < db.len() {
            // The dot of the shorter name falls on a digit of the longer.
            assert(log_name(a)[da.len() as int] == '.');
            assert(log_name(b)[da.len() as int] == db[da.len() as int]);
            assert(is_digit(db[da.len() as int]));
            assert(false);
        } else {
            assert(log_name(b)[db.len() as int] == '.');
            assert(log_name(a)[db.len() as int] == da[db.len() as int]);
            assert(is_digit(da[db.len() as int]));
            assert(false);
        }
    }
}

/// A segment's file name always reads back as its id: spelling an id
/// with the log extension and parsing the name again is the identity.
pub proof fn lemma_log_name_roundtrip(id: int)
    requires
        0 <= id <= u16::MAX,
    ensures
        spec_log_id(log_name(id)) == Ok::<Option<int>, ()>(Some(id)),
{
    let name = log_name(id);
    let stem = u16_dec(id);
    let p = stem.len() as int;
    lemma_dec_roundtrip(id);
    // The only dot is the extension's.
    assert(name[p] == '.');
    assert(last_dot(name) == Some(p)) by {
        let n3 = name.drop_last();
        let n2 = n3.drop_last();
        let n1 = n2.drop_last();
        assert(name.len() == p + 4);
        assert(name.last() == 'g');
        assert(n3.len() == p + 3);
        assert(n3.last() == name[p + 2]);
        assert(name[p + 2] == 'o');
        assert(n2.len() == p + 2);
        assert(n2.last() == n3[p + 1]);
        assert(n3[p + 1] == name[p + 1]);
        assert(name[p + 1] == 'l');
        assert(n1.len() == p + 1);
        assert(n1.last() == n2[p]);
        assert(n2[p] == name[p]);
        assert(last_dot(name) == last_dot(n3));
        assert(last_dot(n3) == last_dot(n2));
        assert(last_dot(n2) == last_dot(n1));
        assert(last_dot(n1) == Some(p));
    }
    assert(p >= 1);
    assert(name.subrange(p + 1, name.len() as int) =~= seq!['l', 'o', 'g']);
    assert(name.subrange(0, p) =~= stem);
}

/// The position of the last dot in a name.
pub open spec fn last_dot(s: Seq<char>) -> Option<int>
    decreases s.len(),
{
    if s.len() == 0 {
        None
    } else if s.last() == '.' {
        Some(s.len() - 1)
    } else {
        last_dot(s.drop_last())
    }
}

/// What `get_log_id` answers for a file name: `None` for a name without
/// a proper `.log` extension, the id for a digit stem, and a parse
/// failure for any other stem.
pub open spec fn spec_log_id(s: Seq<char>) -> Result<Option<int>, ()> {
    match last_dot(s) {
        None => Ok(None),
        Some(p) => if p == 0 || s.subrange(p + 1, s.len() as int) != seq!['l', 'o', 'g'] {
            Ok(None)
        } else if is_digits(s.subrange(0, p)) && dec_value(s.subrange(0, p)) <= u16::MAX {
            Ok(Some(dec_value(s.subrange(0, p))))
        } else {
            Err(())
        },
    }
}

/// Appends a number's decimal spelling.
fn push_dec(out: &mut Vec<char>, n: u16)
    ensures
        final(out)@ == old(out)@ + u16_dec(n as int),
    decreases n,
{
    let d = n % 10;
    let c: char = if d == 0 {
        '0'
    } else if d == 1 {
        '1'
    } else if d == 2 {
        '2'
    } else if d == 3 {
        '3'
    } else if d == 4 {
        '4'
    } else if d == 5 {
        '5'
    } else if d == 6 {
        '6'
    } else if d == 7 {
        '7'
    } else if d == 8 {
        '8'
    } else {
        '9'
    };
    if n < 10 {
        out.push(c);
        proof {
            assert(old(out)@ + u16_dec(n as int) =~= old(out)@.push(dec_digit(n as int)));
        }
    } else {
        push_dec(out, n / 10);
        out.push(c);
        proof {
            assert(old(out)@ + u16_dec(n as int) =~= (old(out)@ + u16_dec(n as int / 10)).push(
                dec_digit(n as int % 10),
            ));
        }
    }
}

/// The file name holding the segment with the given id.
pub fn get_log_path(id: u16) -> (name: String)
    ensures
        name@ == log_name(id as int),
{
    let mut out: Vec<char> = Vec::new();
    push_dec(&mut out, id);
    out.push('.');
    out.push('l');
    out.push('o');
    out.push('g');
    proof {
        assert(out@ =~= log_name(id as int));
    }
    crate::codec::chars_to_string(&out)
}

/// Reads a segment id out of a file name: the id for `<digits>.log`,
/// `None` for a name that is no segment file at all, and a parse error
/// for a `.log` name whose stem is not a small decimal number.
pub fn get_log_id(name: &str) -> (r: Result<Option<u16>, KvStoreError>)
    ensures
        match r {
            Ok(Some(id)) => spec_log_id(name@) == Ok::<Option<int>, ()>(Some(id as int)),
            Ok(None) => spec_log_id(name@) == Ok::<Option<int>, ()>(None::<int>),
            Err(e) => spec_log_id(name@) == Err::<Option<int>, ()>(()) && e is ParseIntError,
        },
{
    let n = name.unicode_len();
    // Find the last dot.
    let mut i = n;
    proof {
        assert(name@.take(n as int) =~= name@);
    }
    while i > 0
        invariant
            i <= n,
            n == name@.len(),
            last_dot(name@) == last_dot(name@.take(i as int)),
        decreases i,
    {
        i = i - 1;
        proof {
            assert(name@.take(i + 1).last() == name@[i as int]);
            assert(name@.take(i + 1).drop_last() =~= name@.take(i as int));
        }
        if name.get_char(i) == '.' {
            proof {
                assert(last_dot(name@) == Some(i as int));
            }
            // A proper extension has exactly `log` after the dot, and a
            // non-empty stem before it.
            if i == 0 || n - i != 4 {
                proof {
                    if i > 0 {
                        assert(name@.subrange(i + 1, n as int).len() != 3);
                        assert(name@.subrange(i + 1, n as int) != seq!['l', 'o', 'g']);
                    }
                    assert(spec_log_id(name@) == Ok::<Option<int>, ()>(None::<int>));
                }
                return Ok(None);
            }
            if !(name.get_char(i + 1) == 'l' && name.get_char(i + 2) == 'o' && name.get_char(
                i + 3,
            ) == 'g') {
                proof {
                    assert(name@.subrange(i + 1, n as int) != seq!['l', 'o', 'g']);
                }
                return Ok(None);
            }
            proof {
                assert(name@.subrange(i + 1, n as int) =~= seq!['l', 'o', 'g']);
            }
            // Parse the stem as a decimal id.
            let ghost stem = name@.subrange(0, i as int);
            let mut acc: u32 = 0;
            let mut j: usize = 0;
            while j < i
                invariant
                    j <= i,
                    0 < i < n,
                    n == name@.len(),
                    last_dot(name@) == Some(i as int),
                    name@.subrange(i + 1, n as int) == seq!['l', 'o', 'g'],
                    stem == name@.subrange(0, i as int),
                    acc <= u16::MAX,
                    acc == dec_value(stem.take(j as int)),
                    forall|t: int| 0 <= t < j ==> is_digit(#[trigger] stem[t]),
                decreases i - j,
            {
                let c = name.get_char(j);
                let d: u32 = match c {
                    '0' => 0,
                    '1' => 1,
                    '2' => 2,
                    '3' => 3,
                    '4' => 4,
                    '5' => 5,
                    '6' => 6,
                    '7' => 7,
                    '8' => 8,
                    '9' => 9,
                    _ => {
                        proof {
                            assert(stem[j as int] == c);
                            assert(!is_digit(stem[j as int]));
                            assert(!is_digits(stem));
                        }
                        return Err(
                            KvStoreError::ParseIntError {
                                error: "invalid segment id".to_owned(),
                            },
                        );
                    },
                };
                proof {
                    assert(stem.take(j + 1).drop_last() =~= stem.take(j as int));
                    assert(stem.take(j + 1).last() == stem[j as int]);
                    assert(digit_val(stem[j as int]) == d);
                }
                let next = acc * 10 + d;
                if next > u16::MAX as u32 {
                    proof {
                        lemma_dec_value_monotone(stem, j + 1);
                        assert(stem.take(stem.len() as int) =~= stem);
                    }
                    return Err(
                        KvStoreError::ParseIntError {
                            error: "invalid segment id".to_owned(),
                        },
                    );
                }
                acc = next;
                j = j + 1;
            }
            proof {
                assert(stem.take(i as int) =~= stem);
                assert(is_digits(stem));
            }
            return Ok(Some(acc as u16));
        }
    }
    proof {
        assert(name@.take(0) =~= Seq::<char>::empty());
    }
    Ok(None)
}

impl KvsEngine for KvStore {
    /// The store's invariant is its well-formedness.
    open spec fn inv(&self) -> bool {
        self.wf()
    }

    /// The store's observable contents.
    open spec fn model(&self) -> Map<Seq<char>, Seq<char>> {
        self.contents()
    }

    /// Beyond the engine contract, the store pins the write's effect on
    /// the log itself: below the size limit exactly one `Set` record is
    /// appended at the previous end of the active segment and nothing
    /// else moves; past it the active id advances by two and the record
    /// opens the fresh segment at offset zero.  Either way the index
    /// points at the new record.
    fn set(&mut self, key: String, value: String) -> (r: Result<(), KvStoreError>)
        ensures
            final(self).active_id() == if old(self).will_roll() {
                (old(self).active_id() + 2) as u16
            } else {
                old(self).active_id()
            },
            !old(self).will_roll() ==> {
                &&& final(self).segs().len() == old(self).segs().len()
                &&& final(self).segs().drop_last() == old(self).segs().drop_last()
                &&& final(self).segs().last().data@ == old(self).segs().last().data@
                    + spec_encode(Op::Put { key: key@, value: value@ })
                &&& final(self).index_view() == old(self).index_view().insert(
                    key@,
                    FilePointer {
                        segment_id: old(self).active_id(),
                        offset: old(self).segs().last().data@.len() as usize,
                    },
                )
            },
            old(self).will_roll() ==> {
                &&& final(self).segs().last().data@ == spec_encode(
                    Op::Put { key: key@, value: value@ },
                )
                &&& final(self).index_view().contains_key(key@)
                &&& final(self).index_view()[key@] == (FilePointer {
                    segment_id: (old(self).active_id() + 2) as u16,
                    offset: 0,
                })
            },
            final(self).filesize_limit() == old(self).filesize_limit(),
            final(self).compaction_thresh() == old(self).compaction_thresh(),
    {
        self.do_set(key, value)
    }

    fn get(&self, key: String) -> (r: Result<Option<String>, KvStoreError>) {
        self.do_get(key)
    }

    /// Beyond the engine contract: unbinding a live key appends exactly
    /// one `Remove` record at the end of the active segment and drops
    /// the key's index entry; unbinding an absent key changes nothing
    /// at all.
    fn remove(&mut self, key: String) -> (r: Result<(), KvStoreError>)
        ensures
            !old(self).contents().contains_key(key@) ==> *final(self) == *old(self),
            old(self).contents().contains_key(key@) ==> {
                &&& final(self).segs().len() == old(self).segs().len()
                &&& final(self).segs().drop_last() == old(self).segs().drop_last()
                &&& final(self).segs().last().id == old(self).active_id()
                &&& final(self).segs().last().data@ == old(self).segs().last().data@
                    + spec_encode(Op::Rm { key: key@ })
                &&& final(self).index_view() == old(self).index_view().remove(key@)
            },
    {
        self.do_remove(key)
    }
}

// ------------------------------------------------------------------
// The store's laws.
// ------------------------------------------------------------------

impl KvStore {
    /// How many segments the store holds, the active one included.
    pub fn segment_count(&self) -> (n: usize)
        ensures
            n == self.segs().len(),
    {
        self.segments.len()
    }

    /// Borrows the segment at a position, oldest first; the last one is
    /// active.
    pub fn segment_at(&self, i: usize) -> (seg: &Segment)
        requires
            i < self.segs().len(),
        ensures
            *seg == self.segs()[i as int],
    {
        &self.segments[i]
    }

    /// The number of characters the whole log occupies.
    pub fn total_size(&self) -> (n: u128)
        ensures
            n == spec_total_size(self.segs()),
    {
        let mut n: u128 = 0;
        let mut i: usize = 0;
        proof {
            assert(self.segs().take(0) =~= Seq::<Segment>::empty());
        }
        while i < self.segments.len()
            invariant
                i <= self.segs().len(),
                n == spec_total_size(self.segs().take(i as int)),
                n <= i * 0x1_0000_0000_0000_0000u128,
            decreases self.segs().len() - i,
        {
            let l = self.segments[i].data.len();
            proof {
                assert(self.segs().take(i + 1).drop_last() =~= self.segs().take(i as int));
                assert(self.segs().take(i + 1).last() == self.segs()[i as int]);
                assert(l < 0x1_0000_0000_0000_0000u128);
            }
            n = n + l as u128;
            i = i + 1;
        }
        proof {
            assert(self.segs().take(self.segs().len() as int) =~= self.segs());
        }
        n
    }
}

/// Every key the index holds resolves on disk to a canonical `Set`
/// record bearing exactly that key, whose value is what the store
/// observes for it.
pub proof fn lemma_index_disk_agreement(s: &KvStore, k: Seq<char>)
    requires
        s.wf(),
        s.index_view().contains_key(k),
    ensures
        ({
            let fp = s.index_view()[k];
            &&& find_seg(s.segs(), fp.segment_id) is Some
            &&& spec_decode(
                s.segs()[find_seg(s.segs(), fp.segment_id)->Some_0].data@,
                fp.offset as int,
            ) matches Some((op, end)) && op == (Op::Put { key: k, value: s.contents()[k] })
            &&& s.contents().contains_key(k)
            &&& s.contents()[k] == value_at(s.segs(), fp)
        }),
{
    lemma_replay_valid(s.segs());
    let fp = s.index_view()[k];
    assert(loc_valid(s.segs(), k, fp));
}

/// A key absent from the index is absent from the store: nothing else
/// can answer for it.
pub proof fn lemma_no_ghost_keys(s: &KvStore, k: Seq<char>)
    requires
        s.wf(),
        !s.index_view().contains_key(k),
    ensures
        !s.contents().contains_key(k),
{
}

/// At any instant the segment ids are pairwise distinct, and so are
/// the file names they map to.
pub proof fn lemma_unique_segment_ids(s: &KvStore, i: int, j: int)
    requires
        s.wf(),
        0 <= i < j < s.segs().len(),
    ensures
        s.segs()[i].id != s.segs()[j].id,
        log_name(s.segs()[i].id as int) != log_name(s.segs()[j].id as int),
{
    assert(s.segs()[i].id < s.segs()[j].id);
    lemma_log_name_injective(s.segs()[i].id as int, s.segs()[j].id as int);
}

/// At most one segment is writable: the id of the active segment — the
/// last, the only one writes go to — singles it out among all segments.
pub proof fn lemma_at_most_one_active(s: &KvStore)
    requires
        s.wf(),
    ensures
        find_seg(s.segs(), s.active_id()) == Some(s.segs().len() - 1),
        forall|i: int| 0 <= i < s.segs().len() - 1 ==> (#[trigger] s.segs()[i].id)
            != s.active_id(),
{
    assert forall|i: int| 0 <= i < s.segs().len() - 1 implies (#[trigger] s.segs()[i].id)
        != s.active_id() by {
        assert(s.segs()[i].id < s.segs()[s.segs().len() - 1].id);
    }
}

/// Closing the store and reopening it from its segment files preserves
/// the result of every read: a store built by `open` from this store's
/// segments has the same observable contents.
pub proof fn lemma_crash_restart(s: &KvStore, t: &KvStore)
    requires
        s.wf(),
        t.wf(),
        t.segs().drop_last() == sort_segs(s.segs()),
        t.segs().last().data@ == Seq::<char>::empty(),
        t.index_view() == replay(sort_segs(s.segs())),
    ensures
        t.contents() == s.contents(),
{
    lemma_sort_segs_identity(s.segs());
    assert(t.index_view() == s.index_view());
    lemma_replay_valid(s.segs());
    assert forall|k: Seq<char>| #[trigger] s.index_view().contains_key(k) implies value_at(
        t.segs(),
        s.index_view()[k],
    ) == value_at(s.segs(), s.index_view()[k]) by {
        let fp = s.index_view()[k];
        assert(loc_valid(s.segs(), k, fp));
        lemma_find_seg_some(s.segs(), fp.segment_id);
        let j = find_seg(s.segs(), fp.segment_id)->Some_0;
        assert(t.segs()[j] == s.segs()[j]);
        assert(s.segs()[j].id < t.segs()[t.segs().len() - 1].id);
        assert(t.segs().drop_last().push(t.segs().last()) =~= t.segs());
        lemma_value_stable_push(s.segs(), t.segs().last(), k, fp);
    }
    assert(t.contents() =~= s.contents());
}

/// Binding a key and then reading it yields the value just written,
/// whatever else the store holds.
pub proof fn lemma_set_then_get(m: Map<Seq<char>, Seq<char>>, k: Seq<char>, v: Seq<char>)
    ensures
        m.insert(k, v).contains_key(k),
        m.insert(k, v)[k] == v,
{
}

/// Removing a key after binding it leaves it absent, whatever else the
/// store holds; a second removal then finds nothing to remove.
pub proof fn lemma_set_then_remove(m: Map<Seq<char>, Seq<char>>, k: Seq<char>, v: Seq<char>)
    ensures
        !m.insert(k, v).remove(k).contains_key(k),
{
}

/// Binding a key twice leaves the later value, whatever else the store
/// holds.
pub proof fn lemma_overwrite(
    m: Map<Seq<char>, Seq<char>>,
    k: Seq<char>,
    v1: Seq<char>,
    v2: Seq<char>,
)
    ensures
        m.insert(k, v1).insert(k, v2).contains_key(k),
        m.insert(k, v1).insert(k, v2)[k] == v2,
{
}

/// A batch of bindings applied in the order the engine serialized them.
pub open spec fn apply_sets(
    m: Map<Seq<char>, Seq<char>>,
    ws: Seq<(Seq<char>, Seq<char>)>,
) -> Map<Seq<char>, Seq<char>>
    decreases ws.len(),
{
    if ws.len() == 0 {
        m
    } else {
        apply_sets(m, ws.drop_last()).insert(ws.last().0, ws.last().1)
    }
}

/// However many clients issue bindings and however the engine
/// interleaves them, once they are all applied the keys present are
/// exactly those issued together with what was there before, and each
/// issued key holds one of the values written for it.
pub proof fn lemma_serialized_sets(m: Map<Seq<char>, Seq<char>>, ws: Seq<(Seq<char>, Seq<char>)>)
    ensures
        forall|k: Seq<char>| #[trigger] apply_sets(m, ws).contains_key(k) <==> (m.contains_key(k)
            || exists|i: int| 0 <= i < ws.len() && (#[trigger] ws[i]).0 == k),
        forall|i: int|
            #![trigger ws[i]]
            0 <= i < ws.len() ==> exists|j: int|
                0 <= j < ws.len() && (#[trigger] ws[j]).0 == ws[i].0 && apply_sets(m, ws)[ws[i].0]
                    == ws[j].1,
    decreases ws.len(),
{
    if ws.len() > 0 {
        lemma_serialized_sets(m, ws.drop_last());
        let prefix = ws.drop_last();
        let (lk, lv) = ws.last();
        assert forall|k: Seq<char>| #[trigger] apply_sets(m, ws).contains_key(k) implies (
        m.contains_key(k) || exists|i: int| 0 <= i < ws.len() && (#[trigger] ws[i]).0 == k) by {
            if k == lk {
                assert(ws[ws.len() - 1].0 == k);
            } else {
                assert(apply_sets(m, prefix).contains_key(k));
                if !m.contains_key(k) {
                    let i = choose|i: int| 0 <= i < prefix.len() && (#[trigger] prefix[i]).0 == k;
                    assert(ws[i].0 == k);
                }
            }
        }
        assert forall|k: Seq<char>|
            (m.contains_key(k) || exists|i: int|
                0 <= i < ws.len() && (#[trigger] ws[i]).0 == k) implies apply_sets(
            m,
            ws,
        ).contains_key(k) by {
            if k != lk {
                if m.contains_key(k) {
                    assert(apply_sets(m, prefix).contains_key(k));
                } else {
                    let i = choose|i: int| 0 <= i < ws.len() && (#[trigger] ws[i]).0 == k;
                    assert(i < prefix.len());
                    assert(prefix[i].0 == k);
                    assert(exists|t: int| 0 <= t < prefix.len() && (#[trigger] prefix[t]).0 == k);
                    assert(apply_sets(m, prefix).contains_key(k));
                }
            }
        }
        assert forall|i: int| #![trigger ws[i]] 0 <= i < ws.len() implies exists|j: int|
            0 <= j < ws.len() && (#[trigger] ws[j]).0 == ws[i].0 && apply_sets(m, ws)[ws[i].0]
                == ws[j].1 by {
            if ws[i].0 == lk {
                assert(ws[ws.len() - 1].0 == ws[i].0 && apply_sets(m, ws)[ws[i].0] == ws[ws.len()
                    - 1].1);
            } else {
                assert(prefix[i] == ws[i]);
                let j = choose|j: int|
                    0 <= j < prefix.len() && (#[trigger] prefix[j]).0 == prefix[i].0 && apply_sets(
                        m,
                        prefix,
                    )[prefix[i].0] == prefix[j].1;
                assert(ws[j].0 == ws[i].0 && apply_sets(m, ws)[ws[i].0] == ws[j].1);
            }
        }
    }
}

/// Copies a string.
fn clone_string(s: &String) -> (r: String)
    ensures
        r@ == s@,
{
    s.clone()
}

/// An empty string.
fn new_string() -> (r: String)
    ensures
        r@ == Seq::<char>::empty(),
{
    String::new()
}

impl Segment {
    /// The number of characters in the segment.
    pub fn len_of_data(&self) -> (n: usize)
        ensures
            n == self.data@.len(),
    {
        self.data.len()
    }

    /// Borrows the segment's contents.
    pub fn borrow_data(&self) -> (d: &Vec<char>)
        ensures
            d@ == self.data@,
    {
        &self.data
    }
}

} // verus!
