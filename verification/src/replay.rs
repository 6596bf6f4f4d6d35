//! Replay: folding the records of the log segments into the in-memory index.
//!
//! On open, every segment is streamed through the codec in ascending
//! identifier order; each `Set` record inserts its key with the byte range of
//! the record, each `Remove` record deletes its key.  [`replay_bytes`] is the
//! mathematical form of that fold over one segment's bytes, [`replay_from`]
//! over a sequence of segments.

use vstd::prelude::*;

use crate::codec::spec_decode;
use crate::codec::decode_one;
use crate::codec::lemma_decode_framing;
use crate::codec::lemma_spec_decode_bounds;
use crate::codec::Command;
use crate::codec::CmdView;
use crate::error::KvsError;
use crate::index::distinct_keys;
use crate::index::idx_insert;
use crate::index::idx_map;
use crate::index::idx_remove;
use crate::index::CmdPos;
use crate::index::EntryV;

verus! {

/// One log segment: its integer identifier and its byte contents.
pub struct Segment {
    pub id: usize,
    pub data: Vec<u8>,
}

/// The effect of one record on the index map.
pub open spec fn apply_rec(
    m: Map<Seq<char>, EntryV>,
    c: CmdView,
    f_id: int,
    pos: int,
    end: int,
) -> Map<Seq<char>, EntryV> {
    match c {
        CmdView::SetCmd { key, value } => m.insert(key, EntryV { f_id, pos, sz: end - pos }),
        CmdView::Rm { key } => m.remove(key),
    }
}

/// Replays the records of `b` from offset `i` on, starting from index map
/// `m`.  `None` marks a malformed record.
pub open spec fn replay_bytes(
    m: Map<Seq<char>, EntryV>,
    b: Seq<u8>,
    i: int,
    f_id: int,
) -> Option<Map<Seq<char>, EntryV>>
    decreases b.len() - i,
{
    if i < 0 || i > b.len() {
        None
    } else if i == b.len() {
        Some(m)
    } else {
        match spec_decode(b, i) {
            None => None,
            Some((c, e)) => if i < e && e <= b.len() {
                replay_bytes(apply_rec(m, c, f_id, i, e), b, e, f_id)
            } else {
                None
            },
        }
    }
}

/// Replays one whole segment into `m`.
pub open spec fn replay_seg(m: Map<Seq<char>, EntryV>, seg: Segment) -> Option<
    Map<Seq<char>, EntryV>,
> {
    replay_bytes(m, seg.data@, 0, seg.id as int)
}

/// Replays the segments from position `j` on, in order, into `m`.
pub open spec fn replay_from(m: Map<Seq<char>, EntryV>, segs: Seq<Segment>, j: int) -> Option<
    Map<Seq<char>, EntryV>,
>
    decreases segs.len() - j,
{
    if j < 0 || j > segs.len() {
        None
    } else if j == segs.len() {
        Some(m)
    } else {
        match replay_seg(m, segs[j]) {
            None => None,
            Some(m2) => replay_from(m2, segs, j + 1),
        }
    }
}

/// The index that replaying all segments in order reconstructs.
pub open spec fn replay_all(segs: Seq<Segment>) -> Option<Map<Seq<char>, EntryV>> {
    replay_from(Map::empty(), segs, 0)
}

/// Appending one record to a byte sequence extends its replay by that
/// record's effect.  The record is given by the appended bytes alone, so the
/// lemma serves both fresh appends and compaction's raw copies.
pub proof fn lemma_replay_append(
    m: Map<Seq<char>, EntryV>,
    b: Seq<u8>,
    i: int,
    f_id: int,
    x: Seq<u8>,
    c: CmdView,
)
    requires
        replay_bytes(m, b, i, f_id) is Some,
        x.len() > 0,
        spec_decode(b + x, b.len() as int) == Some((c, (b.len() + x.len()) as int)),
    ensures
        replay_bytes(m, b + x, i, f_id) == Some(
            apply_rec(
                replay_bytes(m, b, i, f_id)->Some_0,
                c,
                f_id,
                b.len() as int,
                (b.len() + x.len()) as int,
            ),
        ),
    decreases b.len() - i,
{
    let bx = b + x;
    if i == b.len() {
        let e = (b.len() + x.len()) as int;
        assert(replay_bytes(m, bx, i, f_id) == replay_bytes(
            apply_rec(m, c, f_id, i, e),
            bx,
            e,
            f_id,
        ));
        assert(replay_bytes(apply_rec(m, c, f_id, i, e), bx, e, f_id) == Some(
            apply_rec(m, c, f_id, i, e),
        ));
    } else {
        let (c0, e0) = spec_decode(b, i)->Some_0;
        lemma_spec_decode_bounds(b, i);
        assert(bx.subrange(i, e0) =~= b.subrange(i, e0));
        lemma_decode_framing(b, i, bx, i);
        assert(spec_decode(bx, i) == Some((c0, e0)));
        lemma_replay_append(apply_rec(m, c0, f_id, i, e0), b, e0, f_id, x, c);
    }
}

/// Replaying a segment sequence decomposes at its last segment.
pub proof fn lemma_replay_from_snoc(m0: Map<Seq<char>, EntryV>, segs: Seq<Segment>, j: int)
    requires
        0 <= j < segs.len(),
    ensures
        replay_from(m0, segs, j) == (match replay_from(m0, segs.drop_last(), j) {
            None => None,
            Some(m1) => replay_seg(m1, segs.last()),
        }),
    decreases segs.len() - j,
{
    if j == segs.len() - 1 {
        assert(replay_from(m0, segs.drop_last(), j) == Some(m0));
        match replay_seg(m0, segs[j]) {
            None => {},
            Some(m2) => {
                assert(replay_from(m2, segs, j + 1) == Some(m2));
            },
        }
    } else {
        assert(segs.drop_last()[j] == segs[j]);
        match replay_seg(m0, segs[j]) {
            None => {},
            Some(m2) => {
                lemma_replay_from_snoc(m2, segs, j + 1);
            },
        }
    }
}

/// A valid index entry: the byte range it names lies inside the segment's
/// data and decodes to exactly one `Set` record for that key.
pub open spec fn valid_entry_in(data: Seq<u8>, k: Seq<char>, e: EntryV) -> bool {
    &&& 0 <= e.pos
    &&& 0 < e.sz
    &&& e.pos + e.sz <= data.len()
    &&& match spec_decode(data, e.pos) {
        Some((c, end)) => end == e.pos + e.sz && match c {
            CmdView::SetCmd { key, value } => key == k,
            CmdView::Rm { key } => false,
        },
        None => false,
    }
}

/// The value that the record named by a valid entry binds its key to.
pub open spec fn entry_value_in(data: Seq<u8>, e: EntryV) -> Seq<char> {
    match spec_decode(data, e.pos) {
        Some((c, end)) => match c {
            CmdView::SetCmd { key, value } => value,
            CmdView::Rm { key } => Seq::empty(),
        },
        None => Seq::empty(),
    }
}

/// A valid entry against some segment of the sequence.
pub open spec fn entry_valid(segs: Seq<Segment>, k: Seq<char>, e: EntryV) -> bool {
    exists|si: int|
        0 <= si < segs.len() && (#[trigger] segs[si]).id == e.f_id && valid_entry_in(
            segs[si].data@,
            k,
            e,
        )
}

/// Every entry of the map is valid against the segments.
pub open spec fn map_valid(segs: Seq<Segment>, m: Map<Seq<char>, EntryV>) -> bool {
    forall|k: Seq<char>| m.contains_key(k) ==> entry_valid(segs, k, #[trigger] m[k])
}

/// Replaying one segment of the sequence preserves validity of the map.
proof fn lemma_replay_bytes_valid(segs: Seq<Segment>, si: int, m: Map<Seq<char>, EntryV>, i: int)
    requires
        0 <= si < segs.len(),
        map_valid(segs, m),
        replay_bytes(m, segs[si].data@, i, segs[si].id as int) is Some,
    ensures
        map_valid(segs, replay_bytes(m, segs[si].data@, i, segs[si].id as int)->Some_0),
    decreases segs[si].data@.len() - i,
{
    let b = segs[si].data@;
    let f_id = segs[si].id as int;
    if i == b.len() {
    } else {
        let (c, e) = spec_decode(b, i)->Some_0;
        lemma_spec_decode_bounds(b, i);
        let m2 = apply_rec(m, c, f_id, i, e);
        assert(map_valid(segs, m2)) by {
            match c {
                CmdView::SetCmd { key, value } => {
                    let ne = EntryV { f_id, pos: i, sz: e - i };
                    assert(valid_entry_in(b, key, ne));
                    assert(entry_valid(segs, key, ne));
                    assert(forall|k: Seq<char>|
                        m2.contains_key(k) && k != key ==> m2[k] == m[k] && m.contains_key(k));
                },
                CmdView::Rm { key } => {},
            }
        }
        lemma_replay_bytes_valid(segs, si, m2, e);
    }
}

/// Replaying the tail of the segment sequence preserves validity of the map.
pub proof fn lemma_replay_from_valid(segs: Seq<Segment>, m: Map<Seq<char>, EntryV>, j: int)
    requires
        map_valid(segs, m),
        replay_from(m, segs, j) is Some,
    ensures
        map_valid(segs, replay_from(m, segs, j)->Some_0),
    decreases segs.len() - j,
{
    if j == segs.len() {
    } else {
        let m2 = replay_seg(m, segs[j])->Some_0;
        lemma_replay_bytes_valid(segs, j, m, 0);
        lemma_replay_from_valid(segs, m2, j + 1);
    }
}

/// Replays one segment's bytes into the index, returning the byte length
/// consumed (the whole segment) or a decode failure.
#[verifier::rlimit(100)]
pub fn replay(
    data: &Vec<u8>,
    idx: &mut Vec<(String, CmdPos)>,
    f_id: usize,
) -> (r: Result<usize, KvsError>)
    requires
        distinct_keys(old(idx)@),
    ensures
        distinct_keys(final(idx)@),
        match r {
            Ok(prev) => prev == data@.len() && replay_bytes(
                idx_map(old(idx)@),
                data@,
                0,
                f_id as int,
            ) == Some(idx_map(final(idx)@)),
            Err(e) => e == KvsError::Serde && replay_bytes(
                idx_map(old(idx)@),
                data@,
                0,
                f_id as int,
            ) is None,
        },
{
    let ghost m0 = idx_map(idx@);
    let n = data.len();
    let mut pos: usize = 0;
    while pos < n
        invariant
            n == data@.len(),
            pos <= n,
            m0 == idx_map(old(idx)@),
            distinct_keys(idx@),
            replay_bytes(m0, data@, 0, f_id as int) == replay_bytes(
                idx_map(idx@),
                data@,
                pos as int,
                f_id as int,
            ),
        decreases n - pos,
    {
        match decode_one(data, pos) {
            None => {
                proof {
                    assert(replay_bytes(idx_map(idx@), data@, pos as int, f_id as int) is None);
                }
                return Err(KvsError::Serde);
            },
            Some((cmd, end)) => {
                proof {
                    lemma_spec_decode_bounds(data@, pos as int);
                }
                let ghost mcur = idx_map(idx@);
                let ghost cv = cmd@;
                let sz = end - pos;
                match cmd {
                    Command::SetCmd { key, value: _ } => {
                        idx_insert(idx, key, CmdPos { f_id, pos, sz });
                        proof {
                            assert(idx_map(idx@) =~= apply_rec(
                                mcur,
                                cv,
                                f_id as int,
                                pos as int,
                                end as int,
                            ));
                        }
                    },
                    Command::Rm { key } => {
                        let was_there = idx_remove(idx, &key);
                        proof {
                            if !was_there {
                                assert(idx_map(idx@) =~= mcur.remove(key@));
                            }
                            assert(idx_map(idx@) =~= apply_rec(
                                mcur,
                                cv,
                                f_id as int,
                                pos as int,
                                end as int,
                            ));
                        }
                    },
                }
                proof {
                    assert(replay_bytes(mcur, data@, pos as int, f_id as int) == replay_bytes(
                        idx_map(idx@),
                        data@,
                        end as int,
                        f_id as int,
                    ));
                }
                pos = end;
            },
        }
    }
    Ok(pos)
}

} // verus!
