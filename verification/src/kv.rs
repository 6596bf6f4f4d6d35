//! The engine facade: `open`, `get`, `set`, `remove`, and compaction.
//!
//! A store holds the contents of every log segment, the in-memory index, the
//! identifier of the active (append) segment, and the cumulative byte count
//! that triggers compaction.  The embedding program reads the segment files
//! into [`Segment`] values on open and mirrors appends and compactions back
//! to disk; the engine itself never touches the filesystem.

use vstd::prelude::*;
use vstd::multiset::Multiset;

use crate::codec::encode_command;
use crate::codec::lemma_decode_encode;
use crate::codec::lemma_decode_framing;
use crate::codec::decode_one;
use crate::codec::spec_encode;
use crate::codec::Command;
use crate::codec::CmdView;
use crate::error::ErrorKind;
use crate::error::KvsError;
use crate::index::distinct_keys;
use crate::index::idx_find;
use crate::index::idx_insert;
use crate::index::idx_map;
use crate::index::idx_remove;
use crate::index::lemma_idx_map_absent;
use crate::index::lemma_idx_map_dom;
use crate::index::lemma_idx_map_index;
use crate::index::lemma_idx_map_push;
use crate::index::CmdPos;
use crate::index::EntryV;
use crate::replay::apply_rec;
use crate::replay::entry_valid;
use crate::replay::entry_value_in;
use crate::replay::lemma_replay_append;
use crate::replay::lemma_replay_from_snoc;
use crate::replay::lemma_replay_from_valid;
use crate::replay::map_valid;
use crate::replay::replay;
use crate::replay::replay_all;
use crate::replay::replay_bytes;
use crate::replay::replay_from;
use crate::replay::replay_seg;
use crate::replay::valid_entry_in;
use crate::replay::Segment;

verus! {

/// The byte threshold at which a mutating operation triggers compaction.
pub const MAX_STORE_SZ: usize = 2048;

/// The total number of bytes held by a sequence of segments.
pub open spec fn total_len(segs: Seq<Segment>) -> int
    decreases segs.len(),
{
    if segs.len() == 0 {
        0
    } else {
        total_len(segs.drop_last()) + segs.last().data@.len()
    }
}

/// Caps a mathematical count at what a `usize` can hold.
pub open spec fn cap_usize(n: int) -> int {
    if n > usize::MAX as int {
        usize::MAX as int
    } else {
        n
    }
}

/// Segment identifiers strictly increase along the sequence.
pub open spec fn sorted_ids(segs: Seq<Segment>) -> bool {
    forall|p: int, q: int| 0 <= p < q < segs.len() ==> segs[p].id < segs[q].id
}

/// The sum of the record sizes the index holds: the number of live bytes.
pub open spec fn live_size(l: Seq<(String, CmdPos)>) -> int
    decreases l.len(),
{
    if l.len() == 0 {
        0
    } else {
        live_size(l.drop_last()) + l.last().1@.sz
    }
}

/// The position of the segment with identifier `f_id`, where one exists.
pub open spec fn seg_index_of(segs: Seq<Segment>, f_id: int) -> int {
    choose|si: int| 0 <= si < segs.len() && (#[trigger] segs[si]).id == f_id
}

/// The key-value mapping that an index map denotes over segment contents:
/// each key maps to the value of the `Set` record its entry points at.
pub open spec fn kv_of(segs: Seq<Segment>, m: Map<Seq<char>, EntryV>) -> Map<
    Seq<char>,
    Seq<char>,
> {
    Map::new(
        |k: Seq<char>| m.contains_key(k),
        |k: Seq<char>| entry_value_in(segs[seg_index_of(segs, m[k].f_id)].data@, m[k]),
    )
}

/// The log-structured key-value store.
pub struct KvStore {
    /// The in-memory index: one entry per live key.
    pub idx: Vec<(String, CmdPos)>,
    /// Every log segment, in ascending identifier order; the last one is the
    /// active segment that appends go to.
    pub segs: Vec<Segment>,
    /// The identifier of the active segment.
    pub active_id: usize,
    /// The cumulative number of bytes written, reset by compaction; reaching
    /// [`MAX_STORE_SZ`] triggers compaction.
    pub total_sz: usize,
}

impl KvStore {
    /// Well-formedness: the segments are sorted, the last one is active, the
    /// index has one entry per key, and replaying the segments reconstructs
    /// exactly the in-memory index.
    pub open spec fn wf(self) -> bool {
        &&& self.segs@.len() > 0
        &&& sorted_ids(self.segs@)
        &&& self.active_id == self.segs@.last().id
        &&& distinct_keys(self.idx@)
        &&& replay_all(self.segs@) == Some(idx_map(self.idx@))
        &&& self.total_sz == cap_usize(total_len(self.segs@))
    }

    /// The key-value mapping the store holds.
    pub open spec fn kv_view(self) -> Map<Seq<char>, Seq<char>> {
        kv_of(self.segs@, idx_map(self.idx@))
    }

    /// The cumulative byte count that drives compaction.
    pub fn total_size(&self) -> (r: usize)
        ensures
            r == self.total_sz,
    {
        self.total_sz
    }

    /// How many segments the store holds.
    pub fn num_segments(&self) -> (r: usize)
        ensures
            r == self.segs@.len(),
    {
        self.segs.len()
    }

    /// The identifier of the active segment.
    pub fn active_segment_id(&self) -> (r: usize)
        ensures
            r == self.active_id,
    {
        self.active_id
    }

    /// The segments themselves, for mirroring to disk.
    pub fn segments(&self) -> (r: &Vec<Segment>)
        ensures
            r@ == self.segs@,
    {
        &self.segs
    }

    /// How many live keys the index holds.
    pub fn num_keys(&self) -> (r: usize)
        ensures
            r == self.idx@.len(),
    {
        self.idx.len()
    }
}

/// Finds the position of the segment with identifier `f_id`, if any.
fn seg_find(segs: &Vec<Segment>, f_id: usize) -> (r: Option<usize>)
    ensures
        match r {
            Some(i) => i < segs@.len() && segs@[i as int].id == f_id,
            None => forall|j: int| 0 <= j < segs@.len() ==> (#[trigger] segs@[j]).id != f_id,
        },
{
    let n = segs.len();
    let mut i: usize = 0;
    while i < n
        invariant
            n == segs@.len(),
            i <= n,
            forall|j: int| 0 <= j < i ==> (#[trigger] segs@[j]).id != f_id,
        decreases n - i,
    {
        if segs[i].id == f_id {
            return Some(i);
        }
        i = i + 1;
    }
    None
}

impl KvStore {
    /// Retrieves the value bound to `key`, or nothing when the key is not
    /// live.  Under well-formedness this never fails: the index invariant
    /// rules out an entry whose bytes decode as anything but a `Set` record.
    pub fn get(&mut self, key: String) -> (r: Result<Option<String>, KvsError>)
        requires
            old(self).wf(),
        ensures
            *final(self) == *old(self),
            match r {
                Ok(opt) => match opt {
                    Some(v) => old(self).kv_view().contains_key(key@) && v@ == old(
                        self,
                    ).kv_view()[key@],
                    None => !old(self).kv_view().contains_key(key@),
                },
                Err(_) => false,
            },
    {
        let ghost m = idx_map(self.idx@);
        proof {
            lemma_replay_from_valid(self.segs@, Map::empty(), 0);
        }
        match idx_find(&self.idx, &key) {
            None => {
                proof {
                    lemma_idx_map_absent(self.idx@, key@);
                }
                Ok(None)
            },
            Some(i) => {
                proof {
                    lemma_idx_map_index(self.idx@, i as int);
                }
                let p = self.idx[i].1;
                proof {
                    assert(entry_valid(self.segs@, key@, p@));
                }
                match seg_find(&self.segs, p.f_id) {
                    None => {
                        proof {
                            assert(false);
                        }
                        Err(KvsError::Store(ErrorKind::UnsupportedCommand))
                    },
                    Some(si) => {
                        proof {
                            let si0 = choose|si0: int|
                                0 <= si0 < self.segs@.len() && (#[trigger] self.segs@[si0]).id
                                    == p@.f_id && valid_entry_in(self.segs@[si0].data@, key@, p@);
                            assert(si0 == si as int);
                            assert(valid_entry_in(self.segs@[si as int].data@, key@, p@));
                        }
                        match decode_one(&self.segs[si].data, p.pos) {
                            None => {
                                proof {
                                    assert(false);
                                }
                                Err(KvsError::Serde)
                            },
                            Some((cmd, _end)) => {
                                match cmd {
                                    Command::SetCmd { key: _, value } => {
                                        proof {
                                            let si2 = seg_index_of(self.segs@, p@.f_id);
                                            assert(0 <= si2 < self.segs@.len() && self.segs@[si2].id
                                                == p@.f_id);
                                            assert(si2 == si as int);
                                            assert(self.kv_view()[key@] == entry_value_in(
                                                self.segs@[si as int].data@,
                                                p@,
                                            ));
                                        }
                                        Ok(Some(value))
                                    },
                                    Command::Rm { key: _ } => {
                                        proof {
                                            assert(false);
                                        }
                                        Err(KvsError::Store(ErrorKind::UnsupportedCommand))
                                    },
                                }
                            },
                        }
                    },
                }
            },
        }
    }
}

} // verus!

verus! {

/// Copies `src[pos .. pos + sz]` onto the end of `dst`.
fn copy_range(dst: &mut Vec<u8>, src: &Vec<u8>, pos: usize, sz: usize)
    requires
        pos + sz <= src@.len(),
    ensures
        final(dst)@ == old(dst)@ + src@.subrange(pos as int, pos + sz),
{
    let srclen = src.len();
    let mut k: usize = 0;
    while k < sz
        invariant
            srclen == src@.len(),
            pos + sz <= srclen,
            k <= sz,
            dst@ == old(dst)@ + src@.subrange(pos as int, pos + k),
        decreases sz - k,
    {
        dst.push(src[pos + k]);
        proof {
            assert(dst@ =~= old(dst)@ + src@.subrange(pos as int, pos + k + 1));
        }
        k = k + 1;
    }
    proof {
        assert(dst@ =~= old(dst)@ + src@.subrange(pos as int, pos + sz));
    }
}

/// Under strictly sorted identifiers, the segment position for an identifier
/// is unique.
proof fn lemma_seg_index_unique(segs: Seq<Segment>, f_id: int, si: int)
    requires
        sorted_ids(segs),
        0 <= si < segs.len(),
        segs[si].id == f_id,
    ensures
        seg_index_of(segs, f_id) == si,
{
    assert(0 <= si < segs.len() && (#[trigger] segs[si]).id == f_id);
    let sj = seg_index_of(segs, f_id);
    assert(0 <= sj < segs.len() && segs[sj].id == f_id);
    if si < sj {
        assert(segs[si].id < segs[sj].id);
    }
    if sj < si {
        assert(segs[sj].id < segs[si].id);
    }
}

/// The invariants of compaction's copy loop carry over one step: appending
/// the raw bytes of live entry `i` and its rebased index entry keeps the new
/// segment a replay image of the new index.
#[verifier::rlimit(100)]
proof fn lemma_compact_step(
    old_list: Seq<(String, CmdPos)>,
    segs: Seq<Segment>,
    new_id: usize,
    i: int,
    nd_before: Seq<u8>,
    new_data: Seq<u8>,
    prev: Seq<(String, CmdPos)>,
    key: String,
    p: CmdPos,
    np: CmdPos,
    si: int,
)
    requires
        distinct_keys(old_list),
        sorted_ids(segs),
        0 <= i < old_list.len(),
        key@ == old_list[i].0@,
        p == old_list[i].1,
        0 <= si < segs.len(),
        segs[si].id == p@.f_id,
        valid_entry_in(segs[si].data@, key@, p@),
        np@ == (EntryV { f_id: new_id as int, pos: nd_before.len() as int, sz: p@.sz }),
        new_data == nd_before + segs[si].data@.subrange(p@.pos, p@.pos + p@.sz),
        replay_bytes(Map::empty(), nd_before, 0, new_id as int) == Some(idx_map(prev)),
        nd_before.len() == live_size(prev),
        prev.len() == i,
        forall|j: int| 0 <= j < i ==> (#[trigger] prev[j]).0@ == old_list[j].0@,
        forall|j: int|
            0 <= j < i ==> (#[trigger] prev[j]).1@.f_id == new_id && 0 <= prev[j].1@.pos
                && prev[j].1@.sz == old_list[j].1@.sz
                && prev[j].1@.pos + prev[j].1@.sz <= nd_before.len(),
        forall|j: int|
            0 <= j < i ==> nd_before.subrange(
                (#[trigger] prev[j]).1@.pos,
                prev[j].1@.pos + prev[j].1@.sz,
            ) == segs[seg_index_of(segs, old_list[j].1@.f_id)].data@.subrange(
                old_list[j].1@.pos,
                old_list[j].1@.pos + old_list[j].1@.sz,
            ),
        distinct_keys(prev),
    ensures
        ({
            let cur = prev.push((key, np));
            &&& replay_bytes(Map::empty(), new_data, 0, new_id as int) == Some(idx_map(cur))
            &&& new_data.len() == live_size(cur)
            &&& cur.len() == i + 1
            &&& forall|j: int| 0 <= j < i + 1 ==> (#[trigger] cur[j]).0@ == old_list[j].0@
            &&& forall|j: int|
                0 <= j < i + 1 ==> (#[trigger] cur[j]).1@.f_id == new_id && 0 <= cur[j].1@.pos
                    && cur[j].1@.sz == old_list[j].1@.sz && cur[j].1@.pos + cur[j].1@.sz
                    <= new_data.len()
            &&& forall|j: int|
                0 <= j < i + 1 ==> new_data.subrange(
                    (#[trigger] cur[j]).1@.pos,
                    cur[j].1@.pos + cur[j].1@.sz,
                ) == segs[seg_index_of(segs, old_list[j].1@.f_id)].data@.subrange(
                    old_list[j].1@.pos,
                    old_list[j].1@.pos + old_list[j].1@.sz,
                )
            &&& distinct_keys(cur)
        }),
{
    let cur = prev.push((key, np));
    let src = segs[si].data@;
    let x = src.subrange(p@.pos, p@.pos + p@.sz);
    let (c_src, e_src) = crate::codec::spec_decode(src, p@.pos)->Some_0;
    lemma_seg_index_unique(segs, p@.f_id, si);
    // the copied bytes decode as the same record at their new offset
    assert(new_data.subrange(nd_before.len() as int, nd_before.len() + p@.sz) =~= src.subrange(
        p@.pos,
        p@.pos + p@.sz,
    ));
    lemma_decode_framing(src, p@.pos, new_data, nd_before.len() as int);
    // the replay of the new segment grows by exactly this record
    lemma_replay_append(Map::empty(), nd_before, 0, new_id as int, x, c_src);
    lemma_idx_map_push(prev, key, np);
    assert(idx_map(cur) =~= apply_rec(
        idx_map(prev),
        c_src,
        new_id as int,
        nd_before.len() as int,
        new_data.len() as int,
    ));
    // the running byte total grows by the record's size
    assert(cur.drop_last() =~= prev);
    assert(new_data.len() == live_size(cur));
    // bindings below the new one keep their keys, entries, and raw bytes
    assert(forall|j: int| 0 <= j < i ==> (#[trigger] cur[j]) == prev[j]);
    assert forall|j: int|
        0 <= j < i + 1 implies new_data.subrange(
        (#[trigger] cur[j]).1@.pos,
        cur[j].1@.pos + cur[j].1@.sz,
    ) == segs[seg_index_of(segs, old_list[j].1@.f_id)].data@.subrange(
        old_list[j].1@.pos,
        old_list[j].1@.pos + old_list[j].1@.sz,
    ) by {
        if j < i {
            assert(new_data.subrange(cur[j].1@.pos, cur[j].1@.pos + cur[j].1@.sz)
                =~= nd_before.subrange(prev[j].1@.pos, prev[j].1@.pos + prev[j].1@.sz));
        } else {
            assert(new_data.subrange(np@.pos, np@.pos + np@.sz) =~= x);
        }
    }
    assert(distinct_keys(cur)) by {
        assert(forall|q: int| 0 <= q < cur.len() ==> (#[trigger] cur[q]).0@ == old_list[q].0@);
    }
}

impl KvStore {
    /// Rewrites every live record into a fresh segment with the next
    /// identifier, updates the index in place, and drops all old segments.
    /// The identifier space must not be exhausted: on that input the
    /// identifier increment would overflow.
    #[verifier::rlimit(100)]
    pub fn compact(&mut self) -> (r: Result<(), KvsError>)
        requires
            old(self).wf(),
            old(self).active_id < usize::MAX,
        ensures
            final(self).wf(),
            final(self).kv_view() == old(self).kv_view(),
            r == Ok::<(), KvsError>(()),
            final(self).segs@.len() == 1,
            final(self).active_id == old(self).active_id + 1,
            final(self).segs@[0].id == final(self).active_id,
            final(self).total_sz == live_size(final(self).idx@),
            final(self).idx@.len() == old(self).idx@.len(),
    {
        let new_id = self.active_id + 1;
        let ghost m_old = idx_map(self.idx@);
        proof {
            lemma_replay_from_valid(self.segs@, Map::empty(), 0);
        }
        let mut new_data: Vec<u8> = Vec::new();
        let mut new_idx: Vec<(String, CmdPos)> = Vec::new();
        let n = self.idx.len();
        let mut i: usize = 0;
        while i < n
            invariant
                old(self).wf(),
                *self == *old(self),
                m_old == idx_map(self.idx@),
                map_valid(self.segs@, m_old),
                new_id == self.active_id + 1,
                n == self.idx@.len(),
                i <= n,
                new_idx@.len() == i,
                forall|j: int| 0 <= j < i ==> (#[trigger] new_idx@[j]).0@ == self.idx@[j].0@,
                forall|j: int|
                    0 <= j < i ==> (#[trigger] new_idx@[j]).1@.f_id == new_id
                        && 0 <= new_idx@[j].1@.pos
                        && new_idx@[j].1@.sz == self.idx@[j].1@.sz
                        && new_idx@[j].1@.pos + new_idx@[j].1@.sz <= new_data@.len(),
                forall|j: int|
                    0 <= j < i ==> new_data@.subrange(
                        (#[trigger] new_idx@[j]).1@.pos,
                        new_idx@[j].1@.pos + new_idx@[j].1@.sz,
                    ) == self.segs@[seg_index_of(self.segs@, self.idx@[j].1@.f_id)].data@.subrange(
                        self.idx@[j].1@.pos,
                        self.idx@[j].1@.pos + self.idx@[j].1@.sz,
                    ),
                new_data@.len() == live_size(new_idx@),
                replay_bytes(Map::empty(), new_data@, 0, new_id as int) == Some(idx_map(new_idx@)),
                distinct_keys(new_idx@),
            decreases n - i,
        {
            let key_c = self.idx[i].0.clone();
            let p = self.idx[i].1;
            proof {
                lemma_idx_map_index(self.idx@, i as int);
                assert(entry_valid(self.segs@, key_c@, p@));
            }
            let si = match seg_find(&self.segs, p.f_id) {
                Some(si) => si,
                None => {
                    proof {
                        assert(false);
                    }
                    return Err(KvsError::Serde);
                },
            };
            proof {
                let si0 = choose|si0: int|
                    0 <= si0 < self.segs@.len() && (#[trigger] self.segs@[si0]).id == p@.f_id
                        && valid_entry_in(self.segs@[si0].data@, key_c@, p@);
                assert(si0 == si as int);
                assert(valid_entry_in(self.segs@[si as int].data@, key_c@, p@));
            }
            let ghost nd_before = new_data@;
            let ghost prev = new_idx@;
            let pos_new = new_data.len();
            copy_range(&mut new_data, &self.segs[si].data, p.pos, p.sz);
            let np = CmdPos { f_id: new_id, pos: pos_new, sz: p.sz };
            proof {
                lemma_compact_step(
                    self.idx@,
                    self.segs@,
                    new_id,
                    i as int,
                    nd_before,
                    new_data@,
                    prev,
                    key_c,
                    p,
                    np,
                    si as int,
                );
            }
            new_idx.push((key_c, np));
            i = i + 1;
        }
        // install the fresh segment as the sole segment
        let total = new_data.len();
        let mut segs2: Vec<Segment> = Vec::new();
        segs2.push(Segment { id: new_id, data: new_data });
        let ghost old_segs = self.segs@;
        let ghost old_idx = self.idx@;
        self.segs = segs2;
        self.idx = new_idx;
        self.active_id = new_id;
        self.total_sz = total;
        proof {
            let m_new = idx_map(self.idx@);
            assert(forall|j: int| 0 <= j < n ==> (#[trigger] self.idx@[j]).0@ == old_idx[j].0@);
            // replay of the sole segment yields exactly the new index
            assert(replay_all(self.segs@) == Some(m_new)) by {
                assert(self.segs@.len() == 1);
                assert(replay_seg(Map::empty(), self.segs@[0]) == Some(m_new));
                assert(replay_from(m_new, self.segs@, 1) == Some(m_new));
            }
            assert(total_len(self.segs@) == self.segs@[0].data@.len()) by {
                assert(self.segs@.drop_last() =~= Seq::<Segment>::empty());
                assert(total_len(Seq::<Segment>::empty()) == 0);
                assert(self.segs@.last() == self.segs@[0]);
            }
            assert(self.wf());
            // the views agree key by key
            assert(self.kv_view() =~= old(self).kv_view()) by {
                assert forall|k: Seq<char>| #[trigger] m_new.contains_key(k) implies
                    m_old.contains_key(k) by {
                    lemma_idx_map_dom(self.idx@, k);
                    lemma_idx_map_dom(old_idx, k);
                    let ji = choose|ji: int|
                        0 <= ji < self.idx@.len() && (#[trigger] self.idx@[ji]).0@ == k;
                    assert(old_idx[ji].0@ == k);
                }
                assert forall|k: Seq<char>| #[trigger] m_old.contains_key(k) implies
                    m_new.contains_key(k) by {
                    lemma_idx_map_dom(self.idx@, k);
                    lemma_idx_map_dom(old_idx, k);
                    let ji = choose|ji: int| 0 <= ji < old_idx.len() && (#[trigger] old_idx[ji]).0@
                        == k;
                    assert(self.idx@[ji].0@ == k);
                }
                assert forall|k: Seq<char>| #[trigger] m_new.contains_key(k) implies kv_of(
                    self.segs@,
                    m_new,
                )[k] == kv_of(old_segs, m_old)[k] by {
                    lemma_idx_map_dom(self.idx@, k);
                    let j = choose|j: int|
                        0 <= j < self.idx@.len() && (#[trigger] self.idx@[j]).0@ == k;
                    lemma_idx_map_index(self.idx@, j);
                    lemma_idx_map_index(old_idx, j);
                    assert(old_idx[j].0@ == k);
                    let pn = self.idx@[j].1@;
                    let po = old_idx[j].1@;
                    // the new entry points at the fresh segment
                    lemma_seg_index_unique(self.segs@, pn.f_id, 0);
                    // the old entry points at its own segment
                    let sio = seg_index_of(old_segs, po.f_id);
                    assert(valid_entry_in(old_segs[sio].data@, k, po)) by {
                        let si0 = choose|si0: int|
                            0 <= si0 < old_segs.len() && (#[trigger] old_segs[si0]).id == po.f_id
                                && valid_entry_in(old_segs[si0].data@, k, po);
                        lemma_seg_index_unique(old_segs, po.f_id, si0);
                    }
                    let src = old_segs[sio].data@;
                    // the copied bytes decode identically at the new offset
                    assert(self.segs@[0].data@.subrange(pn.pos, pn.pos + pn.sz) == src.subrange(
                        po.pos,
                        po.pos + po.sz,
                    ));
                    lemma_decode_framing(src, po.pos, self.segs@[0].data@, pn.pos);
                }
            }
        }
        Ok(())
    }
}

} // verus!

verus! {

/// Appending a record to the active segment's bytes extends the whole-store
/// replay by that record's effect.
proof fn lemma_replay_extend_last(
    segs: Seq<Segment>,
    segs2: Seq<Segment>,
    x: Seq<u8>,
    c: CmdView,
    m: Map<Seq<char>, EntryV>,
)
    requires
        segs.len() > 0,
        segs2.len() == segs.len(),
        forall|j: int| 0 <= j < segs.len() - 1 ==> segs2[j] == segs[j],
        segs2.last().id == segs.last().id,
        segs2.last().data@ == segs.last().data@ + x,
        x.len() > 0,
        crate::codec::spec_decode(segs2.last().data@, segs.last().data@.len() as int) == Some(
            (c, segs2.last().data@.len() as int),
        ),
        replay_all(segs) == Some(m),
    ensures
        replay_all(segs2) == Some(
            apply_rec(
                m,
                c,
                segs.last().id as int,
                segs.last().data@.len() as int,
                segs2.last().data@.len() as int,
            ),
        ),
{
    lemma_replay_from_snoc(Map::empty(), segs, 0);
    lemma_replay_from_snoc(Map::empty(), segs2, 0);
    assert(segs2.drop_last() =~= segs.drop_last());
    let m1 = replay_from(Map::empty(), segs.drop_last(), 0)->Some_0;
    assert(replay_seg(m1, segs.last()) == Some(m));
    lemma_replay_append(m1, segs.last().data@, 0, segs.last().id as int, x, c);
}

/// Extending the active segment leaves every valid entry valid, pointing at
/// the same decoded record.
proof fn lemma_values_extend_last(segs: Seq<Segment>, segs2: Seq<Segment>, k: Seq<char>, e: EntryV)
    requires
        sorted_ids(segs),
        segs.len() > 0,
        segs2.len() == segs.len(),
        forall|j: int| 0 <= j < segs.len() - 1 ==> segs2[j] == segs[j],
        segs2.last().id == segs.last().id,
        segs.last().data@.len() <= segs2.last().data@.len(),
        segs2.last().data@.subrange(0, segs.last().data@.len() as int) == segs.last().data@,
        entry_valid(segs, k, e),
    ensures
        sorted_ids(segs2),
        entry_valid(segs2, k, e),
        entry_value_in(segs2[seg_index_of(segs2, e.f_id)].data@, e) == entry_value_in(
            segs[seg_index_of(segs, e.f_id)].data@,
            e,
        ),
{
    let n = segs.len() as int;
    assert(forall|j: int| 0 <= j < n ==> (#[trigger] segs2[j]).id == segs[j].id) by {
        assert(segs2[n - 1] == segs2.last() && segs[n - 1] == segs.last());
    }
    assert(sorted_ids(segs2));
    let si = choose|si: int|
        0 <= si < segs.len() && (#[trigger] segs[si]).id == e.f_id && valid_entry_in(
            segs[si].data@,
            k,
            e,
        );
    lemma_seg_index_unique(segs, e.f_id, si);
    lemma_seg_index_unique(segs2, e.f_id, si);
    if si == n - 1 {
        let b = segs.last().data@;
        let b2 = segs2.last().data@;
        assert(b2.subrange(e.pos, e.pos + e.sz) =~= b.subrange(e.pos, e.pos + e.sz)) by {
            assert(forall|q: int|
                0 <= q < b.len() ==> #[trigger] b2.subrange(0, b.len() as int)[q] == b2[q]);
        }
        lemma_decode_framing(b, e.pos, b2, e.pos);
        assert(segs2[si] == segs2.last());
        assert(valid_entry_in(segs2[si].data@, k, e));
    } else {
        assert(segs2[si] == segs[si]);
    }
}

impl KvStore {
    /// Binds `key` to `value`: encodes a `Set` record, appends it to the
    /// active segment at the writer's current position, inserts the record's
    /// byte range into the index, and compacts when the byte threshold is
    /// reached.  Below the threshold the contract pins the layout exactly:
    /// only the active segment changes, and only by the appended record.
    #[verifier::rlimit(100)]
    pub fn set(&mut self, key: String, value: String) -> (r: Result<(), KvsError>)
        requires
            old(self).wf(),
            old(self).active_id < usize::MAX,
        ensures
            final(self).wf(),
            r == Ok::<(), KvsError>(()),
            final(self).kv_view() == old(self).kv_view().insert(key@, value@),
            ({
                let rec = spec_encode(CmdView::SetCmd { key: key@, value: value@ });
                if cap_usize(old(self).total_sz + rec.len()) < MAX_STORE_SZ {
                    // a plain append: sealed segments, the active identifier
                    // and every earlier byte of the active segment are kept
                    &&& final(self).segs@.len() == old(self).segs@.len()
                    &&& final(self).segs@.drop_last() == old(self).segs@.drop_last()
                    &&& final(self).segs@.last().id == old(self).segs@.last().id
                    &&& final(self).segs@.last().data@ == old(self).segs@.last().data@ + rec
                    &&& final(self).active_id == old(self).active_id
                    &&& final(self).total_sz == old(self).total_sz + rec.len()
                    &&& idx_map(final(self).idx@) == idx_map(old(self).idx@).insert(
                        key@,
                        EntryV {
                            f_id: old(self).active_id as int,
                            pos: old(self).segs@.last().data@.len() as int,
                            sz: rec.len() as int,
                        },
                    )
                } else {
                    // the append crossed the threshold and was compacted
                    &&& final(self).segs@.len() == 1
                    &&& final(self).active_id == old(self).active_id + 1
                    &&& final(self).total_sz == live_size(final(self).idx@)
                }
            }),
    {
        let ghost m_old = idx_map(self.idx@);
        let ghost old_segs = self.segs@;
        proof {
            lemma_replay_from_valid(self.segs@, Map::empty(), 0);
        }
        let cmd = Command::SetCmd { key: key.clone(), value };
        let rec = encode_command(&cmd);
        let sz = rec.len();
        let mut seg = match self.segs.pop() {
            Some(s) => s,
            None => {
                proof {
                    assert(false);
                }
                return Err(KvsError::Serde);
            },
        };
        let pos = seg.data.len();
        copy_range(&mut seg.data, &rec, 0, sz);
        proof {
            assert(seg.data@ =~= old_segs.last().data@ + rec@);
        }
        self.segs.push(seg);
        proof {
            assert(self.segs@.len() == old_segs.len());
            assert(forall|j: int| 0 <= j < old_segs.len() - 1 ==> self.segs@[j] == old_segs[j]);
            assert(self.segs@.last().data@ == old_segs.last().data@ + rec@);
            assert((old_segs.last().data@ + rec@).subrange(pos as int, pos + sz) =~= rec@);
            lemma_decode_encode(old_segs.last().data@ + rec@, pos as int, cmd@);
            assert(rec@.len() >= 24);
            lemma_replay_extend_last(old_segs, self.segs@, rec@, cmd@, m_old);
        }
        idx_insert(&mut self.idx, key, CmdPos { f_id: self.active_id, pos, sz });
        let new_total = if self.total_sz <= usize::MAX - sz {
            self.total_sz + sz
        } else {
            usize::MAX
        };
        self.total_sz = new_total;
        proof {
            let ghost m_new = idx_map(self.idx@);
            assert(m_new =~= apply_rec(
                m_old,
                CmdView::SetCmd { key: key@, value: value@ },
                self.active_id as int,
                pos as int,
                (pos + sz) as int,
            ));
            assert(total_len(self.segs@) == total_len(old_segs) + sz) by {
                assert(self.segs@.drop_last() =~= old_segs.drop_last());
            }
            assert(self.total_sz == cap_usize(total_len(self.segs@)));
            assert(self.wf());
            assert(self.kv_view() =~= old(self).kv_view().insert(key@, value@)) by {
                let n = old_segs.len() as int;
                assert forall|k: Seq<char>| #[trigger] m_new.contains_key(k) implies kv_of(
                    self.segs@,
                    m_new,
                )[k] == old(self).kv_view().insert(key@, value@)[k] by {
                    if k == key@ {
                        assert(forall|j: int|
                            0 <= j < n ==> (#[trigger] self.segs@[j]).id == old_segs[j].id);
                        assert(sorted_ids(self.segs@));
                        lemma_seg_index_unique(self.segs@, self.active_id as int, n - 1);
                        assert(self.segs@[n - 1] == self.segs@.last());
                    } else {
                        assert(m_new[k] == m_old[k] && m_old.contains_key(k));
                        assert(entry_valid(old_segs, k, m_old[k]));
                        assert(self.segs@.last().data@.subrange(
                            0,
                            old_segs.last().data@.len() as int,
                        ) =~= old_segs.last().data@);
                        lemma_values_extend_last(old_segs, self.segs@, k, m_old[k]);
                    }
                }
            }
        }
        if self.total_sz >= MAX_STORE_SZ {
            let r = self.compact();
            proof {
                assert(self.kv_view() == old(self).kv_view().insert(key@, value@));
            }
            r
        } else {
            proof {
                assert(self.segs@.drop_last() =~= old_segs.drop_last());
                assert(self.segs@.last().id == old_segs.last().id);
                assert(idx_map(self.idx@) == idx_map(old(self).idx@).insert(
                    key@,
                    EntryV {
                        f_id: old(self).active_id as int,
                        pos: old(self).segs@.last().data@.len() as int,
                        sz: rec@.len() as int,
                    },
                ));
            }
            Ok(())
        }
    }

    /// Unbinds `key`: fails with `NotFound` when the key is not live;
    /// otherwise encodes a `Remove` record, appends it to the active segment
    /// at the writer's current position, drops the key from the index, and
    /// compacts when the byte threshold is reached.  Below the threshold the
    /// contract pins the layout exactly, as for `set`.
    #[verifier::rlimit(100)]
    pub fn remove(&mut self, key: String) -> (r: Result<(), KvsError>)
        requires
            old(self).wf(),
            old(self).active_id < usize::MAX,
        ensures
            final(self).wf(),
            (r == Err::<(), KvsError>(KvsError::Store(ErrorKind::NotFound))) <==> !old(self).kv_view().contains_key(
                key@,
            ),
            r is Err ==> r == Err::<(), KvsError>(KvsError::Store(ErrorKind::NotFound))
                && *final(self) == *old(self),
            r is Ok ==> final(self).kv_view() == old(self).kv_view().remove(key@),
            r is Ok ==> ({
                let rec = spec_encode(CmdView::Rm { key: key@ });
                if cap_usize(old(self).total_sz + rec.len()) < MAX_STORE_SZ {
                    // a plain append: sealed segments, the active identifier
                    // and every earlier byte of the active segment are kept
                    &&& final(self).segs@.len() == old(self).segs@.len()
                    &&& final(self).segs@.drop_last() == old(self).segs@.drop_last()
                    &&& final(self).segs@.last().id == old(self).segs@.last().id
                    &&& final(self).segs@.last().data@ == old(self).segs@.last().data@ + rec
                    &&& final(self).active_id == old(self).active_id
                    &&& final(self).total_sz == old(self).total_sz + rec.len()
                    &&& idx_map(final(self).idx@) == idx_map(old(self).idx@).remove(key@)
                } else {
                    // the append crossed the threshold and was compacted
                    &&& final(self).segs@.len() == 1
                    &&& final(self).active_id == old(self).active_id + 1
                    &&& final(self).total_sz == live_size(final(self).idx@)
                }
            }),
    {
        let ghost m_old = idx_map(self.idx@);
        let ghost old_segs = self.segs@;
        proof {
            lemma_replay_from_valid(self.segs@, Map::empty(), 0);
        }
        match idx_find(&self.idx, &key) {
            None => {
                proof {
                    lemma_idx_map_absent(self.idx@, key@);
                }
                return Err(KvsError::Store(ErrorKind::NotFound));
            },
            Some(i) => {
                proof {
                    lemma_idx_map_index(self.idx@, i as int);
                }
            },
        }
        let cmd = Command::Rm { key: key.clone() };
        let rec = encode_command(&cmd);
        let sz = rec.len();
        let mut seg = match self.segs.pop() {
            Some(s) => s,
            None => {
                proof {
                    assert(false);
                }
                return Err(KvsError::Serde);
            },
        };
        let pos = seg.data.len();
        copy_range(&mut seg.data, &rec, 0, sz);
        proof {
            assert(seg.data@ =~= old_segs.last().data@ + rec@);
        }
        self.segs.push(seg);
        proof {
            assert(self.segs@.len() == old_segs.len());
            assert(forall|j: int| 0 <= j < old_segs.len() - 1 ==> self.segs@[j] == old_segs[j]);
            assert(self.segs@.last().data@ == old_segs.last().data@ + rec@);
            assert((old_segs.last().data@ + rec@).subrange(pos as int, pos + sz) =~= rec@);
            lemma_decode_encode(old_segs.last().data@ + rec@, pos as int, cmd@);
            assert(rec@.len() >= 23);
            lemma_replay_extend_last(old_segs, self.segs@, rec@, cmd@, m_old);
        }
        idx_remove(&mut self.idx, &key);
        let new_total = if self.total_sz <= usize::MAX - sz {
            self.total_sz + sz
        } else {
            usize::MAX
        };
        self.total_sz = new_total;
        proof {
            let ghost m_new = idx_map(self.idx@);
            assert(m_new =~= apply_rec(
                m_old,
                CmdView::Rm { key: key@ },
                self.active_id as int,
                pos as int,
                (pos + sz) as int,
            ));
            assert(total_len(self.segs@) == total_len(old_segs) + sz) by {
                assert(self.segs@.drop_last() =~= old_segs.drop_last());
            }
            assert(self.total_sz == cap_usize(total_len(self.segs@)));
            assert(self.wf());
            assert(self.kv_view() =~= old(self).kv_view().remove(key@)) by {
                let n = old_segs.len() as int;
                assert forall|k: Seq<char>| #[trigger] m_new.contains_key(k) implies kv_of(
                    self.segs@,
                    m_new,
                )[k] == old(self).kv_view().remove(key@)[k] by {
                    assert(m_new[k] == m_old[k] && m_old.contains_key(k));
                    assert(entry_valid(old_segs, k, m_old[k]));
                    assert(self.segs@.last().data@.subrange(
                        0,
                        old_segs.last().data@.len() as int,
                    ) =~= old_segs.last().data@);
                    lemma_values_extend_last(old_segs, self.segs@, k, m_old[k]);
                }
            }
        }
        if self.total_sz >= MAX_STORE_SZ {
            let r = self.compact();
            proof {
                assert(self.kv_view() == old(self).kv_view().remove(key@));
            }
            r
        } else {
            proof {
                assert(self.segs@.drop_last() =~= old_segs.drop_last());
                assert(self.segs@.last().id == old_segs.last().id);
                assert(idx_map(self.idx@) == idx_map(old(self).idx@).remove(key@));
            }
            Ok(())
        }
    }
}

} // verus!

verus! {

broadcast use vstd::seq_lib::group_to_multiset_ensures;

/// Segment identifiers do not decrease along the sequence.
pub open spec fn sorted_le(segs: Seq<Segment>) -> bool {
    forall|p: int, q: int| 0 <= p < q < segs.len() ==> segs[p].id <= segs[q].id
}

/// No two segments share an identifier.
pub open spec fn distinct_ids(segs: Seq<Segment>) -> bool {
    forall|p: int, q: int| 0 <= p < q < segs.len() ==> segs[p].id != segs[q].id
}

/// An element that appears at two positions counts at least twice.
proof fn lemma_dup_count(s: Seq<Segment>, p: int, q: int)
    requires
        0 <= p < q < s.len(),
        s[p] == s[q],
    ensures
        s.to_multiset().count(s[p]) >= 2,
{
    let x = s[p];
    let s2 = s.remove(p);
    assert(s2.to_multiset() == s.to_multiset().remove(x));
    assert(s2[q - 1] == x);
    assert(s2.contains(x));
    assert(s2.to_multiset().count(x) > 0);
}

/// Distinct identifiers carry over to any rearrangement.
proof fn lemma_ids_distinct_of_multiset(a: Seq<Segment>, b: Seq<Segment>)
    requires
        distinct_ids(a),
        a.to_multiset() == b.to_multiset(),
    ensures
        distinct_ids(b),
{
    assert forall|p: int, q: int| 0 <= p < q < b.len() implies b[p].id != b[q].id by {
        if b[p].id == b[q].id {
            if b[p] == b[q] {
                lemma_dup_count(b, p, q);
                assert(a.to_multiset().count(b[p]) >= 2);
                let a2 = a.remove_value(b[p]);
                let i1 = choose|i1: int| 0 <= i1 < a.len() && a[i1] == b[p];
                assert(a.contains(b[p])) by {
                    assert(a.to_multiset().count(b[p]) > 0);
                }
                let j1 = a.index_of(b[p]);
                assert(a.remove(j1).to_multiset() == a.to_multiset().remove(b[p]));
                assert(a.remove(j1).to_multiset().count(b[p]) > 0);
                assert(a.remove(j1).contains(b[p]));
                let j2 = choose|j2: int| 0 <= j2 < a.remove(j1).len() && a.remove(j1)[j2] == b[p];
                let j3: int = if j2 < j1 {
                    j2
                } else {
                    j2 + 1
                };
                assert(a[j3] == b[p] && j3 != j1);
                assert(a[j1].id == a[j3].id);
            } else {
                assert(b.contains(b[p]) && b.contains(b[q]));
                assert(b.to_multiset().count(b[p]) > 0 && b.to_multiset().count(b[q]) > 0);
                assert(a.contains(b[p]) && a.contains(b[q]));
                let i1 = choose|i1: int| 0 <= i1 < a.len() && a[i1] == b[p];
                let i2 = choose|i2: int| 0 <= i2 < a.len() && a[i2] == b[q];
                assert(i1 != i2);
                assert(a[i1].id == a[i2].id);
            }
        }
    }
}

/// Two strictly sorted sequences over the same segments are the same
/// sequence: the on-disk order of a well-formed store is determined by its
/// contents alone.
pub proof fn lemma_sorted_unique(a: Seq<Segment>, b: Seq<Segment>)
    requires
        sorted_ids(a),
        sorted_ids(b),
        a.to_multiset() == b.to_multiset(),
    ensures
        a == b,
    decreases a.len(),
{
    if a.len() == 0 {
        assert(a.to_multiset().len() == a.len());
        assert(b.to_multiset().len() == b.len());
        assert(b.len() == 0);
        assert(a =~= b);
    } else {
        assert(a.to_multiset().len() == a.len());
        assert(b.to_multiset().len() == b.len());
        assert(b.len() == a.len());
        assert(a.contains(a[0])) by {
            assert(a[0] == a[0]);
        }
        assert(b.to_multiset().count(a[0]) > 0);
        assert(b.contains(a[0]));
        let jb = choose|jb: int| 0 <= jb < b.len() && b[jb] == a[0];
        assert(b[0].id <= b[jb].id);
        assert(a.to_multiset().count(b[0]) > 0);
        assert(a.contains(b[0]));
        let ja = choose|ja: int| 0 <= ja < a.len() && a[ja] == b[0];
        assert(a[0].id <= a[ja].id);
        assert(a[0].id == b[0].id);
        assert(jb == 0) by {
            if jb > 0 {
                assert(b[0].id < b[jb].id);
            }
        }
        assert(a[0] == b[0]);
        let a2 = a.drop_first();
        let b2 = b.drop_first();
        assert(a.remove(0) =~= a2);
        assert(b.remove(0) =~= b2);
        assert(a2.to_multiset() == a.to_multiset().remove(a[0]));
        assert(b2.to_multiset() == b.to_multiset().remove(b[0]));
        assert(a2.to_multiset() == b2.to_multiset());
        assert(sorted_ids(a2)) by {
            assert(forall|p: int, q: int|
                0 <= p < q < a2.len() ==> a2[p] == a[p + 1] && a2[q] == a[q + 1]);
        }
        assert(sorted_ids(b2)) by {
            assert(forall|p: int, q: int|
                0 <= p < q < b2.len() ==> b2[p] == b[p + 1] && b2[q] == b[q + 1]);
        }
        lemma_sorted_unique(a2, b2);
        assert(forall|i: int| 1 <= i < a.len() ==> a[i] == a2[i - 1] && b[i] == b2[i - 1]);
        assert(a =~= b);
    }
}

/// Sorts segments by ascending identifier (selection of the least).
fn sort_segments(input: Vec<Segment>) -> (r: Vec<Segment>)
    ensures
        r@.to_multiset() == input@.to_multiset(),
        sorted_le(r@),
{
    let ghost orig = input@;
    let mut rest = input;
    let mut out: Vec<Segment> = Vec::new();
    while rest.len() > 0
        invariant
            out@.to_multiset().add(rest@.to_multiset()) == orig.to_multiset(),
            sorted_le(out@),
            forall|p: int, q: int|
                0 <= p < out@.len() && 0 <= q < rest@.len() ==> out@[p].id <= rest@[q].id,
        decreases rest@.len(),
    {
        let mut mi: usize = 0;
        let mut j: usize = 1;
        while j < rest.len()
            invariant
                0 < rest@.len(),
                mi < j,
                j <= rest@.len(),
                forall|q: int| 0 <= q < j ==> rest@[mi as int].id <= (#[trigger] rest@[q]).id,
            decreases rest@.len() - j,
        {
            if rest[j].id < rest[mi].id {
                mi = j;
            }
            j = j + 1;
        }
        let ghost rest_before = rest@;
        let ghost out_before = out@;
        let s = rest.remove(mi);
        proof {
            assert(rest@ == rest_before.remove(mi as int));
            assert(rest_before.remove(mi as int).to_multiset() == rest_before.to_multiset().remove(
                rest_before[mi as int],
            ));
            assert(rest_before.contains(s)) by {
                assert(rest_before[mi as int] == s);
            }
            assert(rest_before.to_multiset().count(s) > 0);
        }
        out.push(s);
        proof {
            assert(out@.to_multiset() == out_before.to_multiset().insert(s));
            assert(out@.to_multiset().add(rest@.to_multiset()) =~= out_before.to_multiset().add(
                rest_before.to_multiset(),
            ));
            assert(sorted_le(out@)) by {
                assert(forall|p: int| 0 <= p < out_before.len() ==> out@[p] == out_before[p]);
                assert(out@.last() == s);
            }
            assert(forall|q: int|
                0 <= q < rest@.len() ==> s.id <= (#[trigger] rest@[q]).id) by {
                assert(forall|q: int|
                    0 <= q < rest@.len() ==> rest@[q] == if q < mi {
                        rest_before[q]
                    } else {
                        rest_before[q + 1]
                    });
            }
            assert(forall|p: int| 0 <= p < out@.len() - 1 ==> out@[p] == out_before[p]);
        }
    }
    proof {
        assert(rest@ =~= Seq::<Segment>::empty());
        assert(rest@.to_multiset() =~= Multiset::<Segment>::empty());
        assert(out@.to_multiset().add(rest@.to_multiset()) =~= out@.to_multiset());
    }
    out
}

impl KvStore {
    /// Assembles a store from already-validated parts.
    fn new(
        idx: Vec<(String, CmdPos)>,
        segs: Vec<Segment>,
        active_id: usize,
        total_sz: usize,
    ) -> (r: Result<KvStore, KvsError>)
        ensures
            r matches Ok(s) && s == (KvStore { idx, segs, active_id, total_sz }),
    {
        Ok(KvStore { idx, segs, active_id, total_sz })
    }

    /// Opens a store over the segment contents read from a store directory.
    /// Sorts the segments by ascending identifier, replays each into the
    /// index, and selects the highest identifier as the active segment; with
    /// no segments at all, starts a fresh store with the sole segment `0`.
    /// Fails with `Serde` exactly when some record fails to decode.
    #[verifier::rlimit(100)]
    pub fn open(segments: Vec<Segment>) -> (r: Result<KvStore, KvsError>)
        requires
            distinct_ids(segments@),
        ensures
            match r {
                Ok(store) => store.wf() && (if segments@.len() == 0 {
                    store.segs@.len() == 1 && store.segs@[0].id == 0 && store.segs@[0].data@
                        == Seq::<u8>::empty() && store.kv_view() == Map::<
                        Seq<char>,
                        Seq<char>,
                    >::empty()
                } else {
                    store.segs@.to_multiset() == segments@.to_multiset()
                }),
                Err(e) => e == KvsError::Serde && segments@.len() > 0 && exists|ss: Seq<Segment>|
                    sorted_ids(ss) && ss.to_multiset() == segments@.to_multiset() && replay_all(
                    ss,
                ) is None,
            },
    {
        let ghost input = segments@;
        let sorted = sort_segments(segments);
        proof {
            lemma_ids_distinct_of_multiset(input, sorted@);
            assert(sorted_ids(sorted@));
        }
        if sorted.len() == 0 {
            proof {
                assert(input.to_multiset().len() == 0);
                assert(input.len() == 0);
            }
            let mut segs: Vec<Segment> = Vec::new();
            segs.push(Segment { id: 0, data: Vec::new() });
            let store = KvStore { idx: Vec::new(), segs, active_id: 0, total_sz: 0 };
            proof {
                assert(store.segs@[0].data@.len() == 0);
                assert(replay_seg(Map::empty(), store.segs@[0]) == Some(
                    Map::<Seq<char>, EntryV>::empty(),
                ));
                assert(replay_all(store.segs@) == Some(Map::<Seq<char>, EntryV>::empty())) by {
                    assert(replay_from(Map::<Seq<char>, EntryV>::empty(), store.segs@, 1) == Some(
                        Map::<Seq<char>, EntryV>::empty(),
                    ));
                }
                assert(idx_map(store.idx@) =~= Map::<Seq<char>, EntryV>::empty());
                assert(total_len(store.segs@) == 0) by {
                    assert(store.segs@.drop_last() =~= Seq::<Segment>::empty());
                    assert(total_len(Seq::<Segment>::empty()) == 0);
                    assert(store.segs@.last() == store.segs@[0]);
                }
                assert(store.wf());
                assert(store.kv_view() =~= Map::<Seq<char>, Seq<char>>::empty());
            }
            return KvStore::new(store.idx, store.segs, store.active_id, store.total_sz);
        }
        let n = sorted.len();
        proof {
            assert(sorted@.to_multiset().len() == sorted@.len());
            assert(input.to_multiset().len() == input.len());
        }
        let mut idx: Vec<(String, CmdPos)> = Vec::new();
        let mut total: usize = 0;
        let mut i: usize = 0;
        while i < n
            invariant
                n == sorted@.len(),
                0 < n,
                i <= n,
                sorted_ids(sorted@),
                input == segments@,
                sorted@.to_multiset() == input.to_multiset(),
                input.len() == n,
                distinct_keys(idx@),
                replay_from(Map::empty(), sorted@, 0) == replay_from(
                    idx_map(idx@),
                    sorted@,
                    i as int,
                ),
                total == cap_usize(total_len(sorted@.take(i as int))),
            decreases n - i,
        {
            let ghost m_i = idx_map(idx@);
            match replay(&sorted[i].data, &mut idx, sorted[i].id) {
                Ok(prev) => {
                    proof {
                        assert(replay_seg(m_i, sorted@[i as int]) == Some(idx_map(idx@)));
                        assert(replay_from(m_i, sorted@, i as int) == replay_from(
                            idx_map(idx@),
                            sorted@,
                            i + 1,
                        ));
                        assert(total_len(sorted@.take(i + 1)) == total_len(sorted@.take(i as int))
                            + sorted@[i as int].data@.len()) by {
                            assert(sorted@.take(i + 1).drop_last() =~= sorted@.take(i as int));
                            assert(sorted@.take(i + 1).last() == sorted@[i as int]);
                        }
                    }
                    let new_total = if total <= usize::MAX - prev {
                        total + prev
                    } else {
                        usize::MAX
                    };
                    total = new_total;
                    i = i + 1;
                },
                Err(_e) => {
                    proof {
                        assert(replay_seg(m_i, sorted@[i as int]) is None);
                        assert(replay_from(m_i, sorted@, i as int) is None);
                        assert(replay_all(sorted@) is None);
                        assert(exists|ss: Seq<Segment>|
                            sorted_ids(ss) && ss.to_multiset() == input.to_multiset()
                                && replay_all(ss) is None) by {
                            assert(sorted_ids(sorted@) && sorted@.to_multiset()
                                == input.to_multiset() && replay_all(sorted@) is None);
                        }
                    }
                    return Err(KvsError::Serde);
                },
            }
        }
        let active_id = sorted[n - 1].id;
        proof {
            assert(sorted@.take(n as int) =~= sorted@);
            assert(replay_from(idx_map(idx@), sorted@, n as int) == Some(idx_map(idx@)));
            assert(sorted@[n - 1] == sorted@.last());
        }
        let store = KvStore { idx, segs: sorted, active_id, total_sz: total };
        proof {
            assert(store.wf());
        }
        KvStore::new(store.idx, store.segs, store.active_id, store.total_sz)
    }
}

} // verus!

verus! {

use vstd::string::StringExecFns;
use vstd::string::StrSliceExecFns;

/// Read-your-writes: `set(k, v)` ensures the new view is the old view with
/// `k` bound to `v`; in such a view, `get(k)` — whose contract returns the
/// view at `k` — yields `v`.
pub proof fn lemma_read_your_writes(m: Map<Seq<char>, Seq<char>>, k: Seq<char>, v: Seq<char>)
    ensures
        m.insert(k, v).contains_key(k),
        m.insert(k, v)[k] == v,
{
}

/// Overwrite wins: two `set`s on one key leave the view as if only the
/// second had happened, so `get` returns the latest value.
pub proof fn lemma_overwrite_wins(
    m: Map<Seq<char>, Seq<char>>,
    k: Seq<char>,
    v1: Seq<char>,
    v2: Seq<char>,
)
    ensures
        m.insert(k, v1).insert(k, v2) == m.insert(k, v2),
        m.insert(k, v1).insert(k, v2)[k] == v2,
{
    assert(m.insert(k, v1).insert(k, v2) =~= m.insert(k, v2));
}

/// Remove invalidates: a `set(k, v)` followed by a `remove(k)` leaves `k`
/// out of the view, so `get(k)` returns nothing.
pub proof fn lemma_remove_invalidates(m: Map<Seq<char>, Seq<char>>, k: Seq<char>, v: Seq<char>)
    ensures
        !m.insert(k, v).remove(k).contains_key(k),
{
}

/// Persistence across reopen: any two well-formed stores over the same
/// segment contents hold the same key-value mapping.  In particular a store
/// that is dropped and reopened over its own segments — `open` sorts them
/// back into the unique ascending order — answers every `get` as before.
pub proof fn lemma_persistence(s1: KvStore, s2: KvStore)
    requires
        s1.wf(),
        s2.wf(),
        s1.segs@.to_multiset() == s2.segs@.to_multiset(),
    ensures
        s1.kv_view() == s2.kv_view(),
{
    lemma_sorted_unique(s1.segs@, s2.segs@);
    assert(idx_map(s1.idx@) == idx_map(s2.idx@));
}

/// The live byte count is a sum of record sizes, hence non-negative.
proof fn lemma_live_size_nonneg(l: Seq<(String, CmdPos)>)
    ensures
        live_size(l) >= 0,
    decreases l.len(),
{
    if l.len() > 0 {
        lemma_live_size_nonneg(l.drop_last());
    }
}

/// Bounded space: a store that a mutating operation has just returned is
/// either still under the compaction threshold or holds exactly its live
/// record bytes on disk; in either case the bytes on disk stay within one
/// threshold of the live data, and within twice the live data once the live
/// data itself reaches the threshold.  The byte-total hypothesis is what
/// `set` and `remove` ensure; the `usize` bound is forced by the machine.
pub proof fn lemma_bounded_space(s: KvStore)
    requires
        s.wf(),
        total_len(s.segs@) <= usize::MAX as int,
        s.total_sz < MAX_STORE_SZ || s.total_sz == live_size(s.idx@),
    ensures
        total_len(s.segs@) < MAX_STORE_SZ || total_len(s.segs@) == live_size(s.idx@),
        total_len(s.segs@) <= live_size(s.idx@) + MAX_STORE_SZ,
        live_size(s.idx@) >= MAX_STORE_SZ ==> total_len(s.segs@) <= 2 * live_size(s.idx@),
{
    lemma_live_size_nonneg(s.idx@);
}

/// The character of one decimal digit.
pub open spec fn digit_char(d: int) -> char {
    ((0x30 + d) as u32) as char
}

/// The decimal digits of `n`, most significant first.
pub open spec fn spec_digits(n: int) -> Seq<char>
    decreases n,
{
    if n < 10 {
        seq![digit_char(n)]
    } else {
        spec_digits(n / 10) + seq![digit_char(n % 10)]
    }
}

/// The canonical file name of segment `id`: its decimal digits followed by
/// `-log.json`.
pub open spec fn spec_log_name(id: int) -> Seq<char> {
    spec_digits(id) + "-log.json"@
}

/// Appends the decimal digits of `n` to `out`.
fn push_digits(out: &mut String, n: usize)
    ensures
        final(out)@ == old(out)@ + spec_digits(n as int),
    decreases n,
{
    if n >= 10 {
        push_digits(out, n / 10);
    }
    let d = (n % 10) as u32;
    let c = match char::from_u32(0x30 + d) {
        Some(c) => c,
        None => {
            proof {
                assert(false);
            }
            return ;
        },
    };
    proof {
        vstd::utf8::char_u32_cast(c, (0x30 + d) as u32);
        assert(c == digit_char(n as int % 10));
    }
    out.push(c);
    proof {
        if n < 10 {
            assert(n as int % 10 == n as int);
            assert(spec_digits(n as int) =~= seq![digit_char(n as int)]);
            assert(final(out)@ =~= old(out)@ + spec_digits(n as int));
        } else {
            assert(final(out)@ =~= old(out)@ + spec_digits(n as int));
        }
    }
}

/// The file name a segment is stored under: `<id>-log.json`.
pub fn log_path(id: usize) -> (r: String)
    ensures
        r@ == spec_log_name(id as int),
{
    let mut s = String::new();
    push_digits(&mut s, id);
    s.append("-log.json");
    proof {
        assert(s@ =~= spec_log_name(id as int));
    }
    s
}

/// Character-wise string comparison.
fn str_eq(a: &str, b: &str) -> (r: bool)
    ensures
        r == (a@ == b@),
{
    let na = a.unicode_len();
    let nb = b.unicode_len();
    if na != nb {
        proof {
            assert(a@ != b@);
        }
        return false;
    }
    let mut i: usize = 0;
    while i < na
        invariant
            na == a@.len(),
            na == b@.len(),
            i <= na,
            forall|j: int| 0 <= j < i ==> a@[j] == b@[j],
        decreases na - i,
    {
        if a.get_char(i) != b.get_char(i) {
            proof {
                assert(a@ != b@);
            }
            return false;
        }
        i = i + 1;
    }
    proof {
        assert(a@ =~= b@);
    }
    true
}

/// A decimal digit character.
pub open spec fn is_digit_char(c: char) -> bool {
    0x30 <= c as u32 && c as u32 <= 0x39
}

/// The numeric value of a digit string, most significant digit first.
pub open spec fn digits_val(s: Seq<char>) -> int
    decreases s.len(),
{
    if s.len() == 0 {
        0
    } else {
        digits_val(s.drop_last()) * 10 + (s.last() as u32 - 0x30)
    }
}

/// The decimal rendering of `n` is at least one character, all digits, and
/// reads back as `n`.
proof fn lemma_spec_digits_shape(n: int)
    requires
        0 <= n,
    ensures
        spec_digits(n).len() >= 1,
        forall|j: int| 0 <= j < spec_digits(n).len() ==> is_digit_char(#[trigger] spec_digits(n)[j]),
        digits_val(spec_digits(n)) == n,
    decreases n,
{
    if n < 10 {
        assert(spec_digits(n) =~= seq![digit_char(n)]);
        assert(digit_char(n) as u32 == 0x30 + n);
        assert(spec_digits(n).drop_last() =~= Seq::<char>::empty());
        assert(spec_digits(n).last() == digit_char(n));
        assert(digits_val(Seq::<char>::empty()) == 0);
        assert(digits_val(spec_digits(n)) == n);
    } else {
        lemma_spec_digits_shape(n / 10);
        assert(spec_digits(n).drop_last() =~= spec_digits(n / 10));
        assert(spec_digits(n).last() == digit_char(n % 10));
        assert(digit_char(n % 10) as u32 == 0x30 + n % 10);
        vstd::arithmetic::div_mod::lemma_fundamental_div_mod(n, 10);
        assert(forall|j: int|
            0 <= j < spec_digits(n).len() - 1 ==> #[trigger] spec_digits(n)[j] == spec_digits(
                n / 10,
            )[j]);
    }
}

/// A prefix of a digit string reads as at most the whole string's value.
proof fn lemma_digits_val_prefix(s: Seq<char>, j: int)
    requires
        forall|q: int| 0 <= q < s.len() ==> is_digit_char(#[trigger] s[q]),
        0 <= j <= s.len(),
    ensures
        0 <= digits_val(s.take(j)) <= digits_val(s),
    decreases s.len(),
{
    if j == s.len() {
        assert(s.take(j) =~= s);
        if s.len() > 0 {
            lemma_digits_val_prefix(s.drop_last(), s.len() - 1);
            assert(s.drop_last().take(s.len() - 1) =~= s.drop_last());
        }
    } else {
        assert(s.take(j) =~= s.drop_last().take(j));
        lemma_digits_val_prefix(s.drop_last(), j);
        assert(digits_val(s) == digits_val(s.drop_last()) * 10 + (s.last() as u32 - 0x30));
    }
}

/// Parses a file name of the canonical `<id>-log.json` shape back to its
/// segment identifier: exactly the names [`log_path`] produces are accepted,
/// so names with leading zeroes or other decorations are ignored by the
/// directory scan at open.
#[verifier::rlimit(100)]
pub fn parse_log_name(name: &str) -> (r: Option<usize>)
    ensures
        r matches Some(id) ==> name@ == spec_log_name(id as int),
        forall|id: usize| name@ == spec_log_name(id as int) ==> r == Some(id),
{
    let n = name.unicode_len();
    let mut i: usize = 0;
    let mut acc: usize = 0;
    let mut fin = false;
    while i < n && !fin
        invariant
            n == name@.len(),
            i <= n,
            acc == digits_val(name@.take(i as int)),
            forall|j: int| 0 <= j < i ==> is_digit_char(#[trigger] name@[j]),
            fin ==> i < n && !is_digit_char(name@[i as int]),
        decreases n - i, 1int - (if fin { 1int } else { 0int }),
    {
        let c = name.get_char(i);
        let u = c as u32;
        if 0x30 <= u && u <= 0x39 {
            let d = (u - 0x30) as usize;
            if acc > (usize::MAX - d) / 10 {
                proof {
                    reveal_strlit("-log.json");
                    assert forall|id: usize| name@ != spec_log_name(id as int) by {
                        if name@ == spec_log_name(id as int) {
                            lemma_spec_digits_shape(id as int);
                            let dg = spec_digits(id as int);
                            // every scanned character, this one included, is
                            // a digit, so the scan is still inside `dg`
                            assert(i < dg.len()) by {
                                if i >= dg.len() {
                                    assert(name@[dg.len() as int] == "-log.json"@[0]);
                                    assert(!is_digit_char(name@[dg.len() as int]));
                                }
                            }
                            assert(forall|q: int| 0 <= q < dg.len() ==> name@[q] == dg[q]);
                            assert(name@.take(i as int) =~= dg.take(i as int));
                            assert(name@.take(i + 1) =~= dg.take(i + 1));
                            // the scanned value cannot exceed the identifier
                            lemma_digits_val_prefix(dg, i + 1);
                            assert(digits_val(dg.take(i + 1)) <= id);
                            assert(dg.take(i + 1).drop_last() =~= dg.take(i as int));
                            assert(dg.take(i + 1).last() == dg[i as int]);
                            assert(digits_val(dg.take(i + 1)) == acc * 10 + d);
                            // yet the overflow guard says it does
                            vstd::arithmetic::div_mod::lemma_fundamental_div_mod(
                                (usize::MAX - d) as int,
                                10,
                            );
                            assert(acc * 10 + d > usize::MAX);
                        }
                    }
                }
                return None;
            }
            proof {
                assert(acc * 10 <= usize::MAX - d) by (nonlinear_arith)
                    requires
                        acc <= (usize::MAX - d) / 10,
                        0 <= d,
                ;
                assert(name@.take(i + 1).drop_last() =~= name@.take(i as int));
                assert(name@.take(i + 1).last() == name@[i as int]);
            }
            acc = acc * 10 + d;
            i = i + 1;
        } else {
            fin = true;
        }
    }
    // every scanned character is a digit, and either the input is exhausted
    // or a non-digit follows
    proof {
        reveal_strlit("-log.json");
        assert forall|id: usize| name@ == spec_log_name(id as int) implies i as int
            == spec_digits(id as int).len() && acc == id && spec_digits(id as int).len() >= 1 by {
            lemma_spec_digits_shape(id as int);
            let dg = spec_digits(id as int);
            assert(forall|q: int| 0 <= q < dg.len() ==> name@[q] == dg[q]);
            assert(i <= dg.len()) by {
                if i > dg.len() {
                    assert(name@[dg.len() as int] == "-log.json"@[0]);
                    assert(!is_digit_char(name@[dg.len() as int]));
                }
            }
            assert(i as int == dg.len()) by {
                if (i as int) < dg.len() {
                    // the scan stops early only at a non-digit, but `dg` is
                    // all digits
                    assert(is_digit_char(name@[i as int]));
                    assert((i as int) < name@.len());
                    assert(fin);
                    assert(false);
                }
            }
            assert(name@.take(i as int) =~= dg);
        }
    }
    if i == 0 {
        return None;
    }
    let canon = log_path(acc);
    if str_eq(canon.as_str(), name) {
        Some(acc)
    } else {
        proof {
            assert forall|id: usize| name@ != spec_log_name(id as int) by {
                if name@ == spec_log_name(id as int) {
                    assert(acc == id);
                    assert(canon@ == name@);
                }
            }
        }
        None
    }
}

} // verus!
