//! The in-memory index: a mapping from live keys to the byte range of each
//! key's most recent `Set` record.
//!
//! The index is held as an association list with pairwise-distinct keys; its
//! mathematical content is the [`idx_map`] it denotes.

use vstd::prelude::*;

verus! {

/// The location of one live record: the identifier of the segment holding
/// it, the byte offset of its first byte, and its byte length.
#[derive(Debug, Clone, Copy)]
pub struct CmdPos {
    pub f_id: usize,
    pub pos: usize,
    pub sz: usize,
}

/// The mathematical form of a [`CmdPos`].
pub struct EntryV {
    pub f_id: int,
    pub pos: int,
    pub sz: int,
}

impl View for CmdPos {
    type V = EntryV;

    open spec fn view(&self) -> EntryV {
        EntryV { f_id: self.f_id as int, pos: self.pos as int, sz: self.sz as int }
    }
}

/// The mapping an association list denotes; later entries shadow earlier
/// ones, though under [`distinct_keys`] there is nothing to shadow.
pub open spec fn idx_map(l: Seq<(String, CmdPos)>) -> Map<Seq<char>, EntryV>
    decreases l.len(),
{
    if l.len() == 0 {
        Map::empty()
    } else {
        idx_map(l.drop_last()).insert(l.last().0@, l.last().1@)
    }
}

/// No two entries bind the same key.
pub open spec fn distinct_keys(l: Seq<(String, CmdPos)>) -> bool {
    forall|p: int, q: int| 0 <= p < q < l.len() ==> l[p].0@ != l[q].0@
}

/// A key is in the denoted map exactly when some entry binds it.
pub proof fn lemma_idx_map_dom(l: Seq<(String, CmdPos)>, k: Seq<char>)
    ensures
        idx_map(l).contains_key(k) <==> exists|i: int| 0 <= i < l.len() && (#[trigger] l[i]).0@
            == k,
    decreases l.len(),
{
    if l.len() == 0 {
    } else {
        lemma_idx_map_dom(l.drop_last(), k);
        if l.last().0@ == k {
            assert(l[l.len() - 1].0@ == k);
        } else {
            assert(forall|i: int|
                0 <= i < l.len() - 1 ==> (#[trigger] l[i]) == l.drop_last()[i]);
        }
    }
}

/// Under distinct keys, the entry that binds `k` gives the map's value at `k`.
pub proof fn lemma_idx_map_index(l: Seq<(String, CmdPos)>, i: int)
    requires
        distinct_keys(l),
        0 <= i < l.len(),
    ensures
        idx_map(l).contains_key(l[i].0@),
        idx_map(l)[l[i].0@] == l[i].1@,
    decreases l.len(),
{
    if i == l.len() - 1 {
    } else {
        assert(l.drop_last()[i] == l[i]);
        lemma_idx_map_index(l.drop_last(), i);
        assert(l[i].0@ != l.last().0@);
    }
}

/// Appending a fresh binding inserts it into the denoted map.
pub proof fn lemma_idx_map_push(l: Seq<(String, CmdPos)>, k: String, p: CmdPos)
    ensures
        idx_map(l.push((k, p))) == idx_map(l).insert(k@, p@),
{
    assert(l.push((k, p)).drop_last() =~= l);
    assert(l.push((k, p)).last() == (k, p));
}

/// Replacing the entry that binds a key overwrites that key in the map.
pub proof fn lemma_idx_map_update(l: Seq<(String, CmdPos)>, i: int, k: String, p: CmdPos)
    requires
        distinct_keys(l),
        0 <= i < l.len(),
        k@ == l[i].0@,
    ensures
        idx_map(l.update(i, (k, p))) =~= idx_map(l).insert(k@, p@),
    decreases l.len(),
{
    let l2 = l.update(i, (k, p));
    if i == l.len() - 1 {
        assert(l2.drop_last() =~= l.drop_last());
        assert(l2.last() == (k, p));
        assert(idx_map(l2) == idx_map(l.drop_last()).insert(k@, p@));
        assert(idx_map(l.drop_last()).insert(l.last().0@, l.last().1@).insert(k@, p@)
            =~= idx_map(l.drop_last()).insert(k@, p@));
    } else {
        assert(l2.drop_last() =~= l.drop_last().update(i, (k, p)));
        assert(l.drop_last()[i] == l[i]);
        lemma_idx_map_update(l.drop_last(), i, k, p);
        assert(l2.last() == l.last());
        assert(l.last().0@ != k@);
        assert(idx_map(l.drop_last()).insert(k@, p@).insert(l.last().0@, l.last().1@)
            =~= idx_map(l.drop_last()).insert(l.last().0@, l.last().1@).insert(k@, p@));
    }
}

/// A key bound by no entry is not in the denoted map.
pub proof fn lemma_idx_map_absent(l: Seq<(String, CmdPos)>, k: Seq<char>)
    requires
        forall|i: int| 0 <= i < l.len() ==> (#[trigger] l[i]).0@ != k,
    ensures
        !idx_map(l).contains_key(k),
{
    lemma_idx_map_dom(l, k);
}

/// Removing the entry that binds a key removes that key from the map.
pub proof fn lemma_idx_map_remove(l: Seq<(String, CmdPos)>, i: int)
    requires
        distinct_keys(l),
        0 <= i < l.len(),
    ensures
        idx_map(l.remove(i)) =~= idx_map(l).remove(l[i].0@),
    decreases l.len(),
{
    let k = l[i].0@;
    let l2 = l.remove(i);
    if i == l.len() - 1 {
        assert(l2 =~= l.drop_last());
        assert(forall|j: int| 0 <= j < l.len() - 1 ==> (#[trigger] l.drop_last()[j]).0@ != k);
        lemma_idx_map_absent(l.drop_last(), k);
        assert(idx_map(l.drop_last()).insert(k, l[i].1@).remove(k) =~= idx_map(l.drop_last()));
    } else {
        assert(l2.drop_last() =~= l.drop_last().remove(i));
        assert(l.drop_last()[i] == l[i]);
        lemma_idx_map_remove(l.drop_last(), i);
        assert(l2.last() == l.last());
        assert(l.last().0@ != k);
        assert(idx_map(l.drop_last()).remove(k).insert(l.last().0@, l.last().1@)
            =~= idx_map(l.drop_last()).insert(l.last().0@, l.last().1@).remove(k));
    }
}

/// Finds the position of the entry binding `key`, if any.
pub fn idx_find(l: &Vec<(String, CmdPos)>, key: &String) -> (r: Option<usize>)
    ensures
        match r {
            Some(i) => i < l@.len() && l@[i as int].0@ == key@,
            None => forall|i: int| 0 <= i < l@.len() ==> (#[trigger] l@[i]).0@ != key@,
        },
{
    let n = l.len();
    let mut i: usize = 0;
    while i < n
        invariant
            n == l@.len(),
            i <= n,
            forall|j: int| 0 <= j < i ==> (#[trigger] l@[j]).0@ != key@,
        decreases n - i,
    {
        if l[i].0 == *key {
            return Some(i);
        }
        i = i + 1;
    }
    None
}

/// Binds `key` to `p`, overwriting any existing binding.
pub fn idx_insert(l: &mut Vec<(String, CmdPos)>, key: String, p: CmdPos)
    requires
        distinct_keys(old(l)@),
    ensures
        distinct_keys(final(l)@),
        idx_map(final(l)@) == idx_map(old(l)@).insert(key@, p@),
        final(l)@.len() <= old(l)@.len() + 1,
{
    match idx_find(l, &key) {
        Some(i) => {
            proof {
                lemma_idx_map_update(l@, i as int, key, p);
            }
            l[i] = (key, p);
            proof {
                assert(distinct_keys(l@)) by {
                    assert(forall|q: int|
                        0 <= q < l@.len() && q != i ==> (#[trigger] l@[q]).0@ == old(l)@[q].0@);
                }
            }
        },
        None => {
            proof {
                lemma_idx_map_push(l@, key, p);
            }
            l.push((key, p));
            proof {
                assert(distinct_keys(l@)) by {
                    assert(forall|q: int|
                        0 <= q < l@.len() - 1 ==> (#[trigger] l@[q]) == old(l)@[q]);
                }
            }
        },
    }
}

/// Drops the binding of `key`; reports whether one was there.
pub fn idx_remove(l: &mut Vec<(String, CmdPos)>, key: &String) -> (r: bool)
    requires
        distinct_keys(old(l)@),
    ensures
        distinct_keys(final(l)@),
        r == idx_map(old(l)@).contains_key(key@),
        r ==> idx_map(final(l)@) == idx_map(old(l)@).remove(key@),
        !r ==> *final(l) == *old(l),
{
    match idx_find(l, key) {
        Some(i) => {
            proof {
                lemma_idx_map_remove(l@, i as int);
                lemma_idx_map_index(l@, i as int);
            }
            l.remove(i);
            proof {
                assert(distinct_keys(l@)) by {
                    assert(forall|p: int, q: int|
                        0 <= p < q < l@.len() ==> l@[p].0@ != l@[q].0@) by {
                        assert(forall|p: int|
                            0 <= p < l@.len() ==> (#[trigger] l@[p]) == if p < i {
                                old(l)@[p]
                            } else {
                                old(l)@[p + 1]
                            });
                    }
                }
            }
            true
        },
        None => {
            proof {
                lemma_idx_map_absent(l@, key@);
            }
            false
        },
    }
}

} // verus!
