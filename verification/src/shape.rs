//! Inference of the trie's shape from the storage: which child slots of a
//! node are occupied, and the absolute key of each child after skip
//! compression (the longest common prefix of the keys below the slot).

use vstd::prelude::*;
use crate::nibbles::{descends, nibbles_of, nibbles_wf, TrieNodeKey, lemma_descends_byte_prefix,
    lemma_nibbles_of_wf};
use crate::storage::{copy_bytes, Storage};

verus! {

/// `q` is a nibble prefix of every storage key lying below position `p`.
pub open spec fn common_pref(m: Map<Seq<u8>, Seq<u8>>, p: Seq<u8>, q: Seq<u8>) -> bool {
    forall|kb: Seq<u8>|
        #[trigger] m.dom().contains(kb) && descends(p, kb) ==> q.is_prefix_of(nibbles_of(kb))
}

/// Some storage key lies below position `p` (or is `p` itself).
pub open spec fn occupied_at(m: Map<Seq<u8>, Seq<u8>>, p: Seq<u8>) -> bool {
    exists|kb: Seq<u8>| #[trigger] m.dom().contains(kb) && descends(p, kb)
}

/// `c` is the longest common nibble prefix of the storage keys below `p`.
pub open spec fn is_lcp(m: Map<Seq<u8>, Seq<u8>>, p: Seq<u8>, c: Seq<u8>) -> bool {
    &&& common_pref(m, p, c)
    &&& forall|q: Seq<u8>| #[trigger] common_pref(m, p, q) ==> q.len() <= c.len()
}

/// The longest common nibble prefix of the storage keys below `p`
/// (meaningful only when `occupied_at(m, p)` holds).
pub open spec fn lcp_of(m: Map<Seq<u8>, Seq<u8>>, p: Seq<u8>) -> Seq<u8> {
    choose|c: Seq<u8>| is_lcp(m, p, c)
}

/// The absolute key of the child of node `k` at slot `i`: the common prefix
/// of every storage key below `k ++ [i]`, with skip compression folded in.
pub open spec fn child_key(m: Map<Seq<u8>, Seq<u8>>, k: Seq<u8>, i: u8) -> Seq<u8> {
    lcp_of(m, k.push(i))
}

/// The absolute key of the root node: the common prefix of all storage keys,
/// or the empty path for an empty storage.
pub open spec fn root_key(m: Map<Seq<u8>, Seq<u8>>) -> Seq<u8> {
    if occupied_at(m, Seq::empty()) {
        lcp_of(m, Seq::empty())
    } else {
        Seq::empty()
    }
}

pub proof fn lemma_prefix_trans(a: Seq<u8>, b: Seq<u8>, c: Seq<u8>)
    requires
        a.is_prefix_of(b),
        b.is_prefix_of(c),
    ensures
        a.is_prefix_of(c),
{
    assert(a =~= b.subrange(0, a.len() as int));
    assert(b =~= c.subrange(0, b.len() as int));
    assert(a =~= c.subrange(0, a.len() as int));
}

pub proof fn lemma_prefix_chain(a: Seq<u8>, b: Seq<u8>, s: Seq<u8>)
    requires
        a.is_prefix_of(s),
        b.is_prefix_of(s),
        a.len() <= b.len(),
    ensures
        a.is_prefix_of(b),
{
    assert(a =~= s.subrange(0, a.len() as int));
    assert(b =~= s.subrange(0, b.len() as int));
    assert(a =~= b.subrange(0, a.len() as int));
}

/// Two longest common prefixes of the same non-empty key set are equal.
pub proof fn lemma_lcp_unique(m: Map<Seq<u8>, Seq<u8>>, p: Seq<u8>, c1: Seq<u8>, c2: Seq<u8>)
    requires
        occupied_at(m, p),
        is_lcp(m, p, c1),
        is_lcp(m, p, c2),
    ensures
        c1 == c2,
{
    let kb = choose|kb: Seq<u8>| #[trigger] m.dom().contains(kb) && descends(p, kb);
    assert(c1.is_prefix_of(nibbles_of(kb)));
    assert(c2.is_prefix_of(nibbles_of(kb)));
    assert(common_pref(m, p, c1));
    assert(common_pref(m, p, c2));
    assert(c1.len() <= c2.len());
    assert(c2.len() <= c1.len());
    lemma_prefix_chain(c1, c2, nibbles_of(kb));
    assert(c1 =~= c2);
}

/// A longest common prefix of the keys below `p` extends `p` itself and is a
/// well-formed nibble sequence.
pub proof fn lemma_lcp_props(m: Map<Seq<u8>, Seq<u8>>, p: Seq<u8>, c: Seq<u8>)
    requires
        occupied_at(m, p),
        is_lcp(m, p, c),
    ensures
        c.len() >= p.len(),
        p.is_prefix_of(c),
        nibbles_wf(c),
{
    let kb = choose|kb: Seq<u8>| #[trigger] m.dom().contains(kb) && descends(p, kb);
    assert(p.is_prefix_of(nibbles_of(kb)));
    assert(common_pref(m, p, p));
    assert(p.len() <= c.len());
    assert(c.is_prefix_of(nibbles_of(kb)));
    lemma_prefix_chain(p, c, nibbles_of(kb));
    lemma_nibbles_of_wf(kb);
    assert(c =~= nibbles_of(kb).subrange(0, c.len() as int));
    assert forall|i: int| 0 <= i < c.len() implies c[i] < 16 by {
        assert(c[i] == nibbles_of(kb)[i]);
    }
}

/// `q` is a nibble prefix of every key in the list.
pub open spec fn list_common_pref(keys: Seq<Vec<u8>>, q: Seq<u8>) -> bool {
    forall|j: int| 0 <= j < keys.len() ==> q.is_prefix_of(#[trigger] nibbles_of(keys[j]@))
}

spec fn list_common_upto(keys: Seq<Vec<u8>>, n: int, q: Seq<u8>) -> bool {
    forall|j: int| 0 <= j < n ==> q.is_prefix_of(#[trigger] nibbles_of(keys[j]@))
}

proof fn lemma_prefix_of_take(q: Seq<u8>, p: Seq<u8>, l: int)
    requires
        q.is_prefix_of(p),
        q.len() <= l,
        0 <= l <= p.len(),
    ensures
        q.is_prefix_of(p.subrange(0, l)),
{
    assert(q =~= p.subrange(0, q.len() as int));
    assert(q =~= p.subrange(0, l).subrange(0, q.len() as int));
}

/// The number of leading nibbles of `p` that agree with the nibbles of
/// `elem`, together with why the agreement stops there.
fn match_len(p: &Vec<u8>, elem: &[u8]) -> (r: usize)
    ensures
        r <= p@.len(),
        r <= nibbles_of(elem@).len(),
        forall|jj: int| 0 <= jj < r ==> p@[jj] == nibbles_of(elem@)[jj],
        r == p@.len() || r == nibbles_of(elem@).len() || p@[r as int] != nibbles_of(
            elem@,
        )[r as int],
{
    let n = p.len();
    let mut j: usize = 0;
    while j < n
        invariant
            n == p@.len(),
            j <= n,
            j <= nibbles_of(elem@).len(),
            forall|jj: int| 0 <= jj < j ==> p@[jj] == nibbles_of(elem@)[jj],
        decreases n - j,
    {
        if j / 2 >= elem.len() {
            proof {
                assert(j >= 2 * elem@.len());
            }
            return j;
        }
        let nib = if j % 2 == 0 {
            elem[j / 2] / 16
        } else {
            elem[j / 2] % 16
        };
        proof {
            assert(nib == nibbles_of(elem@)[j as int]);
        }
        if p[j] != nib {
            return j;
        }
        j += 1;
    }
    j
}

/// The longest nibble path that starts every key in the list, or nothing for
/// an empty list. Empty input is the only input answered with `None`.
pub fn common_prefix(keys: &Vec<Vec<u8>>) -> (r: Option<TrieNodeKey>)
    ensures
        r.is_some() <==> keys@.len() > 0,
        match r {
            Some(p) => {
                &&& p.wf()
                &&& list_common_pref(keys@, p@)
                &&& forall|q: Seq<u8>| #[trigger] list_common_pref(keys@, q) ==> q.len()
                    <= p@.len()
            },
            None => true,
        },
{
    if keys.len() == 0 {
        return None;
    }
    let first = TrieNodeKey::from_bytes(keys[0].as_slice());
    let mut p: Vec<u8> = first.nibbles;
    let mut idx: usize = 1;
    proof {
        assert forall|q: Seq<u8>| list_common_upto(keys@, 1int, q) implies q.is_prefix_of(p@) by {
            assert(q.is_prefix_of(nibbles_of(keys@[0]@)));
        }
    }
    while idx < keys.len()
        invariant
            1 <= idx <= keys@.len(),
            nibbles_wf(p@),
            forall|j: int| 0 <= j < idx ==> p@.is_prefix_of(#[trigger] nibbles_of(keys@[j]@)),
            forall|q: Seq<u8>| #[trigger] list_common_upto(keys@, idx as int, q)
                ==> q.is_prefix_of(p@),
        decreases keys@.len() - idx,
    {
        let ghost p_old = p@;
        let ml = match_len(&p, keys[idx].as_slice());
        let mut np: Vec<u8> = Vec::new();
        let mut t: usize = 0;
        while t < ml
            invariant
                ml <= p@.len(),
                t <= ml,
                np@.len() == t,
                p@ == p_old,
                forall|jj: int| 0 <= jj < t ==> np@[jj] == p@[jj],
            decreases ml - t,
        {
            np.push(p[t]);
            t += 1;
        }
        proof {
            assert(np@ =~= p_old.subrange(0, ml as int));
        }
        let ghost elem_nibs = nibbles_of(keys@[idx as int]@);
        proof {
            // The trimmed prefix still starts every key seen so far.
            assert forall|j: int| 0 <= j < idx + 1 implies np@.is_prefix_of(
                #[trigger] nibbles_of(keys@[j]@),
            ) by {
                assert(np@.is_prefix_of(p_old)) by {
                    assert(np@ =~= p_old.subrange(0, ml as int).subrange(0, np@.len() as int));
                }
                if j < idx {
                    lemma_prefix_trans(np@, p_old, nibbles_of(keys@[j]@));
                } else {
                    assert forall|jj: int| 0 <= jj < np@.len() implies np@[jj] == elem_nibs[jj] by {
                        assert(np@[jj] == p_old[jj]);
                    }
                    assert(np@ =~= elem_nibs.subrange(0, np@.len() as int));
                }
            }
            // And every common prefix of the keys seen so far starts it.
            assert forall|q: Seq<u8>| #[trigger] list_common_upto(keys@, idx + 1, q) implies q
                .is_prefix_of(np@) by {
                assert(list_common_upto(keys@, idx as int, q)) by {
                    assert forall|j: int| 0 <= j < idx implies q.is_prefix_of(
                        #[trigger] nibbles_of(keys@[j]@),
                    ) by {}
                }
                assert(q.is_prefix_of(p_old));
                assert(q.is_prefix_of(elem_nibs));
                if q.len() > ml {
                    assert(ml < p_old.len() && ml < elem_nibs.len());
                    assert(q[ml as int] == p_old[ml as int]) by {
                        assert(q =~= p_old.subrange(0, q.len() as int));
                    }
                    assert(q[ml as int] == elem_nibs[ml as int]) by {
                        assert(q =~= elem_nibs.subrange(0, q.len() as int));
                    }
                    assert(p_old[ml as int] == elem_nibs[ml as int]);
                    assert(false);
                }
                lemma_prefix_of_take(q, p_old, ml as int);
            }
        }
        p = np;
        idx += 1;
        if p.len() == 0 {
            // No key can share a longer prefix once the common prefix is
            // empty, so the remaining keys need not be visited.
            let ghost idx_old = idx as int;
            idx = keys.len();
            proof {
                assert forall|j: int| 0 <= j < idx implies p@.is_prefix_of(
                    #[trigger] nibbles_of(keys@[j]@),
                ) by {
                    assert(p@ =~= nibbles_of(keys@[j]@).subrange(0, 0));
                }
                assert forall|q: Seq<u8>| #[trigger] list_common_upto(keys@, idx as int, q) implies
                    q.is_prefix_of(p@) by {
                    assert(list_common_upto(keys@, idx_old, q)) by {
                        assert forall|j: int| 0 <= j < idx_old implies q.is_prefix_of(
                            #[trigger] nibbles_of(keys@[j]@),
                        ) by {}
                    }
                }
            }
        }
    }
    proof {
        assert(idx == keys@.len());
        assert forall|q: Seq<u8>| #[trigger] list_common_pref(keys@, q) implies q.len()
            <= p@.len() by {
            assert(list_common_upto(keys@, idx as int, q)) by {
                assert forall|j: int| 0 <= j < idx implies q.is_prefix_of(
                    #[trigger] nibbles_of(keys@[j]@),
                ) by {}
            }
            assert(q.is_prefix_of(p@));
        }
    }
    Some(TrieNodeKey { nibbles: p })
}

/// Every storage key lying below node position `key`, or equal to it.
pub fn descendant_storage_keys(storage: &Storage, key: &TrieNodeKey) -> (r: Vec<Vec<u8>>)
    requires
        key.wf(),
    ensures
        forall|j: int|
            0 <= j < r@.len() ==> storage@.dom().contains((#[trigger] r@[j])@) && descends(
                key@,
                r@[j]@,
            ),
        forall|kb: Seq<u8>|
            storage@.dom().contains(kb) && descends(key@, kb) ==> exists|j: int|
                0 <= j < r@.len() && r@[j]@ == kb,
{
    let t = key.to_bytes_truncate();
    let ks = storage.prefix_keys(t.as_slice());
    let n = ks.len();
    let mut out: Vec<Vec<u8>> = Vec::new();
    let mut i: usize = 0;
    while i < n
        invariant
            n == ks@.len(),
            i <= n,
            key.wf(),
            t@ == crate::nibbles::bytes_trunc(key@),
            forall|j: int|
                0 <= j < ks@.len() ==> storage@.dom().contains((#[trigger] ks@[j])@)
                    && t@.is_prefix_of(ks@[j]@),
            forall|j: int|
                0 <= j < out@.len() ==> storage@.dom().contains((#[trigger] out@[j])@) && descends(
                    key@,
                    out@[j]@,
                ),
            forall|jj: int|
                0 <= jj < i && descends(key@, ks@[jj]@) ==> exists|j: int|
                    0 <= j < out@.len() && out@[j]@ == ks@[jj]@,
        decreases n - i,
    {
        let ghost out_before = out@;
        if key.is_ancestor_or_equal(ks[i].as_slice()) {
            let k = copy_bytes(ks[i].as_slice());
            out.push(k);
            proof {
                assert(out@[out@.len() - 1]@ == ks@[i as int]@);
            }
        }
        proof {
            assert forall|jj: int| 0 <= jj < i + 1 && descends(key@, ks@[jj]@) implies exists|
                j: int,
            | 0 <= j < out@.len() && out@[j]@ == ks@[jj]@ by {
                if jj < i {
                    let j = choose|j: int| 0 <= j < out_before.len() && out_before[j]@ == ks@[jj]@;
                    assert(out@[j]@ == ks@[jj]@);
                } else {
                    assert(out@[out@.len() - 1]@ == ks@[jj]@);
                }
            }
        }
        i += 1;
    }
    proof {
        assert forall|kb: Seq<u8>| storage@.dom().contains(kb) && descends(key@, kb) implies exists|
            j: int,
        | 0 <= j < out@.len() && out@[j]@ == kb by {
            lemma_descends_byte_prefix(key@, kb);
            let jj = choose|j: int| 0 <= j < ks@.len() && ks@[j]@ == kb;
            assert(descends(key@, ks@[jj]@));
        }
    }
    out
}

/// The absolute keys of the children of the node at `key`, in ascending slot
/// order: for each occupied slot, the common prefix of the keys below it.
pub fn child_nodes(storage: &Storage, key: &TrieNodeKey) -> (r: Vec<TrieNodeKey>)
    requires
        key.wf(),
    ensures
        forall|j: int|
            0 <= j < r@.len() ==> {
                let c = (#[trigger] r@[j])@;
                &&& r@[j].wf()
                &&& c.len() > key@.len()
                &&& c[key@.len() as int] < 16
                &&& occupied_at(storage@, key@.push(c[key@.len() as int]))
                &&& c == child_key(storage@, key@, c[key@.len() as int])
                &&& key@.push(c[key@.len() as int]).is_prefix_of(c)
            },
        forall|i: u8|
            i < 16 && occupied_at(storage@, key@.push(i)) ==> exists|j: int|
                0 <= j < r@.len() && r@[j]@.len() > key@.len() && r@[j]@[key@.len() as int] == i,
        forall|j1: int, j2: int|
            0 <= j1 < j2 < r@.len() ==> r@[j1]@[key@.len() as int] < r@[j2]@[key@.len() as int],
{
    let mut out: Vec<TrieNodeKey> = Vec::new();
    let mut i: u8 = 0;
    while i < 16
        invariant
            i <= 16,
            key.wf(),
            forall|j: int|
                0 <= j < out@.len() ==> {
                    let c = (#[trigger] out@[j])@;
                    &&& out@[j].wf()
                    &&& c.len() > key@.len()
                    &&& c[key@.len() as int] < i
                    &&& occupied_at(storage@, key@.push(c[key@.len() as int]))
                    &&& c == child_key(storage@, key@, c[key@.len() as int])
                    &&& key@.push(c[key@.len() as int]).is_prefix_of(c)
                },
            forall|ii: u8|
                ii < i && occupied_at(storage@, key@.push(ii)) ==> exists|j: int|
                    0 <= j < out@.len() && out@[j]@.len() > key@.len() && out@[j]@[key@.len() as int]
                        == ii,
            forall|j1: int, j2: int|
                0 <= j1 < j2 < out@.len() ==> out@[j1]@[key@.len() as int] < out@[j2]@[
                    key@.len() as int
                ],
        decreases 16 - i,
    {
        let mut tn: Vec<u8> = copy_bytes(key.nibbles.as_slice());
        tn.push(i);
        let trial = TrieNodeKey { nibbles: tn };
        proof {
            assert(trial@ =~= key@.push(i));
            assert(trial.wf());
        }
        let d = descendant_storage_keys(storage, &trial);
        let ghost out_before = out@;
        let ghost m = storage@;
        let cp = common_prefix(&d);
        match cp {
            Some(p) => {
                proof {
                    assert(d@.len() > 0);
                    assert(m.dom().contains(d@[0]@) && descends(trial@, d@[0]@));
                    assert(occupied_at(m, key@.push(i)));
                    assert forall|kb: Seq<u8>|
                        #[trigger] m.dom().contains(kb) && descends(trial@, kb) implies p@
                        .is_prefix_of(nibbles_of(kb)) by {
                        let j = choose|j: int| 0 <= j < d@.len() && d@[j]@ == kb;
                        assert(p@.is_prefix_of(nibbles_of(d@[j]@)));
                    }
                    assert(common_pref(m, trial@, p@));
                    assert forall|q: Seq<u8>| #[trigger] common_pref(m, trial@, q) implies q.len()
                        <= p@.len() by {
                        assert forall|j: int| 0 <= j < d@.len() implies q.is_prefix_of(
                            #[trigger] nibbles_of(d@[j]@),
                        ) by {
                            assert(m.dom().contains(d@[j]@) && descends(trial@, d@[j]@));
                        }
                        assert(list_common_pref(d@, q));
                    }
                    assert(is_lcp(m, trial@, p@));
                    assert(is_lcp(m, trial@, lcp_of(m, trial@)));
                    lemma_lcp_unique(m, trial@, lcp_of(m, trial@), p@);
                    assert(p@ == child_key(m, key@, i));
                    lemma_lcp_props(m, trial@, p@);
                    assert(p@[key@.len() as int] == i) by {
                        assert(trial@ =~= p@.subrange(0, trial@.len() as int));
                    }
                    assert(p@.len() > key@.len());
                }
                out.push(p);
                proof {
                    assert(out@[out@.len() - 1]@[key@.len() as int] == i);
                }
            },
            None => {
                proof {
                    assert(d@.len() == 0);
                    assert(!occupied_at(m, key@.push(i))) by {
                        if occupied_at(m, key@.push(i)) {
                            let kb = choose|kb: Seq<u8>|
                                #[trigger] m.dom().contains(kb) && descends(key@.push(i), kb);
                            assert(descends(trial@, kb));
                            assert(exists|j: int| 0 <= j < d@.len() && d@[j]@ == kb);
                        }
                    }
                }
            },
        }
        proof {
            assert forall|ii: u8| ii < i + 1 && occupied_at(storage@, key@.push(ii)) implies exists|
                j: int,
            |
                0 <= j < out@.len() && out@[j]@.len() > key@.len() && out@[j]@[key@.len() as int]
                    == ii by {
                if ii < i {
                    let j = choose|j: int|
                        0 <= j < out_before.len() && out_before[j]@.len() > key@.len()
                            && out_before[j]@[key@.len() as int] == ii;
                    assert(out@[j]@ == out_before[j]@);
                } else {
                    assert(out@[out@.len() - 1]@[key@.len() as int] == ii);
                }
            }
        }
        i += 1;
    }
    out
}

} // verus!
