//! The key/value storage snapshot that the trie is laid over, together with
//! the two pure queries the root computation consumes: value lookup and
//! enumeration of the keys under a byte prefix.

use vstd::prelude::*;

verus! {

/// The mapping described by a sequence of key/value pairs; a later pair for
/// the same key supersedes an earlier one.
pub open spec fn pairs_map(s: Seq<(Vec<u8>, Vec<u8>)>) -> Map<Seq<u8>, Seq<u8>>
    decreases s.len(),
{
    if s.len() == 0 {
        Map::empty()
    } else {
        pairs_map(s.drop_last()).insert(s.last().0@, s.last().1@)
    }
}

proof fn lemma_pairs_map_dom(s: Seq<(Vec<u8>, Vec<u8>)>, k: Seq<u8>)
    ensures
        pairs_map(s).dom().contains(k) <==> exists|j: int| 0 <= j < s.len() && s[j].0@ == k,
    decreases s.len(),
{
    if s.len() > 0 {
        lemma_pairs_map_dom(s.drop_last(), k);
        if s.last().0@ == k {
            assert(s[s.len() - 1].0@ == k);
        } else if pairs_map(s).dom().contains(k) {
            let j = choose|j: int| 0 <= j < s.drop_last().len() && s.drop_last()[j].0@ == k;
            assert(s[j].0@ == k);
        } else if exists|j: int| 0 <= j < s.len() && s[j].0@ == k {
            let j = choose|j: int| 0 <= j < s.len() && s[j].0@ == k;
            assert(s.drop_last()[j].0@ == k);
        }
    }
}

proof fn lemma_pairs_map_at(s: Seq<(Vec<u8>, Vec<u8>)>, j: int)
    requires
        0 <= j < s.len(),
        forall|j2: int| j < j2 < s.len() ==> s[j2].0@ != s[j].0@,
    ensures
        pairs_map(s).dom().contains(s[j].0@),
        pairs_map(s)[s[j].0@] == s[j].1@,
    decreases s.len(),
{
    lemma_pairs_map_dom(s, s[j].0@);
    if j == s.len() - 1 {
    } else {
        assert(s.last().0@ != s[j].0@);
        assert(s.drop_last()[j] == s[j]);
        lemma_pairs_map_at(s.drop_last(), j);
    }
}

/// Whether two byte strings are equal.
pub fn bytes_eq(a: &[u8], b: &[u8]) -> (r: bool)
    ensures
        r == (a@ == b@),
{
    if a.len() != b.len() {
        return false;
    }
    let n = a.len();
    let mut i: usize = 0;
    while i < n
        invariant
            n == a@.len(),
            n == b@.len(),
            i <= n,
            forall|j: int| 0 <= j < i ==> a@[j] == b@[j],
        decreases n - i,
    {
        if a[i] != b[i] {
            return false;
        }
        i += 1;
    }
    proof {
        assert(a@ =~= b@);
    }
    true
}

/// Whether `p` starts `k`.
pub fn bytes_start_with(p: &[u8], k: &[u8]) -> (r: bool)
    ensures
        r == p@.is_prefix_of(k@),
{
    if p.len() > k.len() {
        return false;
    }
    let n = p.len();
    let mut i: usize = 0;
    while i < n
        invariant
            n == p@.len(),
            n <= k@.len(),
            i <= n,
            forall|j: int| 0 <= j < i ==> p@[j] == k@[j],
        decreases n - i,
    {
        if p[i] != k[i] {
            proof {
                assert(p@.is_prefix_of(k@) ==> p@[i as int] == k@[i as int]) by {
                    if p@.is_prefix_of(k@) {
                        assert(p@ =~= k@.subrange(0, n as int));
                    }
                }
            }
            return false;
        }
        i += 1;
    }
    proof {
        assert(p@ =~= k@.subrange(0, n as int));
    }
    true
}

/// A fresh copy of a byte string.
pub fn copy_bytes(v: &[u8]) -> (r: Vec<u8>)
    ensures
        r@ == v@,
{
    let n = v.len();
    let mut out: Vec<u8> = Vec::new();
    let mut i: usize = 0;
    while i < n
        invariant
            n == v@.len(),
            i <= n,
            out@.len() == i,
            forall|j: int| 0 <= j < i ==> out@[j] == v@[j],
        decreases n - i,
    {
        out.push(v[i]);
        i += 1;
    }
    proof {
        assert(out@ =~= v@);
    }
    out
}

/// A finite snapshot of the storage: byte-string keys mapped to byte-string
/// values. Viewed as the mathematical mapping; insertion order is invisible
/// in the view.
pub struct Storage {
    pairs: Vec<(Vec<u8>, Vec<u8>)>,
}

impl View for Storage {
    type V = Map<Seq<u8>, Seq<u8>>;

    closed spec fn view(&self) -> Map<Seq<u8>, Seq<u8>> {
        pairs_map(self.pairs@)
    }
}

impl Storage {
    /// An empty snapshot.
    pub fn new() -> (s: Storage)
        ensures
            s@ == Map::<Seq<u8>, Seq<u8>>::empty(),
    {
        Storage { pairs: Vec::new() }
    }

    /// Binds `key` to `value`, superseding any earlier binding of `key`.
    pub fn insert(&mut self, key: Vec<u8>, value: Vec<u8>)
        ensures
            final(self)@ == old(self)@.insert(key@, value@),
    {
        let ghost old_pairs = self.pairs@;
        let ghost kv = (key@, value@);
        self.pairs.push((key, value));
        proof {
            assert(self.pairs@.drop_last() =~= old_pairs);
            assert(self.pairs@.last().0@ == kv.0);
            assert(self.pairs@.last().1@ == kv.1);
        }
    }

    /// The value bound to `key`, if any. Pure: repeated calls agree.
    pub fn get_value(&self, key: &[u8]) -> (r: Option<Vec<u8>>)
        ensures
            match r {
                Some(v) => self@.dom().contains(key@) && v@ == self@[key@],
                None => !self@.dom().contains(key@),
            },
    {
        let n = self.pairs.len();
        let mut i: usize = n;
        while i > 0
            invariant
                n == self.pairs@.len(),
                i <= n,
                forall|j: int| i <= j < n ==> self.pairs@[j].0@ != key@,
            decreases i,
        {
            i -= 1;
            if bytes_eq(self.pairs[i].0.as_slice(), key) {
                let v = copy_bytes(self.pairs[i].1.as_slice());
                proof {
                    lemma_pairs_map_at(self.pairs@, i as int);
                }
                return Some(v);
            }
        }
        proof {
            lemma_pairs_map_dom(self.pairs@, key@);
        }
        None
    }

    /// Every stored key that starts with `prefix`, omitting none. The order
    /// of the result is unspecified; the same key may appear more than once.
    pub fn prefix_keys(&self, prefix: &[u8]) -> (r: Vec<Vec<u8>>)
        ensures
            forall|j: int|
                0 <= j < r@.len() ==> self@.dom().contains(r@[j]@) && prefix@.is_prefix_of(
                    r@[j]@,
                ),
            forall|kb: Seq<u8>|
                self@.dom().contains(kb) && prefix@.is_prefix_of(kb) ==> exists|j: int|
                    0 <= j < r@.len() && r@[j]@ == kb,
    {
        let n = self.pairs.len();
        let mut out: Vec<Vec<u8>> = Vec::new();
        let mut i: usize = 0;
        while i < n
            invariant
                n == self.pairs@.len(),
                i <= n,
                forall|j: int|
                    0 <= j < out@.len() ==> self@.dom().contains(out@[j]@)
                        && prefix@.is_prefix_of(out@[j]@),
                forall|jj: int|
                    0 <= jj < i && prefix@.is_prefix_of(self.pairs@[jj].0@) ==> exists|j: int|
                        0 <= j < out@.len() && out@[j]@ == self.pairs@[jj].0@,
            decreases n - i,
        {
            let ghost out_before = out@;
            if bytes_start_with(prefix, self.pairs[i].0.as_slice()) {
                let k = copy_bytes(self.pairs[i].0.as_slice());
                proof {
                    lemma_pairs_map_dom(self.pairs@, k@);
                    assert(self.pairs@[i as int].0@ == k@);
                }
                out.push(k);
                proof {
                    assert(out@[out@.len() - 1]@ == self.pairs@[i as int].0@);
                }
            }
            proof {
                assert forall|jj: int|
                    0 <= jj < i + 1 && prefix@.is_prefix_of(self.pairs@[jj].0@) implies exists|
                    j: int,
                |
                    0 <= j < out@.len() && out@[j]@ == self.pairs@[jj].0@ by {
                    if jj < i {
                        let j = choose|j: int|
                            0 <= j < out_before.len() && out_before[j]@ == self.pairs@[jj].0@;
                        assert(out@[j]@ == self.pairs@[jj].0@);
                    } else {
                        assert(out@[out@.len() - 1]@ == self.pairs@[jj].0@);
                    }
                }
            }
            i += 1;
        }
        proof {
            assert forall|kb: Seq<u8>|
                self@.dom().contains(kb) && prefix@.is_prefix_of(kb) implies exists|j: int|
                0 <= j < out@.len() && out@[j]@ == kb by {
                lemma_pairs_map_dom(self.pairs@, kb);
                let jj = choose|jj: int| 0 <= jj < self.pairs@.len() && self.pairs@[jj].0@ == kb;
                assert(prefix@.is_prefix_of(self.pairs@[jj].0@));
            }
        }
        out
    }
}

} // verus!
