//! Trie node positions, expressed as sequences of nibbles (4-bit values).

use vstd::prelude::*;

verus! {

/// Every element of the sequence is a nibble, that is a value below 16.
pub open spec fn nibbles_wf(k: Seq<u8>) -> bool {
    forall|i: int| 0 <= i < k.len() ==> k[i] < 16
}

/// The nibble sequence of a byte string: each byte split into its high then
/// its low four bits.
pub open spec fn nibbles_of(bytes: Seq<u8>) -> Seq<u8> {
    Seq::new(
        bytes.len() * 2,
        |i: int| if i % 2 == 0 { bytes[i / 2] / 16 } else { bytes[i / 2] % 16 },
    )
}

/// Pairs nibbles back into bytes, high nibble first; a trailing unpaired
/// nibble is dropped.
pub open spec fn bytes_trunc(k: Seq<u8>) -> Seq<u8> {
    Seq::new(k.len() / 2, |i: int| (k[2 * i] * 16 + k[2 * i + 1]) as u8)
}

/// The node position `k` (a nibble path from the trie root) lies on the path
/// to the storage key `key_bytes`, or is that key's own position.
pub open spec fn descends(k: Seq<u8>, key_bytes: Seq<u8>) -> bool {
    k.is_prefix_of(nibbles_of(key_bytes))
}

pub proof fn lemma_nibbles_of_wf(bytes: Seq<u8>)
    ensures
        nibbles_wf(nibbles_of(bytes)),
{
}

/// A node position that descends to a storage key starts, in truncated byte
/// form, the byte form of that key.
pub proof fn lemma_descends_byte_prefix(k: Seq<u8>, kb: Seq<u8>)
    requires
        descends(k, kb),
    ensures
        bytes_trunc(k).is_prefix_of(kb),
{
    let t = bytes_trunc(k);
    assert(k =~= nibbles_of(kb).subrange(0, k.len() as int));
    assert forall|i: int| 0 <= i < t.len() implies t[i] == kb[i] by {
        assert(k[2 * i] == nibbles_of(kb)[2 * i]);
        assert(k[2 * i + 1] == nibbles_of(kb)[2 * i + 1]);
    }
    assert(t =~= kb.subrange(0, t.len() as int));
}

/// The nibble path of a trie node: its full key from the notional root.
pub struct TrieNodeKey {
    pub nibbles: Vec<u8>,
}

impl View for TrieNodeKey {
    type V = Seq<u8>;

    open spec fn view(&self) -> Seq<u8> {
        self.nibbles@
    }
}

impl TrieNodeKey {
    pub open spec fn wf(&self) -> bool {
        nibbles_wf(self@)
    }

    /// The empty path: the notional root position.
    pub fn new_empty() -> (r: TrieNodeKey)
        ensures
            r@ == Seq::<u8>::empty(),
            r.wf(),
    {
        let r = TrieNodeKey { nibbles: Vec::new() };
        proof {
            assert(r@ =~= Seq::<u8>::empty());
        }
        r
    }

    /// Builds the path whose nibbles are those of `bytes`, high nibble first.
    pub fn from_bytes(bytes: &[u8]) -> (r: TrieNodeKey)
        ensures
            r@ == nibbles_of(bytes@),
            r.wf(),
    {
        let n = bytes.len();
        let mut out: Vec<u8> = Vec::new();
        let mut i: usize = 0;
        while i < n
            invariant
                n == bytes@.len(),
                i <= n,
                out@.len() == 2 * i,
                forall|j: int| 0 <= j < out@.len() ==> out@[j] == nibbles_of(bytes@)[j],
            decreases n - i,
        {
            let b = bytes[i];
            out.push(b / 16);
            out.push(b % 16);
            i += 1;
        }
        let r = TrieNodeKey { nibbles: out };
        proof {
            assert(r@ =~= nibbles_of(bytes@));
        }
        r
    }

    /// The byte form of the path: nibbles paired two per byte, any trailing
    /// unpaired nibble dropped.
    pub fn to_bytes_truncate(&self) -> (r: Vec<u8>)
        requires
            self.wf(),
        ensures
            r@ == bytes_trunc(self@),
    {
        let n = self.nibbles.len();
        let half = n / 2;
        let mut out: Vec<u8> = Vec::new();
        let mut i: usize = 0;
        while i < half
            invariant
                n == self@.len(),
                half == n / 2,
                i <= half,
                self.wf(),
                out@.len() == i,
                forall|j: int| 0 <= j < out@.len() ==> out@[j] == bytes_trunc(self@)[j],
            decreases half - i,
        {
            let hi = self.nibbles[2 * i];
            let lo = self.nibbles[2 * i + 1];
            assert(hi < 16 && lo < 16);
            out.push(hi * 16 + lo);
            i += 1;
        }
        proof {
            assert(out@ =~= bytes_trunc(self@));
        }
        out
    }

    /// Whether this path lies on the path to storage key `key`, or is the
    /// position of `key` itself.
    pub fn is_ancestor_or_equal(&self, key: &[u8]) -> (r: bool)
        requires
            self.wf(),
        ensures
            r == descends(self@, key@),
    {
        let l = self.nibbles.len();
        let need = l / 2 + l % 2;
        if need > key.len() {
            proof {
                assert(l > 2 * key@.len());
                assert(!descends(self@, key@));
            }
            return false;
        }
        proof {
            assert(l <= 2 * key@.len());
        }
        let mut i: usize = 0;
        while i < l
            invariant
                l == self@.len(),
                i <= l,
                l <= 2 * key@.len(),
                forall|j: int| 0 <= j < i ==> self@[j] == nibbles_of(key@)[j],
            decreases l - i,
        {
            let b = key[i / 2];
            let nib = if i % 2 == 0 {
                b / 16
            } else {
                b % 16
            };
            if self.nibbles[i] != nib {
                proof {
                    assert(nib == nibbles_of(key@)[i as int]);
                    assert(descends(self@, key@) ==> self@[i as int] == nibbles_of(key@)[i as int])
                        by {
                        if descends(self@, key@) {
                            assert(self@ =~= nibbles_of(key@).subrange(0, l as int));
                        }
                    }
                }
                return false;
            }
            i += 1;
        }
        proof {
            assert(self@ =~= nibbles_of(key@).subrange(0, l as int));
        }
        true
    }
}

} // verus!
