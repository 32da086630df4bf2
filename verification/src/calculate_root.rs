//! The node encoder, the recursive hasher, and the memoization cache: from a
//! storage snapshot to the 32-byte root commitment.

use vstd::prelude::*;
use crate::codec::{framed, scale_encode};
use crate::hashing::{blake2b256, blake2b_256};
use crate::nibbles::{bytes_trunc, descends, nibbles_of, nibbles_wf, TrieNodeKey};
use crate::shape::{child_key, child_nodes, common_pref, common_prefix, is_lcp, lcp_of,
    lemma_lcp_props, lemma_lcp_unique, list_common_pref, occupied_at, root_key};
use crate::storage::{bytes_eq, copy_bytes, Storage};

verus! {

/// Two to the power `n`.
pub open spec fn two_pow(n: nat) -> nat
    decreases n,
{
    if n == 0 {
        1nat
    } else {
        2 * two_pow((n - 1) as nat)
    }
}

/// Child slot `i` of the node at `k` is occupied: some storage key lies
/// below `k ++ [i]`.
pub open spec fn slot_occupied(m: Map<Seq<u8>, Seq<u8>>, k: Seq<u8>, i: u8) -> bool {
    occupied_at(m, k.push(i))
}

/// The child bitmap of the node at `k`, restricted to slots below `n`:
/// bit `i` is set exactly when slot `i` is occupied.
pub open spec fn bitmap_nat(m: Map<Seq<u8>, Seq<u8>>, k: Seq<u8>, n: nat) -> nat
    decreases n,
{
    if n == 0 {
        0nat
    } else {
        bitmap_nat(m, k, (n - 1) as nat) + if slot_occupied(m, k, ((n - 1) as nat) as u8) {
            two_pow((n - 1) as nat)
        } else {
            0nat
        }
    }
}

proof fn lemma_bitmap_bound(m: Map<Seq<u8>, Seq<u8>>, k: Seq<u8>, n: nat)
    ensures
        bitmap_nat(m, k, n) < two_pow(n),
    decreases n,
{
    if n > 0 {
        lemma_bitmap_bound(m, k, (n - 1) as nat);
    }
}

proof fn lemma_two_pow_16()
    ensures
        two_pow(16) == 65536,
        two_pow(15) == 32768,
{
    reveal_with_fuel(two_pow, 17);
}

proof fn lemma_two_pow_le(a: nat, b: nat)
    requires
        a <= b,
    ensures
        two_pow(a) <= two_pow(b),
    decreases b,
{
    if a < b {
        lemma_two_pow_le(a, (b - 1) as nat);
    }
}

/// The trailing bytes of a header whose partial-key length reaches 63: as
/// many 255s as fit, then the remainder.
pub open spec fn len_tail(r: nat) -> Seq<u8>
    decreases r,
{
    if r > 255 {
        seq![255u8] + len_tail((r - 255) as nat)
    } else {
        seq![r as u8]
    }
}

/// The two-bit node type: value presence in bit 0, child presence in bit 1.
pub open spec fn node_type_bits(has_value: bool, has_children: bool) -> u8 {
    if has_value && has_children {
        3
    } else if has_value {
        1
    } else if has_children {
        2
    } else {
        0
    }
}

/// The header of a node encoding: node type in the two most significant
/// bits, the partial-key nibble length in the rest.
pub open spec fn header_bytes(t: u8, l: nat) -> Seq<u8> {
    if l < 63 {
        seq![((t as nat) * 64 + l) as u8]
    } else {
        seq![((t as nat) * 64 + 63) as u8] + len_tail((l - 63) as nat)
    }
}

/// The hex encoding of a partial key: nibbles paired two per byte; an odd
/// length puts the lone first nibble in the low half of its own byte.
pub open spec fn hex_encode(pk: Seq<u8>) -> Seq<u8> {
    if pk.len() % 2 == 0 {
        bytes_trunc(pk)
    } else {
        seq![pk[0]] + bytes_trunc(pk.skip(1))
    }
}

/// The stored value of the node at `k`: present exactly when `k` has even
/// length and its byte form is a storage key.
pub open spec fn stored_value_at(m: Map<Seq<u8>, Seq<u8>>, k: Seq<u8>) -> Option<Seq<u8>> {
    if k.len() % 2 == 0 && m.dom().contains(bytes_trunc(k)) {
        Some(m[bytes_trunc(k)])
    } else {
        None
    }
}

pub open spec fn framed_value(v: Option<Seq<u8>>) -> Seq<u8> {
    match v {
        Some(v) => framed(v),
        None => Seq::empty(),
    }
}

/// The Merkle value of a non-root node encoding: hashed when 32 bytes or
/// longer, inlined verbatim otherwise.
pub open spec fn merkle_of(nv: Seq<u8>) -> Seq<u8> {
    if nv.len() >= 32 {
        blake2b256(nv)
    } else {
        nv
    }
}

/// The canonical encoding of the node at absolute key `k` with partial key
/// `pk`: header, hex-encoded partial key, then the subvalue. `fuel` bounds
/// the recursion depth; any value past the deepest storage key gives the
/// same result.
pub open spec fn spec_node_value(m: Map<Seq<u8>, Seq<u8>>, k: Seq<u8>, pk: Seq<u8>, fuel: nat) -> Seq<
    u8,
>
    decreases fuel, 1int, 0int,
{
    let stored = stored_value_at(m, k);
    let bm = bitmap_nat(m, k, 16);
    let header = header_bytes(node_type_bits(stored.is_some(), bm != 0), pk.len());
    let sub = if bm == 0 {
        framed_value(stored)
    } else {
        seq![(bm % 256) as u8, ((bm / 256) % 256) as u8] + spec_children(m, k, 0, fuel)
            + framed_value(stored)
    };
    header + hex_encode(pk) + sub
}

/// The concatenation, in ascending slot order from `i` up, of the framed
/// Merkle values of the children of the node at `k`.
pub open spec fn spec_children(m: Map<Seq<u8>, Seq<u8>>, k: Seq<u8>, i: int, fuel: nat) -> Seq<u8>
    decreases fuel, 0int, 16 - i,
{
    if i < 0 || i >= 16 {
        Seq::empty()
    } else if slot_occupied(m, k, i as u8) {
        (if fuel == 0 {
            Seq::empty()
        } else {
            framed(spec_child_merkle(m, k, i as u8, (fuel - 1) as nat))
        }) + spec_children(m, k, i + 1, fuel)
    } else {
        spec_children(m, k, i + 1, fuel)
    }
}

/// The Merkle value of the child of the node at `k` in slot `i`.
pub open spec fn spec_child_merkle(m: Map<Seq<u8>, Seq<u8>>, k: Seq<u8>, i: u8, fuel: nat) -> Seq<
    u8,
>
    decreases fuel, 2int, 0int,
{
    let c = child_key(m, k, i);
    merkle_of(spec_node_value(m, c, c.skip(k.len() + 1int), fuel))
}

/// `fuel` exceeds the number of nibbles any storage key extends below the
/// node at `k`: enough for the recursion from that node to bottom out.
pub open spec fn sufficient_fuel(m: Map<Seq<u8>, Seq<u8>>, k: Seq<u8>, fuel: nat) -> bool {
    forall|kb: Seq<u8>| #[trigger] m.dom().contains(kb) ==> nibbles_of(kb).len() < fuel + k.len()
}

/// Every stored value fits the length-prefix codec.
pub open spec fn values_ok(m: Map<Seq<u8>, Seq<u8>>) -> bool {
    forall|kb: Seq<u8>| #[trigger] m.dom().contains(kb) ==> m[kb].len() <= 0xFFFF_FFFF
}

/// The root commitment of the storage mapping `m`: the BLAKE2b-256 digest
/// of the root node's encoding. A function of the mapping alone.
pub open spec fn spec_root(m: Map<Seq<u8>, Seq<u8>>) -> Seq<u8> {
    let rk = root_key(m);
    let f = choose|f: nat| sufficient_fuel(m, rk, f);
    blake2b256(spec_node_value(m, rk, rk, f))
}

/// The order in which distinct keys are bound in the storage does not
/// affect the root commitment.
pub proof fn lemma_root_insert_order(
    m: Map<Seq<u8>, Seq<u8>>,
    k1: Seq<u8>,
    v1: Seq<u8>,
    k2: Seq<u8>,
    v2: Seq<u8>,
)
    requires
        k1 != k2,
    ensures
        spec_root(m.insert(k1, v1).insert(k2, v2)) == spec_root(m.insert(k2, v2).insert(k1, v1)),
{
    assert(m.insert(k1, v1).insert(k2, v2) =~= m.insert(k2, v2).insert(k1, v1));
}

proof fn lemma_bitmap_all_empty(m: Map<Seq<u8>, Seq<u8>>, k: Seq<u8>, n: nat)
    requires
        forall|i: u8| !(#[trigger] slot_occupied(m, k, i)),
    ensures
        bitmap_nat(m, k, n) == 0,
    decreases n,
{
    if n > 0 {
        lemma_bitmap_all_empty(m, k, (n - 1) as nat);
    }
}

/// The root commitment of the empty storage is the digest of the single
/// byte 0: the header of the empty-root node, with no partial key and no
/// subvalue.
pub proof fn lemma_empty_storage_root()
    ensures
        spec_root(Map::<Seq<u8>, Seq<u8>>::empty()) == blake2b256(seq![0u8]),
{
    let m = Map::<Seq<u8>, Seq<u8>>::empty();
    assert(!occupied_at(m, Seq::empty())) by {
        if occupied_at(m, Seq::empty()) {
            let kb = choose|kb: Seq<u8>|
                #[trigger] m.dom().contains(kb) && descends(Seq::empty(), kb);
            assert(m.dom().contains(kb));
        }
    }
    assert(root_key(m) == Seq::<u8>::empty());
    let f = choose|f: nat| sufficient_fuel(m, Seq::empty(), f);
    assert forall|i: u8| !(#[trigger] slot_occupied(m, Seq::empty(), i)) by {
        if slot_occupied(m, Seq::empty(), i) {
            let kb = choose|kb: Seq<u8>|
                #[trigger] m.dom().contains(kb) && descends(Seq::empty().push(i), kb);
            assert(m.dom().contains(kb));
        }
    }
    lemma_bitmap_all_empty(m, Seq::empty(), 16);
    assert(stored_value_at(m, Seq::empty()) is None);
    assert(header_bytes(0, 0) =~= seq![0u8]);
    assert(hex_encode(Seq::empty()) =~= Seq::<u8>::empty());
    assert(spec_node_value(m, Seq::empty(), Seq::empty(), f) =~= seq![0u8]);
}

/// How to access the trie: the storage snapshot the root is computed over.
pub struct Config<'a> {
    /// The key/value snapshot; it is not modified by the computation.
    pub storage: &'a Storage,
}

struct CacheEntry {
    key: TrieNodeKey,
    pk_len: usize,
    value: Vec<u8>,
}

/// Cache of intermediate node encodings, keyed by absolute node key.
///
/// After any change to the storage the appropriate invalidation method must
/// be called; a stale cache yields an incorrect root.
pub struct CalculationCache {
    entries: Vec<CacheEntry>,
}

spec fn entry_ok(m: Map<Seq<u8>, Seq<u8>>, e: CacheEntry) -> bool {
    &&& nibbles_wf(e.key@)
    &&& e.pk_len <= e.key@.len()
    &&& forall|f: nat|
        #[trigger] sufficient_fuel(m, e.key@, f) ==> e.value@ == spec_node_value(
            m,
            e.key@,
            e.key@.skip(e.key@.len() - e.pk_len),
            f,
        )
}

impl CalculationCache {
    /// Every entry records the true encoding of its node under storage `m`.
    pub closed spec fn valid_for(&self, m: Map<Seq<u8>, Seq<u8>>) -> bool {
        forall|j: int| 0 <= j < self.entries@.len() ==> entry_ok(m, #[trigger] self.entries@[j])
    }

    /// Builds a new empty cache, valid for any storage.
    pub fn empty() -> (c: CalculationCache)
        ensures
            forall|m: Map<Seq<u8>, Seq<u8>>| #[trigger] c.valid_for(m),
    {
        CalculationCache { entries: Vec::new() }
    }

    /// Notify the cache that the value at the given key has been modified,
    /// inserted or removed. Every entry that could depend on it is dropped.
    #[allow(unused_variables)]
    pub fn invalidate_node(&mut self, key: &[u8])
        ensures
            forall|m: Map<Seq<u8>, Seq<u8>>| #[trigger] final(self).valid_for(m),
    {
        self.invalidate_prefix(key);
    }

    /// Notify the cache that the set of keys starting with the given prefix
    /// has changed. Every entry that could depend on them is dropped.
    #[allow(unused_variables)]
    pub fn invalidate_prefix(&mut self, prefix: &[u8])
        ensures
            forall|m: Map<Seq<u8>, Seq<u8>>| #[trigger] final(self).valid_for(m),
    {
        self.entries = Vec::new();
    }
}

impl Default for CalculationCache {
    /// An empty cache.
    fn default() -> (c: Self)
        ensures
            forall|m: Map<Seq<u8>, Seq<u8>>| #[trigger] c.valid_for(m),
    {
        CalculationCache::empty()
    }
}

fn cache_lookup(
    cache: &CalculationCache,
    key: &TrieNodeKey,
    pk_len: usize,
    Ghost(m): Ghost<Map<Seq<u8>, Seq<u8>>>,
) -> (r: Option<Vec<u8>>)
    requires
        cache.valid_for(m),
    ensures
        match r {
            Some(v) => forall|f: nat|
                #[trigger] sufficient_fuel(m, key@, f) ==> v@ == spec_node_value(
                    m,
                    key@,
                    key@.skip(key@.len() - pk_len),
                    f,
                ),
            None => true,
        },
{
    let n = cache.entries.len();
    let mut j: usize = 0;
    while j < n
        invariant
            n == cache.entries@.len(),
            j <= n,
            cache.valid_for(m),
        decreases n - j,
    {
        let e = &cache.entries[j];
        if e.pk_len == pk_len && bytes_eq(e.key.nibbles.as_slice(), key.nibbles.as_slice()) {
            proof {
                assert(entry_ok(m, cache.entries@[j as int]));
                assert(cache.entries@[j as int].key@ == key@);
            }
            return Some(copy_bytes(e.value.as_slice()));
        }
        j += 1;
    }
    None
}

/// Appends `src` to `dst`.
fn append_bytes(dst: &mut Vec<u8>, src: &[u8])
    ensures
        final(dst)@ == old(dst)@ + src@,
{
    let n = src.len();
    let mut i: usize = 0;
    proof {
        assert(old(dst)@ + src@.subrange(0, 0) =~= old(dst)@);
    }
    while i < n
        invariant
            n == src@.len(),
            i <= n,
            dst@ == old(dst)@ + src@.subrange(0, i as int),
        decreases n - i,
    {
        dst.push(src[i]);
        proof {
            assert(old(dst)@ + src@.subrange(0, (i + 1) as int) =~= (old(dst)@ + src@.subrange(
                0,
                i as int,
            )).push(src@[i as int]));
        }
        i += 1;
    }
    proof {
        assert(src@.subrange(0, n as int) =~= src@);
    }
}

/// The hex encoding of a partial key, as exec bytes.
fn hex_encode_partial(pk: &TrieNodeKey) -> (r: Vec<u8>)
    requires
        pk.wf(),
    ensures
        r@ == hex_encode(pk@),
{
    let n = pk.nibbles.len();
    if n % 2 == 0 {
        let r = pk.to_bytes_truncate();
        proof {
            assert(r@ == hex_encode(pk@));
        }
        r
    } else {
        let mut out: Vec<u8> = Vec::new();
        out.push(pk.nibbles[0]);
        let half = (n - 1) / 2;
        let ghost tail = bytes_trunc(pk@.skip(1));
        let mut i: usize = 0;
        while i < half
            invariant
                n == pk@.len(),
                n % 2 == 1,
                half == (n - 1) / 2,
                i <= half,
                pk.wf(),
                tail == bytes_trunc(pk@.skip(1)),
                out@.len() == i + 1,
                out@[0] == pk@[0],
                forall|jj: int| 0 <= jj < i ==> out@[jj + 1] == tail[jj],
            decreases half - i,
        {
            let hi = pk.nibbles[2 * i + 1];
            let lo = pk.nibbles[2 * i + 2];
            assert(hi < 16 && lo < 16);
            out.push(hi * 16 + lo);
            proof {
                assert(pk@.skip(1)[2 * i as int] == pk@[2 * i + 1]);
                assert(pk@.skip(1)[2 * i + 1] == pk@[2 * i + 2]);
                assert(out@[i as int + 1] == tail[i as int]);
            }
            i += 1;
        }
        proof {
            assert(out@ =~= seq![pk@[0]] + tail);
        }
        out
    }
}

spec fn abs_key(parent: Seq<u8>, ci: Option<u8>, pk: Seq<u8>) -> Seq<u8> {
    (match ci {
        Some(i) => parent.push(i),
        None => parent,
    }) + pk
}

spec fn ci_ok(ci: Option<u8>) -> bool {
    match ci {
        Some(i) => i < 16,
        None => true,
    }
}

proof fn lemma_children_skip(m: Map<Seq<u8>, Seq<u8>>, k: Seq<u8>, a: int, b: int, fuel: nat)
    requires
        0 <= a <= b <= 16,
        forall|i: u8| a <= (i as int) && (i as int) < b ==> !(#[trigger] slot_occupied(m, k, i)),
    ensures
        spec_children(m, k, a, fuel) == spec_children(m, k, b, fuel),
    decreases b - a,
{
    if a < b {
        assert(!slot_occupied(m, k, a as u8));
        lemma_children_skip(m, k, a + 1, b, fuel);
    }
}

/// The concatenation of `parent_key`, `child_index` and `partial_key`: the
/// absolute key of the node they address.
#[verifier::loop_isolation(false)]
fn concat_key(parent_key: &TrieNodeKey, child_index: Option<u8>, partial_key: &TrieNodeKey) -> (r:
    TrieNodeKey)
    requires
        parent_key.wf(),
        partial_key.wf(),
        ci_ok(child_index),
    ensures
        r@ == abs_key(parent_key@, child_index, partial_key@),
        r.wf(),
{
    let mut cvec: Vec<u8> = copy_bytes(parent_key.nibbles.as_slice());
    if let Some(i) = child_index {
        cvec.push(i);
    }
    let ghost base = cvec@;
    let pl = partial_key.nibbles.len();
    let mut t: usize = 0;
    proof {
        assert(base + partial_key@.subrange(0, 0) =~= base);
    }
    while t < pl
        invariant
            t <= pl,
            cvec@ == base + partial_key@.subrange(0, t as int),
        decreases pl - t,
    {
        cvec.push(partial_key.nibbles[t]);
        proof {
            assert(base + partial_key@.subrange(0, (t + 1) as int) =~= (base + partial_key
                @.subrange(0, t as int)).push(partial_key@[t as int]));
        }
        t += 1;
    }
    let combined = TrieNodeKey { nibbles: cvec };
    proof {
        assert(partial_key@.subrange(0, pl as int) =~= partial_key@);
        assert(combined@ == abs_key(parent_key@, child_index, partial_key@));
        assert forall|x: int| 0 <= x < combined@.len() implies combined@[x] < 16 by {
            if x < base.len() {
                match child_index {
                    Some(i) => {
                        if x < parent_key@.len() {
                            assert(base[x] == parent_key@[x]);
                        } else {
                            assert(base[x] == i);
                        }
                    },
                    None => {
                        assert(base[x] == parent_key@[x]);
                    },
                }
            } else {
                assert(combined@[x] == partial_key@[x - base.len()]);
            }
        }
    }
    combined
}

/// The child occupancy bitmap of the node at `k`, read off its child list.
#[verifier::loop_isolation(false)]
fn build_bitmap(
    children: &Vec<TrieNodeKey>,
    klen: usize,
    Ghost(m): Ghost<Map<Seq<u8>, Seq<u8>>>,
    Ghost(k): Ghost<Seq<u8>>,
) -> (bitmap: u32)
    requires
        klen == k.len(),
        forall|j: int|
            0 <= j < children@.len() ==> (#[trigger] children@[j])@.len() > k.len() && children@[j]@[
                k.len() as int
            ] < 16 && occupied_at(m, k.push(children@[j]@[k.len() as int])),
        forall|i: u8|
            i < 16 && occupied_at(m, k.push(i)) ==> exists|j: int|
                0 <= j < children@.len() && children@[j]@.len() > k.len() && children@[j]@[
                    k.len() as int
                ] == i,
        forall|j1: int, j2: int|
            0 <= j1 < j2 < children@.len() ==> children@[j1]@[k.len() as int] < children@[j2]@[
                k.len() as int
            ],
    ensures
        bitmap as nat == bitmap_nat(m, k, 16),
        bitmap < 65536,
{
    let cn = children.len();
    let mut bitmap: u32 = 0;
    let mut bit: u32 = 1;
    let mut ji: usize = 0;
    let mut i: u8 = 0;
    while i < 16
        invariant
            i <= 16,
            ji <= cn,
            bit as nat == two_pow(i as nat),
            bitmap as nat == bitmap_nat(m, k, i as nat),
            forall|jj: int| 0 <= jj < ji ==> children@[jj]@[k.len() as int] < i,
            forall|jj: int| ji <= jj < cn ==> children@[jj]@[k.len() as int] >= i,
        decreases 16 - i,
    {
        proof {
            lemma_bitmap_bound(m, k, i as nat);
            lemma_two_pow_16();
            lemma_two_pow_le(i as nat, 15);
            assert(bitmap < 32768 && bit <= 32768);
        }
        if ji < cn {
            let s = children[ji].nibbles[klen];
            if s == i {
                bitmap = bitmap + bit;
                ji += 1;
                proof {
                    assert(slot_occupied(m, k, i));
                    assert forall|jj: int| ji <= jj < cn implies children@[jj]@[k.len() as int] >= i
                        + 1 by {
                        if jj > ji - 1 {
                            assert(children@[ji - 1]@[k.len() as int] < children@[jj]@[
                                k.len() as int
                            ]);
                        }
                    }
                }
            } else {
                proof {
                    assert(s > i);
                    assert(!slot_occupied(m, k, i)) by {
                        if slot_occupied(m, k, i) {
                            let jj = choose|jj: int|
                                0 <= jj < cn && children@[jj]@.len() > k.len() && children@[jj]@[
                                    k.len() as int
                                ] == i;
                            if jj < ji {
                                assert(children@[jj]@[k.len() as int] < i);
                            } else if jj == ji {
                                assert(children@[jj]@[k.len() as int] == s);
                            } else {
                                assert(children@[ji as int]@[k.len() as int] < children@[jj]@[
                                    k.len() as int
                                ]);
                            }
                        }
                    }
                }
            }
        } else {
            proof {
                assert(!slot_occupied(m, k, i)) by {
                    if slot_occupied(m, k, i) {
                        let jj = choose|jj: int|
                            0 <= jj < cn && children@[jj]@.len() > k.len() && children@[jj]@[
                                k.len() as int
                            ] == i;
                        assert(children@[jj]@[k.len() as int] < i);
                    }
                }
            }
        }
        bit = bit * 2;
        i += 1;
    }
    proof {
        lemma_bitmap_bound(m, k, 16);
        lemma_two_pow_16();
    }
    bitmap
}

/// The header of a node encoding, as exec bytes.
#[verifier::loop_isolation(false)]
fn encode_header(tbits: u8, pk_len: usize) -> (r: Vec<u8>)
    requires
        tbits <= 3,
    ensures
        r@ == header_bytes(tbits, pk_len as nat),
{
    let mut out: Vec<u8> = Vec::new();
    if pk_len < 63 {
        out.push(tbits * 64 + (pk_len as u8));
        proof {
            assert(out@ =~= header_bytes(tbits, pk_len as nat));
        }
    } else {
        out.push(tbits * 64 + 63);
        let ghost first = out@;
        let mut rem: usize = pk_len - 63;
        proof {
            assert(len_tail((pk_len - 63) as nat) =~= out@.skip(1) + len_tail(rem as nat));
        }
        while rem > 255
            invariant
                out@.len() >= 1,
                out@[0] == first[0],
                first.len() == 1,
                len_tail((pk_len - 63) as nat) == out@.skip(1) + len_tail(rem as nat),
            decreases rem,
        {
            let ghost out_old = out@;
            out.push(255);
            rem -= 255;
            proof {
                assert(out@.skip(1) =~= out_old.skip(1) + seq![255u8]);
                assert(len_tail(((rem + 255) as usize) as nat) == seq![255u8] + len_tail(
                    rem as nat,
                ));
                assert(out_old.skip(1) + (seq![255u8] + len_tail(rem as nat)) =~= (out_old.skip(1)
                    + seq![255u8]) + len_tail(rem as nat));
            }
        }
        let ghost out_old = out@;
        out.push(rem as u8);
        proof {
            assert(len_tail(rem as nat) == seq![rem as u8]);
            assert(out@ =~= out_old + seq![rem as u8]);
            assert(out@.skip(1) =~= out_old.skip(1) + seq![rem as u8]);
            assert(out@ =~= seq![first[0]] + out@.skip(1));
            assert(out@ =~= header_bytes(tbits, pk_len as nat));
        }
    }
    out
}

/// The nibbles of `child` from position `from` on, as a node key.
#[verifier::loop_isolation(false)]
fn suffix_key(child: &TrieNodeKey, from: usize) -> (r: TrieNodeKey)
    requires
        child.wf(),
        from <= child@.len(),
    ensures
        r@ == child@.skip(from as int),
        r.wf(),
{
    let clen = child.nibbles.len();
    let mut cpk: Vec<u8> = Vec::new();
    let mut q: usize = from;
    proof {
        assert(child@.subrange(from as int, from as int) =~= cpk@);
    }
    while q < clen
        invariant
            from <= q <= clen,
            cpk@ == child@.subrange(from as int, q as int),
        decreases clen - q,
    {
        cpk.push(child.nibbles[q]);
        proof {
            assert(child@.subrange(from as int, (q + 1) as int) =~= child@.subrange(
                from as int,
                q as int,
            ).push(child@[q as int]));
        }
        q += 1;
    }
    let r = TrieNodeKey { nibbles: cpk };
    proof {
        assert(r@ =~= child@.skip(from as int));
        assert forall|x: int| 0 <= x < r@.len() implies r@[x] < 16 by {
            assert(r@[x] == child@[x + from]);
        }
    }
    r
}

/// One step of the children walk: slots between `ns` and the occupied slot
/// `s` are empty, so the concatenation from `ns` starts with the framed
/// Merkle value of the child in slot `s`.
proof fn lemma_children_step(
    m: Map<Seq<u8>, Seq<u8>>,
    k: Seq<u8>,
    ns: int,
    s: u8,
    cval: Seq<u8>,
    f: nat,
)
    requires
        0 <= ns,
        ns <= s as int,
        s < 16,
        forall|i: u8|
            ns <= (i as int) && (i as int) < s as int ==> !(#[trigger] slot_occupied(m, k, i)),
        slot_occupied(m, k, s),
        f >= 1,
        cval == spec_child_merkle(m, k, s, (f - 1) as nat),
    ensures
        spec_children(m, k, ns, f) == framed(cval) + spec_children(m, k, s as int + 1, f),
{
    lemma_children_skip(m, k, ns, s as int, f);
    assert(spec_children(m, k, s as int, f) == framed(cval) + spec_children(m, k, s as int + 1, f));
}

/// Calculates the node value of the node whose absolute key is the
/// concatenation of `parent_key`, `child_index`, and `partial_key`.
#[verifier::loop_isolation(false)]
#[verifier::rlimit(100)]
fn node_value(
    storage: &Storage,
    cache: &mut CalculationCache,
    parent_key: &TrieNodeKey,
    child_index: Option<u8>,
    partial_key: &TrieNodeKey,
    Ghost(fuel): Ghost<nat>,
) -> (r: Vec<u8>)
    requires
        parent_key.wf(),
        partial_key.wf(),
        ci_ok(child_index),
        old(cache).valid_for(storage@),
        values_ok(storage@),
        sufficient_fuel(storage@, abs_key(parent_key@, child_index, partial_key@), fuel),
    ensures
        final(cache).valid_for(storage@),
        forall|f: nat|
            #[trigger] sufficient_fuel(storage@, abs_key(parent_key@, child_index, partial_key@), f)
                ==> r@ == spec_node_value(
                storage@,
                abs_key(parent_key@, child_index, partial_key@),
                partial_key@,
                f,
            ),
    decreases fuel, 1int,
{
    let ghost m = storage@;
    let ghost k = abs_key(parent_key@, child_index, partial_key@);

    let combined = concat_key(parent_key, child_index, partial_key);
    proof {
        assert(partial_key@.len() <= combined@.len());
    }

    // Consult the cache.
    let cached = cache_lookup(cache, &combined, partial_key.nibbles.len(), Ghost(m));
    if let Some(v) = cached {
        proof {
            assert(k.skip(k.len() - partial_key@.len()) =~= partial_key@);
        }
        return v;
    }

    // Hex-encode the partial key.
    let hexed = hex_encode_partial(partial_key);

    // Load the stored value of this node.
    let stored: Option<Vec<u8>> = if combined.nibbles.len() % 2 == 0 {
        let tb = combined.to_bytes_truncate();
        storage.get_value(tb.as_slice())
    } else {
        None
    };
    proof {
        match stored {
            Some(ref v) => {
                assert(stored_value_at(m, k) == Some(v@));
                assert(v@.len() <= 0xFFFF_FFFF);
            },
            None => {
                assert(stored_value_at(m, k) is None);
            },
        }
    }
    let ghost sv = stored_value_at(m, k);

    // Enumerate the children and build the occupancy bitmap.
    let children = child_nodes(storage, &combined);
    let cn = children.len();
    let klen = combined.nibbles.len();
    let bitmap = build_bitmap(&children, klen, Ghost(m), Ghost(k));
    let ghost bm = bitmap_nat(m, k, 16);

    // The header: node type in the two most significant bits, then the
    // partial-key length.
    let has_v = stored.is_some();
    let has_c = bitmap != 0;
    let tbits: u8 = if has_v && has_c {
        3
    } else if has_v {
        1
    } else if has_c {
        2
    } else {
        0
    };
    proof {
        assert(tbits == node_type_bits(sv.is_some(), bm != 0));
    }
    let pk_len = partial_key.nibbles.len();
    let mut out: Vec<u8> = encode_header(tbits, pk_len);
    let ghost header = header_bytes(tbits, pk_len as nat);

    // Header, then the hex-encoded partial key.
    append_bytes(&mut out, hexed.as_slice());
    let ghost head_hex = header + hex_encode(partial_key@);
    proof {
        assert(out@ == head_hex);
    }

    // The subvalue.
    if bitmap == 0 {
        if let Some(v) = stored {
            let enc = scale_encode(&v);
            append_bytes(&mut out, enc.as_slice());
        }
        proof {
            assert(out@ == head_hex + framed_value(sv));
        }
    } else {
        out.push((bitmap % 256) as u8);
        out.push(((bitmap / 256) % 256) as u8);
        let ghost fixed = out@;
        proof {
            assert(fixed =~= head_hex + seq![(bm % 256) as u8, ((bm / 256) % 256) as u8]);
        }
        let mut j: usize = 0;
        let ghost mut ns: int = 0;
        while j < cn
            invariant
                j <= cn,
                0 <= ns <= 16,
                cache.valid_for(m),
                forall|jj: int| 0 <= jj < j ==> children@[jj]@[k.len() as int] < ns,
                forall|jj: int| j <= jj < cn ==> children@[jj]@[k.len() as int] >= ns,
                forall|f: nat|
                    #[trigger] sufficient_fuel(m, k, f) ==> fixed + spec_children(m, k, 0, f)
                        == out@ + spec_children(m, k, ns, f),
            decreases cn - j,
        {
            let child = &children[j];
            let s = child.nibbles[klen];
            let cpk_key = suffix_key(child, klen + 1);
            proof {
                assert(abs_key(combined@, Some(s), cpk_key@) =~= child@) by {
                    assert(k.push(s).is_prefix_of(child@));
                    assert(k.push(s) =~= child@.subrange(0, k.len() + 1int));
                }
                // Some storage key extends past this child's slot, so fuel
                // cannot be exhausted here.
                let kb = choose|kb: Seq<u8>|
                    #[trigger] m.dom().contains(kb) && descends(k.push(s), kb);
                assert(nibbles_of(kb).len() >= k.len() + 1);
                assert(fuel >= 2);
                assert(sufficient_fuel(m, child@, (fuel - 1) as nat));
            }
            let cval = merkle_value(
                storage,
                cache,
                &combined,
                Some(s),
                &cpk_key,
                Ghost((fuel - 1) as nat),
            );
            let enc = scale_encode(&cval);
            let ghost out_old = out@;
            append_bytes(&mut out, enc.as_slice());
            proof {
                assert forall|f: nat| #[trigger] sufficient_fuel(m, k, f) implies fixed
                    + spec_children(m, k, 0, f) == out@ + spec_children(m, k, s as int + 1, f) by {
                    let kb = choose|kb: Seq<u8>|
                        #[trigger] m.dom().contains(kb) && descends(k.push(s), kb);
                    assert(nibbles_of(kb).len() >= k.len() + 1);
                    assert(f >= 2);
                    assert(sufficient_fuel(m, child@, (f - 1) as nat));
                    assert(cval@ == merkle_of(
                        spec_node_value(m, child@, cpk_key@, (f - 1) as nat),
                    ));
                    assert(child@ == child_key(m, k, s));
                    assert(cval@ == spec_child_merkle(m, k, s, (f - 1) as nat));
                    lemma_children_step(m, k, ns, s, cval@, f);
                    assert(out_old + (framed(cval@) + spec_children(m, k, s as int + 1, f)) =~= (
                    out_old + framed(cval@)) + spec_children(m, k, s as int + 1, f));
                }
                ns = s as int + 1;
                assert forall|jj: int| j + 1 <= jj < cn implies children@[jj]@[k.len() as int]
                    >= ns by {
                    if jj > j {
                        assert(children@[j as int]@[k.len() as int] < children@[jj]@[
                            k.len() as int
                        ]);
                    }
                }
            }
            j += 1;
        }
        proof {
            assert forall|f: nat| #[trigger] sufficient_fuel(m, k, f) implies fixed
                + spec_children(m, k, 0, f) == out@ by {
                assert forall|ii: u8| ns <= (ii as int) && (ii as int) < 16 implies !(
                #[trigger] slot_occupied(m, k, ii)) by {
                    if slot_occupied(m, k, ii) {
                        let jj = choose|jj: int|
                            0 <= jj < cn && children@[jj]@.len() > k.len() && children@[jj]@[
                                k.len() as int
                            ] == ii;
                        assert(children@[jj]@[k.len() as int] < ns);
                    }
                }
                lemma_children_skip(m, k, ns, 16, f);
                assert(spec_children(m, k, 16, f) == Seq::<u8>::empty());
                assert(out@ + Seq::<u8>::empty() =~= out@);
            }
        }
        if let Some(v) = stored {
            let enc = scale_encode(&v);
            append_bytes(&mut out, enc.as_slice());
        }
        proof {
            assert forall|f: nat| #[trigger] sufficient_fuel(m, k, f) implies out@ == head_hex + (
            seq![(bm % 256) as u8, ((bm / 256) % 256) as u8] + spec_children(m, k, 0, f)
                + framed_value(sv)) by {
                assert(fixed + spec_children(m, k, 0, f) + framed_value(sv) =~= head_hex + (seq![
                    (bm % 256) as u8,
                    ((bm / 256) % 256) as u8,
                ] + spec_children(m, k, 0, f) + framed_value(sv)));
            }
        }
    }

    // Every path above leaves `out` equal to the node's canonical encoding.
    proof {
        assert forall|f: nat| #[trigger] sufficient_fuel(m, k, f) implies out@ == spec_node_value(
            m,
            k,
            partial_key@,
            f,
        ) by {
            assert(head_hex + framed_value(sv) =~= header + (hex_encode(partial_key@)
                + framed_value(sv)));
            if bm != 0 {
                assert(head_hex + (seq![(bm % 256) as u8, ((bm / 256) % 256) as u8]
                    + spec_children(m, k, 0, f) + framed_value(sv)) =~= header + (hex_encode(
                    partial_key@,
                ) + (seq![(bm % 256) as u8, ((bm / 256) % 256) as u8] + spec_children(m, k, 0, f)
                    + framed_value(sv))));
            }
        }
    }

    // Remember the encoding for next time.
    let ghost pre_entries = cache.entries@;
    let val_copy = copy_bytes(out.as_slice());
    let pk_len2 = partial_key.nibbles.len();
    cache.entries.push(CacheEntry { key: combined, pk_len: pk_len2, value: val_copy });
    proof {
        assert forall|jj: int| 0 <= jj < cache.entries@.len() implies entry_ok(
            m,
            #[trigger] cache.entries@[jj],
        ) by {
            if jj < pre_entries.len() {
                assert(cache.entries@[jj] == pre_entries[jj]);
                assert(entry_ok(m, pre_entries[jj]));
            } else {
                assert(k.skip(k.len() - pk_len2) =~= partial_key@);
            }
        }
    }
    out
}


/// Calculates the Merkle value of the node whose absolute key is the
/// concatenation of `parent_key`, `child_index`, and `partial_key`: the
/// encoding's hash when the node is the root or the encoding reaches 32
/// bytes, the encoding itself otherwise.
fn merkle_value(
    storage: &Storage,
    cache: &mut CalculationCache,
    parent_key: &TrieNodeKey,
    child_index: Option<u8>,
    partial_key: &TrieNodeKey,
    Ghost(fuel): Ghost<nat>,
) -> (r: Vec<u8>)
    requires
        parent_key.wf(),
        partial_key.wf(),
        ci_ok(child_index),
        old(cache).valid_for(storage@),
        values_ok(storage@),
        sufficient_fuel(storage@, abs_key(parent_key@, child_index, partial_key@), fuel),
    ensures
        final(cache).valid_for(storage@),
        r@.len() <= 32,
        child_index.is_none() ==> r@.len() == 32,
        forall|f: nat|
            #[trigger] sufficient_fuel(storage@, abs_key(parent_key@, child_index, partial_key@), f)
                ==> r@ == (if child_index.is_none() {
                blake2b256(
                    spec_node_value(
                        storage@,
                        abs_key(parent_key@, child_index, partial_key@),
                        partial_key@,
                        f,
                    ),
                )
            } else {
                merkle_of(
                    spec_node_value(
                        storage@,
                        abs_key(parent_key@, child_index, partial_key@),
                        partial_key@,
                        f,
                    ),
                )
            }),
    decreases fuel, 2int,
{
    let is_root = child_index.is_none();
    let nv = node_value(storage, cache, parent_key, child_index, partial_key, Ghost(fuel));
    if is_root || nv.len() >= 32 {
        blake2b_256(nv.as_slice())
    } else {
        nv
    }
}

/// Calculates the Merkle value of the root node: always the 32-byte
/// BLAKE2b-256 digest of the root node's encoding.
///
/// The cache must be valid for the snapshot: freshly built, or correctly
/// invalidated after every change since it was last filled.
#[verifier::loop_isolation(false)]
pub fn root_merkle_value(config: Config<'_>, cache: &mut CalculationCache) -> (r: Vec<u8>)
    requires
        old(cache).valid_for(config.storage@),
        values_ok(config.storage@),
    ensures
        r@ == spec_root(config.storage@),
        r@.len() == 32,
        final(cache).valid_for(config.storage@),
{
    let storage = config.storage;
    let ghost m = storage@;

    // The root node is not necessarily at the empty key: like any other
    // node it absorbs the common prefix of everything below it.
    let empty_prefix: Vec<u8> = Vec::new();
    let keys = storage.prefix_keys(empty_prefix.as_slice());
    proof {
        assert forall|kb: Seq<u8>| #[trigger] m.dom().contains(kb) implies exists|j: int|
            0 <= j < keys@.len() && keys@[j]@ == kb by {
            assert(empty_prefix@.is_prefix_of(kb)) by {
                assert(empty_prefix@ =~= kb.subrange(0, 0));
            }
        }
    }

    let cp = common_prefix(&keys);
    let rk: TrieNodeKey = match cp {
        Some(p) => {
            proof {
                assert(keys@.len() > 0);
                assert(m.dom().contains(keys@[0]@));
                assert(descends(Seq::empty(), keys@[0]@)) by {
                    assert(Seq::<u8>::empty().is_prefix_of(nibbles_of(keys@[0]@)));
                }
                assert(occupied_at(m, Seq::empty()));
                assert forall|kb: Seq<u8>|
                    #[trigger] m.dom().contains(kb) && descends(Seq::empty(), kb) implies p@
                    .is_prefix_of(nibbles_of(kb)) by {
                    let j = choose|j: int| 0 <= j < keys@.len() && keys@[j]@ == kb;
                    assert(p@.is_prefix_of(nibbles_of(keys@[j]@)));
                }
                assert(common_pref(m, Seq::empty(), p@));
                assert forall|q: Seq<u8>| #[trigger] common_pref(m, Seq::empty(), q) implies q.len()
                    <= p@.len() by {
                    assert forall|j: int| 0 <= j < keys@.len() implies q.is_prefix_of(
                        #[trigger] nibbles_of(keys@[j]@),
                    ) by {
                        assert(m.dom().contains(keys@[j]@));
                        assert(descends(Seq::empty(), keys@[j]@)) by {
                            assert(Seq::<u8>::empty().is_prefix_of(nibbles_of(keys@[j]@)));
                        }
                    }
                    assert(list_common_pref(keys@, q));
                }
                assert(is_lcp(m, Seq::empty(), p@));
                assert(is_lcp(m, Seq::empty(), lcp_of(m, Seq::empty())));
                lemma_lcp_unique(m, Seq::empty(), lcp_of(m, Seq::empty()), p@);
                assert(p@ == root_key(m));
            }
            p
        },
        None => {
            proof {
                assert(keys@.len() == 0);
                assert(!occupied_at(m, Seq::empty())) by {
                    if occupied_at(m, Seq::empty()) {
                        let kb = choose|kb: Seq<u8>|
                            #[trigger] m.dom().contains(kb) && descends(Seq::empty(), kb);
                        assert(exists|j: int| 0 <= j < keys@.len() && keys@[j]@ == kb);
                    }
                }
                assert(root_key(m) == Seq::<u8>::empty());
            }
            TrieNodeKey::new_empty()
        },
    };
    proof {
        assert(rk@ == root_key(m));
        assert(rk.wf()) by {
            if occupied_at(m, Seq::empty()) {
                lemma_lcp_props(m, Seq::empty(), rk@);
            }
        }
    }

    // Enough fuel for the recursion to bottom out below the deepest key.
    let kn = keys.len();
    let mut maxb: usize = 0;
    let mut idx: usize = 0;
    while idx < kn
        invariant
            idx <= kn,
            forall|j: int| 0 <= j < idx ==> keys@[j]@.len() <= maxb,
        decreases kn - idx,
    {
        if keys[idx].len() > maxb {
            maxb = keys[idx].len();
        }
        idx += 1;
    }
    let ghost fuel: nat = (2 * maxb + 1) as nat;
    proof {
        assert forall|kb: Seq<u8>| #[trigger] m.dom().contains(kb) implies nibbles_of(kb).len()
            < fuel + rk@.len() by {
            let j = choose|j: int| 0 <= j < keys@.len() && keys@[j]@ == kb;
            assert(keys@[j]@.len() <= maxb);
        }
        assert(sufficient_fuel(m, rk@, fuel));
    }

    let root_parent = TrieNodeKey::new_empty();
    let r = merkle_value(storage, cache, &root_parent, None, &rk, Ghost(fuel));
    proof {
        assert(abs_key(root_parent@, None, rk@) =~= rk@);
        let f0 = choose|f: nat| sufficient_fuel(m, root_key(m), f);
        assert(sufficient_fuel(m, root_key(m), f0));
        assert(r@ == blake2b256(spec_node_value(m, rk@, rk@, f0)));
    }
    r
}

} // verus!
