//! The accumulator engine: pair hashing, the append/merge algorithm, root
//! bagging, the pure path resolver and the historical leaf lookup.
//!
//! The engine keeps one peak per set bit of the leaf count, ordered from the
//! tallest tree to the shortest.  A push appends the new leaf reference and
//! then merges the two most recent peaks once per trailing one bit of the
//! previous leaf count, exactly like carry propagation in a binary counter.
//! All peaks-list mutation happens on an in-memory list; the persisted
//! handle is republished once, after every merge has been performed, so the
//! committed state always reflects a completed push.

use vstd::prelude::*;

use crate::bits::{
    floor_log2_u64, lemma_div_pow2_chain, lemma_peak_index_bounds, lemma_popcount_bound,
    lemma_popcount_increment, lemma_split_height_bound, lemma_trailing_ones_le_popcount, popcount,
    popcount_u64, pow2_u64, split_height, trailing_ones, trailing_ones_u64,
};
use crate::error::Error;
use crate::params::PushReturn;
use crate::store::{
    block_at, block_commitment, null_commitment, null_ref, pair_at, pair_commitment, pair_ref,
    peaks_at, peaks_commitment, seq_view, store_extends, Commitment, Store,
};
use vstd::arithmetic::div_mod::lemma_fundamental_div_mod;
use vstd::arithmetic::power2::{
    lemma2_to64, lemma2_to64_rest, lemma_pow2_pos, lemma_pow2_strictly_increases,
    lemma_pow2_unfold, pow2,
};

verus! {

/// One carry step: the two most recently added peaks are replaced by their
/// pair commitment.
pub open spec fn merge_once(s: Seq<Seq<u8>>) -> Seq<Seq<u8>>
    recommends
        s.len() >= 2,
{
    s.take(s.len() - 2).push(pair_commitment(s[s.len() - 2], s[s.len() - 1]))
}

/// `k` carry steps in order.
pub open spec fn merge_n(s: Seq<Seq<u8>>, k: nat) -> Seq<Seq<u8>>
    decreases k,
{
    if k == 0 {
        s
    } else {
        merge_n(merge_once(s), (k - 1) as nat)
    }
}

/// The peaks list after pushing `leaf` onto `s` when the accumulator held `n`
/// leaves: the appended leaf is merged once per trailing one bit of `n`.
pub open spec fn pushed_peaks(s: Seq<Seq<u8>>, leaf: Seq<u8>, n: u64) -> Seq<Seq<u8>> {
    merge_n(s.push(leaf), trailing_ones(n as nat))
}

/// The reference at the top of the merge chain after `j` carry steps: the
/// fresh leaf for `j == 0`, and otherwise the pair of the `j`-th peak from
/// the end of the old list with the previous chain top.
pub open spec fn merged_root(v: Seq<Seq<u8>>, leaf: Seq<u8>, j: nat) -> Seq<u8>
    decreases j,
{
    if j == 0 {
        leaf
    } else {
        pair_commitment(v[v.len() - j], merged_root(v, leaf, (j - 1) as nat))
    }
}

/// Equal lists, leaves and step counts name the same merge-chain reference.
/// Stated as a lemma so callers can bridge two occurrences whose arguments
/// are only provably equal.
pub proof fn lemma_merged_root_congruence(
    v1: Seq<Seq<u8>>,
    v2: Seq<Seq<u8>>,
    l1: Seq<u8>,
    l2: Seq<u8>,
    a: nat,
    b: nat,
)
    requires
        v1 == v2,
        l1 == l2,
        a == b,
    ensures
        merged_root(v1, l1, a) == merged_root(v2, l2, b),
    decreases a,
{
    if a > 0 {
        lemma_merged_root_congruence(v1, v2, l1, l2, (a - 1) as nat, (b - 1) as nat);
    }
}

/// After `j` carry steps the list is the old list without its last `j`
/// peaks, with the merge chain's top appended.
pub proof fn lemma_merge_n_shape(v: Seq<Seq<u8>>, leaf: Seq<u8>, j: nat)
    requires
        j <= v.len(),
    ensures
        merge_n(v.push(leaf), j) == v.take(v.len() - j).push(merged_root(v, leaf, j)),
    decreases j,
{
    if j == 0 {
        assert(v.take(v.len() as int) =~= v);
        assert(merge_n(v.push(leaf), 0) == v.push(leaf));
    } else {
        lemma_merge_n_shape(v, leaf, (j - 1) as nat);
        lemma_merge_n_snoc(v.push(leaf), (j - 1) as nat);
        let prev = v.take(v.len() - (j - 1)).push(merged_root(v, leaf, (j - 1) as nat));
        assert(prev.take(prev.len() - 2) =~= v.take(v.len() - j));
        assert(merge_once(prev) =~= v.take(v.len() - j).push(merged_root(v, leaf, j)));
    }
}

/// The root commitment of a peaks list, bagged from the shortest peak to the
/// tallest: no peaks give the null commitment, a single peak is promoted
/// unchanged, and otherwise each peak is paired with the bag of the shorter
/// ones to its right.
pub open spec fn bag_spec(s: Seq<Seq<u8>>) -> Seq<u8>
    decreases s.len(),
{
    if s.len() == 0 {
        null_commitment()
    } else if s.len() == 1 {
        s[0]
    } else {
        pair_commitment(s[0], bag_spec(s.drop_first()))
    }
}

/// The later of two carry steps commutes past the earlier ones.
proof fn lemma_merge_n_snoc(s: Seq<Seq<u8>>, k: nat)
    ensures
        merge_n(s, k + 1) == merge_once(merge_n(s, k)),
    decreases k,
{
    if k == 0 {
        assert(merge_n(merge_once(s), 0) == merge_once(s));
    } else {
        lemma_merge_n_snoc(merge_once(s), (k - 1) as nat);
    }
}

/// Each carry step shortens the list by one.
proof fn lemma_merge_n_len(s: Seq<Seq<u8>>, k: nat)
    requires
        k < s.len(),
    ensures
        merge_n(s, k).len() == s.len() - k,
    decreases k,
{
    if k > 0 {
        lemma_merge_n_len(merge_once(s), (k - 1) as nat);
    }
}

/// After a push, the peaks list is exactly one peak per set bit of the new
/// leaf count: appending adds a peak and every carry merges two into one.
pub proof fn lemma_push_peak_count(s: Seq<Seq<u8>>, leaf: Seq<u8>, n: u64)
    requires
        s.len() == popcount(n as nat),
        n < u64::MAX,
    ensures
        pushed_peaks(s, leaf, n).len() == popcount(n as nat + 1),
{
    lemma_trailing_ones_le_popcount(n as nat);
    lemma_popcount_increment(n as nat);
    lemma_merge_n_len(s.push(leaf), trailing_ones(n as nat));
}

/// Pushing the same value onto equal peaks lists at equal leaf counts yields
/// equal peaks lists, and therefore equal handles and equal roots: the whole
/// transition is a function of the prior state and the pushed value, so two
/// independently grown accumulators fed the same sequence agree at every
/// prefix.
pub proof fn lemma_push_deterministic(
    s1: Seq<Seq<u8>>,
    s2: Seq<Seq<u8>>,
    leaf1: Seq<u8>,
    leaf2: Seq<u8>,
    n1: u64,
    n2: u64,
)
    requires
        s1 == s2,
        leaf1 == leaf2,
        n1 == n2,
    ensures
        pushed_peaks(s1, leaf1, n1) == pushed_peaks(s2, leaf2, n2),
        bag_spec(pushed_peaks(s1, leaf1, n1)) == bag_spec(pushed_peaks(s2, leaf2, n2)),
        peaks_commitment(pushed_peaks(s1, leaf1, n1)) == peaks_commitment(
            pushed_peaks(s2, leaf2, n2),
        ),
{
}

/// One unfolding of [`bag_spec`] on a slice of at least two peaks.
proof fn lemma_bag_unfold(s: Seq<Seq<u8>>, i: int, n: int)
    requires
        0 <= i,
        i + 2 <= n,
        n <= s.len(),
    ensures
        bag_spec(s.subrange(i, n)) == pair_commitment(s[i], bag_spec(s.subrange(i + 1, n))),
{
    let sub = s.subrange(i, n);
    assert(sub.drop_first() =~= s.subrange(i + 1, n));
    assert(bag_spec(sub) == pair_commitment(sub[0], bag_spec(sub.drop_first())));
}

/// Computes the commitment of a pair of children without persisting anything.
/// Both children are mandatory: an absent side is an invalid argument.
pub fn hash_pair(left: Option<&Commitment>, right: Option<&Commitment>) -> (r: Result<
    Commitment,
    Error,
>)
    ensures
        r matches Ok(c) ==> left matches Some(l) && right matches Some(rt) && c@
            == pair_commitment(l@, rt@),
        r matches Err(e) ==> e == Error::InvalidArgument && (left is None || right is None),
        left is Some && right is Some ==> r is Ok,
{
    match (left, right) {
        (Some(l), Some(rt)) => Ok(pair_ref(l, rt)),
        _ => Err(Error::InvalidArgument),
    }
}

/// Computes the commitment of a pair of children and persists the pair node.
/// The returned reference always equals what [`hash_pair`] computes for the
/// same children: persistence never changes the derived reference.  Exactly
/// one block, at that reference, is touched; re-persisting a pair whose node
/// is already stored changes nothing at all.
pub fn hash_and_put_pair(
    store: &mut Store,
    left: Option<&Commitment>,
    right: Option<&Commitment>,
) -> (r: Result<Commitment, Error>)
    ensures
        store_extends(*final(store), *old(store)),
        r matches Ok(c) ==> left matches Some(l) && right matches Some(rt) && c@
            == pair_commitment(l@, rt@) && pair_at(*final(store), c@) == Some((l@, rt@))
            && block_at(*final(store), c@) is Some,
        r matches Ok(c) ==> (forall|k: Seq<u8>| #![trigger block_at(*final(store), k)]
            k != c@ ==> block_at(*final(store), k) == block_at(*old(store), k)) && (
        forall|k: Seq<u8>| #![trigger pair_at(*final(store), k)]
            k != c@ ==> pair_at(*final(store), k) == pair_at(*old(store), k)),
        r matches Ok(c) ==> (block_at(*old(store), c@) is Some ==> crate::store::unchanged(
            *final(store),
            *old(store),
        )),
        r matches Err(e) ==> e == Error::InvalidArgument && (left is None || right is None)
            && *final(store) == *old(store),
        left is Some && right is Some ==> r is Ok,
{
    match (left, right) {
        (Some(l), Some(rt)) => Ok(store.put_pair(l, rt)),
        _ => Err(Error::InvalidArgument),
    }
}

/// Combines the peaks into the root commitment, from the shortest to the
/// tallest, without writing anything: this is a pure query and may be run
/// against any peak set.
pub fn bag_peaks(peaks: &Vec<Commitment>) -> (r: Result<Commitment, Error>)
    ensures
        r matches Ok(c) && c@ == bag_spec(seq_view(peaks@)),
{
    let ghost s = seq_view(peaks@);
    let n = peaks.len();
    if n == 0 {
        return Ok(null_ref());
    }
    if n == 1 {
        return Ok(peaks[0].dup());
    }
    let mut i: usize = n - 2;
    let mut root: Commitment = pair_ref(&peaks[i], &peaks[i + 1]);
    proof {
        lemma_bag_unfold(s, i as int, n as int);
        assert(bag_spec(s.subrange(i as int + 1, n as int)) == s[i as int + 1]);
    }
    while i > 0
        invariant
            n == peaks.len(),
            2 <= n,
            i <= n - 2,
            s == seq_view(peaks@),
            root@ == bag_spec(s.subrange(i as int, n as int)),
        decreases i,
    {
        i = i - 1;
        root = pair_ref(&peaks[i], &root);
        proof {
            lemma_bag_unfold(s, i as int, n as int);
        }
    }
    proof {
        assert(s.subrange(0, n as int) =~= s);
    }
    Ok(root)
}

/// Appends a new leaf to the peaks, performs the carry merges owed by the
/// previous leaf count, and republishes the peaks list, returning its new
/// handle.  The in-memory list is mutated first and the handle written once
/// at the end; against the in-memory store this always succeeds.
pub fn push(
    store: &mut Store,
    leaf_count: u64,
    peaks: &mut Vec<Commitment>,
    data: &Vec<u8>,
) -> (r: Result<Commitment, Error>)
    requires
        seq_view(old(peaks)@).len() == popcount(leaf_count as nat),
        leaf_count < u64::MAX,
    ensures
        store_extends(*final(store), *old(store)),
        block_at(*final(store), block_commitment(data@)) == Some(data@),
        seq_view(final(peaks)@) == pushed_peaks(
            seq_view(old(peaks)@),
            block_commitment(data@),
            leaf_count,
        ),
        r is Ok,
        r matches Ok(c) ==> c@ == peaks_commitment(seq_view(final(peaks)@)) && peaks_at(
            *final(store),
            c@,
        ) == Some(seq_view(final(peaks)@)),
        forall|x: int|
            0 <= x < trailing_ones(leaf_count as nat) ==> #[trigger] pair_at(
                *final(store),
                merged_root(seq_view(old(peaks)@), block_commitment(data@), (x + 1) as nat),
            ) == Some(
                (
                    seq_view(old(peaks)@)[seq_view(old(peaks)@).len() - 1 - x],
                    merged_root(seq_view(old(peaks)@), block_commitment(data@), x as nat),
                ),
            ),
{
    let ghost v0 = seq_view(old(peaks)@);
    let ghost lf = block_commitment(data@);
    let ghost s0 = v0.push(lf);
    let ghost k0 = trailing_ones(leaf_count as nat);
    proof {
        lemma_trailing_ones_le_popcount(leaf_count as nat);
    }
    let leaf = store.put_block(data);
    peaks.push(leaf);
    proof {
        assert(seq_view(peaks@) =~= s0);
    }
    let mut k: u32 = trailing_ones_u64(leaf_count);
    while k > 0
        invariant
            k <= k0,
            s0.len() == popcount(leaf_count as nat) + 1,
            k0 == trailing_ones(leaf_count as nat),
            k0 <= popcount(leaf_count as nat),
            seq_view(peaks@) == merge_n(s0, (k0 - k) as nat),
            seq_view(peaks@).len() == s0.len() - (k0 - k),
            store_extends(*store, *old(store)),
            block_at(*store, block_commitment(data@)) == Some(data@),
            v0 == seq_view(old(peaks)@),
            lf == block_commitment(data@),
            s0 == v0.push(lf),
            v0.len() == popcount(leaf_count as nat),
            forall|x: int|
                0 <= x < k0 - k ==> #[trigger] pair_at(
                    *store,
                    merged_root(v0, lf, (x + 1) as nat),
                ) == Some((v0[v0.len() - 1 - x], merged_root(v0, lf, x as nat))),
        decreases k,
    {
        let ghost j = (k0 - k) as nat;
        proof {
            lemma_merge_n_shape(v0, lf, j);
        }
        let ghost prev = seq_view(peaks@);
        let ghost mid = *store;
        let right = peaks.pop();
        let left = peaks.pop();
        let merged = match hash_and_put_pair(store, left.as_ref(), right.as_ref()) {
            Ok(c) => c,
            Err(_) => {
                proof {
                    assert(false);
                }
                return Err(Error::StoreFailure);
            },
        };
        peaks.push(merged);
        k = k - 1;
        proof {
            assert(seq_view(peaks@) =~= merge_once(prev));
            lemma_merge_n_snoc(s0, (k0 - k - 1) as nat);
            lemma_store_extends_trans(*store, mid, *old(store));
            assert(right->0@ == merged_root(v0, lf, j));
            assert(left->0@ == v0[v0.len() - 1 - j]);
            assert forall|x: int|
                0 <= x < k0 - k implies #[trigger] pair_at(
                *store,
                merged_root(v0, lf, (x + 1) as nat),
            ) == Some((v0[v0.len() - 1 - x], merged_root(v0, lf, x as nat))) by {
                if x < j {
                    assert(pair_at(mid, merged_root(v0, lf, (x + 1) as nat)) == Some(
                        (v0[v0.len() - 1 - x], merged_root(v0, lf, x as nat)),
                    ));
                }
            }
        }
    }
    proof {
        assert(seq_view(peaks@) == pushed_peaks(
            seq_view(old(peaks)@),
            block_commitment(data@),
            leaf_count,
        ));
    }
    proof {
        // The republished list is small: one peak per set bit of the new
        // count, never more than 64, so the flush is owed success.
        lemma2_to64_rest();
        lemma_popcount_bound(leaf_count as nat, 64);
    }
    let ghost mid = *store;
    let r = match store.flush_peaks(peaks) {
        Ok(c) => Ok(c),
        Err(_) => {
            proof {
                assert(false);
            }
            Err(Error::StoreFailure)
        },
    };
    proof {
        lemma_store_extends_trans(*store, mid, *old(store));
        assert forall|x: int|
            0 <= x < k0 implies #[trigger] pair_at(
            *store,
            merged_root(v0, lf, (x + 1) as nat),
        ) == Some((v0[v0.len() - 1 - x], merged_root(v0, lf, x as nat))) by {
            assert(pair_at(mid, merged_root(v0, lf, (x + 1) as nat)) == Some(
                (v0[v0.len() - 1 - x], merged_root(v0, lf, x as nat)),
            ));
        }
    }
    r
}

/// Resolves, from the leaf index and the leaf count alone, which peak holds
/// the leaf and the path through that peak's subtree: the peak is the one at
/// the height where the binary paths of index and count diverge, the local
/// path is the index's offset inside that subtree with one sentinel bit set
/// above it.  Pure: no store is touched.
pub fn path_for_eigen_root(leaf_index: u64, leaf_count: u64) -> (r: Result<(u64, u64), Error>)
    ensures
        r matches Err(e) ==> e == Error::InvalidArgument && leaf_index >= leaf_count,
        leaf_index >= leaf_count ==> r is Err,
        r matches Ok(pr) ==> leaf_index < leaf_count && ({
            let h = split_height(leaf_index as nat, leaf_count as nat);
            &&& h < 64
            &&& pr.0 == pow2(h) + leaf_index as nat % pow2(h)
            &&& pr.1 + 1 + popcount(leaf_count as nat % pow2(h)) == popcount(leaf_count as nat)
            &&& pr.1 < popcount(leaf_count as nat)
        }),
{
    if leaf_index >= leaf_count {
        return Err(Error::InvalidArgument);
    }
    let ghost hs = split_height(leaf_index as nat, leaf_count as nat);
    proof {
        lemma2_to64_rest();
        lemma_split_height_bound(leaf_index as nat, leaf_count as nat, 64);
        lemma_peak_index_bounds(leaf_index as nat, leaf_count as nat);
        assert(pow2(0) == 1) by {
            lemma2_to64();
        }
    }
    let mut a: u64 = leaf_index;
    let mut b: u64 = leaf_count;
    let mut h: u32 = 0;
    while a / 2 != b / 2
        invariant
            a == leaf_index as nat / pow2(h as nat),
            b == leaf_count as nat / pow2(h as nat),
            a < b,
            hs == split_height(leaf_index as nat, leaf_count as nat),
            hs == h + split_height(a as nat, b as nat),
            hs < 64,
        decreases b,
    {
        proof {
            lemma_div_pow2_chain(leaf_index as nat, h as nat);
            lemma_div_pow2_chain(leaf_count as nat, h as nat);
            vstd::arithmetic::div_mod::lemma_div_is_ordered(a as int, b as int, 2);
        }
        a = a / 2;
        b = b / 2;
        h = h + 1;
    }
    proof {
        assert(split_height(a as nat, b as nat) == 0);
        assert(h == hs);
    }
    proof {
        lemma_pow2_pos(hs);
    }
    let size = pow2_u64(h);
    let total = popcount_u64(leaf_count);
    let lower = popcount_u64(leaf_count % size);
    let peak_index: u32 = total - lower - 1;
    proof {
        if hs < 63 {
            lemma_pow2_strictly_increases(hs, 63);
        }
    }
    let local_path: u64 = leaf_index % size + size;
    Ok((local_path, peak_index as u64))
}

/// The value reached from the node at `c` by reading the `b` low bits of
/// `off` from the highest down: each bit selects a child of the current pair
/// node, and the block reached after the last bit is the leaf.
pub open spec fn walk_from(s: Store, c: Seq<u8>, off: nat, b: nat) -> Option<Seq<u8>>
    decreases b,
{
    if b == 0 {
        block_at(s, c)
    } else {
        match pair_at(s, c) {
            Some(p) => {
                let bit = (off / pow2((b - 1) as nat)) % 2;
                let child = if bit == 1 {
                    p.1
                } else {
                    p.0
                };
                walk_from(s, child, off % pow2((b - 1) as nat), (b - 1) as nat)
            },
            None => None,
        }
    }
}

/// Retrieves the leaf at `leaf_index` from the forest that `peaks` describes
/// for a total of `leaf_count` leaves: resolves the peak and local path, then
/// follows one child reference per path bit down to the leaf block.
pub fn get_at(
    store: &Store,
    leaf_index: u64,
    leaf_count: u64,
    peaks: &Vec<Commitment>,
) -> (r: Result<Vec<u8>, Error>)
    ensures
        leaf_index >= leaf_count ==> (r matches Err(e) && e == Error::InvalidArgument),
        leaf_index < leaf_count ==> ({
            let h = split_height(leaf_index as nat, leaf_count as nat);
            let off0 = leaf_index as nat % pow2(h);
            let items = seq_view(peaks@);
            let pk = popcount(leaf_count as nat) - popcount(leaf_count as nat % pow2(h)) - 1;
            &&& pk >= items.len() ==> (r matches Err(e) && e == Error::NotFound)
            &&& pk < items.len() ==> match walk_from(*store, items[pk], off0, h) {
                Some(d) => r matches Ok(v) && v@ == d,
                None => r is Err,
            }
        }),
{
    let ghost hs = split_height(leaf_index as nat, leaf_count as nat);
    let ghost items = seq_view(peaks@);
    let (path, pk64) = match path_for_eigen_root(leaf_index, leaf_count) {
        Ok(t) => t,
        Err(e) => {
            return Err(e);
        },
    };
    proof {
        lemma2_to64_rest();
        lemma_popcount_bound(leaf_count as nat, 64);
    }
    let pk = pk64 as usize;
    if pk >= peaks.len() {
        return Err(Error::NotFound);
    }
    proof {
        lemma_pow2_pos(hs);
        assert(pow2(0) == 1) by {
            lemma2_to64();
        }
        if hs >= 1 {
            lemma_pow2_strictly_increases(0, hs);
        }
    }
    if path == 1 {
        // A height-zero subtree has no internal nodes: the peak is the leaf.
        assert(hs == 0);
        return store.get_block(&peaks[pk]);
    }
    let h = floor_log2_u64(path);
    proof {
        // The sentinel bit pins the height: pow2(hs) <= path < pow2(hs + 1).
        lemma_pow2_unfold(hs + 1);
        if (h as nat) < hs {
            if h as nat + 1 < hs {
                lemma_pow2_strictly_increases(h as nat + 1, hs);
            }
            assert(false);
        }
        if (h as nat) > hs {
            if hs + 1 < h as nat {
                lemma_pow2_strictly_increases(hs + 1, h as nat);
            }
            assert(false);
        }
    }
    let size = pow2_u64(h);
    let mut off: u64 = path - size;
    let mut b: u32 = h;
    let mut cur: (Commitment, Commitment) = match store.get_pair(&peaks[pk]) {
        Ok(p) => p,
        Err(e) => {
            proof {
                assert(walk_from(*store, items[pk as int], leaf_index as nat % pow2(hs), hs)
                    is None);
            }
            return Err(e);
        },
    };
    let ghost mut cur_key: Seq<u8> = items[pk as int];
    while b > 1
        invariant
            1 <= b <= 64,
            off < pow2(b as nat),
            leaf_index < leaf_count,
            hs == split_height(leaf_index as nat, leaf_count as nat),
            items == seq_view(peaks@),
            pk < peaks.len(),
            pk as int == popcount(leaf_count as nat) - popcount(
                leaf_count as nat % pow2(hs),
            ) - 1,
            pair_at(*store, cur_key) == Some((cur.0@, cur.1@)),
            walk_from(*store, items[pk as int], leaf_index as nat % pow2(hs), hs) == walk_from(
                *store,
                cur_key,
                off as nat,
                b as nat,
            ),
        decreases b,
    {
        let sz = pow2_u64(b - 1);
        proof {
            lemma_pow2_pos((b - 1) as nat);
            lemma_pow2_unfold(b as nat);
            assert(off as nat / pow2((b - 1) as nat) < 2) by (nonlinear_arith)
                requires
                    (off as nat) < 2 * pow2((b - 1) as nat),
                    pow2((b - 1) as nat) >= 1,
            ;
            lemma_fundamental_div_mod(off as int, sz as int);
        }
        let bit_one = off >= sz;
        let child: &Commitment = if bit_one {
            &cur.1
        } else {
            &cur.0
        };
        proof {
            reveal_with_fuel(walk_from, 2);
            let szn = pow2((b - 1) as nat);
            if off >= sz {
                assert(off as nat / szn == 1) by (nonlinear_arith)
                    requires
                        off as nat == szn * (off as nat / szn) + (off as nat % szn),
                        (off as nat % szn) < szn,
                        (off as nat / szn) < 2,
                        (off as nat) >= szn,
                        szn >= 1,
                ;
            } else {
                assert(off as nat / szn == 0) by (nonlinear_arith)
                    requires
                        off as nat == szn * (off as nat / szn) + (off as nat % szn),
                        (off as nat % szn) >= 0,
                        (off as nat / szn) < 2,
                        (off as nat) < szn,
                        szn >= 1,
                ;
            }
            assert(walk_from(*store, cur_key, off as nat, b as nat) == walk_from(
                *store,
                child@,
                (off % sz) as nat,
                (b - 1) as nat,
            ));
        }
        let next = match store.get_pair(child) {
            Ok(p) => p,
            Err(e) => {
                proof {
                    assert(walk_from(*store, child@, (off % sz) as nat, (b - 1) as nat) is None);
                }
                return Err(e);
            },
        };
        cur = next;
        proof {
            cur_key = child@;
        }
        off = off % sz;
        b = b - 1;
    }
    proof {
        assert(pow2(0) == 1 && pow2(1) == 2) by {
            lemma2_to64();
        }
    }
    let child: &Commitment = if off == 1 {
        &cur.1
    } else {
        &cur.0
    };
    proof {
        reveal_with_fuel(walk_from, 2);
        vstd::arithmetic::div_mod::lemma_div_basics(off as int);
        vstd::arithmetic::div_mod::lemma_fundamental_div_mod(off as int, 1);
        assert(off as nat / pow2(0) == off as nat);
        assert(off as nat % pow2(0) == 0);
        assert((off as nat / pow2(0)) % 2 == if off == 1 { 1nat } else { 0nat });
        assert(walk_from(*store, child@, (off as nat) % pow2(0), 0) == block_at(*store, child@));
        assert(walk_from(*store, cur_key, off as nat, 1) == walk_from(
            *store,
            child@,
            (off as nat) % pow2(0),
            0,
        ));
    }
    store.get_block(child)
}

/// What a lookup of leaf `i` finds in the forest that `items` describes for
/// a count of `n` leaves, if anything: nothing for an out-of-range index,
/// otherwise the block reached by walking the resolved peak along the
/// resolved local path.
pub open spec fn lookup_spec(s: Store, items: Seq<Seq<u8>>, i: u64, n: u64) -> Option<Seq<u8>> {
    if i >= n {
        None
    } else {
        let h = split_height(i as nat, n as nat);
        let pk = popcount(n as nat) - popcount(n as nat % pow2(h)) - 1;
        if 0 <= pk < items.len() {
            walk_from(s, items[pk], i as nat % pow2(h), h)
        } else {
            None
        }
    }
}

/// The accumulator state: the handle of the persisted peaks list and the
/// number of leaves pushed so far.  The state only ever grows; no operation
/// decreases the leaf count or removes a stored node.
pub struct State {
    /// Handle of the persisted peaks list.
    pub peaks: Commitment,
    /// Number of leaf nodes in the accumulator MMR.
    pub leaf_count: u64,
}

impl State {
    /// The state is backed by `s`: its handle resolves to a peaks list there,
    /// holding one peak per set bit of the leaf count.
    pub open spec fn inv(self, s: Store) -> bool {
        &&& peaks_at(s, self.peaks@) is Some
        &&& peaks_at(s, self.peaks@).unwrap().len() == popcount(self.leaf_count as nat)
    }

    /// The peaks list that `s` resolves for this state.
    pub open spec fn peaks_seq(self, s: Store) -> Seq<Seq<u8>> {
        peaks_at(s, self.peaks@).unwrap()
    }

    /// An empty accumulator: no leaves, and an empty peaks list persisted in
    /// the store.  Construction always succeeds.
    pub fn new(store: &mut Store) -> (r: Result<State, Error>)
        ensures
            store_extends(*final(store), *old(store)),
            r is Ok,
            r matches Ok(st) ==> st.leaf_count == 0 && st.inv(*final(store)) && st.peaks_seq(
                *final(store),
            ) == Seq::<Seq<u8>>::empty(),
    {
        let empty: Vec<Commitment> = Vec::new();
        proof {
            assert(seq_view(empty@) =~= Seq::<Seq<u8>>::empty());
        }
        match store.flush_peaks(&empty) {
            Ok(c) => Ok(State { peaks: c, leaf_count: 0 }),
            Err(_) => {
                proof {
                    assert(false);
                }
                Err(Error::StoreFailure)
            },
        }
    }

    /// One peak exists per set bit of the leaf count.
    pub fn peak_count(&self) -> (r: u32)
        ensures
            r == popcount(self.leaf_count as nat),
    {
        popcount_u64(self.leaf_count)
    }

    /// Number of leaves pushed so far.
    pub fn leaf_count(&self) -> (r: u64)
        ensures
            r == self.leaf_count,
    {
        self.leaf_count
    }

    /// Pushes one value, given by its canonical bytes, and reports the new
    /// root and the assigned index.  The merge loop runs on the in-memory
    /// list and the new handle is committed only once every merge is done;
    /// against the in-memory store a push on a well-formed state always
    /// succeeds.  Reloading the published peaks list and bagging it yields
    /// exactly the reported root.
    pub fn push(&mut self, store: &mut Store, data: &Vec<u8>) -> (r: Result<PushReturn, Error>)
        requires
            old(self).inv(*old(store)),
            old(self).leaf_count < u64::MAX,
        ensures
            store_extends(*final(store), *old(store)),
            r is Ok,
            block_at(*final(store), block_commitment(data@)) == Some(data@),
            r matches Ok(pr) ==> ({
                let new_peaks = pushed_peaks(
                    old(self).peaks_seq(*old(store)),
                    block_commitment(data@),
                    old(self).leaf_count,
                );
                &&& final(self).leaf_count == old(self).leaf_count + 1
                &&& final(self).inv(*final(store))
                &&& final(self).peaks_seq(*final(store)) == new_peaks
                &&& final(self).peaks@ == peaks_commitment(new_peaks)
                &&& pr.root@ == bag_spec(new_peaks)
                &&& pr.root@ == bag_spec(final(self).peaks_seq(*final(store)))
                &&& pr.index == old(self).leaf_count
            }),
            forall|x: int|
                0 <= x < trailing_ones(old(self).leaf_count as nat) ==> #[trigger] pair_at(
                    *final(store),
                    merged_root(
                        old(self).peaks_seq(*old(store)),
                        block_commitment(data@),
                        (x + 1) as nat,
                    ),
                ) == Some(
                    (
                        old(self).peaks_seq(*old(store))[old(self).peaks_seq(*old(store)).len() - 1
                            - x],
                        merged_root(
                            old(self).peaks_seq(*old(store)),
                            block_commitment(data@),
                            x as nat,
                        ),
                    ),
                ),
    {
        let mut loaded = match store.load_peaks(&self.peaks) {
            Ok(v) => v,
            Err(_) => {
                proof {
                    assert(false);
                }
                return Err(Error::StoreFailure);
            },
        };
        let ghost lv0 = seq_view(loaded@);
        let new_handle = match push(store, self.leaf_count, &mut loaded, data) {
            Ok(c) => c,
            Err(_) => {
                proof {
                    assert(false);
                }
                return Err(Error::StoreFailure);
            },
        };
        proof {
            let v_old = old(self).peaks_seq(*old(store));
            let lf = block_commitment(data@);
            assert(lv0 == v_old);
            assert forall|x: int|
                0 <= x < trailing_ones(old(self).leaf_count as nat) implies #[trigger] pair_at(
                *store,
                merged_root(v_old, lf, (x + 1) as nat),
            ) == Some((v_old[v_old.len() - 1 - x], merged_root(v_old, lf, x as nat))) by {
                assert(pair_at(*store, merged_root(lv0, lf, (x + 1) as nat)) == Some(
                    (lv0[lv0.len() - 1 - x], merged_root(lv0, lf, x as nat)),
                ));
                lemma_merged_root_congruence(lv0, v_old, lf, lf, (x + 1) as nat, (x + 1) as nat);
                lemma_merged_root_congruence(lv0, v_old, lf, lf, x as nat, x as nat);
            }
        }
        let root = match bag_peaks(&loaded) {
            Ok(c) => c,
            Err(_) => {
                proof {
                    assert(false);
                }
                return Err(Error::StoreFailure);
            },
        };
        proof {
            lemma_push_peak_count(
                old(self).peaks_seq(*old(store)),
                block_commitment(data@),
                old(self).leaf_count,
            );
        }
        self.peaks = new_handle;
        self.leaf_count = self.leaf_count + 1;
        Ok(PushReturn { root, index: self.leaf_count - 1 })
    }

    /// The current root commitment: the peaks list is reloaded from the
    /// store and bagged.  Pure: nothing is written.
    pub fn get_root(&self, store: &Store) -> (r: Result<Commitment, Error>)
        ensures
            r matches Ok(c) ==> peaks_at(*store, self.peaks@) matches Some(items) && c@
                == bag_spec(items) && (items.len() == 0 ==> c@ == null_commitment()) && (items.len()
                == 1 ==> c@ == items[0]),
            r is Err ==> peaks_at(*store, self.peaks@) is None,
    {
        let loaded = match store.load_peaks(&self.peaks) {
            Ok(v) => v,
            Err(e) => {
                return Err(e);
            },
        };
        bag_peaks(&loaded)
    }

    /// The current peaks, ordered from the tallest tree to the shortest.
    pub fn get_peaks(&self, store: &Store) -> (r: Result<Vec<Commitment>, Error>)
        ensures
            r matches Ok(v) ==> peaks_at(*store, self.peaks@) == Some(seq_view(v@)),
            r is Err ==> peaks_at(*store, self.peaks@) is None,
    {
        store.load_peaks(&self.peaks)
    }

    /// Best-effort historical query: the value pushed at `index`, or `None`
    /// where the index is out of range or anything along the way — the peaks
    /// handle itself included — fails to resolve.  Every failure mode is
    /// collapsed into an absent result; no error is ever surfaced.
    pub fn get_leaf_at(&self, store: &Store, index: u64) -> (r: Result<Option<Vec<u8>>, Error>)
        ensures
            r is Ok,
            r matches Ok(o) ==> ({
                &&& peaks_at(*store, self.peaks@) matches Some(items) ==> ({
                    &&& o is Some <==> lookup_spec(*store, items, index, self.leaf_count) is Some
                    &&& (o matches Some(v) ==> lookup_spec(*store, items, index, self.leaf_count)
                        == Some(v@))
                })
                &&& peaks_at(*store, self.peaks@) is None ==> o is None
                &&& index >= self.leaf_count ==> o is None
            }),
    {
        let loaded = match store.load_peaks(&self.peaks) {
            Ok(v) => v,
            Err(_) => {
                return Ok(None);
            },
        };
        proof {
            if index < self.leaf_count {
                lemma_peak_index_bounds(index as nat, self.leaf_count as nat);
            }
        }
        let leaf = match get_at(store, index, self.leaf_count, &loaded) {
            Ok(v) => Some(v),
            Err(_) => None,
        };
        Ok(leaf)
    }
}

/// Reads the pair node stored under `c`: the two child references, or the
/// reason it cannot be read.
pub fn get_pair_node(store: &Store, c: &Commitment) -> (r: Result<(Commitment, Commitment), Error>)
    ensures
        r matches Ok(pr) ==> pair_at(*store, c@) == Some((pr.0@, pr.1@)),
        r matches Err(e) ==> pair_at(*store, c@) is None && (e == Error::Corrupt
            ==> block_at(*store, c@) is Some) && (e == Error::NotFound ==> block_at(*store, c@)
            is None) && (e == Error::Corrupt || e == Error::NotFound),
{
    store.get_pair(c)
}

/// Growing a store twice grows it once: [`store_extends`] is transitive.
pub proof fn lemma_store_extends_trans(s3: Store, s2: Store, s1: Store)
    requires
        store_extends(s3, s2),
        store_extends(s2, s1),
    ensures
        store_extends(s3, s1),
{
    assert forall|k: Seq<u8>| block_at(s1, k) is Some implies #[trigger] block_at(s3, k)
        == block_at(s1, k) by {
        assert(block_at(s2, k) == block_at(s1, k));
    }
    assert forall|k: Seq<u8>| pair_at(s1, k) is Some implies #[trigger] pair_at(s3, k) == pair_at(
        s1,
        k,
    ) by {
        assert(pair_at(s2, k) == pair_at(s1, k));
    }
    assert forall|k: Seq<u8>| peaks_at(s1, k) is Some implies #[trigger] peaks_at(s3, k)
        == peaks_at(s1, k) by {
        assert(peaks_at(s2, k) == peaks_at(s1, k));
    }
}

} // verus!


