//! The forest model: what it means for a store to hold, under a list of peak
//! references, the perfect subtrees of an MMR over a given sequence of leaf
//! blocks — and the proof that the lookup path resolution retrieves exactly
//! the leaf it names.
//!
//! [`tree_holds`] describes one perfect subtree: a height-zero tree is a leaf
//! block, a taller one is a pair node over two subtrees of the halved leaf
//! slice.  [`forest_holds`] describes the whole peaks list against the
//! binary digits of the leaf count, one subtree per set bit, tallest first.

use vstd::prelude::*;

use crate::bits::{
    lemma_div_pow2_chain, lemma_mul_pow2_div, lemma_popcount_bound, lemma_popcount_congruence,
    lemma_popcount_shift, lemma_popcount_strip_low_tree, lemma_popcount_unfold,
    lemma_split_height_congruence, lemma_split_height_strip, lemma_split_height_unique,
    lemma_trailing_ones_carry, lemma_trailing_ones_le_popcount, lemma_trailing_ones_unfold,
    popcount, split_height, trailing_ones,
};
use crate::mmr::{
    lemma_merge_n_shape, lemma_merged_root_congruence, lookup_spec, merged_root, pushed_peaks,
    walk_from,
};
use crate::mmr::State;
use crate::store::{block_at, pair_at, peaks_at, store_extends, Store};
use vstd::arithmetic::div_mod::{
    lemma_div_basics, lemma_fundamental_div_mod, lemma_fundamental_div_mod_converse,
};
use vstd::arithmetic::power2::{
    lemma2_to64, lemma_pow2_pos, lemma_pow2_strictly_increases, lemma_pow2_unfold, pow2,
};

verus! {

/// The store `s` holds, under the reference `c`, a perfect subtree of height
/// `h` whose leaf blocks are exactly `leaves`, left to right.
pub open spec fn tree_holds(s: Store, c: Seq<u8>, h: nat, leaves: Seq<Seq<u8>>) -> bool
    decreases h,
{
    &&& leaves.len() == pow2(h)
    &&& if h == 0 {
        block_at(s, c) == Some(leaves[0])
    } else {
        match pair_at(s, c) {
            Some(p) => tree_holds(s, p.0, (h - 1) as nat, leaves.take(pow2((h - 1) as nat) as int))
                && tree_holds(s, p.1, (h - 1) as nat, leaves.skip(pow2((h - 1) as nat) as int)),
            None => false,
        }
    }
}

/// A subtree survives any growth of the store: all its nodes are already
/// present, and the store never changes a held block.
pub proof fn lemma_tree_monotone(s1: Store, s2: Store, c: Seq<u8>, h: nat, leaves: Seq<Seq<u8>>)
    requires
        tree_holds(s1, c, h, leaves),
        store_extends(s2, s1),
    ensures
        tree_holds(s2, c, h, leaves),
    decreases h,
{
    if h == 0 {
        assert(block_at(s2, c) == block_at(s1, c));
    } else {
        let p = pair_at(s1, c).unwrap();
        assert(pair_at(s2, c) == pair_at(s1, c));
        lemma_tree_monotone(s1, s2, p.0, (h - 1) as nat, leaves.take(pow2((h - 1) as nat) as int));
        lemma_tree_monotone(s1, s2, p.1, (h - 1) as nat, leaves.skip(pow2((h - 1) as nat) as int));
    }
}

/// Walking a held subtree along the low `h` bits of `off` reaches exactly
/// the `off`-th leaf.
pub proof fn lemma_tree_walk(s: Store, c: Seq<u8>, h: nat, leaves: Seq<Seq<u8>>, off: nat)
    requires
        tree_holds(s, c, h, leaves),
        off < pow2(h),
    ensures
        walk_from(s, c, off, h) == Some(leaves[off as int]),
    decreases h,
{
    if h == 0 {
        assert(pow2(0) == 1) by {
            lemma2_to64();
        }
        assert(off == 0);
    } else {
        let half = pow2((h - 1) as nat);
        let p = pair_at(s, c).unwrap();
        lemma_pow2_pos((h - 1) as nat);
        lemma_pow2_unfold(h);
        if off < half {
            lemma_fundamental_div_mod_converse(off as int, half as int, 0, off as int);
            lemma_tree_walk(s, p.0, (h - 1) as nat, leaves.take(half as int), off);
        } else {
            lemma_fundamental_div_mod_converse(off as int, half as int, 1, (off - half) as int);
            lemma_tree_walk(
                s,
                p.1,
                (h - 1) as nat,
                leaves.skip(half as int),
                (off - half) as nat,
            );
        }
    }
}

/// The store `s` holds under `peaks`, read at bit level `lev`, the forest of
/// an accumulator whose remaining scaled count is `n`: one subtree per set
/// bit of `n`, the lowest set bit owning the last peak and the last
/// `pow2(lev)` leaves.  The whole accumulator shape is `forest_holds` at
/// level zero with the full leaf count.
pub open spec fn forest_holds(
    s: Store,
    peaks: Seq<Seq<u8>>,
    n: nat,
    leaves: Seq<Seq<u8>>,
    lev: nat,
) -> bool
    decreases n,
{
    if n == 0 {
        peaks.len() == 0 && leaves.len() == 0
    } else if n % 2 == 1 {
        &&& peaks.len() >= 1
        &&& leaves.len() >= pow2(lev)
        &&& tree_holds(s, peaks.last(), lev, leaves.skip(leaves.len() - pow2(lev)))
        &&& forest_holds(
            s,
            peaks.drop_last(),
            n / 2,
            leaves.take(leaves.len() - pow2(lev)),
            lev + 1,
        )
    } else {
        forest_holds(s, peaks, n / 2, leaves, lev + 1)
    }
}

/// A held forest has one peak per set bit of its count and exactly
/// `n * pow2(lev)` leaves.
pub proof fn lemma_forest_len(
    s: Store,
    peaks: Seq<Seq<u8>>,
    n: nat,
    leaves: Seq<Seq<u8>>,
    lev: nat,
)
    requires
        forest_holds(s, peaks, n, leaves, lev),
    ensures
        peaks.len() == popcount(n),
        leaves.len() == n * pow2(lev),
    decreases n,
{
    lemma_popcount_unfold(n);
    lemma_pow2_pos(lev);
    lemma_pow2_unfold(lev + 1);
    lemma_fundamental_div_mod(n as int, 2);
    if n == 0 {
        assert(popcount(0) == 0) by {
            lemma2_to64();
            crate::bits::lemma_popcount_bound(0, 0);
        }
        assert(0 * pow2(lev) == 0) by (nonlinear_arith);
    } else if n % 2 == 1 {
        lemma_forest_len(
            s,
            peaks.drop_last(),
            n / 2,
            leaves.take(leaves.len() - pow2(lev)),
            lev + 1,
        );
        assert(leaves.len() == n * pow2(lev)) by (nonlinear_arith)
            requires
                leaves.len() >= pow2(lev),
                leaves.len() - pow2(lev) == (n / 2) * pow2(lev + 1),
                pow2(lev + 1) == 2 * pow2(lev),
                n as int == 2 * (n / 2) + 1,
        ;
    } else {
        lemma_forest_len(s, peaks, n / 2, leaves, lev + 1);
        assert(leaves.len() == n * pow2(lev)) by (nonlinear_arith)
            requires
                leaves.len() == (n / 2) * pow2(lev + 1),
                pow2(lev + 1) == 2 * pow2(lev),
                n as int == 2 * (n / 2),
        ;
    }
}

/// A held forest survives any growth of the store.
pub proof fn lemma_forest_monotone(
    s1: Store,
    s2: Store,
    peaks: Seq<Seq<u8>>,
    n: nat,
    leaves: Seq<Seq<u8>>,
    lev: nat,
)
    requires
        forest_holds(s1, peaks, n, leaves, lev),
        store_extends(s2, s1),
    ensures
        forest_holds(s2, peaks, n, leaves, lev),
    decreases n,
{
    if n == 0 {
    } else if n % 2 == 1 {
        lemma_tree_monotone(
            s1,
            s2,
            peaks.last(),
            lev,
            leaves.skip(leaves.len() - pow2(lev)),
        );
        lemma_forest_monotone(
            s1,
            s2,
            peaks.drop_last(),
            n / 2,
            leaves.take(leaves.len() - pow2(lev)),
            lev + 1,
        );
    } else {
        lemma_forest_monotone(s1, s2, peaks, n / 2, leaves, lev + 1);
    }
}

/// In a held forest, the path-resolution formulas pick out a peak and an
/// offset whose walk reaches exactly the indexed leaf.
pub proof fn lemma_forest_lookup(
    s: Store,
    peaks: Seq<Seq<u8>>,
    n: nat,
    leaves: Seq<Seq<u8>>,
    lev: nat,
    i: nat,
)
    requires
        forest_holds(s, peaks, n, leaves, lev),
        i < leaves.len(),
    ensures
        ({
            let nn = n * pow2(lev);
            let h = split_height(i, nn);
            let pk = popcount(nn) - popcount(nn % pow2(h)) - 1;
            &&& 0 <= pk < peaks.len()
            &&& walk_from(s, peaks[pk], i % pow2(h), h) == Some(leaves[i as int])
        }),
    decreases n,
{
    lemma_forest_len(s, peaks, n, leaves, lev);
    let nn = n * pow2(lev);
    lemma_popcount_shift(n, lev);
    lemma_pow2_pos(lev);
    lemma_pow2_unfold(lev + 1);
    if n == 0 {
        // no leaves, nothing to look up
    } else if n % 2 == 0 {
        lemma_forest_lookup(s, peaks, n / 2, leaves, lev + 1, i);
        lemma_fundamental_div_mod(n as int, 2);
        assert((n / 2) * pow2(lev + 1) == nn) by (nonlinear_arith)
            requires
                nn == n * pow2(lev),
                pow2(lev + 1) == 2 * pow2(lev),
                n as int == 2 * (n / 2),
        ;
    } else {
        let base = (leaves.len() - pow2(lev)) as nat;
        assert(base == (n - 1) * pow2(lev)) by (nonlinear_arith)
            requires
                base == leaves.len() - pow2(lev),
                leaves.len() == n * pow2(lev),
                n >= 1,
        ;
        lemma_mul_pow2_div(n, lev);
        lemma_mul_pow2_div((n - 1) as nat, lev);
        lemma_fundamental_div_mod(n as int, 2);
        lemma_fundamental_div_mod_converse((n - 1) as int, 2, (n / 2) as int, 0);
        assert(popcount(0) == 0) by {
            lemma2_to64();
            lemma_popcount_bound(0, 0);
        }
        if i >= base {
            // The query lands in the last (shortest) tree.
            let off = (i - base) as nat;
            lemma_fundamental_div_mod_converse(
                i as int,
                pow2(lev) as int,
                (n - 1) as int,
                off as int,
            );
            lemma_div_pow2_chain(i, lev);
            lemma_div_pow2_chain(nn, lev);
            lemma_split_height_unique(i, nn, lev);
            lemma_tree_walk(s, peaks.last(), lev, leaves.skip(base as int), off);
            assert(split_height(i, nn) == lev);
            assert(nn % pow2(lev) == 0);
            assert(popcount(nn) - popcount(nn % pow2(lev)) - 1 == peaks.len() - 1);
            assert(i % pow2(lev) == off);
            assert(walk_from(s, peaks.last(), off, lev) == Some(leaves.skip(base as int)[off as int]));
            assert(leaves.skip(base as int)[off as int] == leaves[i as int]);
        } else {
            // The query lands in the taller trees: strip the last one.
            let leaves2 = leaves.take(base as int);
            lemma_forest_lookup(s, peaks.drop_last(), n / 2, leaves2, lev + 1, i);
            lemma_forest_len(s, peaks.drop_last(), n / 2, leaves2, lev + 1);
            assert((n / 2) * pow2(lev + 1) == base) by (nonlinear_arith)
                requires
                    base == (n - 1) as nat * pow2(lev),
                    pow2(lev + 1) == 2 * pow2(lev),
                    (n - 1) as int == 2 * (n / 2),
            ;
            lemma_split_height_strip(i, n, lev);
            let h = split_height(i, nn);
            lemma_split_height_congruence(i, (n / 2) * pow2(lev + 1), i, base);
            assert(split_height(i, (n / 2) * pow2(lev + 1)) == h);
            lemma_popcount_strip_low_tree(n, lev, h);
            lemma_popcount_congruence((n / 2) * pow2(lev + 1), (n - 1) as nat * pow2(lev));
            lemma_popcount_congruence(
                ((n / 2) * pow2(lev + 1)) % pow2(h),
                ((n - 1) as nat * pow2(lev)) % pow2(h),
            );
            let pk = popcount(nn) - popcount(nn % pow2(h)) - 1;
            assert(popcount((n / 2) * pow2(lev + 1)) == popcount(nn) - 1);
            assert(popcount(((n / 2) * pow2(lev + 1)) % pow2(h)) == popcount(nn % pow2(h)) - 1);
            assert(0 <= pk < peaks.len() - 1);
            assert(peaks.drop_last()[pk] == peaks[pk]);
            assert(walk_from(s, peaks[pk], i % pow2(h), h) == Some(leaves2[i as int]));
            assert(leaves2[i as int] == leaves[i as int]);
        }
    }
}


/// A slice taken inside a prefix is the same slice of the full sequence.
proof fn lemma_subrange_of_take(l: Seq<Seq<u8>>, cut: int, a: int, b: int)
    requires
        0 <= a <= b <= cut <= l.len(),
    ensures
        l.take(cut).subrange(a, b) == l.subrange(a, b),
{
    assert(l.take(cut).subrange(a, b) =~= l.subrange(a, b));
}

/// Equal references and equal leaf slices name the same held subtree.
proof fn lemma_tree_congruence(
    s: Store,
    c1: Seq<u8>,
    c2: Seq<u8>,
    h1: nat,
    h2: nat,
    l1: Seq<Seq<u8>>,
    l2: Seq<Seq<u8>>,
)
    requires
        c1 == c2,
        h1 == h2,
        l1 == l2,
        tree_holds(s, c1, h1, l1),
    ensures
        tree_holds(s, c2, h2, l2),
    decreases h1,
{
    if h1 == 0 {
    } else {
        let half = pow2((h1 - 1) as nat) as int;
        assert(pow2((h1 - 1) as nat) == pow2((h2 - 1) as nat));
        let p = pair_at(s, c1).unwrap();
        lemma_tree_congruence(
            s,
            p.0,
            p.0,
            (h1 - 1) as nat,
            (h2 - 1) as nat,
            l1.take(half),
            l2.take(half),
        );
        lemma_tree_congruence(
            s,
            p.1,
            p.1,
            (h1 - 1) as nat,
            (h2 - 1) as nat,
            l1.skip(half),
            l2.skip(half),
        );
    }
}

/// Equal peak lists and equal leaf sequences name the same held forest.
proof fn lemma_forest_congruence(
    s: Store,
    p1: Seq<Seq<u8>>,
    p2: Seq<Seq<u8>>,
    n1: nat,
    n2: nat,
    l1: Seq<Seq<u8>>,
    l2: Seq<Seq<u8>>,
    lev: nat,
)
    requires
        p1 == p2,
        n1 == n2,
        l1 == l2,
        forest_holds(s, p1, n1, l1, lev),
    ensures
        forest_holds(s, p2, n2, l2, lev),
    decreases n1,
{
    if n1 == 0 {
    } else if n1 % 2 == 1 {
        let cut = (l1.len() - pow2(lev)) as int;
        lemma_tree_congruence(s, p1.last(), p2.last(), lev, lev, l1.skip(cut), l2.skip(cut));
        lemma_forest_congruence(
            s,
            p1.drop_last(),
            p2.drop_last(),
            n1 / 2,
            n2 / 2,
            l1.take(cut),
            l2.take(cut),
            lev + 1,
        );
    } else {
        lemma_forest_congruence(s, p1, p2, n1 / 2, n2 / 2, l1, l2, lev + 1);
    }
}

/// Peeling the trailing-one levels off a held forest: each of the last `j`
/// peaks is a tree of increasing height over the tail of the leaves, and the
/// rest of the peaks form the forest of the shifted count.
proof fn lemma_forest_peel(
    s: Store,
    peaks: Seq<Seq<u8>>,
    n: nat,
    leaves: Seq<Seq<u8>>,
    lev: nat,
    j: nat,
)
    requires
        forest_holds(s, peaks, n, leaves, lev),
        j <= trailing_ones(n),
    ensures
        j <= peaks.len(),
        leaves.len() >= pow2(lev) * ((pow2(j) - 1) as nat),
        forest_holds(
            s,
            peaks.take(peaks.len() - j),
            n / pow2(j),
            leaves.take(leaves.len() - (pow2(lev) * ((pow2(j) - 1) as nat))),
            lev + j,
        ),
        forall|x: nat|
            x < j ==> #[trigger] tree_holds(
                s,
                peaks[peaks.len() - 1 - x],
                lev + x,
                leaves.subrange(
                    leaves.len() - (pow2(lev) * ((pow2(x + 1) - 1) as nat)),
                    leaves.len() - (pow2(lev) * ((pow2(x) - 1) as nat)),
                ),
            ),
    decreases j,
{
    lemma_forest_len(s, peaks, n, leaves, lev);
    lemma_trailing_ones_le_popcount(n);
    lemma_trailing_ones_unfold(n);
    lemma_pow2_pos(lev);
    assert(pow2(0) == 1) by {
        lemma2_to64();
    }
    if j == 0 {
        assert(peaks.take(peaks.len() as int) =~= peaks);
        assert(pow2(lev) * ((pow2(0) - 1) as nat) == 0) by (nonlinear_arith)
            requires
                pow2(0) == 1,
        ;
        assert(leaves.take(leaves.len() as int) =~= leaves);
        lemma_div_basics(n as int);
    } else {
        // n is odd here: there is at least one trailing one.
        let cut = (leaves.len() - pow2(lev)) as int;
        let inner_leaves = leaves.take(cut);
        lemma_forest_peel(s, peaks.drop_last(), n / 2, inner_leaves, lev + 1, (j - 1) as nat);
        lemma_pow2_unfold(lev + 1);
        lemma_pow2_unfold(j);
        lemma_pow2_pos((j - 1) as nat);
        // 2^lev + 2^(lev+1) * (2^(j-1) - 1) == 2^lev * (2^j - 1)
        assert(pow2(lev) + pow2(lev + 1) * ((pow2((j - 1) as nat) - 1) as nat) == pow2(lev) * ((
        pow2(j) - 1) as nat)) by (nonlinear_arith)
            requires
                pow2(lev + 1) == 2 * pow2(lev),
                pow2(j) == 2 * pow2((j - 1) as nat),
                pow2((j - 1) as nat) >= 1,
        ;
        let inner_cut = (inner_leaves.len() - (pow2(lev + 1) * ((pow2((j - 1) as nat)
            - 1) as nat))) as int;
        let outer_cut = (leaves.len() - (pow2(lev) * ((pow2(j) - 1) as nat))) as int;
        assert(inner_cut == outer_cut);
        assert(peaks.drop_last().take(peaks.drop_last().len() - (j - 1)) =~= peaks.take(
            peaks.len() - j,
        ));
        assert(inner_leaves.take(inner_cut) =~= leaves.take(outer_cut));
        lemma_div_pow2_chain(n, 0);
        lemma_div_basics(n as int);
        assert((n / 2) / pow2((j - 1) as nat) == n / pow2(j)) by {
            crate::bits::lemma_div_pow2_succ(n, (j - 1) as nat);
        }
        lemma_forest_congruence(
            s,
            peaks.drop_last().take(peaks.drop_last().len() - (j - 1)),
            peaks.take(peaks.len() - j),
            (n / 2) / pow2((j - 1) as nat),
            (n / 2) / pow2((j - 1) as nat),
            inner_leaves.take(inner_cut),
            leaves.take(outer_cut),
            lev + j,
        );
        crate::bits::lemma_popcount_congruence((n / 2) / pow2((j - 1) as nat), n / pow2(j));
        assert(forest_holds(
            s,
            peaks.take(peaks.len() - j),
            n / pow2(j),
            leaves.take(outer_cut),
            lev + j,
        )) by {
            lemma_forest_congruence(
                s,
                peaks.take(peaks.len() - j),
                peaks.take(peaks.len() - j),
                (n / 2) / pow2((j - 1) as nat),
                n / pow2(j),
                leaves.take(outer_cut),
                leaves.take(outer_cut),
                lev + j,
            );
        }
        assert forall|x: nat| x < j implies #[trigger] tree_holds(
            s,
            peaks[peaks.len() - 1 - x],
            lev + x,
            leaves.subrange(
                leaves.len() - (pow2(lev) * ((pow2(x + 1) - 1) as nat)),
                leaves.len() - (pow2(lev) * ((pow2(x) - 1) as nat)),
            ),
        ) by {
            if x == 0 {
                assert(pow2(1) == 2) by {
                    lemma2_to64();
                }
                assert(pow2(lev) * ((pow2(1) - 1) as nat) == pow2(lev)) by (nonlinear_arith)
                    requires
                        pow2(1) == 2,
                ;
                assert(pow2(lev) * ((pow2(0) - 1) as nat) == 0) by (nonlinear_arith)
                    requires
                        pow2(0) == 1,
                ;
                assert(leaves.subrange(cut, leaves.len() as int) =~= leaves.skip(cut));
                lemma_tree_congruence(
                    s,
                    peaks.last(),
                    peaks[peaks.len() - 1],
                    lev,
                    lev,
                    leaves.skip(cut),
                    leaves.subrange(
                        leaves.len() - (pow2(lev) * ((pow2(1) - 1) as nat)),
                        leaves.len() - (pow2(lev) * ((pow2(0) - 1) as nat)),
                    ),
                );
            } else {
                let y = (x - 1) as nat;
                assert(tree_holds(
                    s,
                    peaks.drop_last()[peaks.drop_last().len() - 1 - y],
                    lev + 1 + y,
                    inner_leaves.subrange(
                        inner_leaves.len() - (pow2(lev + 1) * ((pow2(y + 1) - 1) as nat)),
                        inner_leaves.len() - (pow2(lev + 1) * ((pow2(y) - 1) as nat)),
                    ),
                ));
                assert(pow2(x + 1) == 2 * pow2(y + 1)) by {
                    lemma_pow2_unfold(x + 1);
                }
                assert(pow2(x) == 2 * pow2(y)) by {
                    lemma_pow2_unfold(x);
                }
                lemma_pow2_pos(y);
                lemma_pow2_pos(y + 1);
                assert(pow2(lev) + pow2(lev + 1) * ((pow2(y + 1) - 1) as nat) == pow2(lev) * ((
                pow2(x + 1) - 1) as nat)) by (nonlinear_arith)
                    requires
                        pow2(lev + 1) == 2 * pow2(lev),
                        pow2(x + 1) == 2 * pow2(y + 1),
                        pow2(y + 1) >= 1,
                ;
                assert(pow2(lev) + pow2(lev + 1) * ((pow2(y) - 1) as nat) == pow2(lev) * ((pow2(
                    x,
                ) - 1) as nat)) by (nonlinear_arith)
                    requires
                        pow2(lev + 1) == 2 * pow2(lev),
                        pow2(x) == 2 * pow2(y),
                        pow2(y) >= 1,
                ;
                if x + 1 < j {
                    lemma_pow2_strictly_increases(x + 1, j);
                }
                assert(pow2(lev) * ((pow2(x + 1) - 1) as nat) <= pow2(lev) * ((pow2(j)
                    - 1) as nat)) by (nonlinear_arith)
                    requires
                        pow2(x + 1) <= pow2(j),
                        pow2(x + 1) >= 1,
                        pow2(lev) >= 1,
                ;
                if y + 1 < j - 1 {
                    lemma_pow2_strictly_increases(y + 1, (j - 1) as nat);
                }
                assert(pow2(lev + 1) * ((pow2(y + 1) - 1) as nat) <= pow2(lev + 1) * ((pow2((j
                    - 1) as nat) - 1) as nat)) by (nonlinear_arith)
                    requires
                        pow2(y + 1) <= pow2((j - 1) as nat),
                        pow2(y + 1) >= 1,
                        pow2(lev + 1) >= 1,
                ;
                lemma_pow2_strictly_increases(y, y + 1);
                assert(pow2(lev + 1) * ((pow2(y + 1) - 1) as nat) >= pow2(lev + 1) * ((pow2(y)
                    - 1) as nat)) by (nonlinear_arith)
                    requires
                        pow2(y) <= pow2(y + 1),
                        pow2(y) >= 1,
                        pow2(lev + 1) >= 1,
                ;
                let a_in = inner_leaves.len() - (pow2(lev + 1) * ((pow2(y + 1) - 1) as nat));
                let b_in = inner_leaves.len() - (pow2(lev + 1) * ((pow2(y) - 1) as nat));
                let a_out = leaves.len() - (pow2(lev) * ((pow2(x + 1) - 1) as nat));
                let b_out = leaves.len() - (pow2(lev) * ((pow2(x) - 1) as nat));
                assert(a_in == a_out && b_in == b_out);
                lemma_subrange_of_take(leaves, cut, a_in, b_in);
                assert(inner_leaves.subrange(a_in, b_in) == leaves.subrange(a_out, b_out));
                lemma_tree_congruence(
                    s,
                    peaks.drop_last()[peaks.drop_last().len() - 1 - y],
                    peaks[peaks.len() - 1 - x],
                    lev + 1 + y,
                    lev + x,
                    inner_leaves.subrange(
                        inner_leaves.len() - (pow2(lev + 1) * ((pow2(y + 1) - 1) as nat)),
                        inner_leaves.len() - (pow2(lev + 1) * ((pow2(y) - 1) as nat)),
                    ),
                    leaves.subrange(
                        leaves.len() - (pow2(lev) * ((pow2(x + 1) - 1) as nat)),
                        leaves.len() - (pow2(lev) * ((pow2(x) - 1) as nat)),
                    ),
                );
            }
        }
    }
}


/// The merge chain builds one perfect tree over the freshly pushed leaf and
/// the trees peeled off the old forest's trailing ones.
proof fn lemma_merged_tree(
    s1: Store,
    s2: Store,
    v: Seq<Seq<u8>>,
    leaf_c: Seq<u8>,
    data: Seq<u8>,
    leaves: Seq<Seq<u8>>,
    x: nat,
)
    requires
        store_extends(s2, s1),
        block_at(s2, leaf_c) == Some(data),
        x <= v.len(),
        leaves.len() + 1 >= pow2(x),
        forall|y: nat|
            y < x ==> #[trigger] tree_holds(
                s1,
                v[v.len() - 1 - y],
                y,
                leaves.subrange(
                    leaves.len() - ((pow2(y + 1) - 1) as int),
                    leaves.len() - ((pow2(y) - 1) as int),
                ),
            ),
        forall|q: int|
            0 <= q < x ==> #[trigger] pair_at(s2, merged_root(v, leaf_c, (q + 1) as nat)) == Some(
                (v[v.len() - 1 - q], merged_root(v, leaf_c, q as nat)),
            ),
    ensures
        tree_holds(
            s2,
            merged_root(v, leaf_c, x),
            x,
            leaves.push(data).skip(leaves.len() + 1 - pow2(x)),
        ),
    decreases x,
{
    let lv = leaves.push(data);
    let ll = leaves.len() as int;
    assert(pow2(0) == 1) by {
        lemma2_to64();
    }
    if x == 0 {
        assert(lv.skip(ll) =~= seq![data]);
        assert(tree_holds(s2, leaf_c, 0, lv.skip(ll)));
    } else {
        let half = pow2((x - 1) as nat);
        lemma_pow2_pos((x - 1) as nat);
        lemma_pow2_unfold(x);
        lemma_merged_tree(s1, s2, v, leaf_c, data, leaves, (x - 1) as nat);
        let y: nat = (x - 1) as nat;
        let q: int = x - 1;
        let left_c = v[v.len() - 1 - y];
        let right_c = merged_root(v, leaf_c, y);
        assert(pair_at(s2, merged_root(v, leaf_c, (q + 1) as nat)) == Some(
            (v[v.len() - 1 - q], merged_root(v, leaf_c, q as nat)),
        ));
        lemma_merged_root_congruence(v, v, leaf_c, leaf_c, (q + 1) as nat, x);
        lemma_merged_root_congruence(v, v, leaf_c, leaf_c, q as nat, y);
        assert(pair_at(s2, merged_root(v, leaf_c, x)) == Some((left_c, right_c)));
        assert(pow2(y + 1) == pow2(x));
        let left_slice = leaves.subrange(ll - ((pow2(x) - 1) as int), ll - ((half - 1) as int));
        assert(tree_holds(
            s1,
            v[v.len() - 1 - y],
            y,
            leaves.subrange(
                ll - ((pow2(y + 1) - 1) as int),
                ll - ((pow2(y) - 1) as int),
            ),
        ));
        lemma_tree_congruence(
            s1,
            v[v.len() - 1 - y],
            left_c,
            y,
            y,
            leaves.subrange(ll - ((pow2(y + 1) - 1) as int), ll - ((pow2(y) - 1) as int)),
            left_slice,
        );
        lemma_tree_monotone(s1, s2, left_c, y, left_slice);
        let whole = lv.skip(ll + 1 - pow2(x));
        assert(whole.take(half as int) =~= left_slice);
        assert(whole.skip(half as int) =~= lv.skip(ll + 1 - half));
        lemma_tree_congruence(
            s2,
            left_c,
            left_c,
            (x - 1) as nat,
            (x - 1) as nat,
            left_slice,
            whole.take(half as int),
        );
        lemma_tree_congruence(
            s2,
            right_c,
            right_c,
            (x - 1) as nat,
            (x - 1) as nat,
            lv.skip(ll + 1 - half),
            whole.skip(half as int),
        );
        assert(tree_holds(s2, merged_root(v, leaf_c, x), x, whole));
    }
}

/// Climbing back down through clear low bits of the count: a forest at a
/// high level is the same forest at any lower level whose bits are zero.
proof fn lemma_forest_unshift(
    s: Store,
    peaks: Seq<Seq<u8>>,
    m: nat,
    leaves: Seq<Seq<u8>>,
    lev: nat,
    t: nat,
)
    requires
        lev <= t,
        forest_holds(s, peaks, m / pow2(t), leaves, t),
        forall|x: nat| lev <= x < t ==> ((m / pow2(x)) % 2 == 0),
    ensures
        forest_holds(s, peaks, m / pow2(lev), leaves, lev),
    decreases t - lev,
{
    if lev < t {
        lemma_forest_unshift(s, peaks, m, leaves, lev + 1, t);
        lemma_div_pow2_chain(m, lev);
        let c = m / pow2(lev);
        if c == 0 {
            assert(forest_holds(s, peaks, c / 2, leaves, lev + 1));
        }
        lemma_forest_congruence(
            s,
            peaks,
            peaks,
            m / pow2(lev + 1),
            c / 2,
            leaves,
            leaves,
            lev + 1,
        );
        assert(forest_holds(s, peaks, c, leaves, lev));
    }
}


/// The level-zero scale factor drops out of a tail slice's bounds.
proof fn lemma_scale_free_subrange(l: Seq<Seq<u8>>, y: nat)
    requires
        l.len() >= pow2(y + 1) - 1,
    ensures
        l.subrange(
            l.len() - (pow2(0) * ((pow2(y + 1) - 1) as nat)),
            l.len() - (pow2(0) * ((pow2(y) - 1) as nat)),
        ) == l.subrange(l.len() - ((pow2(y + 1) - 1) as int), l.len() - ((pow2(y) - 1) as int)),
{
    assert(pow2(0) == 1) by {
        lemma2_to64();
    }
    lemma_pow2_pos(y);
    lemma_pow2_pos(y + 1);
    lemma_pow2_strictly_increases(y, y + 1);
    assert(pow2(0) * ((pow2(y + 1) - 1) as nat) == (pow2(y + 1) - 1) as nat) by (nonlinear_arith)
        requires
            pow2(0) == 1,
    ;
    assert(pow2(0) * ((pow2(y) - 1) as nat) == (pow2(y) - 1) as nat) by (nonlinear_arith)
        requires
            pow2(0) == 1,
    ;
    let a1 = l.len() - (pow2(0) * ((pow2(y + 1) - 1) as nat));
    let a2 = l.len() - ((pow2(y + 1) - 1) as int);
    let b1 = l.len() - (pow2(0) * ((pow2(y) - 1) as nat));
    let b2 = l.len() - ((pow2(y) - 1) as int);
    assert(a1 == a2);
    assert(b1 == b2);
    assert(l.subrange(a1, b1) == l.subrange(a2, b2));
    assert(l.subrange(
        l.len() - (pow2(0) * ((pow2(y + 1) - 1) as nat)),
        l.len() - (pow2(0) * ((pow2(y) - 1) as nat)),
    ) == l.subrange(l.len() - ((pow2(y + 1) - 1) as int), l.len() - ((pow2(y) - 1) as int)));
}

/// Pushing one value onto a held forest yields a held forest over one more
/// leaf: the appended block stands as a height-zero tree, the carry merges
/// build one taller tree out of the trailing peaks, and nothing already held
/// is disturbed.
pub proof fn lemma_push_preserves_forest(
    s1: Store,
    s2: Store,
    v: Seq<Seq<u8>>,
    n: u64,
    leaves: Seq<Seq<u8>>,
    data: Seq<u8>,
)
    requires
        forest_holds(s1, v, n as nat, leaves, 0),
        store_extends(s2, s1),
        n < u64::MAX,
        block_at(s2, crate::store::block_commitment(data)) == Some(data),
        forall|x: int|
            0 <= x < trailing_ones(n as nat) ==> #[trigger] pair_at(
                s2,
                merged_root(v, crate::store::block_commitment(data), (x + 1) as nat),
            ) == Some(
                (
                    v[v.len() - 1 - x],
                    merged_root(v, crate::store::block_commitment(data), x as nat),
                ),
            ),
    ensures
        forest_holds(
            s2,
            pushed_peaks(v, crate::store::block_commitment(data), n),
            n as nat + 1,
            leaves.push(data),
            0,
        ),
{
    let lf = crate::store::block_commitment(data);
    let t = trailing_ones(n as nat);
    let lv = leaves.push(data);
    lemma_forest_len(s1, v, n as nat, leaves, 0);
    assert(pow2(0) == 1) by {
        lemma2_to64();
    }
    assert((n as nat) * pow2(0) == n as nat) by (nonlinear_arith)
        requires
            pow2(0) == 1,
    ;
    lemma_trailing_ones_le_popcount(n as nat);
    lemma_forest_peel(s1, v, n as nat, leaves, 0, t);
    lemma_trailing_ones_carry(n as nat, t);
    lemma_pow2_pos(t);
    // n + 1 is at least pow2(t): its quotient by pow2(t) is positive.
    lemma_fundamental_div_mod((n + 1) as int, pow2(t) as int);
    assert((n as nat) + 1 >= pow2(t)) by (nonlinear_arith)
        requires
            (n as nat) + 1 == pow2(t) * (((n as nat) + 1) / pow2(t)) + ((n as nat) + 1) % pow2(t),
            ((n as nat) + 1) / pow2(t) >= 1,
            ((n as nat) + 1) % pow2(t) >= 0,
            pow2(t) >= 1,
    ;
    // Clean the peeled trees of their level-zero scale factors.
    assert forall|y: nat| y < t implies #[trigger] tree_holds(
        s1,
        v[v.len() - 1 - y],
        y,
        leaves.subrange(
            leaves.len() - ((pow2(y + 1) - 1) as int),
            leaves.len() - ((pow2(y) - 1) as int),
        ),
    ) by {
        assert(tree_holds(
            s1,
            v[v.len() - 1 - y],
            0 + y,
            leaves.subrange(
                leaves.len() - (pow2(0) * ((pow2(y + 1) - 1) as nat)),
                leaves.len() - (pow2(0) * ((pow2(y) - 1) as nat)),
            ),
        ));
        assert(pow2(0) * ((pow2(y + 1) - 1) as nat) == (pow2(y + 1) - 1) as nat)
            by (nonlinear_arith)
            requires
                pow2(0) == 1,
        ;
        assert(pow2(0) * ((pow2(y) - 1) as nat) == (pow2(y) - 1) as nat) by (nonlinear_arith)
            requires
                pow2(0) == 1,
        ;
        if y + 1 < t {
            lemma_pow2_strictly_increases(y + 1, t);
        }
        lemma_pow2_strictly_increases(y, y + 1);
        assert(leaves.len() >= pow2(y + 1) - 1);
        lemma_scale_free_subrange(leaves, y);
        lemma_tree_congruence(
            s1,
            v[v.len() - 1 - y],
            v[v.len() - 1 - y],
            0 + y,
            y,
            leaves.subrange(
                leaves.len() - (pow2(0) * ((pow2(y + 1) - 1) as nat)),
                leaves.len() - (pow2(0) * ((pow2(y) - 1) as nat)),
            ),
            leaves.subrange(
                leaves.len() - ((pow2(y + 1) - 1) as int),
                leaves.len() - ((pow2(y) - 1) as int),
            ),
        );
    }
    lemma_merged_tree(s1, s2, v, lf, data, leaves, t);
    // The residual forest, moved to the grown store.
    let residual = v.take(v.len() - t);
    let cut = (leaves.len() - (pow2(0) * ((pow2(t) - 1) as nat))) as int;
    assert(pow2(0) * ((pow2(t) - 1) as nat) == (pow2(t) - 1) as nat) by (nonlinear_arith)
        requires
            pow2(0) == 1,
    ;
    assert(cut == (n as nat) + 1 - pow2(t));
    lemma_forest_monotone(s1, s2, residual, (n as nat) / pow2(t), leaves.take(cut), 0 + t);
    // Assemble the forest at level t with the odd count (n + 1) / pow2(t).
    let e = (n as nat) / pow2(t);
    let c_t = ((n as nat) + 1) / pow2(t);
    assert(c_t == e + 1);
    assert(e % 2 == 0);
    let peaks2 = residual.push(merged_root(v, lf, t));
    assert(forest_holds(s2, peaks2, c_t, lv, t)) by {
        assert(c_t % 2 == 1);
        assert(peaks2.last() == merged_root(v, lf, t));
        assert(lv.len() == (n as nat) + 1);
        assert(tree_holds(s2, peaks2.last(), t, lv.skip(lv.len() - pow2(t)))) by {
            lemma_tree_congruence(
                s2,
                merged_root(v, lf, t),
                peaks2.last(),
                t,
                t,
                lv.skip(leaves.len() + 1 - pow2(t)),
                lv.skip(lv.len() - pow2(t)),
            );
        }
        assert(peaks2.drop_last() =~= residual);
        assert(lv.take(lv.len() - pow2(t)) =~= leaves.take(cut));
        // The residual count is even, so its forest is also the forest of
        // the halved count one level up.
        assert(forest_holds(s2, residual, e / 2, leaves.take(cut), t + 1));
        lemma_fundamental_div_mod(e as int, 2);
        lemma_fundamental_div_mod_converse(c_t as int, 2, (e / 2) as int, 1);
        assert(c_t / 2 == e / 2);
        lemma_forest_congruence(
            s2,
            residual,
            peaks2.drop_last(),
            e / 2,
            c_t / 2,
            leaves.take(cut),
            lv.take(lv.len() - pow2(t)),
            t + 1,
        );
    }
    // Climb back down through the cleared low bits of n + 1.
    assert forall|x: nat| 0 <= x < t implies ((((n as nat) + 1) / pow2(x)) % 2 == 0) by {
        lemma_trailing_ones_carry(n as nat, x);
        crate::bits::lemma_odd_succ_even((n as nat) / pow2(x));
    }
    lemma_forest_unshift(s2, peaks2, (n as nat) + 1, lv, 0, t);
    lemma_div_basics(((n as nat) + 1) as int);
    // The assembled list is exactly the pushed peaks list.
    lemma_merge_n_shape(v, lf, t);
    lemma_forest_congruence(
        s2,
        peaks2,
        pushed_peaks(v, lf, n),
        ((n as nat) + 1) / pow2(0),
        (n as nat) + 1,
        lv,
        lv,
        0,
    );
}

/// The store `s` backs the state `st` with exactly the values `leaves`, in
/// push order: the handle resolves to a peaks list that holds the forest of
/// those leaf blocks.
pub open spec fn represents(s: Store, st: State, leaves: Seq<Seq<u8>>) -> bool {
    &&& peaks_at(s, st.peaks@) is Some
    &&& st.leaf_count == leaves.len()
    &&& forest_holds(s, st.peaks_seq(s), st.leaf_count as nat, leaves, 0)
}

/// A fresh accumulator represents no values: the empty peaks list is the
/// forest of zero leaves in any store.
pub proof fn lemma_empty_forest(s: Store)
    ensures
        forest_holds(s, Seq::<Seq<u8>>::empty(), 0, Seq::<Seq<u8>>::empty(), 0),
{
}

/// Looking up any in-range index in a represented accumulator finds exactly
/// the value that was pushed at that index: the path resolution formulas,
/// the peak choice and the tree walk all land on the right leaf block.
pub proof fn lemma_lookup_finds_leaf(
    s: Store,
    peaks: Seq<Seq<u8>>,
    n: u64,
    leaves: Seq<Seq<u8>>,
    i: u64,
)
    requires
        forest_holds(s, peaks, n as nat, leaves, 0),
        i < n,
    ensures
        lookup_spec(s, peaks, i, n) == Some(leaves[i as int]),
{
    lemma_forest_len(s, peaks, n as nat, leaves, 0);
    assert(pow2(0) == 1) by {
        lemma2_to64();
    }
    assert((n as nat) * pow2(0) == n as nat) by (nonlinear_arith)
        requires
            pow2(0) == 1,
    ;
    lemma_forest_lookup(s, peaks, n as nat, leaves, 0, i as nat);
    let h0 = split_height(i as nat, (n as nat) * pow2(0));
    let h = split_height(i as nat, n as nat);
    lemma_split_height_congruence(i as nat, (n as nat) * pow2(0), i as nat, n as nat);
    lemma_popcount_congruence((n as nat) * pow2(0), n as nat);
    lemma_popcount_congruence(((n as nat) * pow2(0)) % pow2(h0), (n as nat) % pow2(h));
    let pk = popcount(n as nat) - popcount((n as nat) % pow2(h)) - 1;
    assert(walk_from(s, peaks[pk], (i as nat) % pow2(h0), h0) == Some(leaves[i as int]));
    lemma_walk_congruence(
        s,
        peaks[pk],
        (i as nat) % pow2(h0),
        h0,
        peaks[pk],
        (i as nat) % pow2(h),
        h,
    );
}

/// Equal arguments walk to the same place.  Stated as a lemma so callers can
/// bridge two occurrences whose arguments are only provably equal.
proof fn lemma_walk_congruence(
    s: Store,
    c1: Seq<u8>,
    o1: nat,
    b1: nat,
    c2: Seq<u8>,
    o2: nat,
    b2: nat,
)
    requires
        c1 == c2,
        o1 == o2,
        b1 == b2,
    ensures
        walk_from(s, c1, o1, b1) == walk_from(s, c2, o2, b2),
    decreases b1,
{
    if b1 != 0 {
        assert(pow2((b1 - 1) as nat) == pow2((b2 - 1) as nat));
        match pair_at(s, c1) {
            Some(p) => {
                let bit = (o1 / pow2((b1 - 1) as nat)) % 2;
                let child = if bit == 1 {
                    p.1
                } else {
                    p.0
                };
                lemma_walk_congruence(
                    s,
                    child,
                    o1 % pow2((b1 - 1) as nat),
                    (b1 - 1) as nat,
                    child,
                    o2 % pow2((b2 - 1) as nat),
                    (b2 - 1) as nat,
                );
            },
            None => {},
        }
    }
}

/// One successful push extends what the accumulator represents by exactly
/// the pushed value: the transition promised by the push contract carries a
/// held forest over.
pub proof fn lemma_push_represents(
    s1: Store,
    s2: Store,
    st1: State,
    st2: State,
    leaves: Seq<Seq<u8>>,
    data: Seq<u8>,
)
    requires
        represents(s1, st1, leaves),
        store_extends(s2, s1),
        st1.leaf_count < u64::MAX,
        st2.leaf_count == st1.leaf_count + 1,
        peaks_at(s2, st2.peaks@) is Some,
        st2.peaks_seq(s2) == pushed_peaks(
            st1.peaks_seq(s1),
            crate::store::block_commitment(data),
            st1.leaf_count,
        ),
        block_at(s2, crate::store::block_commitment(data)) == Some(data),
        forall|x: int|
            0 <= x < trailing_ones(st1.leaf_count as nat) ==> #[trigger] pair_at(
                s2,
                merged_root(
                    st1.peaks_seq(s1),
                    crate::store::block_commitment(data),
                    (x + 1) as nat,
                ),
            ) == Some(
                (
                    st1.peaks_seq(s1)[st1.peaks_seq(s1).len() - 1 - x],
                    merged_root(st1.peaks_seq(s1), crate::store::block_commitment(data), x as nat),
                ),
            ),
    ensures
        represents(s2, st2, leaves.push(data)),
{
    lemma_push_preserves_forest(s1, s2, st1.peaks_seq(s1), st1.leaf_count, leaves, data);
    lemma_forest_congruence(
        s2,
        pushed_peaks(st1.peaks_seq(s1), crate::store::block_commitment(data), st1.leaf_count),
        st2.peaks_seq(s2),
        st1.leaf_count as nat + 1,
        st2.leaf_count as nat,
        leaves.push(data),
        leaves.push(data),
        0,
    );
}

/// In a represented accumulator every in-range index looks up to exactly
/// the value that was pushed at it: retrieval preserves order, whatever was
/// pushed afterwards.
pub proof fn lemma_represents_lookup(s: Store, st: State, leaves: Seq<Seq<u8>>, i: u64)
    requires
        represents(s, st, leaves),
        i < st.leaf_count,
    ensures
        lookup_spec(s, st.peaks_seq(s), i, st.leaf_count) == Some(leaves[i as int]),
{
    lemma_lookup_finds_leaf(s, st.peaks_seq(s), st.leaf_count, leaves, i);
}

/// A freshly created accumulator represents the empty sequence of values.
pub proof fn lemma_new_represents(s: Store, st: State)
    requires
        peaks_at(s, st.peaks@) is Some,
        st.leaf_count == 0,
        st.peaks_seq(s) == Seq::<Seq<u8>>::empty(),
    ensures
        represents(s, st, Seq::<Seq<u8>>::empty()),
{
    lemma_empty_forest(s);
    lemma_forest_congruence(
        s,
        Seq::<Seq<u8>>::empty(),
        st.peaks_seq(s),
        0,
        0,
        Seq::<Seq<u8>>::empty(),
        Seq::<Seq<u8>>::empty(),
        0,
    );
}

} // verus!
