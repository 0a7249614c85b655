use vstd::prelude::*;
use crate::jihai::{
    at_least, honor_distance, lemma_at_least_bounds, lemma_at_least_permutation,
    lemma_honor_distance_permutation,
};
use vstd::arithmetic::div_mod::lemma_fundamental_div_mod_converse;
use crate::shanten::{
    choice_shanten, holds_pair, split_allowed, split_cost, split_size, standard_shanten,
    standard_upto, Hand,
};
use crate::suuhai::{
    COMBOS, combo_missing, is_partly_agari, is_split_size, is_valid_combo, least_upto,
    lemma_combo_missing_nonneg, lemma_least_attained, lemma_least_le, lemma_suit_distance_zero,
    lemma_sum_upto_bound, lemma_suit_distance_mirror, lemma_total_mirror, mirror,
    missing, pattern_of, suit_distance, sum_upto, total, within_four,
};

verus! {

/// Asking either engine for zero tiles costs nothing, whatever the counts.
pub proof fn law_distance_of_zero_target(v: Seq<u8>, w: Seq<u8>)
    requires
        v.len() == 9,
    ensures
        suit_distance(v, 0) == 0,
        honor_distance(w, 0) == 0,
{
    lemma_suit_distance_zero(v);
    lemma_at_least_bounds(w, 1, 7);
    lemma_at_least_bounds(w, 2, 7);
    lemma_at_least_bounds(w, 3, 7);
}

proof fn lemma_at_least_drop(v: Seq<u8>, j: int, t: int, n: int)
    requires
        0 <= j < v.len(),
        n <= v.len(),
        v[j] > 0,
    ensures
        at_least(v.update(j, (v[j] - 1) as u8), t, n) <= at_least(v, t, n),
    decreases n,
{
    if n > 0 {
        lemma_at_least_drop(v, j, t, n - 1);
    }
}

/// Taking one honor tile away never brings the honors closer to any target.
pub proof fn law_honor_distance_monotone(v: Seq<u8>, j: int, k: int)
    requires
        v.len() == 7,
        0 <= j < 7,
        v[j] > 0,
        0 <= k,
    ensures
        honor_distance(v.update(j, (v[j] - 1) as u8), k) >= honor_distance(v, k),
{
    lemma_at_least_drop(v, j, 1, 7);
    lemma_at_least_drop(v, j, 2, 7);
    lemma_at_least_drop(v, j, 3, 7);
}

proof fn lemma_suit_distance_nonneg(v: Seq<u8>, k: int)
    ensures
        suit_distance(v, k) >= 0,
{
    lemma_least_attained(v, k, COMBOS as int);
    let c = choose|c: int| 0 <= c < COMBOS && suit_distance(v, k) == combo_missing(v, k, c);
    lemma_combo_missing_nonneg(v, k, c);
}

proof fn lemma_standard_upto_bounds(h: Hand, n: int)
    ensures
        -1 <= standard_upto(h, n) <= 13,
    decreases n,
{
    if n > 0 {
        lemma_standard_upto_bounds(h, n - 1);
        let x = n - 1;
        lemma_suit_distance_nonneg(h.m@, split_size(x / 1000));
        lemma_suit_distance_nonneg(h.p@, split_size((x / 100) % 10));
        lemma_suit_distance_nonneg(h.s@, split_size((x / 10) % 10));
    }
}

proof fn lemma_standard_upto_le(h: Hand, n: int, x: int)
    requires
        0 <= x < n,
    ensures
        standard_upto(h, n) <= choice_shanten(h, x),
    decreases n,
{
    if x < n - 1 {
        lemma_standard_upto_le(h, n - 1, x);
    }
}

/// No hand has a standard shanten below -1.
pub proof fn law_standard_at_least_minus_one(h: Hand)
    ensures
        -1 <= standard_shanten(h) <= 13,
{
    lemma_standard_upto_bounds(h, 10000);
}

proof fn lemma_missing_self(g: Seq<u8>, n: int)
    ensures
        missing(g, g, n) == 0,
    decreases n,
{
    if n > 0 {
        lemma_missing_self(g, n - 1);
    }
}

proof fn lemma_complete_family(v: Seq<u8>)
    requires
        v.len() == 9,
        total(v) == 0 || is_partly_agari(v),
    ensures
        suit_distance(v, total(v)) == 0,
{
    if total(v) == 0 {
        lemma_suit_distance_zero(v);
    } else {
        let c = choose|c: int| is_valid_combo(c) && pattern_of(c) == v;
        lemma_missing_self(v, 9);
        lemma_least_le(v, total(v), COMBOS as int, c);
        lemma_suit_distance_nonneg(v, total(v));
    }
}

proof fn lemma_honor_counts(s: Seq<u8>, n: int)
    requires
        0 <= n <= s.len(),
        forall|i: int| 0 <= i < s.len() ==> s[i] == 0 || s[i] == 2 || s[i] == 3,
    ensures
        sum_upto(s, n) == 2 * at_least(s, 2, n) + at_least(s, 3, n),
        at_least(s, 1, n) == at_least(s, 2, n),
        at_least(s, 3, n) <= at_least(s, 2, n),
    decreases n,
{
    if n > 0 {
        lemma_honor_counts(s, n - 1);
        assert(s[n - 1] == 0 || s[n - 1] == 2 || s[n - 1] == 3);
    }
}

pub open spec fn split_index(k: int) -> int {
    if k % 3 == 0 {
        k / 3
    } else {
        5 + (k - 2) / 3
    }
}

proof fn lemma_split_index(k: int)
    requires
        is_split_size(k),
    ensures
        0 <= split_index(k) < 10,
        split_size(split_index(k)) == k,
{
}

proof fn lemma_decimal_digits(a: int, b: int, c: int, d: int)
    requires
        0 <= a < 10,
        0 <= b < 10,
        0 <= c < 10,
        0 <= d < 10,
    ensures
        ({
            let x = 1000 * a + 100 * b + 10 * c + d;
            &&& 0 <= x < 10000
            &&& x / 1000 == a
            &&& (x / 100) % 10 == b
            &&& (x / 10) % 10 == c
            &&& x % 10 == d
        }),
{
    let x = 1000 * a + 100 * b + 10 * c + d;
    lemma_fundamental_div_mod_converse(x, 1000, a, 100 * b + 10 * c + d);
    lemma_fundamental_div_mod_converse(x, 100, 10 * a + b, 10 * c + d);
    lemma_fundamental_div_mod_converse(10 * a + b, 10, a, b);
    lemma_fundamental_div_mod_converse(x, 10, 100 * a + 10 * b + c, d);
    lemma_fundamental_div_mod_converse(100 * a + 10 * b + c, 10, 10 * a + b, c);
}

proof fn lemma_complete_honors(z: Seq<u8>)
    requires
        z.len() == 7,
        forall|i: int| 0 <= i < 7 ==> z[i] == 0 || z[i] == 2 || z[i] == 3,
        at_least(z, 2, 7) - at_least(z, 3, 7) <= 1,
    ensures
        honor_distance(z, total(z)) == 0,
        total(z) % 3 != 1,
{
    lemma_honor_counts(z, 7);
    lemma_at_least_bounds(z, 3, 7);
}

/// A complete hand has standard shanten -1: each suited family is empty or a partly
/// complete pattern, the honors are triplets and at most one pair (at most one kind
/// held exactly twice), exactly one family holds the hand's pair, and the families
/// hold 14 tiles together.
pub proof fn law_complete_hand_shanten(h: Hand)
    requires
        h.wf(),
        is_split_size(total(h.m@)),
        is_split_size(total(h.p@)),
        is_split_size(total(h.s@)),
        total(h.m@) == 0 || is_partly_agari(h.m@),
        total(h.p@) == 0 || is_partly_agari(h.p@),
        total(h.s@) == 0 || is_partly_agari(h.s@),
        forall|i: int| 0 <= i < 7 ==> h.z@[i] == 0 || h.z@[i] == 2 || h.z@[i] == 3,
        at_least(h.z@, 2, 7) - at_least(h.z@, 3, 7) <= 1,
        holds_pair(total(h.m@)) + holds_pair(total(h.p@)) + holds_pair(total(h.s@)) + holds_pair(
            total(h.z@),
        ) == 1,
        total(h.m@) + total(h.p@) + total(h.s@) + total(h.z@) == 14,
    ensures
        standard_shanten(h) == -1,
{
    let mc = total(h.m@);
    let pc = total(h.p@);
    let sc = total(h.s@);
    let zc = total(h.z@);
    lemma_complete_family(h.m@);
    lemma_complete_family(h.p@);
    lemma_complete_family(h.s@);
    lemma_complete_honors(h.z@);
    lemma_sum_upto_bound(h.m@, 9, 4);
    lemma_sum_upto_bound(h.p@, 9, 4);
    lemma_sum_upto_bound(h.s@, 9, 4);
    lemma_sum_upto_bound(h.z@, 7, 4);
    lemma_split_index(mc);
    lemma_split_index(pc);
    lemma_split_index(sc);
    lemma_split_index(zc);
    lemma_decimal_digits(split_index(mc), split_index(pc), split_index(sc), split_index(zc));
    let x = 1000 * split_index(mc) + 100 * split_index(pc) + 10 * split_index(sc) + split_index(
        zc,
    );
    assert(split_allowed(h, mc, pc, sc, zc));
    assert(choice_shanten(h, x) == -1);
    lemma_standard_upto_le(h, 10000, x);
    lemma_standard_upto_bounds(h, 10000);
}

/// Reading a suited family's ranks backwards (1 for 9, 2 for 8, ...) keeps its
/// distance to every target.
pub proof fn law_suit_distance_mirror(v: Seq<u8>, k: int)
    requires
        v.len() == 9,
    ensures
        suit_distance(mirror(v), k) == suit_distance(v, k),
{
    lemma_suit_distance_mirror(v, k);
}

pub open spec fn same_or_mirrored(a: Seq<u8>, b: Seq<u8>) -> bool {
    a == b || a == mirror(b)
}

proof fn lemma_family_matches(a: Seq<u8>, b: Seq<u8>)
    requires
        b.len() == 9,
        same_or_mirrored(a, b),
    ensures
        total(a) == total(b),
        forall|k: int| #[trigger] suit_distance(a, k) == suit_distance(b, k),
{
    if a != b {
        lemma_total_mirror(b);
        assert forall|k: int| #[trigger] suit_distance(a, k) == suit_distance(b, k) by {
            lemma_suit_distance_mirror(b, k);
        }
    }
}

proof fn lemma_standard_upto_same_costs(h: Hand, g: Hand, n: int)
    requires
        total(g.z@) == total(h.z@),
        forall|k: int| #[trigger] honor_distance(g.z@, k) == honor_distance(h.z@, k),
        total(g.m@) == total(h.m@),
        total(g.p@) == total(h.p@),
        total(g.s@) == total(h.s@),
        forall|k: int| #[trigger] suit_distance(g.m@, k) == suit_distance(h.m@, k),
        forall|k: int| #[trigger] suit_distance(g.p@, k) == suit_distance(h.p@, k),
        forall|k: int| #[trigger] suit_distance(g.s@, k) == suit_distance(h.s@, k),
    ensures
        standard_upto(g, n) == standard_upto(h, n),
    decreases n,
{
    if n > 0 {
        lemma_standard_upto_same_costs(h, g, n - 1);
        let x = n - 1;
        assert(choice_shanten(g, x) == choice_shanten(h, x));
    }
}

/// Standard shanten does not change when any suited families have their ranks read
/// backwards.
pub proof fn law_standard_mirror(h: Hand, g: Hand)
    requires
        g.z == h.z,
        same_or_mirrored(g.m@, h.m@),
        same_or_mirrored(g.p@, h.p@),
        same_or_mirrored(g.s@, h.s@),
    ensures
        standard_shanten(g) == standard_shanten(h),
{
    lemma_family_matches(g.m@, h.m@);
    lemma_family_matches(g.p@, h.p@);
    lemma_family_matches(g.s@, h.s@);
    lemma_standard_upto_same_costs(h, g, 10000);
}

/// Rearranging the seven honor kinds keeps the honor distance to every target.
pub proof fn law_honor_distance_permutation(v: Seq<u8>, w: Seq<u8>, k: int)
    requires
        v.len() == 7,
        w.len() == 7,
        v.to_multiset() == w.to_multiset(),
    ensures
        honor_distance(w, k) == honor_distance(v, k),
{
    lemma_honor_distance_permutation(v, w, k);
}

proof fn lemma_sum_levels(s: Seq<u8>, n: int)
    requires
        0 <= n <= s.len(),
        within_four(s),
    ensures
        sum_upto(s, n) == at_least(s, 1, n) + at_least(s, 2, n) + at_least(s, 3, n) + at_least(
            s,
            4,
            n,
        ),
    decreases n,
{
    if n > 0 {
        lemma_sum_levels(s, n - 1);
        assert(s[n - 1] <= 4);
    }
}

/// Standard shanten does not change when the honor kinds are rearranged.
pub proof fn law_standard_honor_permutation(h: Hand, g: Hand)
    requires
        h.wf(),
        g.wf(),
        g.m == h.m,
        g.p == h.p,
        g.s == h.s,
        g.z@.to_multiset() == h.z@.to_multiset(),
    ensures
        standard_shanten(g) == standard_shanten(h),
{
    lemma_sum_levels(h.z@, 7);
    lemma_sum_levels(g.z@, 7);
    lemma_at_least_permutation(h.z@, g.z@, 1);
    lemma_at_least_permutation(h.z@, g.z@, 2);
    lemma_at_least_permutation(h.z@, g.z@, 3);
    lemma_at_least_permutation(h.z@, g.z@, 4);
    assert forall|k: int| #[trigger] honor_distance(g.z@, k) == honor_distance(h.z@, k) by {
        lemma_honor_distance_permutation(h.z@, g.z@, k);
    }
    lemma_standard_upto_same_costs(h, g, 10000);
}

} // verus!
