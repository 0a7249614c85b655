use vstd::prelude::*;
use crate::text::{counts_text, write_counts};
use vstd::arithmetic::div_mod::lemma_fundamental_div_mod_converse;

verus! {

/// Sum of the first `n` entries of a count vector.
pub open spec fn sum_upto(s: Seq<u8>, n: int) -> int
    decreases n,
{
    if n <= 0 {
        0
    } else {
        sum_upto(s, n - 1) + s[n - 1] as int
    }
}

/// Number of tiles in a count vector.
pub open spec fn total(s: Seq<u8>) -> int {
    sum_upto(s, s.len() as int)
}

/// Every entry is at most four: no tile kind has more copies than exist.
pub open spec fn within_four(s: Seq<u8>) -> bool {
    forall|i: int| 0 <= i < s.len() ==> #[trigger] s[i] <= 4
}

pub open spec fn pow5(n: nat) -> int
    decreases n,
{
    if n == 0 {
        1
    } else {
        5 * pow5((n - 1) as nat)
    }
}

/// The entries read as the digits of a base-5 number, rank 1 lowest.
pub open spec fn radix5(s: Seq<u8>, n: nat) -> int
    decreases n,
{
    if n == 0 {
        0
    } else {
        radix5(s, (n - 1) as nat) + s[n - 1] as int * pow5((n - 1) as nat)
    }
}

pub open spec fn max0(x: int) -> int {
    if x > 0 {
        x
    } else {
        0
    }
}

/// Tiles that `g` holds beyond `v` over the first `n` ranks: the tiles that must be
/// drawn to turn `v` into a superset of `g`, each surplus tile of `v` being discarded.
pub open spec fn missing(g: Seq<u8>, v: Seq<u8>, n: int) -> int
    decreases n,
{
    if n <= 0 {
        0
    } else {
        missing(g, v, n - 1) + max0(g[n - 1] - v[n - 1])
    }
}

/// Copies of rank `i` in group choice `a`: 0 is no group, 1 to 7 the run that starts
/// at rank `a - 1`, 8 to 16 the triplet of rank `a - 8`.
pub open spec fn group_count(a: int, i: int) -> int {
    if 1 <= a <= 7 {
        if a - 1 <= i <= a + 1 {
            1
        } else {
            0
        }
    } else if 8 <= a <= 16 {
        if i == a - 8 {
            3
        } else {
            0
        }
    } else {
        0
    }
}

/// Copies of rank `i` in pair choice `t`: 0 is no pair, 1 to 9 the pair of rank `t - 1`.
pub open spec fn pair_count(t: int, i: int) -> int {
    if 1 <= t <= 9 && i == t - 1 {
        2
    } else {
        0
    }
}

pub const GROUP_CHOICES: u32 = 17;

pub const PAIR_CHOICES: u32 = 10;

/// Four group choices and one pair choice, numbered `10 * (a + 17 b + 289 c + 4913 d) + t`.
pub const COMBOS: u32 = 835210;

/// Copies of rank `i` in the overlay of combination `c`.
pub open spec fn combo_count(c: int, i: int) -> int {
    let r = c / 10;
    group_count(r % 17, i) + group_count((r / 17) % 17, i) + group_count((r / 289) % 17, i)
        + group_count(r / 4913, i) + pair_count(c % 10, i)
}

pub open spec fn pattern_of(c: int) -> Seq<u8> {
    Seq::new(9, |i: int| combo_count(c, i) as u8)
}

/// A combination whose overlay holds no rank more than four times.
pub open spec fn is_valid_combo(c: int) -> bool {
    &&& 0 <= c < COMBOS
    &&& forall|i: int| 0 <= i < 9 ==> #[trigger] combo_count(c, i) <= 4
}

/// A partly complete pattern: at most four runs or triplets and at most one pair,
/// overlaid, with no rank held more than four times.
pub open spec fn is_partly_agari(g: Seq<u8>) -> bool {
    exists|c: int| is_valid_combo(c) && pattern_of(c) == g
}

/// What combination `c` costs toward `k` tiles from `v`; 100 stands for "not a candidate".
pub open spec fn combo_missing(v: Seq<u8>, k: int, c: int) -> int {
    if is_valid_combo(c) && total(pattern_of(c)) == k {
        missing(pattern_of(c), v, 9)
    } else {
        100
    }
}

pub open spec fn least_upto(v: Seq<u8>, k: int, n: int) -> int
    decreases n,
{
    if n <= 0 {
        100
    } else {
        let prev = least_upto(v, k, n - 1);
        let here = combo_missing(v, k, n - 1);
        if here < prev {
            here
        } else {
            prev
        }
    }
}

/// The fewest tiles to draw (discarding as many) to turn `v` into a partly complete
/// pattern of exactly `k` tiles.
pub open spec fn suit_distance(v: Seq<u8>, k: int) -> int {
    least_upto(v, k, COMBOS as int)
}

/// A tile count that a family can contribute to a complete hand.
pub open spec fn is_split_size(k: int) -> bool {
    0 <= k <= 14 && k % 3 != 1
}

/// Tile counts of one suited family, ranks 1 to 9.
#[derive(Clone, Copy, Debug, PartialEq, Eq, Hash, Default)]
pub struct SuuhaiHand(pub [u8; 9]);

impl View for SuuhaiHand {
    type V = Seq<u8>;

    open spec fn view(&self) -> Seq<u8> {
        self.0@
    }
}

pub proof fn lemma_sum_upto_bound(s: Seq<u8>, n: int, b: int)
    requires
        0 <= n <= s.len(),
        0 <= b,
        forall|i: int| 0 <= i < s.len() ==> s[i] <= b,
    ensures
        0 <= sum_upto(s, n) <= b * n,
    decreases n,
{
    if n > 0 {
        lemma_sum_upto_bound(s, n - 1, b);
        assert(s[n - 1] <= b);
        assert(b * (n - 1) + b == b * n) by (nonlinear_arith);
    }
}

pub proof fn lemma_sum_upto_mono(s: Seq<u8>, n: int, m: int)
    requires
        0 <= n <= m <= s.len(),
    ensures
        sum_upto(s, n) <= sum_upto(s, m),
    decreases m,
{
    if n < m {
        lemma_sum_upto_mono(s, n, m - 1);
    }
}

proof fn lemma_pow5_step(n: nat)
    requires
        n <= 8,
    ensures
        pow5(n) <= 390625,
        pow5(n) >= 1,
    decreases n,
{
    reveal_with_fuel(pow5, 10);
    if n > 0 {
        lemma_pow5_step((n - 1) as nat);
    }
}

proof fn lemma_radix5_small(s: Seq<u8>, n: nat)
    requires
        n <= s.len(),
        forall|i: int| 0 <= i < s.len() ==> s[i] <= 4,
    ensures
        0 <= radix5(s, n) < pow5(n),
    decreases n,
{
    if n > 0 {
        let m = (n - 1) as nat;
        lemma_radix5_small(s, m);
        let x = radix5(s, m);
        let d = s[m as int] as int;
        let p = pow5(m);
        assert(x + d * p < 5 * p) by (nonlinear_arith)
            requires
                0 <= x < p,
                0 <= d <= 4,
        ;
        assert(0 <= d * p) by (nonlinear_arith)
            requires
                0 <= d,
                0 <= p,
        ;
    }
}

proof fn lemma_digits_equal(x: int, y: int, a: int, b: int, p: int)
    requires
        0 <= x < p,
        0 <= y < p,
        0 <= a,
        0 <= b,
        x + a * p == y + b * p,
    ensures
        a == b,
        x == y,
{
    if a < b {
        assert(x + a * p < y + b * p) by (nonlinear_arith)
            requires
                0 <= x < p,
                0 <= y,
                a + 1 <= b,
        ;
    } else if b < a {
        assert(y + b * p < x + a * p) by (nonlinear_arith)
            requires
                0 <= y < p,
                0 <= x,
                b + 1 <= a,
        ;
    }
}

/// Two vectors with entries at most four and the same base-5 reading are equal.
pub proof fn lemma_radix5_injective(s: Seq<u8>, t: Seq<u8>, n: nat)
    requires
        n <= s.len(),
        n <= t.len(),
        forall|i: int| 0 <= i < s.len() ==> s[i] <= 4,
        forall|i: int| 0 <= i < t.len() ==> t[i] <= 4,
        radix5(s, n) == radix5(t, n),
    ensures
        forall|i: int| 0 <= i < n ==> s[i] == t[i],
    decreases n,
{
    if n > 0 {
        let m = (n - 1) as nat;
        lemma_radix5_small(s, m);
        lemma_radix5_small(t, m);
        lemma_digits_equal(radix5(s, m), radix5(t, m), s[m as int] as int, t[m as int] as int, pow5(m));
        lemma_radix5_injective(s, t, m);
    }
}

impl SuuhaiHand {
    /// Number of tiles held.
    pub fn count(&self) -> (r: u8)
        requires
            total(self@) <= 255,
        ensures
            r == total(self@),
    {
        let mut sum: u8 = 0;
        let mut i: usize = 0;
        while i < 9
            invariant
                i <= 9,
                self@.len() == 9,
                sum == sum_upto(self@, i as int),
                total(self@) <= 255,
            decreases 9 - i,
        {
            proof {
                lemma_sum_upto_mono(self@, i as int + 1, 9);
            }
            sum = sum + self.0[i];
            i += 1;
        }
        sum
    }

    /// Whether no rank is held more than four times.
    pub fn check(&self) -> (r: bool)
        ensures
            r == within_four(self@),
    {
        let mut i: usize = 0;
        while i < 9
            invariant
                i <= 9,
                self@.len() == 9,
                forall|j: int| 0 <= j < i ==> #[trigger] self@[j] <= 4,
            decreases 9 - i,
        {
            if self.0[i] > 4 {
                return false;
            }
            i += 1;
        }
        true
    }

    /// The counts read as a base-5 number; distinct for distinct vectors whose entries
    /// are at most four.
    pub fn hash(&self) -> (r: u32)
        ensures
            r == radix5(self@, 9),
    {
        let mut h: u32 = 0;
        let mut e: u32 = 1;
        let mut i: usize = 0;
        while i < 9
            invariant
                i <= 9,
                self@.len() == 9,
                h == radix5(self@, i as nat),
                i <= 8 ==> e == pow5(i as nat),
                0 <= h < 64 * pow5(i as nat),
            decreases 9 - i,
        {
            proof {
                lemma_pow5_step(i as nat);
            }
            let d = self.0[i] as u32;
            let ghost hh = h as int;
            let ghost ee = e as int;
            assert(hh + d * ee < 64 * (5 * ee)) by (nonlinear_arith)
                requires
                    0 <= hh < 64 * ee,
                    0 <= d <= 255,
                    1 <= ee,
            ;
            assert(d * ee <= 255 * 390625) by (nonlinear_arith)
                requires
                    0 <= d <= 255,
                    1 <= ee <= 390625,
            ;
            h = h + d * e;
            if i < 8 {
                e = e * 5;
            }
            i += 1;
        }
        h
    }
}


/// `ps` holds every partly complete pattern with at least one tile, and nothing else.
pub open spec fn lists_all_patterns(ps: Seq<SuuhaiHand>) -> bool {
    &&& forall|i: int|
        0 <= i < ps.len() ==> is_partly_agari(#[trigger] ps[i]@) && total(ps[i]@) > 0
            && within_four(ps[i]@)
    &&& forall|g: Seq<u8>|
        #![trigger is_partly_agari(g)]
        is_partly_agari(g) && total(g) > 0 ==> exists|i: int| 0 <= i < ps.len() && ps[i]@ == g
}

pub proof fn lemma_missing_bounds(g: Seq<u8>, v: Seq<u8>, n: int)
    requires
        0 <= n <= g.len(),
    ensures
        0 <= missing(g, v, n) <= sum_upto(g, n),
    decreases n,
{
    if n > 0 {
        lemma_missing_bounds(g, v, n - 1);
    }
}

proof fn lemma_missing_of_empty(g: Seq<u8>, v: Seq<u8>, n: int)
    requires
        0 <= n <= g.len(),
        n <= v.len(),
        forall|i: int| 0 <= i < g.len() ==> g[i] == 0,
    ensures
        missing(g, v, n) == 0,
    decreases n,
{
    if n > 0 {
        lemma_missing_of_empty(g, v, n - 1);
    }
}

pub proof fn lemma_combo_missing_nonneg(v: Seq<u8>, k: int, c: int)
    ensures
        0 <= combo_missing(v, k, c) <= 100,
{
    if is_valid_combo(c) && total(pattern_of(c)) == k {
        lemma_missing_bounds(pattern_of(c), v, 9);
        assert forall|i: int| 0 <= i < 9 implies pattern_of(c)[i] <= 4 by {
            assert(combo_count(c, i) <= 4);
        }
        lemma_sum_upto_bound(pattern_of(c), 9, 4);
    }
}

/// The least cost bounds every candidate's cost from below.
pub proof fn lemma_least_le(v: Seq<u8>, k: int, n: int, c: int)
    requires
        0 <= c < n,
    ensures
        least_upto(v, k, n) <= combo_missing(v, k, c),
    decreases n,
{
    if c < n - 1 {
        lemma_least_le(v, k, n - 1, c);
    }
}

/// The least cost is the cost of some candidate.
pub proof fn lemma_least_attained(v: Seq<u8>, k: int, n: int)
    requires
        0 < n,
    ensures
        exists|c: int| 0 <= c < n && least_upto(v, k, n) == combo_missing(v, k, c),
    decreases n,
{
    if n > 1 {
        lemma_least_attained(v, k, n - 1);
        let c = choose|c: int| 0 <= c < n - 1 && least_upto(v, k, n - 1) == combo_missing(v, k, c);
        if combo_missing(v, k, n - 1) >= least_upto(v, k, n - 1) {
            assert(least_upto(v, k, n) == combo_missing(v, k, c));
        } else {
            assert(least_upto(v, k, n) == combo_missing(v, k, n - 1));
        }
    } else {
        lemma_combo_missing_nonneg(v, k, 0);
        assert(least_upto(v, k, 0) == 100);
        assert(least_upto(v, k, n) == combo_missing(v, k, 0));
    }
}

#[verifier::spinoff_prover]
proof fn lemma_witness(c: int, k: int)
    requires
        0 <= c < COMBOS,
        forall|i: int| 0 <= i < 9 ==> #[trigger] combo_count(c, i) <= 4,
        combo_count(c, 0) + combo_count(c, 1) + combo_count(c, 2) + combo_count(c, 3)
            + combo_count(c, 4) + combo_count(c, 5) + combo_count(c, 6) + combo_count(c, 7)
            + combo_count(c, 8) == k,
    ensures
        is_valid_combo(c),
        total(pattern_of(c)) == k,
{
    reveal_with_fuel(sum_upto, 10);
    assert(pattern_of(c).len() == 9);
}

#[verifier::spinoff_prover]
proof fn lemma_combo_small(c: int)
    requires
        0 <= c < COMBOS,
        c % 10 == 0 || c % 10 == 9,
        (c / 10) % 17 == 0 || (c / 10) % 17 == 8,
        (c / 170) % 17 == 0 || (c / 170) % 17 == 9,
        (c / 2890) % 17 == 0 || (c / 2890) % 17 == 10,
        c / 49130 == 0 || c / 49130 == 11,
    ensures
        forall|i: int| 0 <= i < 9 ==> #[trigger] combo_count(c, i) <= 4,
{
    assert((c / 10) / 17 == c / 170);
    assert((c / 10) / 289 == c / 2890);
    assert((c / 10) / 4913 == c / 49130);
}

/// For every split size some pattern of exactly that many tiles exists.
#[verifier::spinoff_prover]
#[verifier::rlimit(50)]
pub proof fn lemma_pattern_of_size(k: int)
    requires
        is_split_size(k),
    ensures
        exists|c: int| is_valid_combo(c) && total(pattern_of(c)) == k,
{
    if k == 0 {
        lemma_combo_small(0);
        lemma_witness(0, 0);
    } else if k == 2 {
        lemma_combo_small(9);
        lemma_witness(9, 2);
    } else if k == 3 {
        lemma_combo_small(80);
        lemma_witness(80, 3);
    } else if k == 5 {
        lemma_combo_small(89);
        lemma_witness(89, 5);
    } else if k == 6 {
        lemma_combo_small(1610);
        lemma_witness(1610, 6);
    } else if k == 8 {
        lemma_combo_small(1619);
        lemma_witness(1619, 8);
    } else if k == 9 {
        lemma_combo_small(30510);
        lemma_witness(30510, 9);
    } else if k == 11 {
        lemma_combo_small(30519);
        lemma_witness(30519, 11);
    } else if k == 12 {
        lemma_combo_small(570940);
        lemma_witness(570940, 12);
    } else {
        lemma_combo_small(570949);
        lemma_witness(570949, 14);
    }
}

/// The cost toward zero tiles is zero.
pub proof fn lemma_suit_distance_zero(v: Seq<u8>)
    requires
        v.len() == 9,
    ensures
        suit_distance(v, 0) == 0,
{
    lemma_least_le(v, 0, COMBOS as int, 0);
    lemma_least_attained(v, 0, COMBOS as int);
    let c = choose|c: int| 0 <= c < COMBOS && suit_distance(v, 0) == combo_missing(v, 0, c);
    lemma_combo_missing_nonneg(v, 0, c);
    reveal_with_fuel(sum_upto, 10);
    assert(is_valid_combo(0));
    lemma_missing_of_empty(pattern_of(0), v, 9);
}

/// No partly complete pattern of `k` tiles lies further than `k` tiles away.
pub proof fn lemma_suit_distance_bounds(v: Seq<u8>, k: int)
    requires
        is_split_size(k),
    ensures
        0 <= suit_distance(v, k) <= k,
{
    let n = COMBOS as int;
    lemma_pattern_of_size(k);
    let c0 = choose|c: int| is_valid_combo(c) && total(pattern_of(c)) == k;
    lemma_least_le(v, k, n, c0);
    lemma_missing_bounds(pattern_of(c0), v, 9);
    lemma_least_attained(v, k, n);
    let c = choose|c: int| 0 <= c < n && least_upto(v, k, n) == combo_missing(v, k, c);
    lemma_combo_missing_nonneg(v, k, c);
}

/// `suit_distance` is the least number of tiles that `v` lacks of any partly complete
/// pattern of `k` tiles: some such pattern lacks exactly that many, none lacks fewer.
pub proof fn lemma_suit_distance_is_least(v: Seq<u8>, k: int)
    requires
        is_split_size(k),
    ensures
        exists|g: Seq<u8>|
            is_partly_agari(g) && total(g) == k && missing(g, v, 9) == suit_distance(v, k),
        forall|g: Seq<u8>|
            is_partly_agari(g) && total(g) == k ==> suit_distance(v, k) <= #[trigger] missing(
                g,
                v,
                9,
            ),
{
    let n = COMBOS as int;
    lemma_suit_distance_bounds(v, k);
    lemma_least_attained(v, k, n);
    let c = choose|c: int| 0 <= c < n && least_upto(v, k, n) == combo_missing(v, k, c);
    assert(is_partly_agari(pattern_of(c)));
    assert forall|g: Seq<u8>|
        is_partly_agari(g) && total(g) == k implies suit_distance(v, k) <= #[trigger] missing(
            g,
            v,
            9,
        ) by {
        let d = choose|d: int| is_valid_combo(d) && pattern_of(d) == g;
        lemma_least_le(v, k, n, d);
    }
}

/// The vector with its ranks read backwards: rank 1 becomes rank 9.
pub open spec fn mirror(v: Seq<u8>) -> Seq<u8> {
    Seq::new(v.len(), |i: int| v[v.len() - 1 - i])
}

proof fn lemma_sum_mirror_part(v: Seq<u8>, n: int)
    requires
        0 <= n <= v.len(),
    ensures
        sum_upto(mirror(v), n) + sum_upto(v, v.len() - n) == total(v),
    decreases n,
{
    if n > 0 {
        lemma_sum_mirror_part(v, n - 1);
    }
}

/// Reading the ranks backwards keeps the number of tiles.
pub proof fn lemma_total_mirror(v: Seq<u8>)
    ensures
        total(mirror(v)) == total(v),
{
    lemma_sum_mirror_part(v, v.len() as int);
}

proof fn lemma_missing_mirror_part(g: Seq<u8>, v: Seq<u8>, n: int)
    requires
        g.len() == 9,
        v.len() == 9,
        0 <= n <= 9,
    ensures
        missing(mirror(g), mirror(v), n) + missing(g, v, 9 - n) == missing(g, v, 9),
    decreases n,
{
    if n > 0 {
        lemma_missing_mirror_part(g, v, n - 1);
    }
}

/// The mirror image of group choice `a`.
pub open spec fn mirror_group(a: int) -> int {
    if 1 <= a <= 7 {
        8 - a
    } else if 8 <= a <= 16 {
        24 - a
    } else {
        0
    }
}

pub open spec fn mirror_pair(t: int) -> int {
    if 1 <= t <= 9 {
        10 - t
    } else {
        0
    }
}

/// The combination whose overlay is the mirror image of the overlay of `c`.
pub open spec fn mirror_combo(c: int) -> int {
    let r = c / 10;
    10 * (mirror_group(r % 17) + 17 * mirror_group((r / 17) % 17) + 289 * mirror_group(
        (r / 289) % 17,
    ) + 4913 * mirror_group(r / 4913)) + mirror_pair(c % 10)
}

proof fn lemma_mirror_combo_digits(c: int)
    requires
        0 <= c < COMBOS,
    ensures
        0 <= mirror_combo(c) < COMBOS,
        (mirror_combo(c) / 10) % 17 == mirror_group((c / 10) % 17),
        ((mirror_combo(c) / 10) / 17) % 17 == mirror_group(((c / 10) / 17) % 17),
        ((mirror_combo(c) / 10) / 289) % 17 == mirror_group(((c / 10) / 289) % 17),
        (mirror_combo(c) / 10) / 4913 == mirror_group((c / 10) / 4913),
        mirror_combo(c) % 10 == mirror_pair(c % 10),
{
    let r = c / 10;
    let a0 = mirror_group(r % 17);
    let a1 = mirror_group((r / 17) % 17);
    let a2 = mirror_group((r / 289) % 17);
    let a3 = mirror_group(r / 4913);
    assert(r < 83521);
    assert(r / 4913 < 17);
    let big = a0 + 17 * a1 + 289 * a2 + 4913 * a3;
    let m = mirror_combo(c);
    lemma_fundamental_div_mod_converse(m, 10, big, mirror_pair(c % 10));
    lemma_fundamental_div_mod_converse(big, 17, a1 + 17 * a2 + 289 * a3, a0);
    lemma_fundamental_div_mod_converse(a1 + 17 * a2 + 289 * a3, 17, a2 + 17 * a3, a1);
    lemma_fundamental_div_mod_converse(big, 289, a2 + 17 * a3, a0 + 17 * a1);
    lemma_fundamental_div_mod_converse(a2 + 17 * a3, 17, a3, a2);
    lemma_fundamental_div_mod_converse(big, 4913, a3, a0 + 17 * a1 + 289 * a2);
}

proof fn lemma_mirror_combo_count(c: int)
    requires
        0 <= c < COMBOS,
    ensures
        0 <= mirror_combo(c) < COMBOS,
        forall|i: int| 0 <= i < 9 ==> #[trigger] combo_count(mirror_combo(c), i) == combo_count(c, 8 - i),
{
    lemma_mirror_combo_digits(c);
}

proof fn lemma_combo_missing_mirror(v: Seq<u8>, k: int, c: int)
    requires
        v.len() == 9,
        0 <= c < COMBOS,
    ensures
        0 <= mirror_combo(c) < COMBOS,
        combo_missing(mirror(v), k, mirror_combo(c)) == combo_missing(v, k, c),
{
    let d = mirror_combo(c);
    lemma_mirror_combo_count(c);
    assert(pattern_of(d) =~= mirror(pattern_of(c)));
    lemma_total_mirror(pattern_of(c));
    lemma_missing_mirror_part(pattern_of(c), v, 9);
    if is_valid_combo(c) {
        assert forall|i: int| 0 <= i < 9 implies #[trigger] combo_count(d, i) <= 4 by {
            assert(combo_count(c, 8 - i) <= 4);
        }
    }
    if is_valid_combo(d) {
        assert forall|i: int| 0 <= i < 9 implies #[trigger] combo_count(c, i) <= 4 by {
            assert(combo_count(d, 8 - i) <= 4);
        }
    }
}

proof fn lemma_suit_distance_mirror_le(v: Seq<u8>, k: int)
    requires
        v.len() == 9,
    ensures
        suit_distance(mirror(v), k) <= suit_distance(v, k),
{
    let n = COMBOS as int;
    lemma_least_attained(v, k, n);
    let c = choose|c: int| 0 <= c < n && least_upto(v, k, n) == combo_missing(v, k, c);
    lemma_combo_missing_mirror(v, k, c);
    lemma_least_le(mirror(v), k, n, mirror_combo(c));
}

/// Reading a family's ranks backwards keeps its distance to every target.
pub proof fn lemma_suit_distance_mirror(v: Seq<u8>, k: int)
    requires
        v.len() == 9,
    ensures
        suit_distance(mirror(v), k) == suit_distance(v, k),
{
    lemma_suit_distance_mirror_le(v, k);
    lemma_suit_distance_mirror_le(mirror(v), k);
    assert(mirror(mirror(v)) =~= v);
}

fn add_group(h: &mut [u8; 9], a: u32)
    requires
        a < GROUP_CHOICES,
        forall|i: int| 0 <= i < 9 ==> old(h)@[i] <= 9,
    ensures
        forall|i: int|
            0 <= i < 9 ==> #[trigger] final(h)@[i] == old(h)@[i] + group_count(a as int, i),
{
    if 1 <= a && a <= 7 {
        let s = (a - 1) as usize;
        h[s] = h[s] + 1;
        h[s + 1] = h[s + 1] + 1;
        h[s + 2] = h[s + 2] + 1;
    } else if a >= 8 {
        let s = (a - 8) as usize;
        h[s] = h[s] + 3;
    }
}

fn add_pair(h: &mut [u8; 9], t: u32)
    requires
        t < PAIR_CHOICES,
        forall|i: int| 0 <= i < 9 ==> old(h)@[i] <= 12,
    ensures
        forall|i: int|
            0 <= i < 9 ==> #[trigger] final(h)@[i] == old(h)@[i] + pair_count(t as int, i),
{
    if t >= 1 {
        let s = (t - 1) as usize;
        h[s] = h[s] + 2;
    }
}

fn pattern_hand(c: u32) -> (r: SuuhaiHand)
    requires
        c < COMBOS,
    ensures
        r@ == pattern_of(c as int),
{
    let q = c / 10;
    let mut h: [u8; 9] = [0, 0, 0, 0, 0, 0, 0, 0, 0];
    add_group(&mut h, q % 17);
    add_group(&mut h, (q / 17) % 17);
    add_group(&mut h, (q / 289) % 17);
    add_group(&mut h, q / 4913);
    add_pair(&mut h, c % 10);
    assert(h@ =~= pattern_of(c as int));
    SuuhaiHand(h)
}

fn missing_tiles(g: &SuuhaiHand, v: &SuuhaiHand) -> (r: u8)
    requires
        within_four(g@),
    ensures
        r == missing(g@, v@, 9),
{
    let mut m: u8 = 0;
    let mut i: usize = 0;
    while i < 9
        invariant
            i <= 9,
            g@.len() == 9,
            v@.len() == 9,
            within_four(g@),
            m == missing(g@, v@, i as int),
        decreases 9 - i,
    {
        proof {
            lemma_missing_bounds(g@, v@, i as int);
            lemma_sum_upto_bound(g@, i as int, 4);
        }
        if g.0[i] > v.0[i] {
            m = m + (g.0[i] - v.0[i]);
        }
        i += 1;
    }
    m
}

impl SuuhaiHand {
    /// Every partly complete pattern with at least one tile, each once.
    pub fn all_partly_agari_pattern() -> (ret: Vec<SuuhaiHand>)
        ensures
            lists_all_patterns(ret@),
            forall|i: int, j: int| 0 <= i < j < ret.len() ==> ret@[i]@ != ret@[j]@,
    {
        let mut ret: Vec<SuuhaiHand> = Vec::new();
        let mut seen: Vec<bool> = vec![false; 1953125];
        proof {
            reveal_with_fuel(pow5, 10);
        }
        let mut c: u32 = 0;
        while c < COMBOS
            invariant
                c <= COMBOS,
                seen.len() == 1953125,
                pow5(9) == 1953125,
                forall|i: int|
                    0 <= i < ret.len() ==> is_partly_agari(#[trigger] ret@[i]@) && total(ret@[i]@)
                        > 0 && within_four(ret@[i]@),
                forall|x: int|
                    0 <= x < c && is_valid_combo(x) && total(#[trigger] pattern_of(x)) > 0
                        ==> exists|i: int| 0 <= i < ret.len() && ret@[i]@ == pattern_of(x),
                forall|i: int, j: int| 0 <= i < j < ret.len() ==> ret@[i]@ != ret@[j]@,
                forall|i: int|
                    0 <= i < ret.len() ==> 0 <= #[trigger] radix5(ret@[i]@, 9) < 1953125
                        && seen@[radix5(ret@[i]@, 9)],
                forall|h: int|
                    0 <= h < 1953125 && #[trigger] seen@[h] ==> exists|i: int|
                        0 <= i < ret.len() && radix5(ret@[i]@, 9) == h,
            decreases COMBOS - c,
        {
            let hand = pattern_hand(c);
            let ghost old_ret = ret@;
            if hand.check() {
                proof {
                    lemma_sum_upto_bound(hand@, 9, 4);
                    assert(is_valid_combo(c as int)) by {
                        assert forall|i: int| 0 <= i < 9 implies combo_count(c as int, i) <= 4 by {
                            assert(hand@[i] <= 4);
                        }
                    }
                }
                let n = hand.count();
                if n > 0 {
                    let h = hand.hash();
                    proof {
                        lemma_radix5_small(hand@, 9);
                    }
                    let hu = h as usize;
                    if !seen[hu] {
                        proof {
                            assert forall|i: int| 0 <= i < ret.len() implies ret@[i]@ != hand@ by {
                                if ret@[i]@ == hand@ {
                                    assert(seen@[radix5(ret@[i]@, 9)]);
                                }
                            }
                        }
                        let ghost old_seen = seen@;
                        seen.set(hu, true);
                        ret.push(hand);
                        proof {
                            let last = ret.len() - 1;
                            assert(ret@[last] == hand);
                            assert forall|x: int|
                                0 <= x < c + 1 && is_valid_combo(x) && total(#[trigger] pattern_of(x)) > 0
                                implies exists|i: int| 0 <= i < ret.len() && ret@[i]@ == pattern_of(x) by {
                                if x < c {
                                    let i = choose|i: int| 0 <= i < old_ret.len() && old_ret[i]@ == pattern_of(x);
                                    assert(ret@[i] == old_ret[i]);
                                } else {
                                    assert(ret@[last]@ == pattern_of(x));
                                }
                            }
                            assert forall|hh: int|
                                0 <= hh < 1953125 && #[trigger] seen@[hh] implies exists|i: int|
                                    0 <= i < ret.len() && radix5(ret@[i]@, 9) == hh by {
                                if hh == h as int {
                                    assert(radix5(ret@[last]@, 9) == hh);
                                } else {
                                    assert(old_seen[hh]);
                                    let i = choose|i: int| 0 <= i < old_ret.len() && radix5(old_ret[i]@, 9) == hh;
                                    assert(ret@[i] == old_ret[i]);
                                }
                            }
                        }
                    } else {
                        proof {
                            let i = choose|i: int| 0 <= i < ret.len() && radix5(ret@[i]@, 9) == h;
                            lemma_radix5_injective(ret@[i]@, hand@, 9);
                            assert(ret@[i]@ =~= hand@);
                        }
                    }
                }
            } else {
                proof {
                    let i = choose|i: int| 0 <= i < 9 && !(hand@[i] <= 4);
                    assert(hand@[i] == combo_count(c as int, i) as u8);
                    assert(!is_valid_combo(c as int));
                }
            }
            c += 1;
        }
        proof {
            assert forall|g: Seq<u8>| #![trigger is_partly_agari(g)] is_partly_agari(g) && total(g) > 0
                implies exists|i: int| 0 <= i < ret.len() && ret@[i]@ == g by {
                let x = choose|x: int| is_valid_combo(x) && pattern_of(x) == g;
                assert(total(pattern_of(x)) > 0);
            }
        }
        ret
    }

    /// Fewest tiles to draw toward a partly complete pattern of `k` tiles, searched in
    /// `patterns`.
    pub fn dist_in(&self, k: u8, patterns: &Vec<SuuhaiHand>) -> (r: u8)
        requires
            is_split_size(k as int),
            lists_all_patterns(patterns@),
        ensures
            r == suit_distance(self@, k as int),
    {
        if k == 0 {
            proof {
                lemma_suit_distance_zero(self@);
            }
            return 0;
        }
        let mut best: u8 = 100;
        let mut i: usize = 0;
        while i < patterns.len()
            invariant
                lists_all_patterns(patterns@),
                i <= patterns.len(),
                best <= 100,
                forall|j: int|
                    0 <= j < i && total(patterns@[j]@) == k ==> best <= missing(
                        #[trigger] patterns@[j]@,
                        self@,
                        9,
                    ),
                best == 100 || exists|j: int|
                    0 <= j < i && total(patterns@[j]@) == k && best == missing(
                        #[trigger] patterns@[j]@,
                        self@,
                        9,
                    ),
            decreases patterns.len() - i,
        {
            let p = &patterns[i];
            proof {
                assert(within_four(patterns@[i as int]@));
                lemma_sum_upto_bound(p@, 9, 4);
            }
            if p.count() == k {
                let m = missing_tiles(p, self);
                if m < best {
                    best = m;
                }
            }
            i += 1;
        }
        proof {
            let v = self@;
            let kk = k as int;
            let n = COMBOS as int;
            lemma_pattern_of_size(kk);
            let c0 = choose|c: int| is_valid_combo(c) && total(pattern_of(c)) == kk;
            lemma_least_le(v, kk, n, c0);
            lemma_combo_missing_nonneg(v, kk, c0);
            lemma_missing_bounds(pattern_of(c0), v, 9);
            lemma_least_attained(v, kk, n);
            let cs = choose|c: int| 0 <= c < n && least_upto(v, kk, n) == combo_missing(v, kk, c);
            assert(is_partly_agari(pattern_of(cs)));
            let js = choose|j: int| 0 <= j < patterns.len() && patterns@[j]@ == pattern_of(cs);
            assert(best <= missing(patterns@[js]@, v, 9));
            let j = choose|j: int|
                0 <= j < patterns.len() && total(patterns@[j]@) == k && best == missing(
                    #[trigger] patterns@[j]@,
                    v,
                    9,
                );
            assert(is_partly_agari(patterns@[j]@));
            let c = choose|c: int| is_valid_combo(c) && pattern_of(c) == patterns@[j]@;
            lemma_least_le(v, kk, n, c);
        }
        best
    }

    /// Fewest tiles to draw (discarding as many) to turn this family into a partly
    /// complete pattern of exactly `k` tiles.
    /// Only queries a family can be asked in a hand are admitted: at most four copies
    /// of a rank, and for a target other than zero at most 14 tiles, with the target
    /// no more than three times the tiles held.
    pub fn dist(&self, k: u8) -> (r: u8)
        requires
            is_split_size(k as int),
            within_four(self@),
            k == 0 || (total(self@) <= 14 && 3 * total(self@) >= k),
        ensures
            r == suit_distance(self@, k as int),
            k == 0 ==> r == 0,
    {
        if k == 0 {
            proof {
                lemma_suit_distance_zero(self@);
            }
            return 0;
        }
        let patterns = SuuhaiHand::all_partly_agari_pattern();
        self.dist_in(k, &patterns)
    }
}

impl SuuhaiHand {
    /// The counts written in decimal, separated by single spaces.
    pub fn to_text(&self) -> (r: String)
        ensures
            r@ == counts_text(self@, 9),
    {
        write_counts(self.0.as_slice())
    }
}

impl From<&[u8; 9]> for SuuhaiHand {
    fn from(counts: &[u8; 9]) -> (r: SuuhaiHand) {
        SuuhaiHand(*counts)
    }
}

impl vstd::std_specs::convert::FromSpecImpl<&[u8; 9]> for SuuhaiHand {
    open spec fn obeys_from_spec() -> bool {
        true
    }

    open spec fn from_spec(counts: &[u8; 9]) -> SuuhaiHand {
        SuuhaiHand(*counts)
    }
}

} // verus!
