use vstd::prelude::*;
use crate::text::{counts_text, write_counts};
use vstd::multiset::Multiset;
use crate::suuhai::{lemma_sum_upto_mono, max0, sum_upto, total, within_four};

verus! {

/// Number of the first `n` entries that are at least `t`.
pub open spec fn at_least(s: Seq<u8>, t: int, n: int) -> int
    decreases n,
{
    if n <= 0 {
        0
    } else {
        at_least(s, t, n - 1) + if s[n - 1] >= t {
            1int
        } else {
            0int
        }
    }
}

/// Fewest tiles to draw toward `k / 3` honor triplets plus a pair when `k % 3 == 2`.
///
/// With the counts sorted in descending order, the triplets take the first `k / 3`
/// slots, each short of three by `max0(3 - count)`, and the pair the next slot, short
/// of two by `max0(2 - count)`. Counting the slots that fall short of each level
/// `t` instead: exactly `at_least(v, t, 7)` slots reach level `t`.
pub open spec fn honor_distance(v: Seq<u8>, k: int) -> int {
    let m = k / 3;
    let n1 = at_least(v, 1, 7);
    let n2 = at_least(v, 2, 7);
    let n3 = at_least(v, 3, 7);
    max0(m - n1) + max0(m - n2) + max0(m - n3) + if k % 3 == 2 {
        (if n1 <= m {
            1int
        } else {
            0int
        }) + (if n2 <= m {
            1int
        } else {
            0int
        })
    } else {
        0int
    }
}

pub proof fn lemma_at_least_bounds(s: Seq<u8>, t: int, n: int)
    requires
        0 <= n,
    ensures
        0 <= at_least(s, t, n) <= n,
    decreases n,
{
    if n > 0 {
        lemma_at_least_bounds(s, t, n - 1);
    }
}

/// Descending order.
pub open spec fn sorted_desc(s: Seq<u8>) -> bool {
    forall|i: int, j: int| 0 <= i < j < s.len() ==> s[i] >= s[j]
}

/// Tiles short in the first `m` slots when each is to hold a triplet.
pub open spec fn triplet_slots(s: Seq<u8>, m: int) -> int
    decreases m,
{
    if m <= 0 {
        0
    } else {
        triplet_slots(s, m - 1) + max0(3 - s[m - 1])
    }
}

/// Slot filling over counts `s` sorted in descending order: the first `k / 3` slots
/// take triplets, and when `k % 3 == 2` the next slot takes the pair.
pub open spec fn slot_cost(s: Seq<u8>, k: int) -> int {
    triplet_slots(s, k / 3) + if k % 3 == 2 {
        max0(2 - s[k / 3])
    } else {
        0
    }
}

/// Copies in `m` of the values `t` to `hi - 1`.
pub open spec fn count_from(m: Multiset<u8>, t: int, hi: int) -> int
    decreases hi - t,
{
    if t >= hi {
        0
    } else {
        m.count(t as u8) + count_from(m, t + 1, hi)
    }
}

proof fn lemma_count_from_empty(t: int, hi: int)
    ensures
        count_from(Multiset::empty(), t, hi) == 0,
    decreases hi - t,
{
    if t < hi {
        lemma_count_from_empty(t + 1, hi);
    }
}

proof fn lemma_count_from_insert(m: Multiset<u8>, e: u8, t: int, hi: int)
    requires
        0 <= t,
        hi <= 256,
    ensures
        count_from(m.insert(e), t, hi) == count_from(m, t, hi) + if t <= e < hi {
            1int
        } else {
            0int
        },
    decreases hi - t,
{
    if t < hi {
        lemma_count_from_insert(m, e, t + 1, hi);
        if t as u8 == e {
            vstd::multiset::lemma_insert_increases_count_by_1(m, e);
        } else {
            vstd::multiset::lemma_insert_other_elements_unchanged(m, e, t as u8);
        }
    }
}

proof fn lemma_at_least_multiset(v: Seq<u8>, t: int, n: int)
    requires
        0 <= n <= v.len(),
        0 <= t,
    ensures
        at_least(v, t, n) == count_from(v.take(n).to_multiset(), t, 256),
    decreases n,
{
    broadcast use vstd::seq_lib::group_to_multiset_ensures;
    if n == 0 {
        assert(v.take(0).len() == 0);
        vstd::multiset::lemma_multiset_empty_len(v.take(0).to_multiset());
        assert(v.take(0).to_multiset() =~= Multiset::empty());
        lemma_count_from_empty(t, 256);
    } else {
        lemma_at_least_multiset(v, t, n - 1);
        assert(v.take(n) =~= v.take(n - 1).push(v[n - 1]));
        lemma_count_from_insert(v.take(n - 1).to_multiset(), v[n - 1], t, 256);
    }
}

/// Counts that are a rearrangement of each other reach each level equally often.
pub proof fn lemma_at_least_permutation(v: Seq<u8>, w: Seq<u8>, t: int)
    requires
        v.len() == 7,
        w.len() == 7,
        v.to_multiset() == w.to_multiset(),
        0 <= t,
    ensures
        at_least(v, t, 7) == at_least(w, t, 7),
{
    lemma_at_least_multiset(v, t, 7);
    lemma_at_least_multiset(w, t, 7);
    assert(v.take(7) =~= v);
    assert(w.take(7) =~= w);
}

/// Rearranging the honor kinds keeps the honor distance to every target.
pub proof fn lemma_honor_distance_permutation(v: Seq<u8>, w: Seq<u8>, k: int)
    requires
        v.len() == 7,
        w.len() == 7,
        v.to_multiset() == w.to_multiset(),
    ensures
        honor_distance(v, k) == honor_distance(w, k),
{
    lemma_at_least_permutation(v, w, 1);
    lemma_at_least_permutation(v, w, 2);
    lemma_at_least_permutation(v, w, 3);
}

proof fn lemma_at_least_all(s: Seq<u8>, t: int, n: int)
    requires
        0 <= n <= s.len(),
        forall|i: int| 0 <= i < n ==> s[i] >= t,
    ensures
        at_least(s, t, n) == n,
    decreases n,
{
    if n > 0 {
        lemma_at_least_all(s, t, n - 1);
    }
}

proof fn lemma_at_least_none_after(s: Seq<u8>, t: int, i: int, n: int)
    requires
        0 <= i <= n <= s.len(),
        forall|j: int| i <= j < n ==> s[j] < t,
    ensures
        at_least(s, t, n) == at_least(s, t, i),
    decreases n,
{
    if n > i {
        lemma_at_least_none_after(s, t, i, n - 1);
    }
}

proof fn lemma_at_least_mono(s: Seq<u8>, t: int, i: int, n: int)
    requires
        0 <= i <= n,
    ensures
        at_least(s, t, i) <= at_least(s, t, n),
    decreases n,
{
    if n > i {
        lemma_at_least_mono(s, t, i, n - 1);
    }
}

/// In counts sorted in descending order, slot `i` reaches level `t` exactly when
/// more than `i` slots reach it.
proof fn lemma_sorted_level(s: Seq<u8>, t: int, i: int)
    requires
        s.len() == 7,
        sorted_desc(s),
        0 <= i < 7,
    ensures
        s[i] >= t <==> i < at_least(s, t, 7),
{
    if s[i] >= t {
        assert forall|j: int| 0 <= j < i + 1 implies s[j] >= t by {
            if j < i {
                assert(s[j] >= s[i]);
            }
        }
        lemma_at_least_all(s, t, i + 1);
        lemma_at_least_mono(s, t, i + 1, 7);
    } else {
        assert forall|j: int| i <= j < 7 implies s[j] < t by {
            if j > i {
                assert(s[i] >= s[j]);
            }
        }
        lemma_at_least_none_after(s, t, i, 7);
        lemma_at_least_bounds(s, t, i);
    }
}

proof fn lemma_triplet_slots(s: Seq<u8>, m: int)
    requires
        s.len() == 7,
        sorted_desc(s),
        0 <= m <= 7,
    ensures
        triplet_slots(s, m) == max0(m - at_least(s, 1, 7)) + max0(m - at_least(s, 2, 7)) + max0(
            m - at_least(s, 3, 7),
        ),
    decreases m,
{
    lemma_at_least_bounds(s, 1, 7);
    lemma_at_least_bounds(s, 2, 7);
    lemma_at_least_bounds(s, 3, 7);
    if m > 0 {
        lemma_triplet_slots(s, m - 1);
        lemma_sorted_level(s, 1, m - 1);
        lemma_sorted_level(s, 2, m - 1);
        lemma_sorted_level(s, 3, m - 1);
    }
}

/// The honor distance is the cost of filling slots over the counts sorted in
/// descending order.
pub proof fn lemma_honor_distance_sorted(v: Seq<u8>, s: Seq<u8>, k: int)
    requires
        v.len() == 7,
        s.len() == 7,
        s.to_multiset() == v.to_multiset(),
        sorted_desc(s),
        0 <= k <= 14,
    ensures
        slot_cost(s, k) == honor_distance(v, k),
{
    lemma_honor_distance_permutation(v, s, k);
    lemma_triplet_slots(s, k / 3);
    if k % 3 == 2 {
        lemma_sorted_level(s, 1, k / 3);
        lemma_sorted_level(s, 2, k / 3);
    }
}

/// Tile counts of the seven honor kinds.
#[derive(Clone, Copy, Debug, PartialEq, Eq, Hash, Default)]
pub struct JihaiHand(pub [u8; 7]);

impl View for JihaiHand {
    type V = Seq<u8>;

    open spec fn view(&self) -> Seq<u8> {
        self.0@
    }
}

impl JihaiHand {
    /// Whether no honor is held more than four times.
    pub fn check(&self) -> (r: bool)
        ensures
            r == within_four(self@),
    {
        let mut i: usize = 0;
        while i < 7
            invariant
                i <= 7,
                self@.len() == 7,
                forall|j: int| 0 <= j < i ==> #[trigger] self@[j] <= 4,
            decreases 7 - i,
        {
            if self.0[i] > 4 {
                return false;
            }
            i += 1;
        }
        true
    }

    /// Number of tiles held.
    pub fn count(&self) -> (r: u8)
        requires
            total(self@) <= 255,
        ensures
            r == total(self@),
    {
        let mut sum: u8 = 0;
        let mut i: usize = 0;
        while i < 7
            invariant
                i <= 7,
                self@.len() == 7,
                sum == sum_upto(self@, i as int),
                total(self@) <= 255,
            decreases 7 - i,
        {
            proof {
                lemma_sum_upto_mono(self@, i as int + 1, 7);
            }
            sum = sum + self.0[i];
            i += 1;
        }
        sum
    }

    /// Fewest tiles to draw (discarding as many) to turn the honors into `k / 3`
    /// triplets plus a pair when `k % 3 == 2`.
    pub fn dist(&self, k: u8) -> (r: u8)
        requires
            k <= 14,
        ensures
            r == honor_distance(self@, k as int),
            forall|s: Seq<u8>|
                s.len() == 7 && sorted_desc(s) && s.to_multiset() == self@.to_multiset() ==> r
                    == #[trigger] slot_cost(s, k as int),
            k == 0 ==> r == 0,
    {
        proof {
            assert forall|s: Seq<u8>|
                s.len() == 7 && sorted_desc(s) && s.to_multiset() == self@.to_multiset()
                    implies honor_distance(self@, k as int) == #[trigger] slot_cost(s, k as int) by {
                lemma_honor_distance_sorted(self@, s, k as int);
            }
        }
        if k == 0 {
            proof {
                lemma_at_least_bounds(self@, 1, 7);
                lemma_at_least_bounds(self@, 2, 7);
                lemma_at_least_bounds(self@, 3, 7);
            }
            return 0;
        }
        let mut n1: u8 = 0;
        let mut n2: u8 = 0;
        let mut n3: u8 = 0;
        let mut i: usize = 0;
        while i < 7
            invariant
                i <= 7,
                self@.len() == 7,
                n1 == at_least(self@, 1, i as int),
                n2 == at_least(self@, 2, i as int),
                n3 == at_least(self@, 3, i as int),
            decreases 7 - i,
        {
            proof {
                lemma_at_least_bounds(self@, 1, i as int);
                lemma_at_least_bounds(self@, 2, i as int);
                lemma_at_least_bounds(self@, 3, i as int);
            }
            if self.0[i] >= 1 {
                n1 = n1 + 1;
            }
            if self.0[i] >= 2 {
                n2 = n2 + 1;
            }
            if self.0[i] >= 3 {
                n3 = n3 + 1;
            }
            i += 1;
        }
        let m = k / 3;
        let mut r: u8 = 0;
        if n1 < m {
            r = r + (m - n1);
        }
        if n2 < m {
            r = r + (m - n2);
        }
        if n3 < m {
            r = r + (m - n3);
        }
        if k % 3 == 2 {
            if n1 <= m {
                r = r + 1;
            }
            if n2 <= m {
                r = r + 1;
            }
        }
        r
    }
}

impl JihaiHand {
    /// The counts written in decimal, separated by single spaces.
    pub fn to_text(&self) -> (r: String)
        ensures
            r@ == counts_text(self@, 7),
    {
        write_counts(self.0.as_slice())
    }
}

impl From<&[u8; 7]> for JihaiHand {
    fn from(counts: &[u8; 7]) -> (r: JihaiHand) {
        JihaiHand(*counts)
    }
}

impl vstd::std_specs::convert::FromSpecImpl<&[u8; 7]> for JihaiHand {
    open spec fn obeys_from_spec() -> bool {
        true
    }

    open spec fn from_spec(counts: &[u8; 7]) -> JihaiHand {
        JihaiHand(*counts)
    }
}

} // verus!
