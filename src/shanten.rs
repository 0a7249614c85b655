use vstd::prelude::*;
use crate::dict::DistanceDict;
use crate::jihai::{at_least, honor_distance, lemma_at_least_bounds};
pub use crate::jihai::JihaiHand;
use crate::suuhai::{
    is_split_size, lemma_suit_distance_bounds, lemma_sum_upto_bound, sum_upto,
    suit_distance, total, within_four,
};
pub use crate::suuhai::SuuhaiHand;

verus! {

/// A hand: three suited families (characters, circles, bamboo) and the honors.
#[derive(Clone, Copy, Debug, PartialEq, Eq, Hash, Default)]
pub struct Hand {
    pub m: SuuhaiHand,
    pub p: SuuhaiHand,
    pub s: SuuhaiHand,
    pub z: JihaiHand,
}

impl View for Hand {
    type V = Seq<u8>;

    /// The 34 counts: characters 1-9, circles 1-9, bamboo 1-9, honors 1-7.
    open spec fn view(&self) -> Seq<u8> {
        self.m@ + self.p@ + self.s@ + self.z@
    }
}

/// Counts of the thirteen terminal and honor kinds: the ones and nines of each
/// suit, then the seven honors.
pub open spec fn terminal_counts(h: Hand) -> Seq<u8> {
    seq![h.m@[0], h.p@[0], h.s@[0], h.m@[8], h.p@[8], h.s@[8]] + h.z@
}

/// Thirteen orphans: 13 less the terminal and honor kinds held, one less again when
/// one of them is held at least twice.
pub open spec fn kokushi_shanten(h: Hand) -> int {
    let t = terminal_counts(h);
    if at_least(t, 2, 13) >= 1 {
        12 - at_least(t, 1, 13)
    } else {
        13 - at_least(t, 1, 13)
    }
}

/// Seven pairs: with `pairs` the kinds held at least twice (at most seven counted)
/// and `singles` the kinds held once (at most `7 - pairs` counted), `13 - 2 pairs - singles`.
pub open spec fn chiitoitsu_shanten(h: Hand) -> int {
    let found = at_least(h@, 2, 34);
    let single = at_least(h@, 1, 34) - found;
    let pairs = if found > 7 {
        7
    } else {
        found
    };
    let singles = if pairs + single > 7 {
        7 - pairs
    } else {
        single
    };
    13 - 2 * pairs - singles
}

/// The split sizes, in order: 0, 3, 6, 9, 12, then 2, 5, 8, 11, 14.
pub open spec fn split_size(j: int) -> int {
    if j < 5 {
        3 * j
    } else {
        3 * (j - 5) + 2
    }
}

/// Whether a family of `c` tiles may be asked for a pattern of `k` tiles.
pub open spec fn fits(c: int, k: int) -> bool {
    (c >= 5 ==> k >= 2) && c * 3 >= k
}

pub open spec fn holds_pair(k: int) -> int {
    if k % 3 == 2 {
        1
    } else {
        0
    }
}

/// Split sizes for the four families that make up one complete hand of 14 tiles.
pub open spec fn split_allowed(h: Hand, mc: int, pc: int, sc: int, zc: int) -> bool {
    &&& fits(total(h.m@), mc)
    &&& fits(total(h.p@), pc)
    &&& fits(total(h.s@), sc)
    &&& fits(total(h.z@), zc)
    &&& holds_pair(mc) + holds_pair(pc) + holds_pair(sc) + holds_pair(zc) == 1
    &&& mc + pc + sc + zc == 14
}

pub open spec fn split_cost(h: Hand, mc: int, pc: int, sc: int, zc: int) -> int {
    suit_distance(h.m@, mc) + suit_distance(h.p@, pc) + suit_distance(h.s@, sc) + honor_distance(
        h.z@,
        zc,
    )
}

/// Shanten through split choice `x`, whose decimal digits pick the split sizes of the
/// characters, circles, bamboo and honors; 13 when the choice is not allowed.
pub open spec fn choice_shanten(h: Hand, x: int) -> int {
    let mc = split_size(x / 1000);
    let pc = split_size((x / 100) % 10);
    let sc = split_size((x / 10) % 10);
    let zc = split_size(x % 10);
    if split_allowed(h, mc, pc, sc, zc) {
        split_cost(h, mc, pc, sc, zc) - 1
    } else {
        13
    }
}

pub open spec fn standard_upto(h: Hand, n: int) -> int
    decreases n,
{
    if n <= 0 {
        13
    } else {
        let prev = standard_upto(h, n - 1);
        let here = choice_shanten(h, n - 1);
        if here < prev {
            here
        } else {
            prev
        }
    }
}

/// Standard shape: the least, over every allowed split of 14 tiles among the
/// families, of the families' distances summed, less one; at most 13.
pub open spec fn standard_shanten(h: Hand) -> int {
    standard_upto(h, 10000)
}

proof fn lemma_sum_concat(a: Seq<u8>, b: Seq<u8>, n: int)
    requires
        0 <= n <= b.len(),
    ensures
        sum_upto(a + b, a.len() + n) == total(a) + sum_upto(b, n),
    decreases n,
{
    if n > 0 {
        lemma_sum_concat(a, b, n - 1);
    } else {
        lemma_sum_prefix(a, b, a.len() as int);
    }
}

proof fn lemma_sum_prefix(a: Seq<u8>, b: Seq<u8>, n: int)
    requires
        0 <= n <= a.len(),
    ensures
        sum_upto(a + b, n) == sum_upto(a, n),
    decreases n,
{
    if n > 0 {
        lemma_sum_prefix(a, b, n - 1);
    }
}

/// The tiles of a hand are the tiles of its four families.
pub proof fn lemma_total_concat(h: Hand)
    ensures
        total(h@) == total(h.m@) + total(h.p@) + total(h.s@) + total(h.z@),
{
    lemma_sum_concat(h.m@, h.p@, 9);
    lemma_sum_concat(h.m@ + h.p@, h.s@, 9);
    lemma_sum_concat(h.m@ + h.p@ + h.s@, h.z@, 7);
}

fn split_value(j: usize) -> (r: u8)
    requires
        j < 10,
    ensures
        r == split_size(j as int),
        is_split_size(r as int),
{
    if j < 5 {
        3 * j as u8
    } else {
        3 * (j - 5) as u8 + 2
    }
}

fn fits_exec(c: u8, k: u8) -> (r: bool)
    ensures
        r == fits(c as int, k as int),
{
    (c < 5 || k >= 2) && (c as u32) * 3 >= k as u32
}

fn suit_table(v: &SuuhaiHand, dict: &mut DistanceDict) -> (r: [u8; 10])
    requires
        old(dict).wf(),
        within_four(v@),
    ensures
        final(dict).wf(),
        forall|j: int| 0 <= j < 10 ==> #[trigger] r@[j] == suit_distance(v@, split_size(j)),
        forall|j: int| 0 <= j < 10 ==> r@[j] <= 14,
{
    let mut r: [u8; 10] = [0, 0, 0, 0, 0, 0, 0, 0, 0, 0];
    let mut j: usize = 0;
    while j < 10
        invariant
            j <= 10,
            dict.wf(),
            within_four(v@),
            forall|i: int| 0 <= i < j ==> #[trigger] r@[i] == suit_distance(v@, split_size(i)),
            forall|i: int| 0 <= i < j ==> r@[i] <= 14,
        decreases 10 - j,
    {
        let k = split_value(j);
        proof {
            lemma_suit_distance_bounds(v@, k as int);
        }
        r[j] = dict.dist(v, k);
        j += 1;
    }
    r
}

fn honor_table(v: &JihaiHand) -> (r: [u8; 10])
    ensures
        forall|j: int| 0 <= j < 10 ==> #[trigger] r@[j] == honor_distance(v@, split_size(j)),
        forall|j: int| 0 <= j < 10 ==> r@[j] <= 14,
{
    let mut r: [u8; 10] = [0, 0, 0, 0, 0, 0, 0, 0, 0, 0];
    let mut j: usize = 0;
    while j < 10
        invariant
            j <= 10,
            forall|i: int| 0 <= i < j ==> #[trigger] r@[i] == honor_distance(v@, split_size(i)),
            forall|i: int| 0 <= i < j ==> r@[i] <= 14,
        decreases 10 - j,
    {
        let k = split_value(j);
        proof {
            lemma_at_least_bounds(v@, 1, 7);
            lemma_at_least_bounds(v@, 2, 7);
            lemma_at_least_bounds(v@, 3, 7);
        }
        r[j] = v.dist(k);
        j += 1;
    }
    r
}

impl Hand {
    /// No kind is held more than four times.
    pub open spec fn wf(&self) -> bool {
        &&& within_four(self.m@)
        &&& within_four(self.p@)
        &&& within_four(self.s@)
        &&& within_four(self.z@)
    }

    /// A hand with no tiles.
    pub fn new() -> (r: Hand)
        ensures
            r.wf(),
            r@ == Seq::new(34, |i: int| 0u8),
    {
        let r = Hand {
            m: SuuhaiHand([0, 0, 0, 0, 0, 0, 0, 0, 0]),
            p: SuuhaiHand([0, 0, 0, 0, 0, 0, 0, 0, 0]),
            s: SuuhaiHand([0, 0, 0, 0, 0, 0, 0, 0, 0]),
            z: JihaiHand([0, 0, 0, 0, 0, 0, 0]),
        };
        assert(r@ =~= Seq::new(34, |i: int| 0u8));
        r
    }

    /// Whether no kind is held more than four times.
    pub fn is_valid(&self) -> (r: bool)
        ensures
            r == self.wf(),
    {
        self.m.check() && self.p.check() && self.s.check() && self.z.check()
    }

    /// Copies held of tile `index`: 0-8 characters, 9-17 circles, 18-26 bamboo,
    /// 27-33 honors.
    pub fn tile(&self, index: usize) -> (r: u8)
        requires
            index < 34,
        ensures
            r == self@[index as int],
    {
        if index < 9 {
            self.m.0[index]
        } else if index < 18 {
            self.p.0[index - 9]
        } else if index < 27 {
            self.s.0[index - 18]
        } else {
            self.z.0[index - 27]
        }
    }

    /// Adds one copy of tile `index`, unless four are already held.
    pub fn add_tile(&mut self, index: usize) -> (added: bool)
        requires
            old(self).wf(),
            index < 34,
        ensures
            final(self).wf(),
            added == (old(self)@[index as int] < 4),
            added ==> final(self)@ == old(self)@.update(
                index as int,
                (old(self)@[index as int] + 1) as u8,
            ),
            !added ==> *final(self) == *old(self),
    {
        if self.tile(index) >= 4 {
            return false;
        }
        let ghost before = self@;
        if index < 9 {
            self.m.0[index] = self.m.0[index] + 1;
        } else if index < 18 {
            self.p.0[index - 9] = self.p.0[index - 9] + 1;
        } else if index < 27 {
            self.s.0[index - 18] = self.s.0[index - 18] + 1;
        } else {
            self.z.0[index - 27] = self.z.0[index - 27] + 1;
        }
        assert(self@ =~= before.update(index as int, (before[index as int] + 1) as u8));
        true
    }

    /// Number of tiles held.
    pub fn count(&self) -> (r: u8)
        requires
            self.wf(),
        ensures
            r == total(self.m@) + total(self.p@) + total(self.s@) + total(self.z@),
    {
        proof {
            lemma_sum_upto_bound(self.m@, 9, 4);
            lemma_sum_upto_bound(self.p@, 9, 4);
            lemma_sum_upto_bound(self.s@, 9, 4);
            lemma_sum_upto_bound(self.z@, 7, 4);
        }
        self.m.count() + self.p.count() + self.s.count() + self.z.count()
    }

    /// Count of terminal or honor kind `i`, in the order of `terminal_counts`.
    fn terminal(&self, i: usize) -> (r: u8)
        requires
            i < 13,
        ensures
            r == terminal_counts(*self)[i as int],
    {
        if i < 3 {
            let f = if i == 0 {
                &self.m
            } else if i == 1 {
                &self.p
            } else {
                &self.s
            };
            f.0[0]
        } else if i < 6 {
            let f = if i == 3 {
                &self.m
            } else if i == 4 {
                &self.p
            } else {
                &self.s
            };
            f.0[8]
        } else {
            self.z.0[i - 6]
        }
    }

    /// Shanten toward thirteen orphans.
    pub fn shanten_kokushimusou(&self) -> (r: i8)
        ensures
            r == kokushi_shanten(*self),
    {
        let mut kinds: i8 = 0;
        let mut pairs: i8 = 0;
        let mut i: usize = 0;
        while i < 13
            invariant
                i <= 13,
                kinds == at_least(terminal_counts(*self), 1, i as int),
                pairs == at_least(terminal_counts(*self), 2, i as int),
            decreases 13 - i,
        {
            proof {
                lemma_at_least_bounds(terminal_counts(*self), 1, i as int);
                lemma_at_least_bounds(terminal_counts(*self), 2, i as int);
            }
            let c = self.terminal(i);
            if c >= 1 {
                kinds = kinds + 1;
            }
            if c >= 2 {
                pairs = pairs + 1;
            }
            i += 1;
        }
        proof {
            lemma_at_least_bounds(terminal_counts(*self), 1, 13);
        }
        if pairs >= 1 {
            12 - kinds
        } else {
            13 - kinds
        }
    }

    /// Shanten toward seven pairs.
    pub fn shanten_chiitoitsu(&self) -> (r: i8)
        ensures
            r == chiitoitsu_shanten(*self),
    {
        let mut found: i8 = 0;
        let mut held: i8 = 0;
        let mut i: usize = 0;
        while i < 34
            invariant
                i <= 34,
                self@.len() == 34,
                found == at_least(self@, 2, i as int),
                held == at_least(self@, 1, i as int),
                found <= held,
            decreases 34 - i,
        {
            proof {
                lemma_at_least_bounds(self@, 1, i as int);
                lemma_at_least_bounds(self@, 2, i as int);
            }
            let c = self.tile(i);
            if c >= 1 {
                held = held + 1;
            }
            if c >= 2 {
                found = found + 1;
            }
            i += 1;
        }
        proof {
            lemma_at_least_bounds(self@, 1, 34);
            lemma_at_least_bounds(self@, 2, 34);
        }
        let mut single = held - found;
        let mut pairs = found;
        if pairs > 7 {
            pairs = 7;
        }
        if pairs + single > 7 {
            single = 7 - pairs;
        }
        13 - 2 * pairs - single
    }

    /// Shanten toward the standard shape of four groups and a pair.
    pub fn shanten_standard(&self) -> (r: i8)
        requires
            self.wf(),
        ensures
            r == standard_shanten(*self),
    {
        let mut dict = DistanceDict::new();
        self.shanten_standard_with(&mut dict)
    }

    /// Shanten toward the standard shape, looking suit distances up in `dict`.
    pub fn shanten_standard_with(&self, dict: &mut DistanceDict) -> (r: i8)
        requires
            self.wf(),
            old(dict).wf(),
        ensures
            final(dict).wf(),
            r == standard_shanten(*self),
    {
        proof {
            lemma_sum_upto_bound(self.m@, 9, 4);
            lemma_sum_upto_bound(self.p@, 9, 4);
            lemma_sum_upto_bound(self.s@, 9, 4);
            lemma_sum_upto_bound(self.z@, 7, 4);
        }
        let cm = self.m.count();
        let cp = self.p.count();
        let cs = self.s.count();
        let cz = self.z.count();
        let dm = suit_table(&self.m, dict);
        let dp = suit_table(&self.p, dict);
        let ds = suit_table(&self.s, dict);
        let dz = honor_table(&self.z);
        let mut ret: i8 = 13;
        let mut x: usize = 0;
        while x < 10000
            invariant
                x <= 10000,
                ret == standard_upto(*self, x as int),
                ret <= 13,
                cm == total(self.m@),
                cp == total(self.p@),
                cs == total(self.s@),
                cz == total(self.z@),
                forall|j: int| 0 <= j < 10 ==> #[trigger] dm@[j] == suit_distance(self.m@, split_size(j)),
                forall|j: int| 0 <= j < 10 ==> #[trigger] dp@[j] == suit_distance(self.p@, split_size(j)),
                forall|j: int| 0 <= j < 10 ==> #[trigger] ds@[j] == suit_distance(self.s@, split_size(j)),
                forall|j: int| 0 <= j < 10 ==> #[trigger] dz@[j] == honor_distance(self.z@, split_size(j)),
                forall|j: int| 0 <= j < 10 ==> dm@[j] <= 14,
                forall|j: int| 0 <= j < 10 ==> dp@[j] <= 14,
                forall|j: int| 0 <= j < 10 ==> ds@[j] <= 14,
                forall|j: int| 0 <= j < 10 ==> dz@[j] <= 14,
            decreases 10000 - x,
        {
            let jm = x / 1000;
            let jp = (x / 100) % 10;
            let js = (x / 10) % 10;
            let jz = x % 10;
            let mc = split_value(jm);
            let pc = split_value(jp);
            let sc = split_value(js);
            let zc = split_value(jz);
            let pair_count = (mc % 3 == 2) as u8 + (pc % 3 == 2) as u8 + (sc % 3 == 2) as u8 + (zc
                % 3 == 2) as u8;
            if fits_exec(cm, mc) && fits_exec(cp, pc) && fits_exec(cs, sc) && fits_exec(cz, zc)
                && pair_count == 1 && mc + pc + sc + zc == 14 {
                let c = dm[jm] + dp[jp] + ds[js] + dz[jz];
                let v = c as i8 - 1;
                if v < ret {
                    ret = v;
                }
            }
            x += 1;
        }
        ret
    }

    /// The three shanten numbers (standard, seven pairs, thirteen orphans), or `None`
    /// for a hand of fewer than 13 tiles.
    pub fn shanten_all(&self, dict: &mut DistanceDict) -> (r: Option<(i8, i8, i8)>)
        requires
            self.wf(),
            old(dict).wf(),
        ensures
            final(dict).wf(),
            total(self@) < 13 ==> r is None,
            total(self@) >= 13 ==> (r matches Some((a, b, c)) && a == standard_shanten(*self)
                && b == chiitoitsu_shanten(*self) && c == kokushi_shanten(*self)),
    {
        proof {
            lemma_total_concat(*self);
        }
        if self.count() < 13 {
            return None;
        }
        let standard = self.shanten_standard_with(dict);
        Some((standard, self.shanten_chiitoitsu(), self.shanten_kokushimusou()))
    }

    /// Whether the hand is a winning hand: 14 tiles that already form the standard
    /// shape, seven pairs or thirteen orphans.
    pub fn is_complete(&self, dict: &mut DistanceDict) -> (r: bool)
        requires
            self.wf(),
            old(dict).wf(),
        ensures
            final(dict).wf(),
            r == (total(self@) == 14 && (standard_shanten(*self) == -1 || chiitoitsu_shanten(*self)
                == -1 || kokushi_shanten(*self) == -1)),
    {
        proof {
            lemma_total_concat(*self);
        }
        if self.count() != 14 {
            return false;
        }
        let standard = self.shanten_standard_with(dict);
        standard == -1 || self.shanten_chiitoitsu() == -1 || self.shanten_kokushimusou() == -1
    }
}

} // verus!
