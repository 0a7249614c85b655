use vstd::prelude::*;
use rustc_hash::{FxBuildHasher, FxHashMap};
use crate::suuhai::{
    is_split_size, lemma_radix5_injective, lists_all_patterns, radix5, suit_distance,
    within_four, SuuhaiHand,
};

verus! {

/// Suit distances keyed by a family's base-5 reading and the target size.
pub type DistTable = FxHashMap<DistKey, u8>;

pub type DistKey = (u32, u8);

#[verifier::external_type_specification]
#[verifier::external_body]
pub struct ExFxBuildHasher(FxBuildHasher);

/// Relies on `Default` for `HashMap` (here with rustc_hash's `FxBuildHasher`): a new
/// map is empty.
#[verifier::external_body]
fn table_new() -> (r: DistTable)
    ensures
        forall|key: DistKey| !r@.contains_key(key),
{
    FxHashMap::default()
}

/// Relies on `HashMap::get`: `FxBuildHasher` builds every hasher from the same zero
/// state, so a key that was inserted is found again with its value.
#[verifier::external_body]
fn table_get(t: &DistTable, key: (u32, u8)) -> (r: Option<u8>)
    ensures
        r == if t@.contains_key(key) {
            Some(t@[key])
        } else {
            None::<u8>
        },
{
    t.get(&key).copied()
}

/// Relies on `HashMap::insert`: afterwards the key maps to the new value and every
/// other key is unchanged.
#[verifier::external_body]
fn table_insert(t: &mut DistTable, key: (u32, u8), value: u8)
    ensures
        final(t)@ == old(t)@.insert(key, value),
{
    t.insert(key, value);
}

/// Suit distances computed so far, keyed by a family's base-5 reading and the target
/// size, with the list of partly complete patterns they are computed from.
pub struct DistanceDict {
    table: DistTable,
    patterns: Vec<SuuhaiHand>,
}

impl DistanceDict {
    /// Every stored distance is the suit distance of the family it is keyed by.
    pub closed spec fn wf(&self) -> bool {
        &&& lists_all_patterns(self.patterns@)
        &&& forall|key: (u32, u8)|
            #![trigger self.table@.contains_key(key)]
            self.table@.contains_key(key) ==> is_split_size(key.1 as int) && forall|v: Seq<u8>|
                v.len() == 9 && within_four(v) && #[trigger] radix5(v, 9) == key.0 ==> self.table@[key]
                    == suit_distance(v, key.1 as int)
    }

    /// An empty dictionary over the full list of partly complete patterns.
    pub fn new() -> (r: DistanceDict)
        ensures
            r.wf(),
    {
        let r = DistanceDict { table: table_new(), patterns: SuuhaiHand::all_partly_agari_pattern() };
        r
    }

    /// Suit distance of `v` toward `k` tiles, computed once and then looked up.
    pub fn dist(&mut self, v: &SuuhaiHand, k: u8) -> (r: u8)
        requires
            old(self).wf(),
            within_four(v@),
            is_split_size(k as int),
        ensures
            final(self).wf(),
            r == suit_distance(v@, k as int),
    {
        let key = (v.hash(), k);
        match table_get(&self.table, key) {
            Some(d) => {
                assert(v@.len() == 9 && radix5(v@, 9) == key.0);
                d
            },
            None => {
                let d = v.dist_in(k, &self.patterns);
                table_insert(&mut self.table, key, d);
                proof {
                    assert forall|kk: (u32, u8)| #[trigger] self.table@.contains_key(kk) implies
                        is_split_size(kk.1 as int) && forall|w: Seq<u8>|
                            w.len() == 9 && within_four(w) && #[trigger] radix5(w, 9) == kk.0
                                ==> self.table@[kk] == suit_distance(w, kk.1 as int) by {
                        if kk == key {
                            assert forall|w: Seq<u8>|
                                w.len() == 9 && within_four(w) && #[trigger] radix5(w, 9) == kk.0
                                    implies self.table@[kk] == suit_distance(w, kk.1 as int) by {
                                lemma_radix5_injective(w, v@, 9);
                                assert(w =~= v@);
                            }
                        }
                    }
                }
                d
            },
        }
    }
}

} // verus!
