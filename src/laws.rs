//! Laws that hold of every build and of the derived statistics.
use vstd::prelude::*;
use crate::catalog::Catalog;
use crate::character::{holds, Build};
use crate::special::{
    bobblehead_id, stat_at, stat_index, Difficultied, Difficulty, EffectField, Gender, Gendered,
    PerkId, Selectable, SpecialStat,
};
use crate::stats::{crit_hits, held_scalars};
use crate::text::{prefix_stat, stat_key};

verus! {

/// Every attribute of a well-formed build has between 1 and 10 points; every
/// operation that changes a build keeps it well formed.
pub proof fn lemma_points_in_range(b: Build, s: SpecialStat)
    requires
        b.wf(),
    ensures
        1 <= b.points(s) <= 10,
{
    crate::special::lemma_stat_index_round_trip(s);
    assert(0 <= stat_index(s) < 7);
}

/// Hits per critical never rise as total Luck rises.
pub proof fn lemma_crit_hits_monotone(a: int, b: int)
    requires
        1 <= a <= b,
    ensures
        crit_hits(a) >= crit_hits(b),
{
}

/// An attribute's lower-case name selects that attribute by prefix: reading
/// back the name an attribute is written with gives the attribute.
pub proof fn lemma_attribute_name_round_trip(a: SpecialStat)
    ensures
        prefix_stat(stat_key(a)@) == Some(a),
{
    reveal_strlit("strength");
    reveal_strlit("perception");
    reveal_strlit("endurance");
    reveal_strlit("charisma");
    reveal_strlit("intelligence");
    reveal_strlit("agility");
    reveal_strlit("luck");
    let q = stat_key(a)@;
    crate::special::lemma_stat_index_round_trip(a);
    let i = stat_index(a);
    assert(q.is_prefix_of(stat_key(stat_at(i))@));
    assert forall|j: int| 0 <= j < 7 && j != i implies !q.is_prefix_of(#[trigger] stat_key(stat_at(j))@) by {
        assert(q[0] != stat_key(stat_at(j))@[0]);
    }
    let w = choose|k: int|
        0 <= k < 7 && q.is_prefix_of(#[trigger] stat_key(stat_at(k))@) && forall|j: int|
            0 <= j < k ==> !q.is_prefix_of(#[trigger] stat_key(stat_at(j))@);
    assert(w == i);
}

/// A gendered value selects its male and female variants.
pub proof fn lemma_gendered_select<T>(g: Gendered<T>)
    ensures
        g.spec_select(Gender::Male) == g.male,
        g.spec_select(Gender::Female) == g.female,
{
}

/// Only survival difficulty selects the survival variant.
pub proof fn lemma_difficultied_select<T>(x: Difficultied<T>, d: Difficulty)
    ensures
        x.spec_select(d) == if d == Difficulty::Survival {
            x.survival
        } else {
            x.normal
        },
{
}

/// A build with Strength 1 and no perk, book or bonus item, on survival
/// difficulty, carries 75 + 10 = 85.
pub proof fn lemma_fresh_survival_carry_weight(b: Build, c: &Catalog)
    requires
        b.wf(),
        b.perks@.len() == 0,
        b.special_book is None,
        b.points(SpecialStat::Strength) == 1,
        b.difficulty == Some(Difficulty::Survival),
    ensures
        b.spec_carry_weight(c) == 85,
{
    assert(!holds(b.perks@, bobblehead_id(SpecialStat::Strength)));
    assert(!holds(b.perks@, PerkId::Special { stat: SpecialStat::Intelligence, points: 1 }));
    assert(held_scalars(b.perks@, c@, EffectField::CarryWeightAdd) =~= Seq::<u32>::empty());
}

} // verus!
