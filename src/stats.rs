//! Statistics derived from a build and the catalog.
use vstd::prelude::*;
use crate::catalog::Catalog;
use crate::character::{holds, rank_in, Build};
use crate::special::{
    bobblehead_id, lemma_stat_index_round_trip_all, Difficulty, EffectField, PerkDef, PerkId,
    Ranks, SpecialStat, StatIncrease, STAT_COUNT,
};

verus! {

/// Sum of the increases that a list grants to `stat`.
pub open spec fn increase_for(s: Seq<StatIncrease>, stat: SpecialStat) -> int
    decreases s.len(),
{
    if s.len() == 0 {
        0
    } else {
        increase_for(s.drop_last(), stat) + if s.last().stat == stat {
            s.last().increase as int
        } else {
            0int
        }
    }
}

/// Increases to `stat` granted by held perks, folded in order.
pub open spec fn held_increase(ps: Seq<(PerkId, u8)>, m: Map<PerkId, PerkDef>, stat: SpecialStat) -> int
    decreases ps.len(),
{
    if ps.len() == 0 {
        0
    } else {
        held_increase(ps.drop_last(), m, stat) + increase_for(
            m[ps.last().0].ranks.spec_stat_increases(ps.last().1 as nat),
            stat,
        )
    }
}

/// Contributions of one effect field over held perks, in order.
pub open spec fn held_scalars(ps: Seq<(PerkId, u8)>, m: Map<PerkId, PerkDef>, f: EffectField) -> Seq<u32>
    decreases ps.len(),
{
    if ps.len() == 0 {
        Seq::empty()
    } else {
        held_scalars(ps.drop_last(), m, f) + m[ps.last().0].ranks.spec_scalars(ps.last().1 as nat, f)
    }
}

/// Sum of a sequence.
pub open spec fn sum_of(s: Seq<u32>) -> int
    decreases s.len(),
{
    if s.len() == 0 {
        0
    } else {
        sum_of(s.drop_last()) + s.last() as int
    }
}

/// Hits per critical, by total Luck.
pub open spec fn crit_hits(luck: int) -> int {
    if luck == 1 {
        14
    } else if luck == 2 {
        12
    } else if luck == 3 {
        10
    } else if luck == 4 {
        9
    } else if luck == 5 {
        8
    } else if 6 <= luck <= 7 {
        7
    } else if 8 <= luck <= 9 {
        6
    } else if 10 <= luck <= 12 {
        5
    } else if 13 <= luck <= 18 {
        4
    } else if 19 <= luck <= 29 {
        3
    } else if 30 <= luck <= 62 {
        2
    } else {
        1
    }
}

proof fn lemma_increase_bound(s: Seq<StatIncrease>, stat: SpecialStat)
    ensures
        0 <= increase_for(s, stat) <= 255 * s.len(),
    decreases s.len(),
{
    if s.len() > 0 {
        lemma_increase_bound(s.drop_last(), stat);
    }
}

proof fn lemma_stat_increases_len(r: Ranks, rank: nat)
    requires
        rank <= 255,
    ensures
        r.spec_stat_increases(rank).len() <= 255,
{
}

proof fn lemma_last_carry_bound(rs: Seq<crate::special::Rank>)
    ensures
        crate::special::last_scalar(rs, EffectField::CarryWeightAdd) matches Some(v) ==> v <= 65535,
    decreases rs.len(),
{
    if rs.len() > 0 {
        lemma_last_carry_bound(rs.drop_last());
    }
}

proof fn lemma_carry_scalars_bound(r: Ranks, rank: nat)
    requires
        rank <= 255,
    ensures
        r.spec_scalars(rank, EffectField::CarryWeightAdd).len() <= 255,
        forall|i: int| 0 <= i < r.spec_scalars(rank, EffectField::CarryWeightAdd).len() ==>
            #[trigger] r.spec_scalars(rank, EffectField::CarryWeightAdd)[i] <= 65535,
{
    match r {
        Ranks::VaryingCumulative(rs) => {
            lemma_last_carry_bound(rs@.take(crate::special::min_nat(rank, rs@.len()) as int));
        },
        _ => {},
    }
}

/// Sum of a sequence of small integers.
pub open spec fn sum_u8(s: Seq<u8>) -> int
    decreases s.len(),
{
    if s.len() == 0 {
        0
    } else {
        sum_u8(s.drop_last()) + s.last() as int
    }
}

/// Ranks spent on attribute perks.
pub open spec fn special_ranks(ps: Seq<(PerkId, u8)>) -> int
    decreases ps.len(),
{
    if ps.len() == 0 {
        0
    } else {
        special_ranks(ps.drop_last()) + if ps.last().0 is Special {
            ps.last().1 as int
        } else {
            0int
        }
    }
}

/// The highest level a held perk's rank needs; 1 when none needs more.
pub open spec fn rank_level_need(ps: Seq<(PerkId, u8)>, m: Map<PerkId, PerkDef>) -> int
    decreases ps.len(),
{
    if ps.len() == 0 {
        1
    } else {
        let rest = rank_level_need(ps.drop_last(), m);
        let here = m[ps.last().0].ranks.spec_required_level(ps.last().1 as nat) as int;
        if here > rest {
            here
        } else {
            rest
        }
    }
}

pub open spec fn max_int(a: int, b: int) -> int {
    if a >= b {
        a
    } else {
        b
    }
}

proof fn lemma_special_ranks_bound(ps: Seq<(PerkId, u8)>)
    ensures
        0 <= special_ranks(ps) <= 255 * ps.len(),
    decreases ps.len(),
{
    if ps.len() > 0 {
        lemma_special_ranks_bound(ps.drop_last());
    }
}

proof fn lemma_sum_u8_bound(s: Seq<u8>)
    requires
        forall|i: int| 0 <= i < s.len() ==> 1 <= #[trigger] s[i] <= 10,
    ensures
        s.len() <= sum_u8(s) <= 10 * s.len(),
    decreases s.len(),
{
    if s.len() > 0 {
        lemma_sum_u8_bound(s.drop_last());
    }
}

impl Build {
    /// Bounds that keep every fold within 64 bits.
    pub open spec fn within_limits(&self) -> bool {
        self.perks@.len() <= u32::MAX
    }

    /// What the derived statistics ask of a build and its catalog.
    pub open spec fn ready(&self, c: &Catalog) -> bool {
        &&& self.wf()
        &&& c.wf()
        &&& self.consistent(c)
        &&& self.within_limits()
    }

    /// Whether every held perk is in the catalog at a rank it has.
    pub fn consistent_with(&self, c: &Catalog) -> (r: bool)
        requires
            c.wf(),
        ensures
            r == self.consistent(c),
    {
        let mut i: usize = 0;
        while i < self.perks.len()
            invariant
                c.wf(),
                i <= self.perks@.len(),
                forall|j: int| 0 <= j < i ==> c@.contains_key(#[trigger] self.perks@[j].0)
                    && self.perks@[j].1 <= c@[self.perks@[j].0].ranks.spec_max_rank(),
            decreases self.perks@.len() - i,
        {
            let (id, rank) = self.perks[i];
            match c.lookup_by_identity(&id) {
                Some(d) => {
                    proof {
                        assert(crate::catalog::entry_wf(id, c@[id]));
                    }
                    if rank > d.max_rank() {
                        return false;
                    }
                },
                None => {
                    return false;
                },
            }
            i = i + 1;
        }
        true
    }

    pub open spec fn spec_stat_increase(&self, c: &Catalog, stat: SpecialStat) -> int {
        held_increase(self.perks@, c@, stat)
    }

    /// Base points, perk-granted increases, and two Perception for an
    /// Intelligence tier-1 perk at rank 2 or more, less the bonus item already
    /// counted in the base.
    pub open spec fn spec_total_points(&self, c: &Catalog, stat: SpecialStat) -> int {
        self.spec_base_points(stat) + (if stat == SpecialStat::Perception && self.rank_of(
            PerkId::Special { stat: SpecialStat::Intelligence, points: 1 },
        ) >= 2 {
            2int
        } else {
            0int
        }) + self.spec_stat_increase(c, stat) - (if holds(self.perks@, bobblehead_id(stat)) {
            1int
        } else {
            0int
        })
    }

    pub open spec fn spec_carry_weight(&self, c: &Catalog) -> int {
        (if self.difficulty == Some(Difficulty::Survival) {
            75int
        } else {
            200int
        }) + 10 * self.spec_total_points(c, SpecialStat::Strength) + sum_of(
            held_scalars(self.perks@, c@, EffectField::CarryWeightAdd),
        )
    }

    /// The definition of the `i`-th held perk.
    fn held_def<'a>(&self, c: &'a Catalog, i: usize) -> (r: &'a PerkDef)
        requires
            self.consistent(c),
            c.wf(),
            i < self.perks@.len(),
        ensures
            *r == c@[self.perks@[i as int].0],
    {
        let id = self.perks[i].0;
        match c.lookup_by_identity(&id) {
            Some(d) => d,
            None => {
                proof {
                    assert(c@.contains_key(self.perks@[i as int].0));
                }
                c.definition(0)
            },
        }
    }

    /// Increases to `stat` granted by held perks.
    pub fn stat_increase_for(&self, c: &Catalog, stat: SpecialStat) -> (r: u64)
        requires
            self.ready(c),
        ensures
            r as int == self.spec_stat_increase(c, stat),
    {
        let mut acc: u64 = 0;
        let mut i: usize = 0;
        while i < self.perks.len()
            invariant
                self.ready(c),
                i <= self.perks@.len(),
                acc as int == held_increase(self.perks@.take(i as int), c@, stat),
                acc <= 65025 * i,
            decreases self.perks@.len() - i,
        {
            let rank = self.perks[i].1;
            let d = self.held_def(c, i);
            let incs = d.ranks.stat_increases(rank);
            proof {
                lemma_stat_increases_len(d.ranks, rank as nat);
            }
            let mut j: usize = 0;
            let mut sub: u64 = 0;
            while j < incs.len()
                invariant
                    j <= incs@.len() <= 255,
                    sub as int == increase_for(incs@.take(j as int), stat),
                    sub <= 255 * j,
                decreases incs@.len() - j,
            {
                proof {
                    assert(incs@.take(j + 1).drop_last() =~= incs@.take(j as int));
                }
                if incs[j].stat == stat {
                    sub = sub + incs[j].increase as u64;
                }
                j = j + 1;
            }
            proof {
                assert(incs@.take(j as int) =~= incs@);
                assert(self.perks@.take(i + 1).drop_last() =~= self.perks@.take(i as int));
            }
            acc = acc + sub;
            i = i + 1;
        }
        proof {
            assert(self.perks@.take(i as int) =~= self.perks@);
        }
        acc
    }

    /// Points of an attribute once every bonus is counted.
    pub fn total_points(&self, c: &Catalog, stat: SpecialStat) -> (r: u64)
        requires
            self.ready(c),
        ensures
            r as int == self.spec_total_points(c, stat),
            r <= 65025 * self.perks@.len() + 14,
    {
        let base = self.total_base_points(stat) as u64;
        let perception: u64 = match stat {
            SpecialStat::Perception => {
                let int1 = PerkId::Special { stat: SpecialStat::Intelligence, points: 1 };
                match self.rank_held(&int1) {
                    r => if r >= 2 {
                        2
                    } else {
                        0
                    },
                }
            },
            _ => 0,
        };
        let inc = self.stat_increase_for(c, stat);
        let bobble: u64 = if self.bobblehead_for(stat) {
            1
        } else {
            0
        };
        proof {
            assert(self.spec_stat_increase(c, stat) <= 65025 * self.perks@.len()) by {
                self.lemma_held_increase_bound(c, stat, self.perks@.len() as int);
                assert(self.perks@.take(self.perks@.len() as int) =~= self.perks@);
            }
        }
        base + perception + inc - bobble
    }

    proof fn lemma_held_increase_bound(&self, c: &Catalog, stat: SpecialStat, n: int)
        requires
            0 <= n <= self.perks@.len(),
        ensures
            0 <= held_increase(self.perks@.take(n), c@, stat) <= 65025 * n,
        decreases n,
    {
        if n > 0 {
            self.lemma_held_increase_bound(c, stat, n - 1);
            assert(self.perks@.take(n).drop_last() =~= self.perks@.take(n - 1));
            let e = self.perks@[n - 1];
            let s = c@[e.0].ranks.spec_stat_increases(e.1 as nat);
            lemma_stat_increases_len(c@[e.0].ranks, e.1 as nat);
            lemma_increase_bound(s, stat);
        }
    }

    /// The rank held of a perk, 0 when it is not held.
    pub fn rank_held(&self, id: &PerkId) -> (r: u8)
        requires
            self.shape_ok(),
        ensures
            r as nat == self.rank_of(*id),
    {
        match self.find_rank(id) {
            Some(r) => r,
            None => 0,
        }
    }

    /// Attribute points spent beyond the first point of each attribute.
    pub open spec fn spec_assigned_special_points(&self) -> int {
        sum_u8(self.special@) - STAT_COUNT as int
    }

    /// Points spent after the initial free pool: attribute points beyond it and perk ranks.
    pub open spec fn spec_level_up_assigned_points(&self) -> int {
        max_int(self.spec_assigned_special_points() - 21, 0) + special_ranks(self.perks@)
    }

    /// The lowest character level that can have this build.
    pub open spec fn spec_required_level(&self, c: &Catalog) -> int {
        max_int(rank_level_need(self.perks@, c@), self.spec_level_up_assigned_points() + 1)
    }

    pub fn assigned_special_points(&self) -> (r: u8)
        requires
            self.wf(),
        ensures
            r as int == self.spec_assigned_special_points(),
    {
        let mut sum: u8 = 0;
        let mut i: usize = 0;
        while i < STAT_COUNT
            invariant
                self.wf(),
                i <= STAT_COUNT,
                sum as int == sum_u8(self.special@.take(i as int)),
                sum <= 10 * i,
                sum >= i,
            decreases STAT_COUNT - i,
        {
            proof {
                assert(self.special@.take(i + 1).drop_last() =~= self.special@.take(i as int));
            }
            sum = sum + self.special[i];
            i = i + 1;
        }
        proof {
            assert(self.special@.take(i as int) =~= self.special@);
        }
        sum - 7
    }

    /// Initial free points not spent yet.
    pub fn remaining_initial_points(&self) -> (r: u8)
        requires
            self.wf(),
        ensures
            r as int == max_int(21 - self.spec_assigned_special_points(), 0),
    {
        crate::character::INITIAL_ASSIGNABLE_POINTS.saturating_sub(self.assigned_special_points())
    }

    /// Attribute points spent beyond the initial free pool.
    pub fn level_up_assigned_special_points(&self) -> (r: u8)
        requires
            self.wf(),
        ensures
            r as int == max_int(self.spec_assigned_special_points() - 21, 0),
    {
        self.assigned_special_points().saturating_sub(crate::character::INITIAL_ASSIGNABLE_POINTS)
    }

    /// Ranks spent on attribute perks.
    pub fn assigned_perk_points(&self) -> (r: u64)
        requires
            self.wf(),
            self.within_limits(),
        ensures
            r as int == special_ranks(self.perks@),
    {
        let mut sum: u64 = 0;
        let mut i: usize = 0;
        while i < self.perks.len()
            invariant
                self.within_limits(),
                i <= self.perks@.len(),
                sum as int == special_ranks(self.perks@.take(i as int)),
                sum <= 255 * i,
            decreases self.perks@.len() - i,
        {
            proof {
                assert(self.perks@.take(i + 1).drop_last() =~= self.perks@.take(i as int));
            }
            let (id, rank) = self.perks[i];
            if let PerkId::Special { .. } = id {
                sum = sum + rank as u64;
            }
            i = i + 1;
        }
        proof {
            assert(self.perks@.take(i as int) =~= self.perks@);
        }
        sum
    }

    /// Points spent after the initial free pool.
    pub fn level_up_assigned_points(&self) -> (r: u64)
        requires
            self.wf(),
            self.within_limits(),
        ensures
            r as int == self.spec_level_up_assigned_points(),
            r <= 255 * self.perks@.len() + 63,
    {
        proof {
            lemma_special_ranks_bound(self.perks@);
            lemma_sum_u8_bound(self.special@);
        }
        self.level_up_assigned_special_points() as u64 + self.assigned_perk_points()
    }

    /// The lowest level at which every held rank is available and every spent point earned.
    pub fn required_level(&self, c: &Catalog) -> (r: u64)
        requires
            self.ready(c),
        ensures
            r as int == self.spec_required_level(c),
    {
        let mut need: u8 = 1;
        let mut i: usize = 0;
        while i < self.perks.len()
            invariant
                self.ready(c),
                i <= self.perks@.len(),
                need as int == rank_level_need(self.perks@.take(i as int), c@),
            decreases self.perks@.len() - i,
        {
            proof {
                assert(self.perks@.take(i + 1).drop_last() =~= self.perks@.take(i as int));
                assert(crate::catalog::entry_wf(self.perks@[i as int].0, c@[self.perks@[i as int].0]));
            }
            let rank = self.perks[i].1;
            let d = self.held_def(c, i);
            let here = d.ranks.required_level(rank);
            if here > need {
                need = here;
            }
            i = i + 1;
        }
        proof {
            assert(self.perks@.take(i as int) =~= self.perks@);
        }
        let spent = self.level_up_assigned_points() + 1;
        if (need as u64) >= spent {
            need as u64
        } else {
            spent
        }
    }

    /// The contributions of one effect field over the held perks, in order.
    pub fn effect_contributions(&self, c: &Catalog, f: EffectField) -> (r: Vec<u32>)
        requires
            self.ready(c),
        ensures
            r@ == held_scalars(self.perks@, c@, f),
    {
        let mut r: Vec<u32> = Vec::new();
        let mut i: usize = 0;
        while i < self.perks.len()
            invariant
                self.ready(c),
                i <= self.perks@.len(),
                r@ == held_scalars(self.perks@.take(i as int), c@, f),
            decreases self.perks@.len() - i,
        {
            proof {
                assert(self.perks@.take(i + 1).drop_last() =~= self.perks@.take(i as int));
            }
            let rank = self.perks[i].1;
            let d = self.held_def(c, i);
            let mut more = d.ranks.scalars(rank, f);
            r.append(&mut more);
            i = i + 1;
        }
        proof {
            assert(self.perks@.take(i as int) =~= self.perks@);
        }
        r
    }

    /// Carry weight: a base by difficulty, ten per point of Strength, and perk bonuses.
    pub fn carry_weight(&self, c: &Catalog) -> (r: u64)
        requires
            self.ready(c),
        ensures
            r as int == self.spec_carry_weight(c),
    {
        let base: u64 = match self.difficulty {
            Some(Difficulty::Survival) => 75,
            _ => 200,
        };
        let strength = self.total_points(c, SpecialStat::Strength);
        let adds = self.effect_contributions(c, EffectField::CarryWeightAdd);
        let mut from_perks: u64 = 0;
        let mut j: usize = 0;
        proof {
            self.lemma_carry_bound(c, self.perks@.len() as int);
            assert(self.perks@.take(self.perks@.len() as int) =~= self.perks@);
        }
        while j < adds.len()
            invariant
                j <= adds@.len(),
                adds@.len() <= 255 * self.perks@.len(),
                forall|k: int| 0 <= k < adds@.len() ==> #[trigger] adds@[k] <= 65535,
                self.within_limits(),
                from_perks as int == sum_of(adds@.take(j as int)),
                from_perks <= 65535 * j,
            decreases adds@.len() - j,
        {
            proof {
                assert(adds@.take(j + 1).drop_last() =~= adds@.take(j as int));
            }
            from_perks = from_perks + adds[j] as u64;
            j = j + 1;
        }
        proof {
            assert(adds@.take(j as int) =~= adds@);
        }
        base + strength * 10 + from_perks
    }

    proof fn lemma_carry_bound(&self, c: &Catalog, n: int)
        requires
            0 <= n <= self.perks@.len(),
        ensures
            held_scalars(self.perks@.take(n), c@, EffectField::CarryWeightAdd).len() <= 255 * n,
            forall|k: int|
                0 <= k < held_scalars(self.perks@.take(n), c@, EffectField::CarryWeightAdd).len()
                    ==> #[trigger] held_scalars(self.perks@.take(n), c@, EffectField::CarryWeightAdd)[k]
                    <= 65535,
        decreases n,
    {
        if n > 0 {
            self.lemma_carry_bound(c, n - 1);
            assert(self.perks@.take(n).drop_last() =~= self.perks@.take(n - 1));
            let e = self.perks@[n - 1];
            lemma_carry_scalars_bound(c@[e.0].ranks, e.1 as nat);
            let a = held_scalars(self.perks@.take(n - 1), c@, EffectField::CarryWeightAdd);
            let b = c@[e.0].ranks.spec_scalars(e.1 as nat, EffectField::CarryWeightAdd);
            assert forall|k: int| 0 <= k < (a + b).len() implies #[trigger] (a + b)[k] <= 65535 by {
                if k >= a.len() {
                    assert((a + b)[k] == b[k - a.len()]);
                }
            }
        }
    }

    /// Hits needed for a critical, from total Luck.
    pub fn hits_per_crit(&self, c: &Catalog) -> (r: u8)
        requires
            self.ready(c),
        ensures
            r as int == crit_hits(self.spec_total_points(c, SpecialStat::Luck)),
    {
        let luck = self.total_points(c, SpecialStat::Luck);
        hits_for_luck(luck)
    }
}

/// Hits needed for a critical at a given total Luck.
pub fn hits_for_luck(luck: u64) -> (r: u8)
    ensures
        r as int == crit_hits(luck as int),
{
    if luck == 1 {
        14
    } else if luck == 2 {
        12
    } else if luck == 3 {
        10
    } else if luck == 4 {
        9
    } else if luck == 5 {
        8
    } else if 6 <= luck && luck <= 7 {
        7
    } else if 8 <= luck && luck <= 9 {
        6
    } else if 10 <= luck && luck <= 12 {
        5
    } else if 13 <= luck && luck <= 18 {
        4
    } else if 19 <= luck && luck <= 29 {
        3
    } else if 30 <= luck && luck <= 62 {
        2
    } else {
        1
    }
}

} // verus!
