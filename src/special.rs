//! The game's data model: attributes, perk identities, rank structures and effects.
use vstd::prelude::*;

verus! {

/// One of the seven primary attributes, in their canonical order.
#[derive(Debug, Clone, Copy, PartialEq, Eq, Structural, PartialOrd, Ord, Hash)]
pub enum SpecialStat {
    Strength,
    Perception,
    Endurance,
    Charisma,
    Intelligence,
    Agility,
    Luck,
}

/// Number of primary attributes.
pub const STAT_COUNT: usize = 7;

/// Position of an attribute in the canonical order.
pub open spec fn stat_index(s: SpecialStat) -> int {
    match s {
        SpecialStat::Strength => 0,
        SpecialStat::Perception => 1,
        SpecialStat::Endurance => 2,
        SpecialStat::Charisma => 3,
        SpecialStat::Intelligence => 4,
        SpecialStat::Agility => 5,
        SpecialStat::Luck => 6,
    }
}

/// The attribute at a position of the canonical order.
pub open spec fn stat_at(i: int) -> SpecialStat {
    if i <= 0 {
        SpecialStat::Strength
    } else if i == 1 {
        SpecialStat::Perception
    } else if i == 2 {
        SpecialStat::Endurance
    } else if i == 3 {
        SpecialStat::Charisma
    } else if i == 4 {
        SpecialStat::Intelligence
    } else if i == 5 {
        SpecialStat::Agility
    } else {
        SpecialStat::Luck
    }
}

pub proof fn lemma_stat_index_round_trip(s: SpecialStat)
    ensures
        0 <= stat_index(s) < 7,
        stat_at(stat_index(s)) == s,
{
}

/// The display name of an attribute.
pub open spec fn stat_label(s: SpecialStat) -> &'static str {
    match s {
        SpecialStat::Strength => "Strength",
        SpecialStat::Perception => "Perception",
        SpecialStat::Endurance => "Endurance",
        SpecialStat::Charisma => "Charisma",
        SpecialStat::Intelligence => "Intelligence",
        SpecialStat::Agility => "Agility",
        SpecialStat::Luck => "Luck",
    }
}

impl SpecialStat {
    /// The display name.
    pub fn label(&self) -> (r: &'static str)
        ensures
            r == stat_label(*self),
    {
        match self {
            SpecialStat::Strength => "Strength",
            SpecialStat::Perception => "Perception",
            SpecialStat::Endurance => "Endurance",
            SpecialStat::Charisma => "Charisma",
            SpecialStat::Intelligence => "Intelligence",
            SpecialStat::Agility => "Agility",
            SpecialStat::Luck => "Luck",
        }
    }

    pub fn index(&self) -> (r: usize)
        ensures
            r as int == stat_index(*self),
            r < STAT_COUNT,
    {
        match self {
            SpecialStat::Strength => 0,
            SpecialStat::Perception => 1,
            SpecialStat::Endurance => 2,
            SpecialStat::Charisma => 3,
            SpecialStat::Intelligence => 4,
            SpecialStat::Agility => 5,
            SpecialStat::Luck => 6,
        }
    }

    pub fn from_index(i: usize) -> (r: SpecialStat)
        requires
            i < STAT_COUNT,
        ensures
            r == stat_at(i as int),
            stat_index(r) == i as int,
    {
        if i == 0 {
            SpecialStat::Strength
        } else if i == 1 {
            SpecialStat::Perception
        } else if i == 2 {
            SpecialStat::Endurance
        } else if i == 3 {
            SpecialStat::Charisma
        } else if i == 4 {
            SpecialStat::Intelligence
        } else if i == 5 {
            SpecialStat::Agility
        } else {
            SpecialStat::Luck
        }
    }

    /// All attributes in canonical order.
    pub fn all() -> (r: Vec<SpecialStat>)
        ensures
            r@.len() == STAT_COUNT,
            forall|i: int| 0 <= i < 7 ==> #[trigger] r@[i] == stat_at(i),
    {
        let mut r: Vec<SpecialStat> = Vec::new();
        let mut i: usize = 0;
        while i < STAT_COUNT
            invariant
                i <= STAT_COUNT,
                r@.len() == i,
                forall|j: int| 0 <= j < i ==> #[trigger] r@[j] == stat_at(j),
            decreases STAT_COUNT - i,
        {
            r.push(SpecialStat::from_index(i));
            i = i + 1;
        }
        r
    }
}

/// A bonus item: either one tied to an attribute, or one of the others by position.
#[derive(Debug, Clone, Copy, PartialEq, Eq, Structural, PartialOrd, Ord, Hash)]
pub enum BobbleheadId {
    Special(SpecialStat),
    Other(usize),
}

/// The identity of a perk.
#[derive(Debug, Clone, Copy, PartialEq, Eq, Structural, PartialOrd, Ord, Hash)]
pub enum PerkId {
    Special { stat: SpecialStat, points: u8 },
    Bobblehead(BobbleheadId),
    Magazine(usize),
    Companion(usize),
    Faction(usize),
    Other(usize),
}

/// The category a perk is listed under.
#[derive(Debug, Clone, Copy, PartialEq, Eq, Structural, PartialOrd, Ord, Hash)]
pub enum PerkKind {
    Special(SpecialStat),
    Bobblehead,
    Magazine,
    Companion,
    Faction,
    Other,
}

/// The heading a category is listed under.
pub open spec fn kind_label(k: PerkKind) -> &'static str {
    match k {
        PerkKind::Special(stat) => stat_label(stat),
        PerkKind::Bobblehead => "Bobbleheads",
        PerkKind::Magazine => "Magazines",
        PerkKind::Companion => "Companions",
        PerkKind::Faction => "Factions",
        PerkKind::Other => "Other",
    }
}

impl PerkKind {
    /// The heading this category is listed under.
    pub fn label(&self) -> (r: &'static str)
        ensures
            r == kind_label(*self),
    {
        match self {
            PerkKind::Special(stat) => stat.label(),
            PerkKind::Bobblehead => "Bobbleheads",
            PerkKind::Magazine => "Magazines",
            PerkKind::Companion => "Companions",
            PerkKind::Faction => "Factions",
            PerkKind::Other => "Other",
        }
    }
}

pub open spec fn kind_of(id: PerkId) -> PerkKind {
    match id {
        PerkId::Special { stat, .. } => PerkKind::Special(stat),
        PerkId::Bobblehead(_) => PerkKind::Bobblehead,
        PerkId::Magazine(_) => PerkKind::Magazine,
        PerkId::Companion(_) => PerkKind::Companion,
        PerkId::Faction(_) => PerkKind::Faction,
        PerkId::Other(_) => PerkKind::Other,
    }
}

/// The integer triple that orders perk identities: category, sub-key, position.
pub type PerkKey = (u8, u8, usize);

pub open spec fn key_of(id: PerkId) -> PerkKey {
    match id {
        PerkId::Special { stat, points } => (0u8, stat_index(stat) as u8, points as usize),
        PerkId::Bobblehead(BobbleheadId::Special(stat)) => (1u8, 0u8, stat_index(stat) as usize),
        PerkId::Bobblehead(BobbleheadId::Other(i)) => (1u8, 1u8, i),
        PerkId::Magazine(i) => (2u8, 0u8, i),
        PerkId::Companion(i) => (3u8, 0u8, i),
        PerkId::Faction(i) => (4u8, 0u8, i),
        PerkId::Other(i) => (5u8, 0u8, i),
    }
}

/// The bonus-item perk tied to an attribute.
pub open spec fn bobblehead_id(stat: SpecialStat) -> PerkId {
    PerkId::Bobblehead(BobbleheadId::Special(stat))
}

/// Strict order on keys: lexicographic on the triple.
pub open spec fn key_lt(a: PerkKey, b: PerkKey) -> bool {
    a.0 < b.0 || (a.0 == b.0 && (a.1 < b.1 || (a.1 == b.1 && a.2 < b.2)))
}

/// Strict order on perk identities, the one their derived `Ord` gives.
pub open spec fn id_lt(a: PerkId, b: PerkId) -> bool {
    key_lt(key_of(a), key_of(b))
}

pub proof fn lemma_key_of_injective(a: PerkId, b: PerkId)
    ensures
        key_of(a) == key_of(b) ==> a == b,
{
    lemma_stat_index_round_trip_all();
}

pub proof fn lemma_stat_index_round_trip_all()
    ensures
        forall|s: SpecialStat| stat_at(#[trigger] stat_index(s)) == s && 0 <= stat_index(s) < 7,
{
}

pub proof fn lemma_id_lt_transitive(a: PerkId, b: PerkId, c: PerkId)
    requires
        id_lt(a, b),
        id_lt(b, c),
    ensures
        id_lt(a, c),
{
}

pub proof fn lemma_id_lt_total(a: PerkId, b: PerkId)
    ensures
        a == b || id_lt(a, b) || id_lt(b, a),
        !(id_lt(a, b) && id_lt(b, a)),
        !id_lt(a, a),
{
    lemma_key_of_injective(a, b);
}

impl PerkId {
    pub fn kind(&self) -> (r: PerkKind)
        ensures
            r == kind_of(*self),
    {
        match self {
            PerkId::Special { stat, .. } => PerkKind::Special(*stat),
            PerkId::Bobblehead(_) => PerkKind::Bobblehead,
            PerkId::Magazine(_) => PerkKind::Magazine,
            PerkId::Companion(_) => PerkKind::Companion,
            PerkId::Faction(_) => PerkKind::Faction,
            PerkId::Other(_) => PerkKind::Other,
        }
    }

    pub fn key(&self) -> (r: PerkKey)
        ensures
            r == key_of(*self),
    {
        match self {
            PerkId::Special { stat, points } => (0, stat.index() as u8, *points as usize),
            PerkId::Bobblehead(BobbleheadId::Special(stat)) => (1, 0, stat.index()),
            PerkId::Bobblehead(BobbleheadId::Other(i)) => (1, 1, *i),
            PerkId::Magazine(i) => (2, 0, *i),
            PerkId::Companion(i) => (3, 0, *i),
            PerkId::Faction(i) => (4, 0, *i),
            PerkId::Other(i) => (5, 0, *i),
        }
    }

    /// The identity a key stands for, if any.
    pub fn from_key(k: PerkKey) -> (r: Option<PerkId>)
        ensures
            r matches Some(id) ==> key_of(id) == k,
            (exists|id: PerkId| key_of(id) == k) ==> r is Some,
    {
        let (a, b, c) = k;
        if a == 0 {
            if b < 7 && c <= 255 {
                Some(PerkId::Special { stat: SpecialStat::from_index(b as usize), points: c as u8 })
            } else {
                None
            }
        } else if a == 1 {
            if b == 0 {
                if c < 7 {
                    Some(PerkId::Bobblehead(BobbleheadId::Special(SpecialStat::from_index(c))))
                } else {
                    None
                }
            } else if b == 1 {
                Some(PerkId::Bobblehead(BobbleheadId::Other(c)))
            } else {
                None
            }
        } else if b != 0 {
            None
        } else if a == 2 {
            Some(PerkId::Magazine(c))
        } else if a == 3 {
            Some(PerkId::Companion(c))
        } else if a == 4 {
            Some(PerkId::Faction(c))
        } else if a == 5 {
            Some(PerkId::Other(c))
        } else {
            None
        }
    }

    /// Whether this identity comes strictly before `other`.
    pub fn precedes(&self, other: &PerkId) -> (r: bool)
        ensures
            r == id_lt(*self, *other),
    {
        let a = self.key();
        let b = other.key();
        a.0 < b.0 || (a.0 == b.0 && (a.1 < b.1 || (a.1 == b.1 && a.2 < b.2)))
    }
}

/// A character's gender, which selects between gendered perk names.
#[derive(Debug, Clone, Copy, PartialEq, Eq, Structural, Default, Hash)]
pub enum Gender {
    #[default]
    Male,
    Female,
}

/// Game difficulty.
#[derive(Debug, Clone, Copy, PartialEq, Eq, Structural, PartialOrd, Ord, Default, Hash)]
pub enum Difficulty {
    VeryEasy,
    Easy,
    #[default]
    Normal,
    Hard,
    VeryHard,
    Survival,
}

/// Bonus items that raise a skill rather than an attribute.
#[derive(Debug, Clone, Copy, PartialEq, Eq, Structural, PartialOrd, Ord, Hash)]
pub enum SkillBobblehead {
    Barter,
    BigGuns,
    EnergyWeapons,
    Explosives,
    Lockpicking,
    Medicine,
    Melee,
    Repair,
    Science,
    SmallGuns,
    Sneak,
    Speech,
    Unarmed,
}

/// A family of values chosen by a selector (a gender, a difficulty).
pub trait Selectable<T> {
    type Selector: Copy;

    spec fn spec_selectors() -> Seq<Self::Selector>;

    spec fn spec_select(&self, s: Self::Selector) -> T;

    /// Every selector, in a fixed order.
    fn selectors() -> (r: Vec<Self::Selector>)
        ensures
            r@ == Self::spec_selectors(),
    ;

    fn select(&self, s: Self::Selector) -> (r: &T)
        ensures
            *r == self.spec_select(s),
    ;
}

/// Either one value for every selector, or one value per selector.
pub enum MaybeVaried<T, M> {
    One(T),
    Multi(M),
}

impl<T, M: Selectable<T>> MaybeVaried<T, M> {
    /// The value for a selector.
    pub open spec fn spec_get(&self, s: M::Selector) -> T {
        match self {
            MaybeVaried::One(v) => *v,
            MaybeVaried::Multi(m) => m.spec_select(s),
        }
    }

    /// Every variant: the single value, or one per selector in the selectors' order.
    pub open spec fn spec_variants(&self) -> Seq<T> {
        match self {
            MaybeVaried::One(v) => seq![*v],
            MaybeVaried::Multi(m) => M::spec_selectors().map_values(|s: M::Selector| m.spec_select(s)),
        }
    }

    pub fn get(&self, s: M::Selector) -> (r: &T)
        ensures
            *r == self.spec_get(s),
    {
        match self {
            MaybeVaried::One(v) => v,
            MaybeVaried::Multi(m) => m.select(s),
        }
    }

    pub fn iter(&self) -> (r: Vec<&T>)
        ensures
            r@.len() == self.spec_variants().len(),
            forall|i: int| 0 <= i < r@.len() ==> *r@[i] == self.spec_variants()[i],
    {
        match self {
            MaybeVaried::One(v) => {
                let mut r: Vec<&T> = Vec::new();
                r.push(v);
                r
            },
            MaybeVaried::Multi(m) => {
                let sels = M::selectors();
                let mut r: Vec<&T> = Vec::new();
                let mut i: usize = 0;
                while i < sels.len()
                    invariant
                        i <= sels@.len(),
                        sels@ == M::spec_selectors(),
                        r@.len() == i,
                        forall|j: int| 0 <= j < i ==> *r@[j] == m.spec_select(sels@[j]),
                    decreases sels@.len() - i,
                {
                    r.push(m.select(sels[i]));
                    i = i + 1;
                }
                r
            },
        }
    }
}

/// A value per gender.
pub struct Gendered<T> {
    pub male: T,
    pub female: T,
}

impl<T> Selectable<T> for Gendered<T> {
    type Selector = Gender;

    open spec fn spec_selectors() -> Seq<Gender> {
        seq![Gender::Male, Gender::Female]
    }

    open spec fn spec_select(&self, s: Gender) -> T {
        match s {
            Gender::Male => self.male,
            Gender::Female => self.female,
        }
    }

    fn selectors() -> (r: Vec<Gender>) {
        let r = vec![Gender::Male, Gender::Female];
        proof {
            assert(r@ =~= seq![Gender::Male, Gender::Female]);
        }
        r
    }

    fn select(&self, s: Gender) -> (r: &T) {
        match s {
            Gender::Male => &self.male,
            Gender::Female => &self.female,
        }
    }
}

/// A value for normal play and one for survival difficulty.
pub struct Difficultied<T> {
    pub normal: T,
    pub survival: T,
}

impl<T> Selectable<T> for Difficultied<T> {
    type Selector = Difficulty;

    open spec fn spec_selectors() -> Seq<Difficulty> {
        seq![Difficulty::Normal, Difficulty::Survival]
    }

    open spec fn spec_select(&self, s: Difficulty) -> T {
        match s {
            Difficulty::Survival => self.survival,
            _ => self.normal,
        }
    }

    fn selectors() -> (r: Vec<Difficulty>) {
        let r = vec![Difficulty::Normal, Difficulty::Survival];
        proof {
            assert(r@ =~= seq![Difficulty::Normal, Difficulty::Survival]);
        }
        r
    }

    fn select(&self, s: Difficulty) -> (r: &T) {
        match s {
            Difficulty::Survival => &self.survival,
            _ => &self.normal,
        }
    }
}

pub type MaybeGendered<T> = MaybeVaried<T, Gendered<T>>;

pub type MaybeDifficultied<T> = MaybeVaried<T, Difficultied<T>>;

pub type FullyVariable<T> = MaybeDifficultied<MaybeGendered<T>>;

/// A flat increase of one attribute granted by a perk.
#[derive(Debug, Clone, Copy, PartialEq, Eq, Structural)]
pub struct StatIncrease {
    pub stat: SpecialStat,
    pub increase: u8,
}

/// The numeric effect fields. The fractional ones hold the bit pattern of a
/// 32-bit float: the library selects and orders them, callers do the arithmetic.
#[derive(Debug, Clone, Copy, PartialEq, Eq, Structural)]
pub enum EffectField {
    MeleeDamageAdd,
    CarryWeightAdd,
    HpAdd,
    ApAdd,
    BuyPriceSub,
    SprintDrainMul,
}

/// The effects of one rank; an absent field has no effect.
#[derive(Debug, Clone, Copy, PartialEq, Eq, Structural, Default)]
pub struct Effects {
    pub melee_damage_add: Option<u32>,
    pub carry_weight_add: Option<u16>,
    pub hp_add: Option<u32>,
    pub ap_add: Option<u32>,
    pub buy_price_sub: Option<u32>,
    pub stat_increase: Option<StatIncrease>,
    pub sprint_drain_mul: Option<u32>,
}

/// The value of a numeric field; a carry-weight bonus is widened.
pub open spec fn scalar_of(e: Effects, f: EffectField) -> Option<u32> {
    match f {
        EffectField::MeleeDamageAdd => e.melee_damage_add,
        EffectField::CarryWeightAdd => match e.carry_weight_add {
            Some(v) => Some(v as u32),
            None => None,
        },
        EffectField::HpAdd => e.hp_add,
        EffectField::ApAdd => e.ap_add,
        EffectField::BuyPriceSub => e.buy_price_sub,
        EffectField::SprintDrainMul => e.sprint_drain_mul,
    }
}

impl Effects {
    /// No field set.
    pub open spec fn spec_none() -> Effects {
        Effects {
            melee_damage_add: None,
            carry_weight_add: None,
            hp_add: None,
            ap_add: None,
            buy_price_sub: None,
            stat_increase: None,
            sprint_drain_mul: None,
        }
    }

    /// No field set.
    pub fn none() -> (r: Effects)
        ensures
            r == Effects::spec_none(),
    {
        Effects {
            melee_damage_add: None,
            carry_weight_add: None,
            hp_add: None,
            ap_add: None,
            buy_price_sub: None,
            stat_increase: None,
            sprint_drain_mul: None,
        }
    }

    pub fn scalar(&self, f: EffectField) -> (r: Option<u32>)
        ensures
            r == scalar_of(*self, f),
    {
        match f {
            EffectField::MeleeDamageAdd => self.melee_damage_add,
            EffectField::CarryWeightAdd => match self.carry_weight_add {
                Some(v) => Some(v as u32),
                None => None,
            },
            EffectField::HpAdd => self.hp_add,
            EffectField::ApAdd => self.ap_add,
            EffectField::BuyPriceSub => self.buy_price_sub,
            EffectField::SprintDrainMul => self.sprint_drain_mul,
        }
    }
}

/// One rank of a perk whose ranks differ.
pub struct Rank {
    pub required_level: u8,
    pub description: FullyVariable<String>,
    pub effects: Effects,
}

/// How a perk's ranks are structured.
pub enum Ranks {
    /// `count` identical ranks; their effects add up once per rank held.
    UniformCumulative { count: u8, description: FullyVariable<String>, effects: Effects },
    /// Exactly one rank.
    Single { description: FullyVariable<String>, effects: Effects },
    /// Ranks with their own level and effects; a field comes from the highest
    /// held rank that sets it.
    VaryingCumulative(Vec<Rank>),
}

/// The value of the latest rank in `rs` that sets the field.
pub open spec fn last_scalar(rs: Seq<Rank>, f: EffectField) -> Option<u32>
    decreases rs.len(),
{
    if rs.len() == 0 {
        None
    } else {
        match scalar_of(rs.last().effects, f) {
            Some(v) => Some(v),
            None => last_scalar(rs.drop_last(), f),
        }
    }
}

/// The latest stat increase in `rs`.
pub open spec fn last_stat_increase(rs: Seq<Rank>) -> Option<StatIncrease>
    decreases rs.len(),
{
    if rs.len() == 0 {
        None
    } else {
        match rs.last().effects.stat_increase {
            Some(v) => Some(v),
            None => last_stat_increase(rs.drop_last()),
        }
    }
}

pub open spec fn opt_seq<T>(o: Option<T>) -> Seq<T> {
    match o {
        Some(v) => seq![v],
        None => Seq::empty(),
    }
}

pub open spec fn min_nat(a: nat, b: nat) -> nat {
    if a <= b { a } else { b }
}

impl Ranks {
    /// Every perk has at least one rank, and at most 255.
    pub open spec fn wf(&self) -> bool {
        match self {
            Ranks::UniformCumulative { count, .. } => count >= 1,
            Ranks::Single { .. } => true,
            Ranks::VaryingCumulative(rs) => 1 <= rs@.len() <= 255,
        }
    }

    pub open spec fn spec_max_rank(&self) -> nat {
        match self {
            Ranks::Single { .. } => 1,
            Ranks::UniformCumulative { count, .. } => *count as nat,
            Ranks::VaryingCumulative(rs) => rs@.len(),
        }
    }

    /// The character level a rank needs; ranks of the other structures need level 1.
    pub open spec fn spec_required_level(&self, rank: nat) -> nat {
        match self {
            Ranks::VaryingCumulative(rs) => rs@[rank - 1].required_level as nat,
            _ => 1,
        }
    }

    /// The field's contributions when `rank` ranks are held, in order.
    pub open spec fn spec_scalars(&self, rank: nat, f: EffectField) -> Seq<u32> {
        match self {
            Ranks::Single { effects, .. } => opt_seq(scalar_of(*effects, f)),
            Ranks::UniformCumulative { effects, .. } => match scalar_of(*effects, f) {
                Some(v) => Seq::new(rank, |i: int| v),
                None => Seq::empty(),
            },
            Ranks::VaryingCumulative(rs) => opt_seq(
                last_scalar(rs@.take(min_nat(rank, rs@.len()) as int), f),
            ),
        }
    }

    /// The stat increases granted when `rank` ranks are held, in order.
    pub open spec fn spec_stat_increases(&self, rank: nat) -> Seq<StatIncrease> {
        match self {
            Ranks::Single { effects, .. } => opt_seq(effects.stat_increase),
            Ranks::UniformCumulative { effects, .. } => match effects.stat_increase {
                Some(v) => Seq::new(rank, |i: int| v),
                None => Seq::empty(),
            },
            Ranks::VaryingCumulative(rs) => opt_seq(
                last_stat_increase(rs@.take(min_nat(rank, rs@.len()) as int)),
            ),
        }
    }

    pub fn max_rank(&self) -> (r: u8)
        requires
            self.wf(),
        ensures
            r as nat == self.spec_max_rank(),
    {
        match self {
            Ranks::Single { .. } => 1,
            Ranks::UniformCumulative { count, .. } => *count,
            Ranks::VaryingCumulative(ranks) => ranks.len() as u8,
        }
    }

    pub fn required_level(&self, rank: u8) -> (r: u8)
        requires
            self.wf(),
            1 <= rank <= self.spec_max_rank(),
        ensures
            r as nat == self.spec_required_level(rank as nat),
    {
        match self {
            Ranks::VaryingCumulative(ranks) => ranks[rank as usize - 1].required_level,
            _ => 1,
        }
    }

    /// How many ranks a character at `level` can hold.
    pub fn highest_rank_within_level(&self, level: u8) -> (r: u8)
        requires
            self.wf(),
        ensures
            r as nat == match self {
                Ranks::VaryingCumulative(rs) => rs@.filter(|k: Rank| k.required_level <= level).len(),
                _ => self.spec_max_rank(),
            },
    {
        match self {
            Ranks::Single { .. } => 1,
            Ranks::UniformCumulative { count, .. } => *count,
            Ranks::VaryingCumulative(ranks) => {
                let mut n: u8 = 0;
                let mut i: usize = 0;
                while i < ranks.len()
                    invariant
                        i <= ranks@.len() <= 255,
                        n as nat == ranks@.take(i as int).filter(|k: Rank| k.required_level <= level).len(),
                        n <= i,
                    decreases ranks@.len() - i,
                {
                    proof {
                        reveal(Seq::filter);
                        assert(ranks@.take(i + 1).drop_last() =~= ranks@.take(i as int));
                        broadcast use vstd::seq_lib::group_filter_ensures;
                    }
                    if ranks[i].required_level <= level {
                        n = n + 1;
                    }
                    i = i + 1;
                }
                proof {
                    assert(ranks@.take(i as int) =~= ranks@);
                }
                n
            },
        }
    }

    /// The field's contributions when `rank` ranks are held.
    pub fn scalars(&self, rank: u8, f: EffectField) -> (r: Vec<u32>)
        ensures
            r@ == self.spec_scalars(rank as nat, f),
    {
        match self {
            Ranks::Single { effects, .. } => {
                let mut r: Vec<u32> = Vec::new();
                if let Some(v) = effects.scalar(f) {
                    r.push(v);
                }
                proof {
                    assert(r@ =~= self.spec_scalars(rank as nat, f));
                }
                r
            },
            Ranks::UniformCumulative { effects, .. } => {
                let mut r: Vec<u32> = Vec::new();
                if let Some(v) = effects.scalar(f) {
                    let mut i: u8 = 0;
                    while i < rank
                        invariant
                            i <= rank,
                            r@ =~= Seq::new(i as nat, |j: int| v),
                        decreases rank - i,
                    {
                        r.push(v);
                        i = i + 1;
                    }
                }
                proof {
                    assert(r@ =~= self.spec_scalars(rank as nat, f));
                }
                r
            },
            Ranks::VaryingCumulative(ranks) => {
                let held: usize = if (rank as usize) < ranks.len() {
                    rank as usize
                } else {
                    ranks.len()
                };
                let mut i: usize = held;
                let mut found: Option<u32> = None;
                while i > 0 && found.is_none()
                    invariant
                        i <= held <= ranks@.len(),
                        held == min_nat(rank as nat, ranks@.len()),
                        last_scalar(ranks@.take(held as int), f) == match found {
                            Some(v) => Some(v),
                            None => last_scalar(ranks@.take(i as int), f),
                        },
                    decreases i,
                {
                    proof {
                        assert(ranks@.take(i as int).drop_last() =~= ranks@.take(i - 1));
                    }
                    found = ranks[i - 1].effects.scalar(f);
                    i = i - 1;
                }
                proof {
                    assert(ranks@.take(0) =~= Seq::<Rank>::empty());
                }
                let mut r: Vec<u32> = Vec::new();
                if let Some(v) = found {
                    r.push(v);
                }
                proof {
                    assert(r@ =~= self.spec_scalars(rank as nat, f));
                }
                r
            },
        }
    }

    /// The stat increases granted when `rank` ranks are held.
    pub fn stat_increases(&self, rank: u8) -> (r: Vec<StatIncrease>)
        ensures
            r@ == self.spec_stat_increases(rank as nat),
    {
        match self {
            Ranks::Single { effects, .. } => {
                let mut r: Vec<StatIncrease> = Vec::new();
                if let Some(v) = effects.stat_increase {
                    r.push(v);
                }
                proof {
                    assert(r@ =~= self.spec_stat_increases(rank as nat));
                }
                r
            },
            Ranks::UniformCumulative { effects, .. } => {
                let mut r: Vec<StatIncrease> = Vec::new();
                if let Some(v) = effects.stat_increase {
                    let mut i: u8 = 0;
                    while i < rank
                        invariant
                            i <= rank,
                            r@ =~= Seq::new(i as nat, |j: int| v),
                        decreases rank - i,
                    {
                        r.push(v);
                        i = i + 1;
                    }
                }
                proof {
                    assert(r@ =~= self.spec_stat_increases(rank as nat));
                }
                r
            },
            Ranks::VaryingCumulative(ranks) => {
                let held: usize = if (rank as usize) < ranks.len() {
                    rank as usize
                } else {
                    ranks.len()
                };
                let mut i: usize = held;
                let mut found: Option<StatIncrease> = None;
                while i > 0 && found.is_none()
                    invariant
                        i <= held <= ranks@.len(),
                        held == min_nat(rank as nat, ranks@.len()),
                        last_stat_increase(ranks@.take(held as int)) == match found {
                            Some(v) => Some(v),
                            None => last_stat_increase(ranks@.take(i as int)),
                        },
                    decreases i,
                {
                    proof {
                        assert(ranks@.take(i as int).drop_last() =~= ranks@.take(i - 1));
                    }
                    found = ranks[i - 1].effects.stat_increase;
                    i = i - 1;
                }
                proof {
                    assert(ranks@.take(0) =~= Seq::<Rank>::empty());
                }
                let mut r: Vec<StatIncrease> = Vec::new();
                if let Some(v) = found {
                    r.push(v);
                }
                proof {
                    assert(r@ =~= self.spec_stat_increases(rank as nat));
                }
                r
            },
        }
    }
}

/// A perk: its name and its ranks.
pub struct PerkDef {
    pub name: MaybeGendered<String>,
    pub ranks: Ranks,
}

impl PerkDef {
    /// The rank to add: the one asked for, or the highest, capped by what a
    /// character at the level limit can hold.
    pub fn rank_to_add(&self, requested: Option<u8>, level_limit: Option<u8>) -> (r: u8)
        requires
            self.ranks.wf(),
        ensures
            ({
                let wanted: int = match requested {
                    Some(k) => k as int,
                    None => self.ranks.spec_max_rank() as int,
                };
                let level: u8 = match level_limit {
                    Some(l) => l,
                    None => 255u8,
                };
                let cap: int = match self.ranks {
                    Ranks::VaryingCumulative(rs) => rs@.filter(|k: Rank| k.required_level <= level).len() as int,
                    _ => self.ranks.spec_max_rank() as int,
                };
                r as int == if wanted <= cap {
                    wanted
                } else {
                    cap
                }
            }),
    {
        let wanted = match requested {
            Some(k) => k,
            None => self.max_rank(),
        };
        let level = match level_limit {
            Some(l) => l,
            None => 255,
        };
        let cap = self.ranks.highest_rank_within_level(level);
        if wanted <= cap {
            wanted
        } else {
            cap
        }
    }

    pub fn max_rank(&self) -> (r: u8)
        requires
            self.ranks.wf(),
        ensures
            r as nat == self.ranks.spec_max_rank(),
    {
        self.ranks.max_rank()
    }
}

} // verus!
