//! A character build: attribute allocation, held perks, and their validation.
use vstd::prelude::*;
use crate::catalog::{names_match, Catalog};
use crate::error::PlanError;
use crate::special::{
    bobblehead_id, id_lt, lemma_id_lt_total, lemma_id_lt_transitive, lemma_stat_index_round_trip_all, stat_at,
    stat_index, PerkDef, BobbleheadId, Difficulty, Gender, PerkId, SpecialStat, STAT_COUNT,
};

verus! {

/// Held perks with their ranks, strictly ordered by identity.
pub open spec fn sorted_perks(ps: Seq<(PerkId, u8)>) -> bool {
    forall|i: int, j: int| 0 <= i < j < ps.len() ==> id_lt(#[trigger] ps[i].0, #[trigger] ps[j].0)
}

/// Whether `id` is held in `ps`.
pub open spec fn holds(ps: Seq<(PerkId, u8)>, id: PerkId) -> bool {
    exists|i: int| 0 <= i < ps.len() && #[trigger] ps[i].0 == id
}

/// The rank of `id` in `ps`; 0 when it is not held.
pub open spec fn rank_in(ps: Seq<(PerkId, u8)>, id: PerkId) -> nat {
    if holds(ps, id) {
        ps[choose|i: int| 0 <= i < ps.len() && #[trigger] ps[i].0 == id].1 as nat
    } else {
        0
    }
}

pub proof fn lemma_rank_at(ps: Seq<(PerkId, u8)>, i: int)
    requires
        sorted_perks(ps),
        0 <= i < ps.len(),
    ensures
        holds(ps, ps[i].0),
        rank_in(ps, ps[i].0) == ps[i].1 as nat,
{
    assert(holds(ps, ps[i].0));
    let j = choose|j: int| 0 <= j < ps.len() && #[trigger] ps[j].0 == ps[i].0;
    if j < i {
        lemma_id_lt_total(ps[j].0, ps[i].0);
    } else if i < j {
        lemma_id_lt_total(ps[i].0, ps[j].0);
    }
}

/// Raw allocation plus one for the attribute's bonus item and one for the book.
pub open spec fn base_points_of(
    special: Seq<u8>,
    book: Option<SpecialStat>,
    ps: Seq<(PerkId, u8)>,
    stat: SpecialStat,
) -> int {
    special[stat_index(stat)] as int + (if holds(ps, bobblehead_id(stat)) {
        1int
    } else {
        0int
    }) + (if book == Some(stat) {
        1int
    } else {
        0int
    })
}

/// A held perk stays available: an attribute perk needs its tier in base points.
pub open spec fn perk_available(
    special: Seq<u8>,
    book: Option<SpecialStat>,
    ps: Seq<(PerkId, u8)>,
    id: PerkId,
) -> bool {
    match id {
        PerkId::Special { stat, points } => points as int <= base_points_of(special, book, ps, stat),
        _ => true,
    }
}

proof fn lemma_keeps_consistent(n: Build, o: Build, c: Catalog, extra: PerkId)
    requires
        n.shape_ok(),
        o.shape_ok(),
        o.consistent(&c),
        c.wf(),
        c@.contains_key(extra),
        forall|x: PerkId| #[trigger] holds(n.perks@, x) ==> (x == extra && rank_in(n.perks@, x) == 1)
            || (holds(o.perks@, x) && rank_in(n.perks@, x) == rank_in(o.perks@, x)),
    ensures
        n.consistent(&c),
{
    assert(crate::catalog::entry_wf(extra, c@[extra]));
    Build::lemma_keeps_consistent_inner(n, o, c, extra);
}

/// The catalog holds a perk named as `def` is.
pub open spec fn catalog_names(c: &Catalog, def: &PerkDef) -> bool {
    exists|id: PerkId| #[trigger] names_perk(c, def, id)
}

/// `id` is the catalog's perk named as `def` is.
pub open spec fn names_perk(c: &Catalog, def: &PerkDef, id: PerkId) -> bool {
    c@.contains_key(id) && names_match(c@[id].name, def.name)
}

/// The mathematical value of a build.
pub struct BuildView {
    pub name: Option<Seq<char>>,
    pub gender: Option<Gender>,
    pub special: Seq<u8>,
    pub special_book: Option<SpecialStat>,
    pub difficulty: Option<Difficulty>,
    pub perks: Seq<(PerkId, u8)>,
    pub show_sheet: bool,
}

/// One character's build. `special` holds the raw allocation of each attribute
/// in canonical order; `perks` the held perks by identity.
pub struct Build {
    pub name: Option<String>,
    pub gender: Option<Gender>,
    pub special: Vec<u8>,
    pub special_book: Option<SpecialStat>,
    pub difficulty: Option<Difficulty>,
    pub perks: Vec<(PerkId, u8)>,
    pub show_sheet: bool,
}

pub open spec fn opt_string_view(s: Option<String>) -> Option<Seq<char>> {
    match s {
        Some(s) => Some(s@),
        None => None,
    }
}

impl View for Build {
    type V = BuildView;

    open spec fn view(&self) -> BuildView {
        BuildView {
            name: opt_string_view(self.name),
            gender: self.gender,
            special: self.special@,
            special_book: self.special_book,
            difficulty: self.difficulty,
            perks: self.perks@,
            show_sheet: self.show_sheet,
        }
    }
}

impl Default for Build {
    fn default() -> (r: Build)
        ensures
            r.wf(),
            r.name is None && r.gender is None && r.special_book is None && r.difficulty is None,
            r.perks@.len() == 0 && !r.show_sheet,
            forall|s: SpecialStat| #[trigger] r.points(s) == 1,
    {
        Build::new()
    }
}

/// Initial free attribute points beyond the first point of each attribute.
pub const INITIAL_ASSIGNABLE_POINTS: u8 = 21;

impl Build {
    /// Raw allocation of an attribute.
    pub open spec fn points(&self, stat: SpecialStat) -> int {
        self.special@[stat_index(stat)] as int
    }

    /// The rank held of a perk, 0 when not held.
    pub open spec fn rank_of(&self, id: PerkId) -> nat {
        rank_in(self.perks@, id)
    }

    pub open spec fn spec_base_points(&self, stat: SpecialStat) -> int {
        base_points_of(self.special@, self.special_book, self.perks@, stat)
    }

    /// Whether a perk's prerequisite is met in this build.
    pub open spec fn available(&self, id: PerkId) -> bool {
        perk_available(self.special@, self.special_book, self.perks@, id)
    }

    /// Seven allocations in 1..=10, perks ordered with ranks of at least 1.
    pub open spec fn shape_ok(&self) -> bool {
        &&& self.special@.len() == STAT_COUNT
        &&& forall|i: int| 0 <= i < STAT_COUNT ==> 1 <= #[trigger] self.special@[i] <= 10
        &&& sorted_perks(self.perks@)
        &&& forall|i: int| 0 <= i < self.perks@.len() ==> #[trigger] self.perks@[i].1 >= 1
    }

    /// The build's invariant: its shape, and every attribute perk backed by its tier.
    pub open spec fn wf(&self) -> bool {
        &&& self.shape_ok()
        &&& forall|i: int| 0 <= i < self.perks@.len() ==> self.available(#[trigger] self.perks@[i].0)
    }

    /// Name, gender, difficulty and display flag are those of `o`.
    pub open spec fn same_details(&self, o: Build) -> bool {
        &&& self.name == o.name
        &&& self.gender == o.gender
        &&& self.difficulty == o.difficulty
        &&& self.show_sheet == o.show_sheet
    }

    /// Every held perk is in the catalog, at a rank it has.
    pub open spec fn consistent(&self, c: &Catalog) -> bool {
        forall|i: int|
            0 <= i < self.perks@.len() ==> c@.contains_key(#[trigger] self.perks@[i].0)
                && self.perks@[i].1 <= c@[self.perks@[i].0].ranks.spec_max_rank()
    }

    /// A fresh build: every attribute at 1, nothing else set.
    pub fn new() -> (r: Build)
        ensures
            r.wf(),
            r.name is None,
            r.gender is None,
            r.special_book is None,
            r.difficulty is None,
            r.perks@.len() == 0,
            !r.show_sheet,
            forall|s: SpecialStat| r.points(s) == 1,
    {
        let mut special: Vec<u8> = Vec::new();
        let mut i: usize = 0;
        while i < STAT_COUNT
            invariant
                i <= STAT_COUNT,
                special@.len() == i,
                forall|j: int| 0 <= j < i ==> #[trigger] special@[j] == 1,
            decreases STAT_COUNT - i,
        {
            special.push(1);
            i = i + 1;
        }
        proof {
            lemma_stat_index_round_trip_all();
        }
        Build {
            name: None,
            gender: None,
            special,
            special_book: None,
            difficulty: None,
            perks: Vec::new(),
            show_sheet: false,
        }
    }

    /// Whether the attribute's bonus item is held.
    pub fn bobblehead_for(&self, stat: SpecialStat) -> (r: bool)
        requires
            sorted_perks(self.perks@),
        ensures
            r == holds(self.perks@, bobblehead_id(stat)),
    {
        let id = PerkId::Bobblehead(BobbleheadId::Special(stat));
        match self.find(&id) {
            Ok(_) => true,
            Err(_) => false,
        }
    }

    /// Raw allocation plus the bonus item and the book.
    pub fn total_base_points(&self, stat: SpecialStat) -> (r: u8)
        requires
            self.shape_ok(),
        ensures
            r as int == self.spec_base_points(stat),
    {
        proof {
            lemma_stat_index_round_trip_all();
        }
        let raw = self.special[stat.index()];
        let bobble: u8 = if self.bobblehead_for(stat) {
            1
        } else {
            0
        };
        let book: u8 = match self.special_book {
            Some(b) => if b == stat {
                1
            } else {
                0
            },
            None => 0,
        };
        raw + bobble + book
    }

    /// Sets an attribute's raw allocation; 11 stands for 10 together with the
    /// attribute's bonus item. Perks whose tier is no longer met are dropped.
    pub fn set(&mut self, stat: SpecialStat, allocated: u8) -> (r: Result<(), PlanError>)
        requires
            old(self).wf(),
        ensures
            final(self).wf(),
            r is Err <==> (allocated == 0 || allocated > 11),
            r matches Err(e) ==> e == PlanError::OutOfRange && *final(self) == *old(self),
            r is Ok ==> final(self).points(stat) == if allocated == 11 {
                10
            } else {
                allocated as int
            },
            r is Ok ==> forall|s: SpecialStat| s != stat ==> #[trigger] final(self).points(s) == old(self).points(s),
            r is Ok && allocated == 11 ==> final(self).rank_of(bobblehead_id(stat)) == 1,
            r is Ok ==> forall|c: Catalog| #[trigger] old(self).consistent(&c) && c.wf() ==> final(self).consistent(&c),
            r is Ok ==> final(self).same_details(*old(self)),
            r is Ok ==> final(self).special_book == old(self).special_book,
            r is Ok ==> forall|x: PerkId| #[trigger] final(self).rank_of(x) == if !final(self).available(x) {
                0
            } else if allocated == 11 && x == bobblehead_id(stat) {
                1
            } else {
                old(self).rank_of(x)
            },
    {
        if allocated == 0 || allocated > 11 {
            return Err(PlanError::OutOfRange);
        }
        proof {
            lemma_stat_index_round_trip_all();
        }
        let value: u8 = if allocated == 11 {
            10
        } else {
            allocated
        };
        self.special.set(stat.index(), value);
        if allocated == 11 {
            self.put_perk(PerkId::Bobblehead(BobbleheadId::Special(stat)), 1);
        }
        let ghost mid = *self;
        self.remove_invalid_perks();
        proof {
            assert forall|x: PerkId| #[trigger] rank_in(self.perks@, x) == if !self.available(x) {
                0
            } else if allocated == 11 && x == bobblehead_id(stat) {
                1
            } else {
                rank_in(old(self).perks@, x)
            } by {
                assert(rank_in(self.perks@, x) == if mid.available(x) {
                    rank_in(mid.perks@, x)
                } else {
                    0
                });
            }
            assert forall|x: PerkId| #[trigger] holds(self.perks@, x) implies x == bobblehead_id(stat) || holds(old(self).perks@, x) by {
                assert(holds(mid.perks@, x) ==> x == bobblehead_id(stat) || holds(old(self).perks@, x));
            }
            assert forall|c: Catalog| #[trigger] old(self).consistent(&c) && c.wf() implies self.consistent(&c) by {
                assert(c@.contains_key(bobblehead_id(stat)));
                assert forall|x: PerkId| #[trigger] holds(self.perks@, x) implies (x == bobblehead_id(stat) && rank_in(self.perks@, x) == 1)
                    || (holds(old(self).perks@, x) && rank_in(self.perks@, x) == rank_in(old(self).perks@, x)) by {
                    assert(holds(mid.perks@, x));
                    assert(rank_in(self.perks@, x) == rank_in(mid.perks@, x));
                }
                lemma_keeps_consistent(*self, *old(self), c, bobblehead_id(stat));
            }
        }
        Ok(())
    }

    /// Every attribute back to 1; no perks, book or gender. Name and difficulty stay.
    pub fn reset(&mut self)
        requires
            old(self).wf(),
        ensures
            final(self).wf(),
            forall|s: SpecialStat| #[trigger] final(self).points(s) == 1,
            final(self).perks@.len() == 0,
            final(self).special_book is None,
            final(self).gender is None,
            final(self).name == old(self).name,
            final(self).difficulty == old(self).difficulty,
            final(self).show_sheet == old(self).show_sheet,
    {
        let mut i: usize = 0;
        while i < STAT_COUNT
            invariant
                i <= STAT_COUNT,
                self.special@.len() == STAT_COUNT,
                forall|j: int| 0 <= j < i ==> #[trigger] self.special@[j] == 1,
                forall|j: int| i <= j < STAT_COUNT ==> 1 <= #[trigger] self.special@[j] <= 10,
                self.name == old(self).name,
                self.difficulty == old(self).difficulty,
                self.show_sheet == old(self).show_sheet,
            decreases STAT_COUNT - i,
        {
            self.special.set(i, 1);
            i = i + 1;
        }
        self.special_book = None;
        self.perks = Vec::new();
        self.gender = None;
        proof {
            lemma_stat_index_round_trip_all();
        }
    }

    /// Gives the attribute book to an attribute, or takes it away. An attribute
    /// already at 10 cannot take it. Perks whose tier is no longer met are dropped.
    pub fn set_special_book(&mut self, stat: Option<SpecialStat>) -> (r: Result<(), PlanError>)
        requires
            old(self).wf(),
        ensures
            final(self).wf(),
            r is Err <==> (stat matches Some(s) && old(self).points(s) == 10),
            r matches Err(e) ==> e == PlanError::InvalidTarget && *final(self) == *old(self),
            r is Ok ==> final(self).special_book == stat,
            r is Ok ==> final(self).special@ == old(self).special@,
            r is Ok ==> final(self).same_details(*old(self)),
            r is Ok ==> forall|x: PerkId| #[trigger] final(self).rank_of(x) == if final(self).available(x) {
                old(self).rank_of(x)
            } else {
                0
            },
            r is Ok ==> forall|c: Catalog| #[trigger] old(self).consistent(&c) && c.wf() ==> final(self).consistent(&c),
    {
        if let Some(s) = stat {
            proof {
                lemma_stat_index_round_trip_all();
            }
            if self.special[s.index()] == 10 {
                return Err(PlanError::InvalidTarget);
            }
        }
        self.special_book = stat;
        let ghost mid = *self;
        self.remove_invalid_perks();
        proof {
            assert forall|c: Catalog| #[trigger] old(self).consistent(&c) && c.wf() implies self.consistent(&c) by {
                assert(c@.contains_key(bobblehead_id(SpecialStat::Strength)));
                assert forall|x: PerkId| #[trigger] holds(self.perks@, x) implies (x == bobblehead_id(SpecialStat::Strength) && rank_in(self.perks@, x) == 1)
                    || (holds(old(self).perks@, x) && rank_in(self.perks@, x) == rank_in(old(self).perks@, x)) by {
                    assert(holds(mid.perks@, x));
                }
                lemma_keeps_consistent(*self, *old(self), c, bobblehead_id(SpecialStat::Strength));
            }
        }
        Ok(())
    }

    /// Holds a perk, given by a definition of the catalog, at `rank`; rank 0
    /// removes it. An attribute perk raises its attribute until the tier is met.
    pub fn add_perk(&mut self, catalog: &Catalog, def: &PerkDef, rank: u8) -> (r: Result<
        (),
        PlanError,
    >)
        requires
            old(self).wf(),
            catalog.wf(),
        ensures
            final(self).wf(),
            !catalog_names(catalog, def) ==> r == Err::<(), PlanError>(PlanError::UnknownPerk)
                && *final(self) == *old(self),
            forall|id: PerkId| #[trigger] names_perk(catalog, def, id) ==> {
                let max = catalog@[id].ranks.spec_max_rank();
                &&& rank == 0 ==> r is Ok && final(self).removed(*old(self), id)
                &&& rank > max ==> r == Err::<(), PlanError>(
                    PlanError::RankOutOfRange { max: max as u8 },
                ) && *final(self) == *old(self)
                &&& 0 < rank <= max ==> r is Ok && final(self).added(*old(self), id, rank)
            },
            old(self).consistent(catalog) ==> final(self).consistent(catalog),
    {
        let id = match catalog.lookup_by_definition(def) {
            Some(id) => id,
            None => {
                return Err(PlanError::UnknownPerk);
            },
        };
        proof {
            assert(names_perk(catalog, def, id));
            assert forall|other: PerkId| #[trigger] names_perk(catalog, def, other) implies other == id by {
                crate::catalog::lemma_names_match_symmetric(catalog@[id].name, def.name);
                crate::catalog::lemma_names_match_transitive(catalog@[other].name, def.name, catalog@[id].name);
            }
        }
        if rank == 0 {
            self.drop_perk(id);
            self.remove_invalid_perks();
            proof {
                self.lemma_removed_consistent(*old(self), id, catalog);
            }
            return Ok(());
        }
        let max = match catalog.lookup_by_identity(&id) {
            Some(d) => d.max_rank(),
            None => {
                return Err(PlanError::UnknownPerk);
            },
        };
        if rank > max {
            return Err(PlanError::RankOutOfRange { max });
        }
        self.put_perk(id, rank);
        proof {
            lemma_stat_index_round_trip_all();
        }
        let ghost before = *self;
        if let PerkId::Special { stat, points } = id {
            while self.total_base_points(stat) < points
                invariant
                    self.shape_ok(),
                    self.perks@ == before.perks@,
                    self.special_book == before.special_book,
                    self.same_details(before),
                    points <= 10,
                    self.points(stat) >= before.points(stat),
                    self.points(stat) == before.points(stat) || self.spec_base_points(stat) <= points,
                    forall|j: int| 0 <= j < STAT_COUNT && j != stat_index(stat) ==> #[trigger] self.special@[j] == before.special@[j],
                decreases 10 - self.points(stat),
            {
                proof {
                    lemma_stat_index_round_trip_all();
                }
                let i = stat.index();
                let v = self.special[i];
                self.special.set(i, v + 1);
            }
        }
        proof {
            assert forall|a: int| 0 <= a < self.perks@.len() implies self.available(#[trigger] self.perks@[a].0) by {
                let x = self.perks@[a].0;
                assert(holds(self.perks@, x));
                if x != id {
                    let j = choose|j: int| 0 <= j < old(self).perks@.len() && #[trigger] old(self).perks@[j].0 == x;
                    assert(old(self).available(old(self).perks@[j].0));
                    if let PerkId::Special { stat: st, points: p } = x {
                        assert(holds(old(self).perks@, bobblehead_id(st)) ==> holds(before.perks@, bobblehead_id(st)));
                        assert(self.points(st) >= old(self).points(st));
                    }
                }
            }
            if old(self).consistent(catalog) {
                assert forall|a: int| 0 <= a < self.perks@.len() implies catalog@.contains_key(#[trigger] self.perks@[a].0)
                    && self.perks@[a].1 <= catalog@[self.perks@[a].0].ranks.spec_max_rank() by {
                    let x = self.perks@[a].0;
                    lemma_rank_at(self.perks@, a);
                    assert(holds(self.perks@, x));
                    if x != id {
                        let j = choose|j: int| 0 <= j < old(self).perks@.len() && #[trigger] old(self).perks@[j].0 == x;
                        lemma_rank_at(old(self).perks@, j);
                    }
                }
            }
        }
        Ok(())
    }

    /// Stops holding a perk given by a definition of the catalog; perks whose
    /// tier is no longer met go too. Not holding it is no error.
    pub fn remove_perk(&mut self, catalog: &Catalog, def: &PerkDef) -> (r: Result<(), PlanError>)
        requires
            old(self).wf(),
            catalog.wf(),
        ensures
            final(self).wf(),
            !catalog_names(catalog, def) ==> r == Err::<(), PlanError>(PlanError::UnknownPerk)
                && *final(self) == *old(self),
            forall|id: PerkId| #[trigger] names_perk(catalog, def, id) ==> r is Ok && final(self).removed(*old(self), id),
            old(self).consistent(catalog) ==> final(self).consistent(catalog),
    {
        let id = match catalog.lookup_by_definition(def) {
            Some(id) => id,
            None => {
                return Err(PlanError::UnknownPerk);
            },
        };
        proof {
            assert(names_perk(catalog, def, id));
            assert forall|other: PerkId| #[trigger] names_perk(catalog, def, other) implies other == id by {
                crate::catalog::lemma_names_match_symmetric(catalog@[id].name, def.name);
                crate::catalog::lemma_names_match_transitive(catalog@[other].name, def.name, catalog@[id].name);
            }
        }
        self.drop_perk(id);
        self.remove_invalid_perks();
        proof {
            self.lemma_removed_consistent(*old(self), id, catalog);
        }
        Ok(())
    }

    /// After removing `id` from `o` and dropping what lost its tier.
    pub open spec fn removed(&self, o: Build, id: PerkId) -> bool {
        &&& self.special@ == o.special@
        &&& self.special_book == o.special_book
        &&& self.same_details(o)
        &&& forall|x: PerkId| #[trigger] self.rank_of(x) == if x == id || !self.available(x) {
            0
        } else {
            o.rank_of(x)
        }
    }

    /// After holding `id` at `rank` in `o`, with its attribute raised as far as its tier needs.
    pub open spec fn added(&self, o: Build, id: PerkId, rank: u8) -> bool {
        &&& self.special_book == o.special_book
        &&& self.same_details(o)
        &&& forall|x: PerkId| #[trigger] self.rank_of(x) == if x == id {
            rank as nat
        } else {
            o.rank_of(x)
        }
        &&& forall|s: SpecialStat| #[trigger] self.points(s) == o.points(s) || (
        id matches PerkId::Special { stat, points } && s == stat && self.points(s) > o.points(s)
            && self.spec_base_points(s) == points)
        &&& id matches PerkId::Special { stat, points } ==> self.spec_base_points(stat) >= points
    }

    /// What a change that keeps ranks, and adds at most `extra` at rank 1, does to consistency.
    proof fn lemma_keeps_consistent_inner(n: Build, o: Build, c: Catalog, extra: PerkId)
        requires
            n.shape_ok(),
            o.shape_ok(),
            o.consistent(&c),
            c@.contains_key(extra),
            c@[extra].ranks.spec_max_rank() >= 1,
            forall|x: PerkId| #[trigger] holds(n.perks@, x) ==> (x == extra && rank_in(n.perks@, x) == 1)
                || (holds(o.perks@, x) && rank_in(n.perks@, x) == rank_in(o.perks@, x)),
        ensures
            n.consistent(&c),
    {
        assert forall|a: int| 0 <= a < n.perks@.len() implies c@.contains_key(#[trigger] n.perks@[a].0)
            && n.perks@[a].1 <= c@[n.perks@[a].0].ranks.spec_max_rank() by {
            let x = n.perks@[a].0;
            lemma_rank_at(n.perks@, a);
            if !(x == extra && rank_in(n.perks@, x) == 1) {
                let j = choose|j: int| 0 <= j < o.perks@.len() && #[trigger] o.perks@[j].0 == x;
                lemma_rank_at(o.perks@, j);
            }
        }
    }

    proof fn lemma_removed_consistent(&self, o: Build, id: PerkId, c: &Catalog)
        requires
            self.shape_ok(),
            o.shape_ok(),
            forall|x: PerkId| #[trigger] holds(self.perks@, x) ==> holds(o.perks@, x),
            forall|x: PerkId| holds(self.perks@, x) ==> #[trigger] rank_in(self.perks@, x) == rank_in(o.perks@, x),
        ensures
            o.consistent(c) ==> self.consistent(c),
    {
        if o.consistent(c) {
            assert forall|a: int| 0 <= a < self.perks@.len() implies c@.contains_key(#[trigger] self.perks@[a].0)
                && self.perks@[a].1 <= c@[self.perks@[a].0].ranks.spec_max_rank() by {
                let x = self.perks@[a].0;
                lemma_rank_at(self.perks@, a);
                assert(holds(self.perks@, x));
                let j = choose|j: int| 0 <= j < o.perks@.len() && #[trigger] o.perks@[j].0 == x;
                lemma_rank_at(o.perks@, j);
            }
        }
    }

    /// Holds `id` at `rank`, in its place in the order.
    fn put_perk(&mut self, id: PerkId, rank: u8)
        requires
            old(self).shape_ok(),
            rank >= 1,
        ensures
            final(self).shape_ok(),
            final(self).special@ == old(self).special@,
            final(self).special_book == old(self).special_book,
            final(self).name == old(self).name,
            final(self).gender == old(self).gender,
            final(self).difficulty == old(self).difficulty,
            final(self).show_sheet == old(self).show_sheet,
            forall|x: PerkId| #[trigger] holds(final(self).perks@, x) <==> (x == id || holds(old(self).perks@, x)),
            forall|x: PerkId| #[trigger] rank_in(final(self).perks@, x) == if x == id {
                rank as nat
            } else {
                rank_in(old(self).perks@, x)
            },
    {
        let ghost ps = self.perks@;
        match self.find(&id) {
            Ok(i) => {
                self.perks.set(i, (id, rank));
                proof {
                    let ns = self.perks@;
                    assert(ns =~= ps.update(i as int, (id, rank)));
                    assert forall|x: PerkId| #[trigger] holds(ns, x) <==> (x == id || holds(ps, x)) by {
                        if holds(ps, x) {
                            let j = choose|j: int| 0 <= j < ps.len() && #[trigger] ps[j].0 == x;
                            assert(ns[j].0 == x);
                        }
                        if holds(ns, x) {
                            let j = choose|j: int| 0 <= j < ns.len() && #[trigger] ns[j].0 == x;
                            assert(ps[j].0 == x);
                        }
                    }
                    assert forall|x: PerkId| #[trigger] rank_in(ns, x) == if x == id {
                        rank as nat
                    } else {
                        rank_in(ps, x)
                    } by {
                        if x == id {
                            lemma_rank_at(ns, i as int);
                        } else if holds(ps, x) {
                            let j = choose|j: int| 0 <= j < ps.len() && #[trigger] ps[j].0 == x;
                            lemma_rank_at(ps, j);
                            lemma_rank_at(ns, j);
                        }
                    }
                }
            },
            Err(i) => {
                self.perks.insert(i, (id, rank));
                proof {
                    let ns = self.perks@;
                    assert(ns =~= ps.insert(i as int, (id, rank)));
                    assert forall|a: int, b: int| 0 <= a < b < ns.len() implies id_lt(
                        #[trigger] ns[a].0,
                        #[trigger] ns[b].0,
                    ) by {
                        if b < i {
                        } else if b == i {
                        } else if a < i {
                            lemma_id_lt_transitive(ns[a].0, id, ns[b].0);
                        } else if a == i {
                        } else {
                            assert(ns[a] == ps[a - 1] && ns[b] == ps[b - 1]);
                        }
                    }
                    assert forall|a: int| 0 <= a < ns.len() implies #[trigger] ns[a].1 >= 1 by {
                        if a < i {
                        } else if a > i {
                            assert(ns[a] == ps[a - 1]);
                        }
                    }
                    assert forall|x: PerkId| #[trigger] holds(ns, x) <==> (x == id || holds(ps, x)) by {
                        if holds(ps, x) {
                            let j = choose|j: int| 0 <= j < ps.len() && #[trigger] ps[j].0 == x;
                            if j < i {
                                assert(ns[j].0 == x);
                            } else {
                                assert(ns[j + 1].0 == x);
                            }
                        }
                        if x == id {
                            assert(ns[i as int].0 == x);
                        }
                        if holds(ns, x) && x != id {
                            let j = choose|j: int| 0 <= j < ns.len() && #[trigger] ns[j].0 == x;
                            if j < i {
                                assert(ps[j].0 == x);
                            } else {
                                assert(ps[j - 1].0 == x);
                            }
                        }
                    }
                    assert forall|x: PerkId| #[trigger] rank_in(ns, x) == if x == id {
                        rank as nat
                    } else {
                        rank_in(ps, x)
                    } by {
                        if x == id {
                            lemma_rank_at(ns, i as int);
                        } else if holds(ps, x) {
                            let j = choose|j: int| 0 <= j < ps.len() && #[trigger] ps[j].0 == x;
                            lemma_rank_at(ps, j);
                            if j < i {
                                lemma_rank_at(ns, j);
                            } else {
                                lemma_rank_at(ns, j + 1);
                            }
                        }
                    }
                }
            },
        }
    }

    /// Stops holding `id`.
    fn drop_perk(&mut self, id: PerkId)
        requires
            old(self).shape_ok(),
        ensures
            final(self).shape_ok(),
            final(self).special@ == old(self).special@,
            final(self).special_book == old(self).special_book,
            final(self).name == old(self).name,
            final(self).gender == old(self).gender,
            final(self).difficulty == old(self).difficulty,
            final(self).show_sheet == old(self).show_sheet,
            forall|x: PerkId| #[trigger] holds(final(self).perks@, x) <==> (x != id && holds(old(self).perks@, x)),
            forall|x: PerkId| #[trigger] rank_in(final(self).perks@, x) == if x == id {
                0
            } else {
                rank_in(old(self).perks@, x)
            },
    {
        let ghost ps = self.perks@;
        match self.find(&id) {
            Ok(i) => {
                self.perks.remove(i);
                proof {
                    let ns = self.perks@;
                    assert(ns =~= ps.remove(i as int));
                    assert forall|a: int, b: int| 0 <= a < b < ns.len() implies id_lt(
                        #[trigger] ns[a].0,
                        #[trigger] ns[b].0,
                    ) by {
                        if b < i {
                        } else if a < i {
                            assert(ns[b] == ps[b + 1]);
                        } else {
                            assert(ns[a] == ps[a + 1] && ns[b] == ps[b + 1]);
                        }
                    }
                    assert forall|a: int| 0 <= a < ns.len() implies #[trigger] ns[a].1 >= 1 by {
                        if a >= i {
                            assert(ns[a] == ps[a + 1]);
                        }
                    }
                    assert forall|x: PerkId| #[trigger] holds(ns, x) <==> (x != id && holds(ps, x)) by {
                        if holds(ps, x) && x != id {
                            let j = choose|j: int| 0 <= j < ps.len() && #[trigger] ps[j].0 == x;
                            if j < i {
                                assert(ns[j].0 == x);
                            } else {
                                assert(ns[j - 1].0 == x);
                            }
                        }
                        if holds(ns, x) {
                            let j = choose|j: int| 0 <= j < ns.len() && #[trigger] ns[j].0 == x;
                            if j < i {
                                assert(ps[j].0 == x);
                                if x == id {
                                    lemma_id_lt_total(ps[j].0, ps[i as int].0);
                                }
                            } else {
                                assert(ps[j + 1].0 == x);
                                if x == id {
                                    lemma_id_lt_total(ps[j + 1].0, ps[i as int].0);
                                }
                            }
                        }
                    }
                    assert forall|x: PerkId| #[trigger] rank_in(ns, x) == if x == id {
                        0
                    } else {
                        rank_in(ps, x)
                    } by {
                        if x != id && holds(ps, x) {
                            let j = choose|j: int| 0 <= j < ps.len() && #[trigger] ps[j].0 == x;
                            lemma_rank_at(ps, j);
                            if j < i {
                                lemma_rank_at(ns, j);
                            } else {
                                lemma_rank_at(ns, j - 1);
                            }
                        }
                    }
                }
            },
            Err(_) => {},
        }
    }

    /// Drops every attribute perk whose tier now exceeds its attribute's base points.
    fn remove_invalid_perks(&mut self)
        requires
            old(self).shape_ok(),
        ensures
            final(self).wf(),
            final(self).special@ == old(self).special@,
            final(self).special_book == old(self).special_book,
            final(self).name == old(self).name,
            final(self).gender == old(self).gender,
            final(self).difficulty == old(self).difficulty,
            final(self).show_sheet == old(self).show_sheet,
            forall|x: PerkId| #[trigger] final(self).available(x) == old(self).available(x),
            forall|x: PerkId| #[trigger] holds(final(self).perks@, x) <==> (holds(old(self).perks@, x) && old(self).available(x)),
            forall|x: PerkId| #[trigger] rank_in(final(self).perks@, x) == if old(self).available(x) {
                rank_in(old(self).perks@, x)
            } else {
                0
            },
    {
        let ghost ps = self.perks@;
        let mut base: Vec<u8> = Vec::new();
        let mut s: usize = 0;
        while s < STAT_COUNT
            invariant
                self.shape_ok(),
                s <= STAT_COUNT,
                base@.len() == s,
                forall|t: int| 0 <= t < s ==> #[trigger] base@[t] as int == self.spec_base_points(stat_at(t)),
            decreases STAT_COUNT - s,
        {
            let b = self.total_base_points(SpecialStat::from_index(s));
            base.push(b);
            s = s + 1;
        }
        proof {
            lemma_stat_index_round_trip_all();
        }
        let mut kept: Vec<(PerkId, u8)> = Vec::new();
        let ghost mut src: Seq<int> = Seq::empty();
        let mut i: usize = 0;
        while i < self.perks.len()
            invariant
                self.shape_ok(),
                self.perks@ == ps,
                base@.len() == STAT_COUNT,
                forall|t: SpecialStat| #[trigger] base@[stat_index(t)] as int == self.spec_base_points(t),
                i <= ps.len(),
                src.len() == kept@.len(),
                forall|k: int| 0 <= k < src.len() ==> 0 <= #[trigger] src[k] < i && kept@[k] == ps[src[k]]
                    && self.available(ps[src[k]].0),
                forall|k1: int, k2: int| 0 <= k1 < k2 < src.len() ==> #[trigger] src[k1] < #[trigger] src[k2],
                forall|j: int| 0 <= j < i && self.available(#[trigger] ps[j].0) ==> exists|k: int| 0 <= k < src.len() && src[k] == j,
            decreases ps.len() - i,
        {
            let e = self.perks[i];
            let keep = match e.0 {
                PerkId::Special { stat, points } => points <= base[stat.index()],
                _ => true,
            };
            let ghost prev = src;
            proof {
                assert(keep == self.available(ps[i as int].0));
            }
            if keep {
                kept.push(e);
                proof {
                    src = src.push(i as int);
                }
            }
            i = i + 1;
            proof {
                let ii = i - 1;
                assert forall|j: int| 0 <= j < i && self.available(#[trigger] ps[j].0) implies exists|k: int| 0 <= k < src.len() && src[k] == j by {
                    if j == ii {
                        assert(src[src.len() - 1] == j);
                    } else {
                        let k = choose|k: int| 0 <= k < prev.len() && prev[k] == j;
                        assert(src[k] == j);
                    }
                }
            }
        }
        let ghost old_self = *self;
        self.perks = kept;
        proof {
            let ns = self.perks@;
            assert forall|a: int, b: int| 0 <= a < b < ns.len() implies id_lt(
                #[trigger] ns[a].0,
                #[trigger] ns[b].0,
            ) by {
                assert(src[a] < src[b]);
            }
            assert forall|a: int| 0 <= a < ns.len() implies #[trigger] ns[a].1 >= 1 by {
                assert(ns[a] == ps[src[a]]);
            }
            assert forall|x: PerkId| #[trigger] holds(ns, x) <==> (holds(ps, x) && old_self.available(x)) by {
                if holds(ns, x) {
                    let k = choose|k: int| 0 <= k < ns.len() && #[trigger] ns[k].0 == x;
                    assert(ps[src[k]].0 == x);
                }
                if holds(ps, x) && old_self.available(x) {
                    let j = choose|j: int| 0 <= j < ps.len() && #[trigger] ps[j].0 == x;
                    let k = choose|k: int| 0 <= k < src.len() && src[k] == j;
                    assert(ns[k].0 == x);
                }
            }
            assert forall|t: SpecialStat| holds(ns, #[trigger] bobblehead_id(t)) == holds(ps, bobblehead_id(t)) by {
                assert(old_self.available(bobblehead_id(t)));
            }
            assert forall|x: PerkId| #[trigger] self.available(x) == old_self.available(x) by {
                match x {
                    PerkId::Special { stat, points } => {
                        assert(holds(ns, bobblehead_id(stat)) == holds(ps, bobblehead_id(stat)));
                    },
                    _ => {},
                }
            }
            assert forall|x: PerkId| #[trigger] rank_in(ns, x) == if old_self.available(x) {
                rank_in(ps, x)
            } else {
                0
            } by {
                if holds(ps, x) && old_self.available(x) {
                    let j = choose|j: int| 0 <= j < ps.len() && #[trigger] ps[j].0 == x;
                    let k = choose|k: int| 0 <= k < src.len() && src[k] == j;
                    lemma_rank_at(ps, j);
                    lemma_rank_at(ns, k);
                }
            }
            assert forall|a: int| 0 <= a < ns.len() implies self.available(#[trigger] ns[a].0) by {
                assert(ns[a] == ps[src[a]]);
            }
        }
    }

    /// The rank held of `id`, if it is held.
    pub(crate) fn find_rank(&self, id: &PerkId) -> (r: Option<u8>)
        requires
            self.shape_ok(),
        ensures
            r matches Some(k) ==> holds(self.perks@, *id) && k as nat == self.rank_of(*id),
            r is None ==> !holds(self.perks@, *id) && self.rank_of(*id) == 0,
    {
        match self.find(id) {
            Ok(i) => {
                proof {
                    lemma_rank_at(self.perks@, i as int);
                }
                Some(self.perks[i].1)
            },
            Err(_) => None,
        }
    }

    /// Where `id` stands in the held perks, or where it would go.
    fn find(&self, id: &PerkId) -> (r: Result<usize, usize>)
        requires
            sorted_perks(self.perks@),
        ensures
            r matches Ok(i) ==> i < self.perks@.len() && self.perks@[i as int].0 == *id,
            r matches Err(i) ==> i <= self.perks@.len() && !holds(self.perks@, *id) && (forall|
                j: int,
            | 0 <= j < i ==> id_lt(#[trigger] self.perks@[j].0, *id)) && (forall|j: int|
                i <= j < self.perks@.len() ==> id_lt(*id, #[trigger] self.perks@[j].0)),
    {
        let mut i: usize = 0;
        while i < self.perks.len()
            invariant
                sorted_perks(self.perks@),
                i <= self.perks@.len(),
                forall|j: int| 0 <= j < i ==> id_lt(#[trigger] self.perks@[j].0, *id),
            decreases self.perks@.len() - i,
        {
            let here = self.perks[i].0;
            if here == *id {
                return Ok(i);
            }
            if id.precedes(&here) {
                proof {
                    assert forall|j: int| i <= j < self.perks@.len() implies id_lt(
                        *id,
                        #[trigger] self.perks@[j].0,
                    ) by {
                        if j > i {
                            lemma_id_lt_transitive(*id, here, self.perks@[j].0);
                        }
                    }
                    assert forall|j: int| 0 <= j < self.perks@.len() implies #[trigger] self.perks@[j].0 != *id by {
                        lemma_id_lt_total(self.perks@[j].0, *id);
                    }
                }
                return Err(i);
            }
            proof {
                lemma_id_lt_total(here, *id);
            }
            i = i + 1;
        }
        proof {
            assert forall|j: int| 0 <= j < self.perks@.len() implies #[trigger] self.perks@[j].0 != *id by {
                lemma_id_lt_total(self.perks@[j].0, *id);
            }
        }
        Err(i)
    }
}

} // verus!
