//! A build as plain serialisable data, and back.
use vstd::prelude::*;
use crate::character::{opt_string_view, perk_available, sorted_perks, Build, BuildView};
use crate::error::PlanError;
use crate::special::{lemma_stat_index_round_trip_all, stat_at, Difficulty, Gender, PerkId, SpecialStat, STAT_COUNT};

verus! {

/// A build's stored form: attributes as (attribute, points) pairs in canonical
/// order, perks as (identity, rank) pairs in identity order.
pub struct BuildSnapshot {
    pub name: Option<String>,
    pub gender: Option<Gender>,
    pub special: Vec<(SpecialStat, u8)>,
    pub special_book: Option<SpecialStat>,
    pub difficulty: Option<Difficulty>,
    pub perks: Vec<(PerkId, u8)>,
    pub show_sheet: bool,
}

/// The mathematical value of a snapshot.
pub struct SnapshotView {
    pub name: Option<Seq<char>>,
    pub gender: Option<Gender>,
    pub special: Seq<(SpecialStat, u8)>,
    pub special_book: Option<SpecialStat>,
    pub difficulty: Option<Difficulty>,
    pub perks: Seq<(PerkId, u8)>,
    pub show_sheet: bool,
}

impl View for BuildSnapshot {
    type V = SnapshotView;

    open spec fn view(&self) -> SnapshotView {
        SnapshotView {
            name: opt_string_view(self.name),
            gender: self.gender,
            special: self.special@,
            special_book: self.special_book,
            difficulty: self.difficulty,
            perks: self.perks@,
            show_sheet: self.show_sheet,
        }
    }
}

/// The snapshot of a build.
pub open spec fn snapshot_of(b: BuildView) -> SnapshotView {
    SnapshotView {
        name: b.name,
        gender: b.gender,
        special: Seq::new(STAT_COUNT as nat, |i: int| (stat_at(i), b.special[i])),
        special_book: b.special_book,
        difficulty: b.difficulty,
        perks: b.perks,
        show_sheet: b.show_sheet,
    }
}

/// The allocations a snapshot lists.
pub open spec fn snapshot_points(s: SnapshotView) -> Seq<u8> {
    s.special.map_values(|e: (SpecialStat, u8)| e.1)
}

/// A snapshot that describes a valid build.
pub open spec fn snapshot_valid(s: SnapshotView) -> bool {
    &&& s.special.len() == STAT_COUNT
    &&& forall|i: int| 0 <= i < STAT_COUNT ==> (#[trigger] s.special[i]).0 == stat_at(i) && 1
        <= s.special[i].1 <= 10
    &&& sorted_perks(s.perks)
    &&& forall|i: int| 0 <= i < s.perks.len() ==> #[trigger] s.perks[i].1 >= 1
    &&& forall|i: int|
        0 <= i < s.perks.len() ==> perk_available(
            snapshot_points(s),
            s.special_book,
            s.perks,
            #[trigger] s.perks[i].0,
        )
}

/// The build a valid snapshot describes.
pub open spec fn build_of(s: SnapshotView) -> Option<BuildView> {
    if snapshot_valid(s) {
        Some(
            BuildView {
                name: s.name,
                gender: s.gender,
                special: snapshot_points(s),
                special_book: s.special_book,
                difficulty: s.difficulty,
                perks: s.perks,
                show_sheet: s.show_sheet,
            },
        )
    } else {
        None
    }
}

impl Build {
    pub fn to_snapshot(&self) -> (r: BuildSnapshot)
        requires
            self.wf(),
        ensures
            r@ == snapshot_of(self@),
    {
        let mut special: Vec<(SpecialStat, u8)> = Vec::new();
        let mut i: usize = 0;
        while i < STAT_COUNT
            invariant
                self.wf(),
                i <= STAT_COUNT,
                special@.len() == i,
                forall|j: int| 0 <= j < i ==> #[trigger] special@[j] == (stat_at(j), self.special@[j]),
            decreases STAT_COUNT - i,
        {
            special.push((SpecialStat::from_index(i), self.special[i]));
            i = i + 1;
        }
        let mut perks: Vec<(PerkId, u8)> = Vec::new();
        let mut k: usize = 0;
        while k < self.perks.len()
            invariant
                k <= self.perks@.len(),
                perks@ == self.perks@.take(k as int),
            decreases self.perks@.len() - k,
        {
            perks.push(self.perks[k]);
            k = k + 1;
            proof {
                assert(perks@ =~= self.perks@.take(k as int));
            }
        }
        proof {
            assert(perks@ =~= self.perks@);
            assert(special@ =~= snapshot_of(self@).special);
        }
        let name = match &self.name {
            Some(n) => Some(n.clone()),
            None => None,
        };
        BuildSnapshot {
            name,
            gender: self.gender,
            special,
            special_book: self.special_book,
            difficulty: self.difficulty,
            perks,
            show_sheet: self.show_sheet,
        }
    }

    /// The build a snapshot describes; one that breaks a build's invariant is refused.
    pub fn from_snapshot(s: BuildSnapshot) -> (r: Result<Build, PlanError>)
        ensures
            r is Ok <==> snapshot_valid(s@),
            r matches Ok(b) ==> b.wf() && build_of(s@) == Some(b@),
            r matches Err(e) ==> e == PlanError::InvalidSnapshot,
    {
        if s.special.len() != STAT_COUNT {
            return Err(PlanError::InvalidSnapshot);
        }
        let mut special: Vec<u8> = Vec::new();
        let mut i: usize = 0;
        while i < STAT_COUNT
            invariant
                s.special@.len() == STAT_COUNT,
                i <= STAT_COUNT,
                special@.len() == i,
                forall|j: int| 0 <= j < i ==> (#[trigger] s.special@[j]).0 == stat_at(j) && 1 <= s.special@[j].1 <= 10,
                forall|j: int| 0 <= j < i ==> #[trigger] special@[j] == s.special@[j].1,
            decreases STAT_COUNT - i,
        {
            let (stat, v) = s.special[i];
            if stat != SpecialStat::from_index(i) || v == 0 || v > 10 {
                return Err(PlanError::InvalidSnapshot);
            }
            special.push(v);
            i = i + 1;
        }
        proof {
            assert(special@ =~= snapshot_points(s@));
        }
        let mut k: usize = 0;
        while k < s.perks.len()
            invariant
                k <= s.perks@.len(),
                forall|a: int| 0 <= a < k ==> #[trigger] s.perks@[a].1 >= 1,
                forall|a: int| 0 < a < k ==> crate::special::id_lt(s.perks@[a - 1].0, #[trigger] s.perks@[a].0),
            decreases s.perks@.len() - k,
        {
            if s.perks[k].1 == 0 {
                return Err(PlanError::InvalidSnapshot);
            }
            if k > 0 && !s.perks[k - 1].0.precedes(&s.perks[k].0) {
                return Err(PlanError::InvalidSnapshot);
            }
            k = k + 1;
        }
        proof {
            assert forall|a: int, b: int| 0 <= a < b < s.perks@.len() implies crate::special::id_lt(
                #[trigger] s.perks@[a].0,
                #[trigger] s.perks@[b].0,
            ) by {
                lemma_adjacent_sorted(s.perks@, a, b);
            }
        }
        let b = Build {
            name: s.name,
            gender: s.gender,
            special,
            special_book: s.special_book,
            difficulty: s.difficulty,
            perks: s.perks,
            show_sheet: s.show_sheet,
        };
        let mut m: usize = 0;
        while m < b.perks.len()
            invariant
                b.shape_ok(),
                b.special@ == snapshot_points(s@),
                b.perks@ == s.perks@,
                b.special_book == s.special_book,
                m <= b.perks@.len(),
                forall|a: int| 0 <= a < m ==> b.available(#[trigger] b.perks@[a].0),
            decreases b.perks@.len() - m,
        {
            let ok = match b.perks[m].0 {
                PerkId::Special { stat, points } => points <= b.total_base_points(stat),
                _ => true,
            };
            if !ok {
                proof {
                    assert(!b.available(b.perks@[m as int].0));
                    assert(!snapshot_valid(s@));
                }
                return Err(PlanError::InvalidSnapshot);
            }
            m = m + 1;
        }
        Ok(b)
    }
}

proof fn lemma_adjacent_sorted(ps: Seq<(PerkId, u8)>, a: int, b: int)
    requires
        0 <= a < b < ps.len(),
        forall|x: int| 0 < x < ps.len() ==> crate::special::id_lt(ps[x - 1].0, #[trigger] ps[x].0),
    ensures
        crate::special::id_lt(ps[a].0, ps[b].0),
    decreases b - a,
{
    if b - a > 1 {
        lemma_adjacent_sorted(ps, a, b - 1);
        crate::special::lemma_id_lt_transitive(ps[a].0, ps[b - 1].0, ps[b].0);
    }
}

/// Storing a valid build and reading it back gives the same build.
pub proof fn lemma_snapshot_round_trip(b: Build)
    requires
        b.wf(),
    ensures
        build_of(snapshot_of(b@)) == Some(b@),
{
    let s = snapshot_of(b@);
    assert(snapshot_points(s) =~= b.special@);
    assert(build_of(s).unwrap() =~= b@);
}

} // verus!
