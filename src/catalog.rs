//! The perk catalog: every perk identity and its definition, fixed once built.
use vstd::prelude::*;
use bimap::BiBTreeMap;
use crate::special::{
    bobblehead_id, key_of, lemma_key_of_injective, stat_label, BobbleheadId, Effects, PerkKind, Rank, Ranks, SpecialStat, StatIncrease, Gendered, MaybeGendered, MaybeVaried, PerkDef, PerkId,
    PerkKey,
};

verus! {

#[verifier::external_type_specification]
#[verifier::external_body]
#[verifier::reject_recursive_types(L)]
#[verifier::reject_recursive_types(R)]
pub struct ExBiBTreeMap<L, R>(BiBTreeMap<L, R>);

/// The pairs held by a bimap from identity keys to definition slots.
pub uninterp spec fn slot_pairs(m: BiBTreeMap<(u8, u8, usize), usize>) -> Map<
    (u8, u8, usize),
    usize,
>;

/// Identity keys paired with definition slots.
pub type SlotMap = BiBTreeMap<PerkKey, usize>;

/// Whether some pair of `m` has `v` on its right side.
pub open spec fn has_right(m: Map<PerkKey, usize>, v: usize) -> bool {
    exists|k: PerkKey| m.contains_key(k) && m[k] == v
}

/// Relies on `BiBTreeMap::new`: a new bimap holds no pair.
#[verifier::external_body]
fn slots_new() -> (r: SlotMap)
    ensures
        slot_pairs(r).dom().len() == 0 && slot_pairs(r).dom().finite(),
{
    BiBTreeMap::new()
}

/// Relies on `BiBTreeMap::insert_no_overwrite`: the pair goes in when neither
/// side is present yet, and otherwise the bimap is left as it was.
#[verifier::external_body]
fn slots_insert_fresh(m: &mut SlotMap, k: PerkKey, v: usize) -> (r: bool)
    ensures
        r == !(slot_pairs(*old(m)).contains_key(k) || has_right(slot_pairs(*old(m)), v)),
        r ==> slot_pairs(*final(m)) == slot_pairs(*old(m)).insert(k, v),
        !r ==> slot_pairs(*final(m)) == slot_pairs(*old(m)),
{
    m.insert_no_overwrite(k, v).is_ok()
}

/// Relies on `BiBTreeMap::get_by_left`: the right value paired with `k`.
#[verifier::external_body]
fn slots_by_left(m: &SlotMap, k: PerkKey) -> (r: Option<usize>)
    ensures
        r == (if slot_pairs(*m).contains_key(k) {
            Some(slot_pairs(*m)[k])
        } else {
            None
        }),
{
    m.get_by_left(&k).copied()
}

/// Relies on `BiBTreeMap::get_by_right`: the left value paired with `v`.
#[verifier::external_body]
fn slots_by_right(m: &SlotMap, v: usize) -> (r: Option<PerkKey>)
    ensures
        r matches Some(k) ==> slot_pairs(*m).contains_key(k) && slot_pairs(*m)[k] == v,
        r is None ==> !has_right(slot_pairs(*m), v),
{
    m.get_by_right(&v).copied()
}

/// Two perk names are the same name.
pub open spec fn names_match(a: MaybeGendered<String>, b: MaybeGendered<String>) -> bool {
    match (a, b) {
        (MaybeVaried::One(x), MaybeVaried::One(y)) => x@ == y@,
        (MaybeVaried::Multi(g), MaybeVaried::Multi(h)) => g.male@ == h.male@ && g.female@
            == h.female@,
        _ => false,
    }
}

pub proof fn lemma_names_match_symmetric(a: MaybeGendered<String>, b: MaybeGendered<String>)
    ensures
        names_match(a, b) == names_match(b, a),
{
}

pub proof fn lemma_names_match_transitive(
    a: MaybeGendered<String>,
    b: MaybeGendered<String>,
    c: MaybeGendered<String>,
)
    ensures
        names_match(a, b) && names_match(b, c) ==> names_match(a, c),
{
}

pub fn same_name(a: &MaybeGendered<String>, b: &MaybeGendered<String>) -> (r: bool)
    ensures
        r == names_match(*a, *b),
{
    match (a, b) {
        (MaybeVaried::One(x), MaybeVaried::One(y)) => x.eq(y),
        (MaybeVaried::Multi(g), MaybeVaried::Multi(h)) => g.male.eq(&h.male) && g.female.eq(&h.female),
        _ => false,
    }
}

/// The perk catalog: a bijection between identities and definitions.
pub struct Catalog {
    slots: SlotMap,
    defs: Vec<PerkDef>,
}

impl View for Catalog {
    type V = Map<PerkId, PerkDef>;

    closed spec fn view(&self) -> Map<PerkId, PerkDef> {
        Map::new(
            |id: PerkId| slot_pairs(self.slots).contains_key(key_of(id)),
            |id: PerkId| self.defs@[slot_pairs(self.slots)[key_of(id)] as int],
        )
    }
}

/// What a catalog asks of each definition.
pub open spec fn entry_wf(id: PerkId, d: PerkDef) -> bool {
    &&& d.ranks.wf()
    &&& (id matches PerkId::Special { points, .. } ==> 1 <= points <= 10)
}

impl Catalog {
    /// The internal bijection between keys and slots.
    pub closed spec fn inv(&self) -> bool {
        let p = slot_pairs(self.slots);
        &&& forall|k: PerkKey| #[trigger] p.contains_key(k) ==> p[k] < self.defs@.len()
        &&& forall|k: PerkKey| #[trigger] p.contains_key(k) ==> exists|id: PerkId| key_of(id) == k
        &&& forall|s: usize| s < self.defs@.len() ==> #[trigger] has_right(p, s)
        &&& forall|k1: PerkKey, k2: PerkKey|
            p.contains_key(k1) && p.contains_key(k2) && #[trigger] p[k1] == #[trigger] p[k2]
                ==> k1 == k2
    }

    /// A well-formed catalog: definitions are well formed and names unique.
    pub open spec fn wf(&self) -> bool {
        &&& self.inv()
        &&& forall|id: PerkId| #[trigger] self@.contains_key(id) ==> entry_wf(id, self@[id])
        &&& forall|s: SpecialStat| #[trigger] self@.contains_key(bobblehead_id(s))
        &&& forall|a: PerkId, b: PerkId|
            self@.contains_key(a) && self@.contains_key(b) && names_match(
                #[trigger] self@[a].name,
                #[trigger] self@[b].name,
            ) ==> a == b
    }

    /// The definition of an identity.
    pub fn lookup_by_identity(&self, id: &PerkId) -> (r: Option<&PerkDef>)
        requires
            self.inv(),
        ensures
            r matches Some(d) ==> self@.contains_key(*id) && *d == self@[*id],
            r is None ==> !self@.contains_key(*id),
    {
        match slots_by_left(&self.slots, id.key()) {
            Some(s) => Some(&self.defs[s]),
            None => None,
        }
    }

    /// The identity whose definition carries the same name as `def`.
    pub fn lookup_by_definition(&self, def: &PerkDef) -> (r: Option<PerkId>)
        requires
            self.wf(),
        ensures
            r matches Some(id) ==> self@.contains_key(id) && names_match(self@[id].name, def.name),
            r is None ==> forall|id: PerkId|
                #[trigger] self@.contains_key(id) ==> !names_match(self@[id].name, def.name),
    {
        let mut s: usize = 0;
        while s < self.defs.len()
            invariant
                self.wf(),
                s <= self.defs@.len(),
                forall|t: int| 0 <= t < s ==> !names_match(#[trigger] self.defs@[t].name, def.name),
            decreases self.defs@.len() - s,
        {
            if same_name(&self.defs[s].name, &def.name) {
                let k = slots_by_right(&self.slots, s);
                match k {
                    Some(k) => {
                        let id = PerkId::from_key(k);
                        proof {
                            assert(slot_pairs(self.slots).contains_key(k));
                        }
                        match id {
                            Some(id) => {
                                return Some(id);
                            },
                            None => {
                                proof {
                                    assert(false);
                                }
                            },
                        }
                    },
                    None => {
                        proof {
                            assert(false);
                        }
                    },
                }
            }
            s = s + 1;
        }
        proof {
            assert forall|id: PerkId| #[trigger] self@.contains_key(id) implies !names_match(
                self@[id].name,
                def.name,
            ) by {
                let t = slot_pairs(self.slots)[key_of(id)] as int;
                assert(0 <= t < self.defs@.len());
            }
        }
        None
    }

    /// The definitions in slot order.
    pub closed spec fn definitions(&self) -> Seq<PerkDef> {
        self.defs@
    }

    /// Number of definitions.
    pub fn len(&self) -> (r: usize)
        ensures
            r == self.definitions().len(),
    {
        self.defs.len()
    }

    /// The definition in a slot.
    pub fn definition(&self, s: usize) -> (r: &PerkDef)
        requires
            s < self.definitions().len(),
        ensures
            *r == self.definitions()[s as int],
    {
        &self.defs[s]
    }

    /// The identity of the definition in a slot.
    pub fn identity_of_slot(&self, s: usize) -> (r: PerkId)
        requires
            self.inv(),
            s < self.definitions().len(),
        ensures
            self@.contains_key(r),
            self@[r] == self.definitions()[s as int],
    {
        let k = slots_by_right(&self.slots, s);
        match k {
            Some(k) => {
                proof {
                    assert(slot_pairs(self.slots).contains_key(k));
                }
                match PerkId::from_key(k) {
                    Some(id) => id,
                    None => {
                        proof {
                            assert(false);
                        }
                        PerkId::Other(0)
                    },
                }
            },
            None => {
                proof {
                    assert(false);
                }
                PerkId::Other(0)
            },
        }
    }
}

/// Why a list of catalog entries cannot form a catalog.
#[derive(Debug, Clone, Copy, PartialEq, Eq, Structural)]
pub enum CatalogError {
    /// An entry's ranks are malformed, or an attribute perk's tier is outside 1..=10.
    Malformed,
    /// Two entries share an identity.
    DuplicateIdentity,
    /// Two entries share a name.
    DuplicateName,
    /// An attribute's bonus item is missing.
    MissingBonusItem,
}

/// Entries that form a catalog: identities and names unique, each entry well
/// formed, and every attribute's bonus item present.
pub open spec fn entries_valid(es: Seq<(PerkId, PerkDef)>) -> bool {
    &&& forall|i: int| 0 <= i < es.len() ==> entry_wf(#[trigger] es[i].0, es[i].1)
    &&& forall|i: int, j: int| 0 <= i < j < es.len() ==> #[trigger] es[i].0 != #[trigger] es[j].0
    &&& forall|i: int, j: int|
        0 <= i < j < es.len() ==> !names_match(#[trigger] es[i].1.name, #[trigger] es[j].1.name)
    &&& forall|s: SpecialStat| #[trigger] has_entry(es, bobblehead_id(s))
}

/// Some entry has identity `id`.
pub open spec fn has_entry(es: Seq<(PerkId, PerkDef)>, id: PerkId) -> bool {
    exists|i: int| 0 <= i < es.len() && #[trigger] es[i].0 == id
}

impl Catalog {
    /// Builds the catalog from its entries.
    pub fn from_entries(entries: Vec<(PerkId, PerkDef)>) -> (r: Result<Catalog, CatalogError>)
        ensures
            r is Ok <==> entries_valid(entries@),
            r matches Ok(c) ==> c.wf() && (forall|i: int|
                0 <= i < entries@.len() ==> #[trigger] c@.contains_key(entries@[i].0) && c@[entries@[i].0] == entries@[i].1)
                && (forall|id: PerkId| #[trigger] c@.contains_key(id) ==> exists|i: int|
                0 <= i < entries@.len() && entries@[i].0 == id),
            r matches Err(e) ==> (e == CatalogError::Malformed ==> exists|i: int|
                0 <= i < entries@.len() && !entry_wf(#[trigger] entries@[i].0, entries@[i].1)),
            r matches Err(e) ==> (e == CatalogError::DuplicateIdentity ==> exists|i: int, j: int|
                0 <= i < j < entries@.len() && #[trigger] entries@[i].0 == #[trigger] entries@[j].0),
            r matches Err(e) ==> (e == CatalogError::DuplicateName ==> exists|i: int, j: int|
                0 <= i < j < entries@.len() && names_match(#[trigger] entries@[i].1.name, #[trigger] entries@[j].1.name)),
            r matches Err(e) ==> (e == CatalogError::MissingBonusItem ==> exists|s: SpecialStat|
                !#[trigger] has_entry(entries@, bobblehead_id(s))),
    {
        let ghost es = entries@;
        let ghost n = es.len() as int;
        let mut rest = entries;
        let mut slots = slots_new();
        let mut defs: Vec<PerkDef> = Vec::new();
        while rest.len() > 0
            invariant
                0 <= rest@.len() <= n,
                es == entries@,
                n == es.len(),
                rest@ == es.take(rest@.len() as int),
                defs@.len() == n - rest@.len(),
                forall|s: int| 0 <= s < defs@.len() ==> #[trigger] defs@[s] == es[n - 1 - s].1,
                forall|s: int| 0 <= s < defs@.len() ==> #[trigger] slot_pairs(slots).contains_key(key_of(es[n - 1 - s].0))
                    && slot_pairs(slots)[key_of(es[n - 1 - s].0)] == s,
                forall|k: PerkKey| #[trigger] slot_pairs(slots).contains_key(k) ==> 0 <= slot_pairs(slots)[k] < defs@.len()
                    && k == key_of(es[n - 1 - slot_pairs(slots)[k]].0),
                forall|t: int| rest@.len() <= t < n ==> entry_wf(#[trigger] es[t].0, es[t].1),
                forall|t1: int, t2: int| rest@.len() <= t1 < t2 < n ==> #[trigger] es[t1].0 != #[trigger] es[t2].0,
                forall|t1: int, t2: int| rest@.len() <= t1 < t2 < n ==> !names_match(#[trigger] es[t1].1.name, #[trigger] es[t2].1.name),
            decreases rest@.len(),
        {
            let (id, def) = match rest.pop() {
                Some(e) => e,
                None => {
                    return Err(CatalogError::Malformed);
                },
            };
            let ghost t = rest@.len() as int;
            proof {
                assert(es[t] == (id, def));
            }
            let wf_ranks = match &def.ranks {
                Ranks::UniformCumulative { count, .. } => *count >= 1,
                Ranks::Single { .. } => true,
                Ranks::VaryingCumulative(rs) => rs.len() >= 1 && rs.len() <= 255,
            };
            let wf_tier = match id {
                PerkId::Special { points, .. } => 1 <= points && points <= 10,
                _ => true,
            };
            if !wf_ranks || !wf_tier {
                proof {
                    assert(!entry_wf(es[t].0, es[t].1));
                }
                return Err(CatalogError::Malformed);
            }
            let mut s: usize = 0;
            while s < defs.len()
                invariant
                    s <= defs@.len(),
                    es == entries@,
                    n == es.len(),
                    defs@.len() == n - 1 - t,
                    0 <= t < n,
                    es[t] == (id, def),
                    forall|u: int| 0 <= u < defs@.len() ==> #[trigger] defs@[u] == es[n - 1 - u].1,
                    forall|u: int| 0 <= u < s ==> !names_match(#[trigger] defs@[u].name, def.name),
                decreases defs@.len() - s,
            {
                if same_name(&defs[s].name, &def.name) {
                    proof {
                        lemma_names_match_symmetric(defs@[s as int].name, def.name);
                        assert(names_match(es[t].1.name, es[n - 1 - s].1.name));
                        assert(t < n - 1 - s);
                    }
                    return Err(CatalogError::DuplicateName);
                }
                s = s + 1;
            }
            let slot = defs.len();
            proof {
                assert(!has_right(slot_pairs(slots), slot)) by {
                    if has_right(slot_pairs(slots), slot) {
                        let k = choose|k: PerkKey| slot_pairs(slots).contains_key(k) && slot_pairs(slots)[k] == slot;
                        assert(slot_pairs(slots).contains_key(k));
                    }
                }
            }
            let ghost old_p = slot_pairs(slots);
            let fresh = slots_insert_fresh(&mut slots, id.key(), slot);
            if !fresh {
                proof {
                    let k = key_of(id);
                    assert(slot_pairs(slots).contains_key(k));
                    let u = slot_pairs(slots)[k] as int;
                    lemma_key_of_injective(id, es[n - 1 - u].0);
                    assert(es[t].0 == es[n - 1 - u].0);
                }
                return Err(CatalogError::DuplicateIdentity);
            }
            defs.push(def);
            proof {
                assert forall|t1: int, t2: int| t <= t1 < t2 < n implies #[trigger] es[t1].0 != #[trigger] es[t2].0 by {
                    if t1 == t {
                        let u = n - 1 - t2;
                        assert(old_p.contains_key(key_of(es[n - 1 - u].0)));
                        lemma_key_of_injective(es[t1].0, es[t2].0);
                    }
                }
                assert forall|t1: int, t2: int| t <= t1 < t2 < n implies !names_match(#[trigger] es[t1].1.name, #[trigger] es[t2].1.name) by {
                    if t1 == t {
                        let u = n - 1 - t2;
                        assert(defs@[u] == es[t2].1);
                        lemma_names_match_symmetric(es[t1].1.name, es[t2].1.name);
                    }
                }
            }
        }
        let ghost p = slot_pairs(slots);
        let c = Catalog { slots, defs };
        proof {
            assert forall|k: PerkKey| #[trigger] p.contains_key(k) implies exists|id: PerkId| key_of(id) == k by {
                assert(key_of(es[n - 1 - p[k]].0) == k);
            }
            assert forall|s: usize| s < c.defs@.len() implies #[trigger] has_right(p, s) by {
                assert(p.contains_key(key_of(es[n - 1 - s].0)));
            }
            assert forall|i: int| 0 <= i < n implies #[trigger] c@.contains_key(es[i].0) && c@[es[i].0] == es[i].1 by {
                let u = n - 1 - i;
                assert(p.contains_key(key_of(es[n - 1 - u].0)));
            }
            assert forall|id: PerkId| #[trigger] c@.contains_key(id) implies exists|i: int| 0 <= i < n && es[i].0 == id by {
                let k = key_of(id);
                let i = n - 1 - p[k];
                lemma_key_of_injective(id, es[i].0);
            }
            assert(c.inv());
            assert forall|id: PerkId| #[trigger] c@.contains_key(id) implies entry_wf(id, c@[id]) by {
                let i = n - 1 - p[key_of(id)];
                lemma_key_of_injective(id, es[i].0);
            }
            assert forall|a: PerkId, b: PerkId|
                c@.contains_key(a) && c@.contains_key(b) && names_match(#[trigger] c@[a].name, #[trigger] c@[b].name) implies a == b by {
                let ia = n - 1 - p[key_of(a)];
                let ib = n - 1 - p[key_of(b)];
                lemma_key_of_injective(a, es[ia].0);
                lemma_key_of_injective(b, es[ib].0);
                if ia < ib {
                    assert(!names_match(es[ia].1.name, es[ib].1.name));
                } else if ib < ia {
                    assert(!names_match(es[ib].1.name, es[ia].1.name));
                    lemma_names_match_symmetric(es[ia].1.name, es[ib].1.name);
                }
            }
        }
        let mut si: usize = 0;
        while si < crate::special::STAT_COUNT
            invariant
                c.inv(),
                es == entries@,
                n == es.len(),
                forall|i: int| 0 <= i < n ==> #[trigger] c@.contains_key(es[i].0),
                si <= 7,
                forall|j: int| 0 <= j < si ==> #[trigger] c@.contains_key(bobblehead_id(crate::special::stat_at(j))),
            decreases 7 - si,
        {
            let stat = SpecialStat::from_index(si);
            let found = c.lookup_by_identity(&PerkId::Bobblehead(BobbleheadId::Special(stat)));
            if found.is_none() {
                proof {
                    assert forall|i: int| 0 <= i < n implies #[trigger] es[i].0 != bobblehead_id(stat) by {
                        if es[i].0 == bobblehead_id(stat) {
                            assert(c@.contains_key(es[i].0));
                        }
                    }
                    assert(!has_entry(es, bobblehead_id(stat)));
                }
                return Err(CatalogError::MissingBonusItem);
            }
            si = si + 1;
        }
        proof {
            crate::special::lemma_stat_index_round_trip_all();
            assert forall|s: SpecialStat| #[trigger] c@.contains_key(bobblehead_id(s)) by {
                assert(c@.contains_key(bobblehead_id(crate::special::stat_at(crate::special::stat_index(s)))));
            }
            assert forall|s: SpecialStat| #[trigger] has_entry(es, bobblehead_id(s)) by {
                assert(c@.contains_key(bobblehead_id(s)));
            }
        }
        Ok(c)
    }
}


/// The dataset's sub-tables, in the order the dataset lists each.
pub struct CatalogTables {
    /// For each attribute, its perks by tier from 1.
    pub special: Vec<(SpecialStat, Vec<PerkDef>)>,
    /// Bonus items other than the attribute ones.
    pub bobbleheads: Vec<(MaybeGendered<String>, Rank)>,
    pub magazines: Vec<(String, Ranks)>,
    pub companions: Vec<(String, Ranks)>,
    pub factions: Vec<(String, Ranks)>,
    pub other: Vec<(String, Ranks)>,
}

/// The identity of the `i`-th perk of a flat category.
pub open spec fn flat_id(kind: PerkKind, i: usize) -> PerkId {
    match kind {
        PerkKind::Magazine => PerkId::Magazine(i),
        PerkKind::Companion => PerkId::Companion(i),
        PerkKind::Faction => PerkId::Faction(i),
        _ => PerkId::Other(i),
    }
}

/// An entry in `out` has identity `id` and definition `d`.
pub open spec fn lists(out: Seq<(PerkId, PerkDef)>, id: PerkId, d: PerkDef) -> bool {
    exists|k: int| 0 <= k < out.len() && #[trigger] out[k] == (id, d)
}

/// The bonus item of an attribute: one rank that raises the attribute by one.
pub open spec fn is_attribute_bonus(s: SpecialStat, d: PerkDef) -> bool {
    &&& d.name matches MaybeVaried::One(n) && n@ == stat_label(s)@
    &&& d.ranks matches Ranks::Single { effects, .. } && effects == (Effects {
        stat_increase: Some(StatIncrease { stat: s, increase: 1 }),
        ..Effects::spec_none()
    })
}

/// No identity occurs twice.
pub open spec fn ids_distinct(s: Seq<(PerkId, PerkDef)>) -> bool {
    forall|a: int, b: int| 0 <= a < b < s.len() ==> (#[trigger] s[a]).0 != (#[trigger] s[b]).0
}

/// The category part of the key of a flat category's identities.
pub open spec fn flat_tag(kind: PerkKind) -> u8 {
    match kind {
        PerkKind::Magazine => 2,
        PerkKind::Companion => 3,
        PerkKind::Faction => 4,
        _ => 5,
    }
}

proof fn lemma_flat_key(kind: PerkKind, i: usize)
    ensures
        key_of(flat_id(kind, i)) == (flat_tag(kind), 0u8, i),
{
    match kind {
        PerkKind::Magazine => {},
        PerkKind::Companion => {},
        PerkKind::Faction => {},
        _ => {},
    }
}

proof fn lemma_push_distinct(s: Seq<(PerkId, PerkDef)>, e: (PerkId, PerkDef))
    requires
        ids_distinct(s),
        forall|k: int| 0 <= k < s.len() ==> (#[trigger] s[k]).0 != e.0,
    ensures
        ids_distinct(s.push(e)),
{
    assert forall|a: int, b: int| 0 <= a < b < s.push(e).len() implies (#[trigger] s.push(e)[a]).0
        != (#[trigger] s.push(e)[b]).0 by {
        assert(s.push(e)[a] == s[a]);
        if b < s.len() {
            assert(s.push(e)[b] == s[b]);
        }
    }
}

/// No attribute has two perk lists.
pub open spec fn stats_distinct(t: CatalogTables) -> bool {
    forall|a: int, b: int|
        0 <= a < b < t.special@.len() ==> (#[trigger] t.special@[a]).0 != (#[trigger] t.special@[b]).0
}

/// Tables that form a catalog: no attribute lists more than ten perks or has
/// two lists, every described entry has well-formed ranks, and no two
/// described entries share a name.
pub open spec fn tables_valid(t: CatalogTables) -> bool {
    &&& forall|j: int| 0 <= j < t.special@.len() ==> (#[trigger] t.special@[j]).1@.len() <= 10
    &&& stats_distinct(t)
    &&& forall|id: PerkId, d: PerkDef| #[trigger] describes(t, id, d) ==> d.ranks.wf()
    &&& forall|id1: PerkId, d1: PerkDef, id2: PerkId, d2: PerkDef|
        #[trigger] describes(t, id1, d1) && #[trigger] describes(t, id2, d2) && names_match(d1.name, d2.name)
            ==> id1 == id2
}

/// An identity of an attribute bonus item, or of an attribute perk whose list
/// stands at `lo` or later.
pub open spec fn early_id(id: PerkId, sp: Seq<(SpecialStat, Vec<PerkDef>)>, lo: int) -> bool {
    match id {
        PerkId::Bobblehead(BobbleheadId::Special(_)) => true,
        PerkId::Special { stat, .. } => exists|j: int| lo <= j < sp.len() && (#[trigger] sp[j]).0 == stat,
        _ => false,
    }
}

/// `e` is the entry of some position of a flat table.
pub open spec fn flat_entry(table: Seq<(String, Ranks)>, kind: PerkKind, e: (PerkId, PerkDef)) -> bool {
    exists|i: usize|
        i < table.len() && e == (flat_id(kind, i), PerkDef {
            name: MaybeVaried::One(#[trigger] table[i as int].0),
            ranks: table[i as int].1,
        })
}

/// The entry `(id, d)` is one that the tables describe.
pub open spec fn describes(t: CatalogTables, id: PerkId, d: PerkDef) -> bool {
    match id {
        PerkId::Special { stat, points } => exists|j: int|
            0 <= j < t.special@.len() && (#[trigger] t.special@[j]).0 == stat && 1 <= points
                <= t.special@[j].1@.len() && d == t.special@[j].1@[points - 1],
        PerkId::Bobblehead(BobbleheadId::Special(s)) => is_attribute_bonus(s, d),
        PerkId::Bobblehead(BobbleheadId::Other(i)) => i < t.bobbleheads@.len() && d == PerkDef {
            name: t.bobbleheads@[i as int].0,
            ranks: Ranks::Single {
                description: t.bobbleheads@[i as int].1.description,
                effects: t.bobbleheads@[i as int].1.effects,
            },
        },
        PerkId::Magazine(i) => flat_entry(t.magazines@, PerkKind::Magazine, (id, d)),
        PerkId::Companion(i) => flat_entry(t.companions@, PerkKind::Companion, (id, d)),
        PerkId::Faction(i) => flat_entry(t.factions@, PerkKind::Faction, (id, d)),
        PerkId::Other(i) => flat_entry(t.other@, PerkKind::Other, (id, d)),
    }
}

/// Appends the `i`-th entry of a flat table for every `i`.
fn push_flat(out: &mut Vec<(PerkId, PerkDef)>, table: Vec<(String, Ranks)>, kind: PerkKind)
    ensures
        final(out)@.len() >= old(out)@.len(),
        forall|k: int| 0 <= k < old(out)@.len() ==> #[trigger] final(out)@[k] == old(out)@[k],
        forall|k: int| old(out)@.len() <= k < final(out)@.len() ==> #[trigger] flat_entry(table@, kind, final(out)@[k]),
        forall|k: int| old(out)@.len() <= k < final(out)@.len() ==> key_of((#[trigger] final(out)@[k]).0).0 == flat_tag(kind),
        ids_distinct(old(out)@) && (forall|k: int| 0 <= k < old(out)@.len() ==> key_of((#[trigger] old(out)@[k]).0).0
            != flat_tag(kind)) ==> ids_distinct(final(out)@),
        forall|id: PerkId, d: PerkDef| #[trigger] lists(old(out)@, id, d) ==> lists(final(out)@, id, d),
        forall|i: usize| i < table@.len() ==> #[trigger] lists(final(out)@, flat_id(kind, i), PerkDef {
            name: MaybeVaried::One(table@[i as int].0),
            ranks: table@[i as int].1,
        }),
{
    let ghost tb = table@;
    let ghost start = out@;
    let ghost pre = ids_distinct(start) && (forall|k: int| 0 <= k < start.len() ==> key_of((#[trigger] start[k]).0).0
        != flat_tag(kind));
    let mut rest = table;
    while rest.len() > 0
        invariant
            pre == (ids_distinct(start) && (forall|k: int| 0 <= k < start.len() ==> key_of((#[trigger] start[k]).0).0
                != flat_tag(kind))),
            pre ==> ids_distinct(out@),
            forall|k: int| start.len() <= k < out@.len() ==> key_of((#[trigger] out@[k]).0).0 == flat_tag(kind)
                && key_of(out@[k].0).2 >= rest@.len(),
            tb == table@,
            rest@ == tb.take(rest@.len() as int),
            rest@.len() <= tb.len(),
            out@.len() >= start.len(),
            forall|k: int| 0 <= k < start.len() ==> #[trigger] out@[k] == start[k],
            forall|k: int| start.len() <= k < out@.len() ==> #[trigger] flat_entry(tb, kind, out@[k]),
            forall|id: PerkId, d: PerkDef| #[trigger] lists(start, id, d) ==> lists(out@, id, d),
            forall|i: usize| rest@.len() <= i < tb.len() ==> #[trigger] lists(out@, flat_id(kind, i), PerkDef {
                name: MaybeVaried::One(tb[i as int].0),
                ranks: tb[i as int].1,
            }),
        decreases rest@.len(),
    {
        let ghost before = out@;
        let ghost n = rest@.len();
        proof {
            assert(tb.take(n - 1) =~= tb.take(n as int).drop_last());
        }
        let (name, ranks) = rest.pop().unwrap();
        let i = rest.len();
        let id = match kind {
            PerkKind::Magazine => PerkId::Magazine(i),
            PerkKind::Companion => PerkId::Companion(i),
            PerkKind::Faction => PerkId::Faction(i),
            _ => PerkId::Other(i),
        };
        proof {
            lemma_flat_key(kind, i);
            assert(id == flat_id(kind, i));
            if pre {
                assert forall|k: int| 0 <= k < before.len() implies (#[trigger] before[k]).0 != id by {
                    if k < start.len() {
                        assert(before[k] == start[k]);
                        assert(key_of(start[k].0).0 != flat_tag(kind));
                    } else {
                        assert(key_of(before[k].0).2 >= i + 1);
                    }
                }
                lemma_push_distinct(before, (id, PerkDef { name: MaybeVaried::One(name), ranks }));
            }
        }
        out.push((id, PerkDef { name: MaybeVaried::One(name), ranks }));
        proof {
            assert forall|k: int| start.len() <= k < out@.len() implies key_of((#[trigger] out@[k]).0).0 == flat_tag(kind)
                && key_of(out@[k].0).2 >= rest@.len() by {
                if k < out@.len() - 1 {
                    assert(out@[k] == before[k]);
                }
            }
            let d0 = PerkDef { name: MaybeVaried::One(tb[i as int].0), ranks: tb[i as int].1 };
            assert(out@[out@.len() - 1] == (flat_id(kind, i), d0));
            assert(flat_entry(tb, kind, out@[out@.len() - 1]));
            assert forall|k: int| start.len() <= k < out@.len() implies #[trigger] flat_entry(tb, kind, out@[k]) by {
                if k < out@.len() - 1 {
                    assert(out@[k] == before[k]);
                }
            }
            assert forall|id: PerkId, d: PerkDef| #[trigger] lists(start, id, d) implies lists(out@, id, d) by {
                assert(lists(before, id, d));
                let k = choose|k: int| 0 <= k < before.len() && #[trigger] before[k] == (id, d);
                assert(out@[k] == before[k]);
            }
            assert forall|j: usize| i <= j < tb.len() implies #[trigger] lists(out@, flat_id(kind, j), PerkDef {
                name: MaybeVaried::One(tb[j as int].0),
                ranks: tb[j as int].1,
            }) by {
                let d = PerkDef { name: MaybeVaried::One(tb[j as int].0), ranks: tb[j as int].1 };
                if j > i {
                    assert(lists(before, flat_id(kind, j), d));
                    let k = choose|k: int| 0 <= k < before.len() && #[trigger] before[k] == (flat_id(kind, j), d);
                    assert(out@[k] == before[k]);
                } else {
                    assert(out@[out@.len() - 1] == (flat_id(kind, j), d));
                }
            }
        }
    }
}

/// The definitions a tables value describes for its attribute perks.
pub open spec fn tables_list_special(t: CatalogTables, out: Seq<(PerkId, PerkDef)>) -> bool {
    forall|j: int, p: int|
        0 <= j < t.special@.len() && 0 <= p < t.special@[j].1@.len() ==> #[trigger] lists(
            out,
            PerkId::Special { stat: t.special@[j].0, points: (p + 1) as u8 },
            t.special@[j].1@[p],
        )
}

/// `out` lists the attribute's bonus item.
pub open spec fn lists_bonus(out: Seq<(PerkId, PerkDef)>, s: SpecialStat) -> bool {
    exists|d: PerkDef| #[trigger] lists(out, bobblehead_id(s), d) && is_attribute_bonus(s, d)
}

/// Every entry that a tables value describes is listed in `out`.
pub open spec fn tables_listed(t: CatalogTables, out: Seq<(PerkId, PerkDef)>) -> bool {
    &&& forall|s: SpecialStat| #[trigger] lists_bonus(out, s)
    &&& tables_list_special(t, out)
    &&& forall|i: usize| i < t.bobbleheads@.len() ==> #[trigger] lists(
        out,
        PerkId::Bobblehead(BobbleheadId::Other(i)),
        PerkDef {
            name: t.bobbleheads@[i as int].0,
            ranks: Ranks::Single {
                description: t.bobbleheads@[i as int].1.description,
                effects: t.bobbleheads@[i as int].1.effects,
            },
        },
    )
    &&& forall|i: usize| i < t.magazines@.len() ==> #[trigger] lists(out, PerkId::Magazine(i), PerkDef {
        name: MaybeVaried::One(t.magazines@[i as int].0),
        ranks: t.magazines@[i as int].1,
    })
    &&& forall|i: usize| i < t.companions@.len() ==> #[trigger] lists(out, PerkId::Companion(i), PerkDef {
        name: MaybeVaried::One(t.companions@[i as int].0),
        ranks: t.companions@[i as int].1,
    })
    &&& forall|i: usize| i < t.factions@.len() ==> #[trigger] lists(out, PerkId::Faction(i), PerkDef {
        name: MaybeVaried::One(t.factions@[i as int].0),
        ranks: t.factions@[i as int].1,
    })
    &&& forall|i: usize| i < t.other@.len() ==> #[trigger] lists(out, PerkId::Other(i), PerkDef {
        name: MaybeVaried::One(t.other@[i as int].0),
        ranks: t.other@[i as int].1,
    })
}

proof fn lemma_lists_grow(a: Seq<(PerkId, PerkDef)>, b: Seq<(PerkId, PerkDef)>, id: PerkId, d: PerkDef)
    requires
        lists(a, id, d),
        b.len() >= a.len(),
        forall|k: int| 0 <= k < a.len() ==> #[trigger] b[k] == a[k],
    ensures
        lists(b, id, d),
{
    let k = choose|k: int| 0 <= k < a.len() && #[trigger] a[k] == (id, d);
    assert(b[k] == a[k]);
}

/// The attribute's bonus item.
fn attribute_bonus(s: SpecialStat) -> (r: PerkDef)
    ensures
        is_attribute_bonus(s, r),
{
    let label = s.label();
    let mut text = String::from_str("Increase ");
    text.append(label);
    text.append(" by 1.");
    let mut effects = Effects::none();
    effects.stat_increase = Some(StatIncrease { stat: s, increase: 1 });
    PerkDef {
        name: MaybeVaried::One(String::from_str(label)),
        ranks: Ranks::Single { description: MaybeVaried::One(MaybeVaried::One(text)), effects },
    }
}

impl Catalog {
    /// Every entry of the tables: the attribute bonus items, the attribute perks
    /// by tier, and the other categories by position. An attribute with more
    /// than ten perks is malformed.
    pub fn entries_of(tables: CatalogTables) -> (r: Result<Vec<(PerkId, PerkDef)>, CatalogError>)
        ensures
            r matches Ok(out) ==> tables_listed(tables, out@),
            r matches Ok(out) ==> forall|k: int| 0 <= k < out@.len() ==> describes(tables, (#[trigger] out@[k]).0, out@[k].1),
            r matches Ok(out) ==> (stats_distinct(tables) ==> ids_distinct(out@)),
            r is Err <==> exists|j: int| 0 <= j < tables.special@.len() && #[trigger] tables.special@[j].1@.len() > 10,
            r matches Err(e) ==> e == CatalogError::Malformed,
    {
        let ghost t = tables;
        let CatalogTables { special, bobbleheads, magazines, companions, factions, other } = tables;
        let ghost dist = stats_distinct(t);
        let mut out: Vec<(PerkId, PerkDef)> = Vec::new();
        let mut si: usize = 0;
        while si < crate::special::STAT_COUNT
            invariant
                t == tables,
                magazines == t.magazines,
                companions == t.companions,
                factions == t.factions,
                other == t.other,
                special == t.special,
                bobbleheads == t.bobbleheads,
                forall|k: int| 0 <= k < out@.len() ==> describes(t, (#[trigger] out@[k]).0, out@[k].1),
                out@.len() == si,
                forall|k: int| 0 <= k < out@.len() ==> key_of((#[trigger] out@[k]).0) == (1u8, 0u8, k as usize),
                ids_distinct(out@),
                si <= 7,
                forall|j: int| 0 <= j < si ==> #[trigger] lists_bonus(out@, crate::special::stat_at(j)),
            decreases 7 - si,
        {
            let ghost before = out@;
            let stat = SpecialStat::from_index(si);
            let d = attribute_bonus(stat);
            proof {
                assert forall|k: int| 0 <= k < before.len() implies (#[trigger] before[k]).0 != bobblehead_id(stat) by {
                    assert(key_of(before[k].0).2 == k as usize);
                }
                lemma_push_distinct(before, (bobblehead_id(stat), d));
            }
            out.push((PerkId::Bobblehead(BobbleheadId::Special(stat)), d));
            proof {
                assert forall|k: int| 0 <= k < out@.len() implies key_of((#[trigger] out@[k]).0) == (1u8, 0u8, k as usize) by {
                    if k < before.len() {
                        assert(out@[k] == before[k]);
                    }
                }
                assert(out@[out@.len() - 1] == (bobblehead_id(stat), d));
                assert forall|j: int| 0 <= j < si + 1 implies #[trigger] lists_bonus(out@, crate::special::stat_at(j)) by {
                    if j < si {
                        assert(lists_bonus(before, crate::special::stat_at(j)));
                        let d2 = choose|d2: PerkDef| #[trigger] lists(before, bobblehead_id(crate::special::stat_at(j)), d2) && is_attribute_bonus(crate::special::stat_at(j), d2);
                        lemma_lists_grow(before, out@, bobblehead_id(crate::special::stat_at(j)), d2);
                    } else {
                        assert(lists(out@, bobblehead_id(stat), d));
                    }
                }
            }
            si = si + 1;
        }
        let ghost after_bonus = out@;
        let ghost sp = special@;
        proof {
            assert forall|k: int| 0 <= k < out@.len() implies early_id((#[trigger] out@[k]).0, sp, sp.len() as int) by {
                assert(key_of(out@[k].0) == (1u8, 0u8, k as usize));
            }
        }
        let mut rest = special;
        while rest.len() > 0
            invariant
                t == tables,
                magazines == t.magazines,
                companions == t.companions,
                factions == t.factions,
                other == t.other,
                sp == t.special@,
                dist == stats_distinct(t),
                dist ==> ids_distinct(out@),
                forall|k: int| 0 <= k < out@.len() ==> early_id((#[trigger] out@[k]).0, sp, rest@.len() as int),
                forall|k: int| 0 <= k < out@.len() ==> describes(t, (#[trigger] out@[k]).0, out@[k].1),
                rest@ == sp.take(rest@.len() as int),
                rest@.len() <= sp.len(),
                out@.len() >= after_bonus.len(),
                forall|k: int| 0 <= k < after_bonus.len() ==> #[trigger] out@[k] == after_bonus[k],
                forall|j: int| rest@.len() <= j < sp.len() ==> #[trigger] sp[j].1@.len() <= 10,
                forall|j: int, p: int|
                    rest@.len() <= j < sp.len() && 0 <= p < sp[j].1@.len() ==> #[trigger] lists(
                        out@,
                        PerkId::Special { stat: sp[j].0, points: (p + 1) as u8 },
                        sp[j].1@[p],
                    ),
            decreases rest@.len(),
        {
            let ghost n = rest@.len();
            proof {
                assert(sp.take(n - 1) =~= sp.take(n as int).drop_last());
            }
            let (stat, defs) = rest.pop().unwrap();
            let ghost j0 = rest@.len() as int;
            if defs.len() > 10 {
                proof {
                    assert(sp[j0].1@.len() > 10);
                }
                return Err(CatalogError::Malformed);
            }
            let ghost ds = defs@;
            let ghost mid = out@;
            let mut drest = defs;
            while drest.len() > 0
                invariant
                    ds.len() <= 10,
                    0 <= j0 < sp.len(),
                    sp == t.special@,
                    sp[j0].0 == stat,
                    sp[j0].1@ == ds,
                    dist == stats_distinct(t),
                    dist ==> ids_distinct(out@),
                    forall|k: int| 0 <= k < mid.len() ==> early_id((#[trigger] mid[k]).0, sp, j0 + 1),
                    forall|k: int| mid.len() <= k < out@.len() ==> ((#[trigger] out@[k]).0 matches PerkId::Special {
                        stat: s,
                        points: q,
                    } && s == stat && q as int > drest@.len()),
                    forall|k: int| 0 <= k < out@.len() ==> describes(t, (#[trigger] out@[k]).0, out@[k].1),
                    drest@ == ds.take(drest@.len() as int),
                    drest@.len() <= ds.len(),
                    out@.len() >= mid.len(),
                    forall|k: int| 0 <= k < mid.len() ==> #[trigger] out@[k] == mid[k],
                    forall|p: int| drest@.len() <= p < ds.len() ==> #[trigger] lists(
                        out@,
                        PerkId::Special { stat, points: (p + 1) as u8 },
                        ds[p],
                    ),
                decreases drest@.len(),
            {
                let ghost m = drest@.len();
                proof {
                    assert(ds.take(m - 1) =~= ds.take(m as int).drop_last());
                }
                let ghost before = out@;
                let def = drest.pop().unwrap();
                let p = drest.len();
                let id = PerkId::Special { stat, points: p as u8 + 1 };
                proof {
                    if dist {
                        assert forall|k: int| 0 <= k < before.len() implies (#[trigger] before[k]).0 != id by {
                            if k < mid.len() {
                                assert(before[k] == mid[k]);
                                assert(early_id(mid[k].0, sp, j0 + 1));
                                if let PerkId::Special { stat: s, .. } = mid[k].0 {
                                    let j = choose|j: int| j0 + 1 <= j < sp.len() && (#[trigger] sp[j]).0 == s;
                                    assert(t.special@[j0].0 != t.special@[j].0);
                                }
                            }
                        }
                        lemma_push_distinct(before, (id, def));
                    }
                }
                out.push((id, def));
                proof {
                    assert forall|k: int| mid.len() <= k < out@.len() implies ((#[trigger] out@[k]).0 matches PerkId::Special {
                        stat: s,
                        points: q,
                    } && s == stat && q as int > drest@.len()) by {
                        if k < before.len() {
                            assert(out@[k] == before[k]);
                        }
                    }
                    assert forall|q: int| p <= q < ds.len() implies #[trigger] lists(
                        out@,
                        PerkId::Special { stat, points: (q + 1) as u8 },
                        ds[q],
                    ) by {
                        if q > p {
                            lemma_lists_grow(before, out@, PerkId::Special { stat, points: (q + 1) as u8 }, ds[q]);
                        } else {
                            assert(out@[out@.len() - 1] == (PerkId::Special { stat, points: (q + 1) as u8 }, ds[q]));
                        }
                    }
                }
            }
            proof {
                assert forall|k: int| 0 <= k < out@.len() implies early_id((#[trigger] out@[k]).0, sp, j0) by {
                    if k < mid.len() {
                        assert(out@[k] == mid[k]);
                        assert(early_id(mid[k].0, sp, j0 + 1));
                        if let PerkId::Special { stat: s, .. } = mid[k].0 {
                            let j = choose|j: int| j0 + 1 <= j < sp.len() && (#[trigger] sp[j]).0 == s;
                            assert(sp[j].0 == s);
                        }
                    } else {
                        assert(sp[j0].0 == stat);
                    }
                }
                assert forall|j: int, p: int|
                    j0 <= j < sp.len() && 0 <= p < sp[j].1@.len() implies #[trigger] lists(
                        out@,
                        PerkId::Special { stat: sp[j].0, points: (p + 1) as u8 },
                        sp[j].1@[p],
                    ) by {
                    if j > j0 {
                        lemma_lists_grow(mid, out@, PerkId::Special { stat: sp[j].0, points: (p + 1) as u8 }, sp[j].1@[p]);
                    }
                }
            }
        }
        let ghost after_special = out@;
        let ghost bb = bobbleheads@;
        let mut brest = bobbleheads;
        while brest.len() > 0
            invariant
                t == tables,
                magazines == t.magazines,
                companions == t.companions,
                factions == t.factions,
                other == t.other,
                bb == t.bobbleheads@,
                dist == stats_distinct(t),
                dist ==> ids_distinct(out@),
                forall|k: int| 0 <= k < after_special.len() ==> early_id((#[trigger] after_special[k]).0, sp, 0),
                forall|k: int| after_special.len() <= k < out@.len() ==> ((#[trigger] out@[k]).0 matches PerkId::Bobblehead(
                    BobbleheadId::Other(i),
                ) && i >= brest@.len()),
                forall|k: int| 0 <= k < out@.len() ==> describes(t, (#[trigger] out@[k]).0, out@[k].1),
                brest@ == bb.take(brest@.len() as int),
                brest@.len() <= bb.len(),
                out@.len() >= after_special.len(),
                forall|k: int| 0 <= k < after_special.len() ==> #[trigger] out@[k] == after_special[k],
                forall|i: usize| brest@.len() <= i < bb.len() ==> #[trigger] lists(
                    out@,
                    PerkId::Bobblehead(BobbleheadId::Other(i)),
                    PerkDef {
                        name: bb[i as int].0,
                        ranks: Ranks::Single { description: bb[i as int].1.description, effects: bb[i as int].1.effects },
                    },
                ),
            decreases brest@.len(),
        {
            let ghost n = brest@.len();
            proof {
                assert(bb.take(n - 1) =~= bb.take(n as int).drop_last());
            }
            let ghost before = out@;
            let (name, rank) = brest.pop().unwrap();
            let i = brest.len();
            let Rank { required_level: _, description, effects } = rank;
            let id = PerkId::Bobblehead(BobbleheadId::Other(i));
            let def = PerkDef { name, ranks: Ranks::Single { description, effects } };
            proof {
                if dist {
                    assert forall|k: int| 0 <= k < before.len() implies (#[trigger] before[k]).0 != id by {
                        if k < after_special.len() {
                            assert(before[k] == after_special[k]);
                            assert(early_id(after_special[k].0, sp, 0));
                        }
                    }
                    lemma_push_distinct(before, (id, def));
                }
            }
            out.push((id, def));
            proof {
                assert forall|k: int| after_special.len() <= k < out@.len() implies ((#[trigger] out@[k]).0 matches PerkId::Bobblehead(
                    BobbleheadId::Other(i),
                ) && i >= brest@.len()) by {
                    if k < before.len() {
                        assert(out@[k] == before[k]);
                    }
                }
                assert forall|q: usize| i <= q < bb.len() implies #[trigger] lists(
                    out@,
                    PerkId::Bobblehead(BobbleheadId::Other(q)),
                    PerkDef {
                        name: bb[q as int].0,
                        ranks: Ranks::Single { description: bb[q as int].1.description, effects: bb[q as int].1.effects },
                    },
                ) by {
                    let d = PerkDef {
                        name: bb[q as int].0,
                        ranks: Ranks::Single { description: bb[q as int].1.description, effects: bb[q as int].1.effects },
                    };
                    if q > i {
                        lemma_lists_grow(before, out@, PerkId::Bobblehead(BobbleheadId::Other(q)), d);
                    } else {
                        assert(out@[out@.len() - 1] == (PerkId::Bobblehead(BobbleheadId::Other(q)), d));
                    }
                }
            }
        }
        let ghost after_bobbles = out@;
        proof {
            assert forall|k: int| 0 <= k < out@.len() implies key_of((#[trigger] out@[k]).0).0 <= 1 by {
                if k < after_special.len() {
                    assert(out@[k] == after_special[k]);
                    assert(early_id(after_special[k].0, sp, 0));
                }
            }
        }
        push_flat(&mut out, magazines, PerkKind::Magazine);
        let ghost o1 = out@;
        proof {
            assert forall|k: int| 0 <= k < o1.len() implies key_of((#[trigger] o1[k]).0).0 <= 2 by {
                if k < after_bobbles.len() {
                    assert(o1[k] == after_bobbles[k]);
                }
            }
        }
        push_flat(&mut out, companions, PerkKind::Companion);
        let ghost o2 = out@;
        proof {
            assert forall|k: int| 0 <= k < o2.len() implies key_of((#[trigger] o2[k]).0).0 <= 3 by {
                if k < o1.len() {
                    assert(o2[k] == o1[k]);
                }
            }
        }
        push_flat(&mut out, factions, PerkKind::Faction);
        let ghost o3 = out@;
        proof {
            assert forall|k: int| 0 <= k < o3.len() implies key_of((#[trigger] o3[k]).0).0 <= 4 by {
                if k < o2.len() {
                    assert(o3[k] == o2[k]);
                }
            }
        }
        push_flat(&mut out, other, PerkKind::Other);
        proof {
            crate::special::lemma_stat_index_round_trip_all();
            assert forall|s: SpecialStat| #[trigger] lists_bonus(out@, s) by {
                let j = crate::special::stat_index(s);
                assert(lists_bonus(after_bonus, crate::special::stat_at(j)));
                let d = choose|d: PerkDef| #[trigger] lists(after_bonus, bobblehead_id(crate::special::stat_at(j)), d) && is_attribute_bonus(crate::special::stat_at(j), d);
                lemma_lists_grow(after_bonus, after_special, bobblehead_id(s), d);
                lemma_lists_grow(after_special, after_bobbles, bobblehead_id(s), d);
                assert(lists(out@, bobblehead_id(s), d));
            }
            assert forall|j: int, p: int|
                0 <= j < t.special@.len() && 0 <= p < t.special@[j].1@.len() implies #[trigger] lists(
                    out@,
                    PerkId::Special { stat: t.special@[j].0, points: (p + 1) as u8 },
                    t.special@[j].1@[p],
                ) by {
                lemma_lists_grow(after_special, after_bobbles, PerkId::Special { stat: t.special@[j].0, points: (p + 1) as u8 }, t.special@[j].1@[p]);
            }
            assert forall|i: usize| i < t.bobbleheads@.len() implies #[trigger] lists(
                out@,
                PerkId::Bobblehead(BobbleheadId::Other(i)),
                PerkDef {
                    name: t.bobbleheads@[i as int].0,
                    ranks: Ranks::Single {
                        description: t.bobbleheads@[i as int].1.description,
                        effects: t.bobbleheads@[i as int].1.effects,
                    },
                },
            ) by {
                let d = PerkDef {
                    name: t.bobbleheads@[i as int].0,
                    ranks: Ranks::Single {
                        description: t.bobbleheads@[i as int].1.description,
                        effects: t.bobbleheads@[i as int].1.effects,
                    },
                };
                assert(lists(after_bobbles, PerkId::Bobblehead(BobbleheadId::Other(i)), d));
            }
            assert forall|i: usize| i < t.magazines@.len() implies #[trigger] lists(out@, PerkId::Magazine(i), PerkDef {
                name: MaybeVaried::One(t.magazines@[i as int].0),
                ranks: t.magazines@[i as int].1,
            }) by {
                let d = PerkDef { name: MaybeVaried::One(t.magazines@[i as int].0), ranks: t.magazines@[i as int].1 };
                assert(lists(o1, flat_id(PerkKind::Magazine, i), d));
                assert(lists(o2, PerkId::Magazine(i), d));
                assert(lists(o3, PerkId::Magazine(i), d));
            }
            assert forall|i: usize| i < t.companions@.len() implies #[trigger] lists(out@, PerkId::Companion(i), PerkDef {
                name: MaybeVaried::One(t.companions@[i as int].0),
                ranks: t.companions@[i as int].1,
            }) by {
                let d = PerkDef { name: MaybeVaried::One(t.companions@[i as int].0), ranks: t.companions@[i as int].1 };
                assert(lists(o2, flat_id(PerkKind::Companion, i), d));
                assert(lists(o3, PerkId::Companion(i), d));
            }
            assert forall|i: usize| i < t.factions@.len() implies #[trigger] lists(out@, PerkId::Faction(i), PerkDef {
                name: MaybeVaried::One(t.factions@[i as int].0),
                ranks: t.factions@[i as int].1,
            }) by {
                let d = PerkDef { name: MaybeVaried::One(t.factions@[i as int].0), ranks: t.factions@[i as int].1 };
                assert(lists(o3, flat_id(PerkKind::Faction, i), d));
            }
            assert forall|i: usize| i < t.other@.len() implies #[trigger] lists(out@, PerkId::Other(i), PerkDef {
                name: MaybeVaried::One(t.other@[i as int].0),
                ranks: t.other@[i as int].1,
            }) by {
                let d = PerkDef { name: MaybeVaried::One(t.other@[i as int].0), ranks: t.other@[i as int].1 };
                assert(lists(out@, flat_id(PerkKind::Other, i), d));
            }
            assert forall|k: int| 0 <= k < out@.len() implies describes(t, (#[trigger] out@[k]).0, out@[k].1) by {
                if k < after_bobbles.len() {
                    assert(o1[k] == after_bobbles[k]);
                    assert(o2[k] == o1[k]);
                    assert(o3[k] == o2[k]);
                    assert(out@[k] == o3[k]);
                } else if k < o1.len() {
                    assert(flat_entry(t.magazines@, PerkKind::Magazine, o1[k]));
                    assert(o2[k] == o1[k]);
                    assert(o3[k] == o2[k]);
                    assert(out@[k] == o3[k]);
                    let i = choose|i: usize| i < t.magazines@.len() && o1[k] == (flat_id(PerkKind::Magazine, i), PerkDef {
                        name: MaybeVaried::One(#[trigger] t.magazines@[i as int].0),
                        ranks: t.magazines@[i as int].1,
                    });
                    assert(out@[k].0 == PerkId::Magazine(i));
                } else if k < o2.len() {
                    assert(flat_entry(t.companions@, PerkKind::Companion, o2[k]));
                    assert(o3[k] == o2[k]);
                    assert(out@[k] == o3[k]);
                    let i = choose|i: usize| i < t.companions@.len() && o2[k] == (flat_id(PerkKind::Companion, i), PerkDef {
                        name: MaybeVaried::One(#[trigger] t.companions@[i as int].0),
                        ranks: t.companions@[i as int].1,
                    });
                    assert(out@[k].0 == PerkId::Companion(i));
                } else if k < o3.len() {
                    assert(flat_entry(t.factions@, PerkKind::Faction, o3[k]));
                    assert(out@[k] == o3[k]);
                    let i = choose|i: usize| i < t.factions@.len() && o3[k] == (flat_id(PerkKind::Faction, i), PerkDef {
                        name: MaybeVaried::One(#[trigger] t.factions@[i as int].0),
                        ranks: t.factions@[i as int].1,
                    });
                    assert(out@[k].0 == PerkId::Faction(i));
                } else {
                    assert(flat_entry(t.other@, PerkKind::Other, out@[k]));
                    let i = choose|i: usize| i < t.other@.len() && out@[k] == (flat_id(PerkKind::Other, i), PerkDef {
                        name: MaybeVaried::One(#[trigger] t.other@[i as int].0),
                        ranks: t.other@[i as int].1,
                    });
                    assert(out@[k].0 == PerkId::Other(i));
                }
            }
        }
        Ok(out)
    }

    /// Builds the catalog from the dataset's tables: it holds exactly the
    /// entries the tables describe.
    pub fn load(tables: CatalogTables) -> (r: Result<Catalog, CatalogError>)
        ensures
            r matches Ok(c) ==> c.wf(),
            r matches Ok(c) ==> forall|id: PerkId| #[trigger] c@.contains_key(id) ==> describes(tables, id, c@[id]),
            r matches Ok(c) ==> exists|out: Seq<(PerkId, PerkDef)>| tables_listed(tables, out) && entries_valid(out)
                && (forall|id: PerkId, d: PerkDef| #[trigger] lists(out, id, d) ==> c@.contains_key(id) && c@[id] == d),
            (exists|j: int| 0 <= j < tables.special@.len() && #[trigger] tables.special@[j].1@.len() > 10) ==> r
                == Err::<Catalog, CatalogError>(CatalogError::Malformed),
            tables_valid(tables) ==> r is Ok,
    {
        let ghost t = tables;
        let entries = Catalog::entries_of(tables)?;
        let ghost es = entries@;
        proof {
            if tables_valid(t) {
                assert forall|i: int| 0 <= i < es.len() implies entry_wf(#[trigger] es[i].0, es[i].1) by {
                    assert(describes(t, es[i].0, es[i].1));
                    if let PerkId::Special { stat, points } = es[i].0 {
                        let j = choose|j: int|
                            0 <= j < t.special@.len() && (#[trigger] t.special@[j]).0 == stat && 1 <= points
                                <= t.special@[j].1@.len() && es[i].1 == t.special@[j].1@[points - 1];
                        assert(t.special@[j].1@.len() <= 10);
                    }
                }
                assert forall|i: int, j: int| 0 <= i < j < es.len() implies !names_match(
                    #[trigger] es[i].1.name,
                    #[trigger] es[j].1.name,
                ) by {
                    assert(describes(t, es[i].0, es[i].1));
                    assert(describes(t, es[j].0, es[j].1));
                    assert(es[i].0 != es[j].0);
                }
                assert forall|s: SpecialStat| #[trigger] has_entry(es, bobblehead_id(s)) by {
                    assert(lists_bonus(es, s));
                    let d = choose|d: PerkDef| #[trigger] lists(es, bobblehead_id(s), d) && is_attribute_bonus(s, d);
                    let k = choose|k: int| 0 <= k < es.len() && #[trigger] es[k] == (bobblehead_id(s), d);
                    assert(es[k].0 == bobblehead_id(s));
                }
                assert(entries_valid(es));
            }
        }
        let c = Catalog::from_entries(entries)?;
        proof {
            assert forall|id: PerkId, d: PerkDef| #[trigger] lists(es, id, d) implies c@.contains_key(id) && c@[id] == d by {
                let k = choose|k: int| 0 <= k < es.len() && #[trigger] es[k] == (id, d);
                assert(c@.contains_key(es[k].0));
            }
            assert forall|id: PerkId| #[trigger] c@.contains_key(id) implies describes(t, id, c@[id]) by {
                let i = choose|i: int| 0 <= i < es.len() && es[i].0 == id;
                assert(c@.contains_key(es[i].0));
                assert(describes(t, es[i].0, es[i].1));
            }
        }
        Ok(c)
    }
}

} // verus!
