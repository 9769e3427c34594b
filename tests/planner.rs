use fo4_planner::catalog::{Catalog, CatalogError, CatalogTables};
use fo4_planner::character::Build;
use fo4_planner::error::PlanError;
use fo4_planner::snapshot::BuildSnapshot;
use fo4_planner::special::{
    BobbleheadId, Difficulty, EffectField, Effects, FullyVariable, Gender, Gendered, MaybeVaried,
    PerkDef, PerkId, PerkKind, Rank, Ranks, SpecialStat, StatIncrease,
};
use fo4_planner::stats::hits_for_luck;
use fo4_planner::text::{
    attribute_candidates, best_match, difficulty_candidates, join_perk_def, join_perk_def_and_rank,
    parse_u8, resolve_attribute_text, resolve_difficulty_text, resolve_gender_text,
};

fn desc(s: &str) -> FullyVariable<String> {
    MaybeVaried::One(MaybeVaried::One(s.to_string()))
}

fn single(effects: Effects) -> Ranks {
    Ranks::Single { description: desc("d"), effects }
}

fn uniform(count: u8, effects: Effects) -> Ranks {
    Ranks::UniformCumulative { count, description: desc("d"), effects }
}

fn named(name: &str, ranks: Ranks) -> PerkDef {
    PerkDef { name: MaybeVaried::One(name.to_string()), ranks }
}

fn carry(v: u16) -> Effects {
    let mut e = Effects::none();
    e.carry_weight_add = Some(v);
    e
}

/// Every attribute gets ten tiers named "<Attribute> <tier>"; a few carry
/// effects the tests look at.
fn tables() -> CatalogTables {
    let mut special = Vec::new();
    for stat in SpecialStat::all() {
        let mut defs = Vec::new();
        for tier in 1..=10u8 {
            let name = format!("{} {}", stat.label(), tier);
            let ranks = match (stat, tier) {
                (SpecialStat::Strength, 1) => uniform(3, carry(25)),
                (SpecialStat::Intelligence, 1) => uniform(3, Effects::none()),
                (SpecialStat::Intelligence, 4) => uniform(5, Effects::none()),
                (SpecialStat::Endurance, 5) => Ranks::VaryingCumulative(vec![
                    Rank { required_level: 1, description: desc("a"), effects: carry(10) },
                    Rank { required_level: 9, description: desc("b"), effects: Effects::none() },
                    Rank { required_level: 20, description: desc("c"), effects: carry(30) },
                ]),
                _ => single(Effects::none()),
            };
            let name = if (stat, tier) == (SpecialStat::Intelligence, 4) {
                "Gun Nut".to_string()
            } else {
                name
            };
            defs.push(PerkDef { name: MaybeVaried::One(name), ranks });
        }
        special.push((stat, defs));
    }
    CatalogTables {
        special,
        bobbleheads: vec![(
            MaybeVaried::One("Barter".to_string()),
            Rank { required_level: 1, description: desc("b"), effects: Effects::none() },
        )],
        magazines: vec![("Guns and Bullets".to_string(), uniform(10, Effects::none()))],
        companions: vec![(
            "Well Rested".to_string(),
            Ranks::VaryingCumulative(vec![Rank {
                required_level: 30,
                description: desc("w"),
                effects: carry(5),
            }]),
        )],
        factions: vec![("Brotherhood".to_string(), single(carry(50)))],
        other: vec![],
    }
}

fn catalog() -> Catalog {
    Catalog::load(tables()).expect("catalog loads")
}

fn special(stat: SpecialStat, points: u8) -> PerkId {
    PerkId::Special { stat, points }
}

fn def_of(c: &Catalog, id: PerkId) -> &PerkDef {
    c.lookup_by_identity(&id).expect("perk in catalog")
}

fn sim(a: &str, b: &str) -> f64 {
    (strsim::jaro_winkler(a, b) * 2.0 + strsim::normalized_levenshtein(a, b)) / 3.0
}

fn similarity(a: &str, b: &str) -> f64 {
    let base = sim(a, b);
    let parts = a
        .split_whitespace()
        .flat_map(|x| b.split_whitespace().map(move |y| sim(x, y)))
        .fold(0.0f64, f64::max);
    (base + parts) / 2.0
}

fn score(a: &str, b: &str) -> u32 {
    (similarity(a, b) * 1_000_000.0) as u32
}

fn perk_scores(c: &Catalog, query: &str) -> Vec<u32> {
    let q = query.to_lowercase();
    c.candidate_names().iter().map(|(_, n)| score(&q, &n.to_lowercase())).collect()
}

fn resolve(c: &Catalog, text: &str) -> Result<(PerkId, Option<u8>), PlanError> {
    let parts: Vec<String> = text.split_whitespace().map(String::from).collect();
    let q = join_perk_def_and_rank(&parts)?;
    let first = perk_scores(c, &q.phrase);
    let second = match &q.fallback {
        Some(f) => perk_scores(c, f),
        None => Vec::new(),
    };
    c.resolve_perk_query(&q, &first, &second)
}

#[test]
fn fresh_build_has_every_attribute_at_one() {
    let b = Build::new();
    assert_eq!(b.special, vec![1u8; 7]);
    assert!(b.perks.is_empty());
    assert_eq!(b.remaining_initial_points(), 21);
    assert_eq!(b.assigned_special_points(), 0);
}

#[test]
fn set_eleven_grants_bonus_item() {
    let mut b = Build::new();
    b.set(SpecialStat::Agility, 11).unwrap();
    assert_eq!(b.special[SpecialStat::Agility.index()], 10);
    let bobble = PerkId::Bobblehead(BobbleheadId::Special(SpecialStat::Agility));
    assert_eq!(b.rank_held(&bobble), 1);
    assert!(b.bobblehead_for(SpecialStat::Agility));
    assert_eq!(b.total_base_points(SpecialStat::Agility), 11);
}

#[test]
fn set_rejects_zero_and_twelve() {
    let mut b = Build::new();
    assert_eq!(b.set(SpecialStat::Luck, 0), Err(PlanError::OutOfRange));
    assert_eq!(b.set(SpecialStat::Luck, 12), Err(PlanError::OutOfRange));
    assert_eq!(b.special, vec![1u8; 7]);
}

#[test]
fn add_perk_raises_attribute_to_tier() {
    let c = catalog();
    let mut b = Build::new();
    b.set(SpecialStat::Endurance, 3).unwrap();
    let id = special(SpecialStat::Endurance, 5);
    b.add_perk(&c, def_of(&c, id), 1).unwrap();
    assert_eq!(b.special[SpecialStat::Endurance.index()], 5);
    assert_eq!(b.rank_held(&id), 1);
}

#[test]
fn lowering_attribute_drops_perks_above_it() {
    let c = catalog();
    let mut b = Build::new();
    let id = special(SpecialStat::Endurance, 5);
    b.add_perk(&c, def_of(&c, id), 1).unwrap();
    let low = special(SpecialStat::Endurance, 2);
    b.add_perk(&c, def_of(&c, low), 1).unwrap();
    b.set(SpecialStat::Endurance, 2).unwrap();
    assert_eq!(b.rank_held(&id), 0);
    assert_eq!(b.rank_held(&low), 1);
}

#[test]
fn add_perk_rank_above_max_is_refused() {
    let c = catalog();
    let mut b = Build::new();
    let id = special(SpecialStat::Strength, 1);
    assert_eq!(b.add_perk(&c, def_of(&c, id), 4), Err(PlanError::RankOutOfRange { max: 3 }));
    assert!(b.perks.is_empty());
}

#[test]
fn add_perk_rank_zero_removes() {
    let c = catalog();
    let mut b = Build::new();
    let id = special(SpecialStat::Strength, 1);
    b.add_perk(&c, def_of(&c, id), 2).unwrap();
    assert_eq!(b.rank_held(&id), 2);
    b.add_perk(&c, def_of(&c, id), 0).unwrap();
    assert_eq!(b.rank_held(&id), 0);
}

#[test]
fn unknown_perk_is_refused() {
    let c = catalog();
    let mut b = Build::new();
    let stranger = named("Nobody Knows", single(Effects::none()));
    assert_eq!(b.add_perk(&c, &stranger, 1), Err(PlanError::UnknownPerk));
    assert_eq!(b.remove_perk(&c, &stranger), Err(PlanError::UnknownPerk));
}

#[test]
fn removing_bonus_item_drops_perk_it_enabled() {
    let c = catalog();
    let mut b = Build::new();
    b.set(SpecialStat::Luck, 11).unwrap();
    let top = special(SpecialStat::Luck, 10);
    b.add_perk(&c, def_of(&c, top), 1).unwrap();
    b.set(SpecialStat::Luck, 9).unwrap();
    assert_eq!(b.rank_held(&top), 1);
    let bobble = PerkId::Bobblehead(BobbleheadId::Special(SpecialStat::Luck));
    b.remove_perk(&c, def_of(&c, bobble)).unwrap();
    assert_eq!(b.rank_held(&top), 0);
}

#[test]
fn book_cannot_go_to_maxed_attribute() {
    let mut b = Build::new();
    b.set(SpecialStat::Charisma, 10).unwrap();
    assert_eq!(b.set_special_book(Some(SpecialStat::Charisma)), Err(PlanError::InvalidTarget));
    assert_eq!(b.special_book, None);
    b.set_special_book(Some(SpecialStat::Luck)).unwrap();
    assert_eq!(b.total_base_points(SpecialStat::Luck), 2);
    b.set_special_book(None).unwrap();
    assert_eq!(b.special_book, None);
}

#[test]
fn reset_keeps_name_and_difficulty() {
    let c = catalog();
    let mut b = Build::new();
    b.name = Some("Tank".to_string());
    b.difficulty = Some(Difficulty::Hard);
    b.gender = Some(Gender::Female);
    b.set(SpecialStat::Strength, 7).unwrap();
    b.set_special_book(Some(SpecialStat::Agility)).unwrap();
    b.add_perk(&c, def_of(&c, special(SpecialStat::Strength, 3)), 1).unwrap();
    b.reset();
    assert_eq!(b.special, vec![1u8; 7]);
    assert!(b.perks.is_empty());
    assert_eq!(b.special_book, None);
    assert_eq!(b.gender, None);
    assert_eq!(b.name.as_deref(), Some("Tank"));
    assert_eq!(b.difficulty, Some(Difficulty::Hard));
}

#[test]
fn snapshot_round_trip_keeps_build() {
    let c = catalog();
    let mut b = Build::new();
    b.name = Some("Sniper".to_string());
    b.gender = Some(Gender::Male);
    b.difficulty = Some(Difficulty::Survival);
    b.set(SpecialStat::Perception, 11).unwrap();
    b.set_special_book(Some(SpecialStat::Luck)).unwrap();
    b.add_perk(&c, def_of(&c, special(SpecialStat::Intelligence, 4)), 3).unwrap();
    let snap = b.to_snapshot();
    assert_eq!(snap.special[1], (SpecialStat::Perception, 10));
    let back = Build::from_snapshot(snap).unwrap();
    assert_eq!(back.name, b.name);
    assert_eq!(back.gender, b.gender);
    assert_eq!(back.difficulty, b.difficulty);
    assert_eq!(back.special_book, b.special_book);
    assert_eq!(back.special, b.special);
    assert_eq!(back.perks, b.perks);
    assert_eq!(back.show_sheet, b.show_sheet);
}

#[test]
fn snapshot_with_perk_above_tier_is_refused() {
    let snap = BuildSnapshot {
        name: None,
        gender: None,
        special: SpecialStat::all().into_iter().map(|s| (s, 1u8)).collect(),
        special_book: None,
        difficulty: None,
        perks: vec![(special(SpecialStat::Luck, 4), 1)],
        show_sheet: false,
    };
    assert!(matches!(Build::from_snapshot(snap), Err(PlanError::InvalidSnapshot)));
}

#[test]
fn resolve_gun_nut_with_rank() {
    let c = catalog();
    let (id, rank) = resolve(&c, "gun nut 3").unwrap();
    assert_eq!(id, special(SpecialStat::Intelligence, 4));
    assert_eq!(rank, Some(3));
}

#[test]
fn resolve_without_close_match_fails() {
    let mut t = tables();
    t.special[4].1[3] = named("Rifleman", uniform(5, Effects::none()));
    t.magazines[0].0 = "Tales of a Junktown Jerky Vendor".to_string();
    let c = Catalog::load(t).unwrap();
    assert_eq!(resolve(&c, "gn"), Err(PlanError::NoMatch));
}

#[test]
fn resolve_rank_applies_to_best_phrase() {
    let c = catalog();
    let (id, rank) = resolve(&c, "strength 3").unwrap();
    assert_eq!(id, PerkId::Bobblehead(BobbleheadId::Special(SpecialStat::Strength)));
    assert_eq!(rank, Some(3));
}

#[test]
fn resolve_falls_back_to_whole_phrase() {
    let c = catalog();
    let parts: Vec<String> = vec!["zz".into(), "7".into()];
    let q = join_perk_def_and_rank(&parts).unwrap();
    let n = c.candidate_names().len();
    let first = vec![0u32; n];
    let mut second = vec![0u32; n];
    second[5] = 900000;
    let slot = c.candidate_names()[5].0;
    let (id, rank) = c.resolve_perk_query(&q, &first, &second).unwrap();
    assert_eq!(id, c.identity_of_slot(slot));
    assert_eq!(rank, None);
    assert_eq!(c.resolve_perk_query(&q, &first, &first), Err(PlanError::NoMatch));
}

#[test]
fn join_without_parts_is_an_error() {
    assert_eq!(join_perk_def(&[]), Err(PlanError::NoPerkGiven));
    assert!(matches!(join_perk_def_and_rank(&Vec::new()), Err(PlanError::NoPerkGiven)));
    let parts = vec!["gun".to_string(), "nut".to_string()];
    assert_eq!(join_perk_def(&parts).unwrap(), "gunnut");
}

#[test]
fn query_splits_trailing_rank() {
    let parts: Vec<String> = vec!["gun".into(), "nut".into(), "3".into()];
    let q = join_perk_def_and_rank(&parts).unwrap();
    assert_eq!(q.phrase, "gunnut");
    assert_eq!(q.rank, Some(3));
    assert_eq!(q.fallback.as_deref(), Some("gunnut3"));
    let parts: Vec<String> = vec!["perk".into(), "2".into(), "3".into()];
    let q = join_perk_def_and_rank(&parts).unwrap();
    assert_eq!(q.phrase, "perk2");
    assert_eq!(q.fallback, None);
    let parts: Vec<String> = vec!["lone".into(), "wanderer".into()];
    let q = join_perk_def_and_rank(&parts).unwrap();
    assert_eq!(q.phrase, "lonewanderer");
    assert_eq!(q.rank, None);
}

#[test]
fn parse_rank_numbers() {
    assert_eq!(parse_u8("3"), Some(3));
    assert_eq!(parse_u8("+7"), Some(7));
    assert_eq!(parse_u8("0255"), Some(255));
    assert_eq!(parse_u8("256"), None);
    assert_eq!(parse_u8(""), None);
    assert_eq!(parse_u8("+"), None);
    assert_eq!(parse_u8("-1"), None);
    assert_eq!(parse_u8("4a"), None);
}

#[test]
fn hits_per_crit_table_boundaries() {
    let expected = [
        (1, 14), (5, 8), (6, 7), (9, 6), (10, 5), (12, 5), (13, 4), (18, 4), (19, 3), (29, 3),
        (30, 2), (62, 2), (63, 1),
    ];
    for (luck, hits) in expected {
        assert_eq!(hits_for_luck(luck), hits, "luck {}", luck);
    }
    for luck in 1..100u64 {
        assert!(hits_for_luck(luck) >= hits_for_luck(luck + 1));
    }
}

#[test]
fn hits_per_crit_of_fresh_build() {
    let c = catalog();
    let b = Build::new();
    assert_eq!(b.hits_per_crit(&c), 14);
}

#[test]
fn carry_weight_survival_fresh() {
    let c = catalog();
    let mut b = Build::new();
    b.difficulty = Some(Difficulty::Survival);
    assert_eq!(b.carry_weight(&c), 85);
    b.difficulty = None;
    assert_eq!(b.carry_weight(&c), 210);
}

#[test]
fn carry_weight_folds_perk_bonuses() {
    let c = catalog();
    let mut b = Build::new();
    b.add_perk(&c, def_of(&c, special(SpecialStat::Strength, 1)), 2).unwrap();
    assert_eq!(b.carry_weight(&c), 200 + 10 + 50);
    b.add_perk(&c, def_of(&c, special(SpecialStat::Endurance, 5)), 3).unwrap();
    assert_eq!(b.carry_weight(&c), 200 + 10 + 50 + 30);
    b.add_perk(&c, def_of(&c, special(SpecialStat::Endurance, 5)), 2).unwrap();
    assert_eq!(b.carry_weight(&c), 200 + 10 + 50 + 10);
    b.add_perk(&c, def_of(&c, PerkId::Faction(0)), 1).unwrap();
    assert_eq!(b.carry_weight(&c), 200 + 10 + 50 + 10 + 50);
    let adds = b.effect_contributions(&c, EffectField::CarryWeightAdd);
    assert_eq!(adds, vec![25, 25, 10, 50]);
}

#[test]
fn total_points_counts_bonus_item_once() {
    let c = catalog();
    let mut b = Build::new();
    b.set(SpecialStat::Strength, 11).unwrap();
    assert_eq!(b.total_base_points(SpecialStat::Strength), 11);
    assert_eq!(b.stat_increase_for(&c, SpecialStat::Strength), 1);
    assert_eq!(b.total_points(&c, SpecialStat::Strength), 11);
    assert_eq!(b.carry_weight(&c), 200 + 110);
}

#[test]
fn intelligence_perk_lifts_perception() {
    let c = catalog();
    let mut b = Build::new();
    let id = special(SpecialStat::Intelligence, 1);
    b.add_perk(&c, def_of(&c, id), 1).unwrap();
    assert_eq!(b.total_points(&c, SpecialStat::Perception), 1);
    b.add_perk(&c, def_of(&c, id), 2).unwrap();
    assert_eq!(b.total_points(&c, SpecialStat::Perception), 3);
}

#[test]
fn required_level_counts_spent_points_and_rank_levels() {
    let c = catalog();
    let mut b = Build::new();
    assert_eq!(b.required_level(&c), 1);
    b.set(SpecialStat::Strength, 10).unwrap();
    b.set(SpecialStat::Perception, 10).unwrap();
    b.set(SpecialStat::Endurance, 5).unwrap();
    assert_eq!(b.assigned_special_points(), 22);
    assert_eq!(b.remaining_initial_points(), 0);
    assert_eq!(b.level_up_assigned_special_points(), 1);
    assert_eq!(b.required_level(&c), 2);
    b.add_perk(&c, def_of(&c, special(SpecialStat::Strength, 2)), 1).unwrap();
    assert_eq!(b.assigned_perk_points(), 1);
    assert_eq!(b.level_up_assigned_points(), 2);
    assert_eq!(b.required_level(&c), 3);
    b.add_perk(&c, def_of(&c, PerkId::Companion(0)), 1).unwrap();
    assert_eq!(b.required_level(&c), 30);
}

#[test]
fn attribute_text_by_prefix_and_score() {
    let names = attribute_candidates();
    assert_eq!(names[2], "endurance");
    let zero = vec![0u32; 7];
    assert_eq!(resolve_attribute_text("END", &zero), Ok(SpecialStat::Endurance));
    assert_eq!(resolve_attribute_text("l", &zero), Ok(SpecialStat::Luck));
    let scores: Vec<u32> = names.iter().map(|n| score(n, "strenght")).collect();
    assert_eq!(resolve_attribute_text("strenght", &scores), Ok(SpecialStat::Strength));
    assert_eq!(resolve_attribute_text("xyz", &zero), Err(PlanError::NoMatch));
}

#[test]
fn gender_words() {
    assert_eq!(resolve_gender_text("She"), Ok(Gender::Female));
    assert_eq!(resolve_gender_text("GENTLEMAN"), Ok(Gender::Male));
    assert_eq!(resolve_gender_text("it"), Err(PlanError::NoMatch));
}

#[test]
fn difficulty_by_score() {
    let names = difficulty_candidates();
    let scores: Vec<u32> = names.iter().map(|n| score(n, "survivl")).collect();
    assert_eq!(resolve_difficulty_text(&scores), Ok(Difficulty::Survival));
    assert_eq!(resolve_difficulty_text(&vec![10u32; 6]), Err(PlanError::NoMatch));
}

#[test]
fn best_match_takes_last_of_equal_scores() {
    assert_eq!(best_match(&vec![700000, 900000, 900000, 100]), Some(2));
    assert_eq!(best_match(&vec![599999]), None);
    assert_eq!(best_match(&vec![600000]), Some(0));
    assert_eq!(best_match(&Vec::new()), None);
}

#[test]
fn catalog_holds_every_table() {
    let c = catalog();
    assert_eq!(c.len(), 7 * 10 + 7 + 1 + 1 + 1 + 1);
    let bobble = def_of(&c, PerkId::Bobblehead(BobbleheadId::Special(SpecialStat::Charisma)));
    assert!(matches!(&bobble.name, MaybeVaried::One(n) if n == "Charisma"));
    assert!(matches!(
        &bobble.ranks,
        Ranks::Single { effects, .. }
            if effects.stat_increase == Some(StatIncrease { stat: SpecialStat::Charisma, increase: 1 })
    ));
    assert!(matches!(&def_of(&c, PerkId::Magazine(0)).name, MaybeVaried::One(n) if n == "Guns and Bullets"));
    assert!(c.lookup_by_identity(&PerkId::Magazine(1)).is_none());
    let gun_nut = named("Gun Nut", single(Effects::none()));
    assert_eq!(c.lookup_by_definition(&gun_nut), Some(special(SpecialStat::Intelligence, 4)));
}

#[test]
fn catalog_refuses_duplicate_names() {
    let mut t = tables();
    t.magazines.push(("Gun Nut".to_string(), single(Effects::none())));
    assert!(matches!(Catalog::load(t), Err(CatalogError::DuplicateName)));
}

#[test]
fn catalog_refuses_eleven_tiers_and_bad_ranks() {
    let mut t = tables();
    t.special[0].1.push(named("Strength 11", single(Effects::none())));
    assert!(matches!(Catalog::load(t), Err(CatalogError::Malformed)));
    let mut t = tables();
    t.other.push(("Empty".to_string(), Ranks::VaryingCumulative(Vec::new())));
    assert!(matches!(Catalog::load(t), Err(CatalogError::Malformed)));
}

#[test]
fn catalog_refuses_duplicate_identity_and_missing_bonus() {
    let entries = vec![
        (PerkId::Magazine(0), named("A", single(Effects::none()))),
        (PerkId::Magazine(0), named("B", single(Effects::none()))),
    ];
    assert!(matches!(Catalog::from_entries(entries), Err(CatalogError::DuplicateIdentity)));
    let entries = vec![(PerkId::Magazine(0), named("A", single(Effects::none())))];
    assert!(matches!(Catalog::from_entries(entries), Err(CatalogError::MissingBonusItem)));
}

#[test]
fn gendered_names_give_both_variants() {
    let name: MaybeVaried<String, Gendered<String>> = MaybeVaried::Multi(Gendered {
        male: "Lady Killer".to_string(),
        female: "Black Widow".to_string(),
    });
    let all: Vec<&String> = name.iter();
    assert_eq!(all, vec!["Lady Killer", "Black Widow"]);
    assert_eq!(name.get(Gender::Female), "Black Widow");
}

#[test]
fn ranks_queries() {
    let r = Ranks::VaryingCumulative(vec![
        Rank { required_level: 1, description: desc("a"), effects: Effects::none() },
        Rank { required_level: 9, description: desc("b"), effects: Effects::none() },
        Rank { required_level: 20, description: desc("c"), effects: Effects::none() },
    ]);
    assert_eq!(r.max_rank(), 3);
    assert_eq!(r.required_level(2), 9);
    assert_eq!(r.highest_rank_within_level(10), 2);
    assert_eq!(uniform(4, Effects::none()).highest_rank_within_level(1), 4);
    assert_eq!(single(Effects::none()).max_rank(), 1);
    assert_eq!(PerkId::Companion(3).kind(), PerkKind::Companion);
}

#[test]
fn rank_to_add_respects_level_limit() {
    let c = catalog();
    let varying = def_of(&c, special(SpecialStat::Endurance, 5));
    assert_eq!(varying.rank_to_add(None, None), 3);
    assert_eq!(varying.rank_to_add(None, Some(10)), 2);
    assert_eq!(varying.rank_to_add(Some(1), Some(30)), 1);
    assert_eq!(varying.rank_to_add(Some(3), Some(0)), 0);
    let uniform3 = def_of(&c, special(SpecialStat::Strength, 1));
    assert_eq!(uniform3.rank_to_add(None, Some(1)), 3);
}

#[test]
fn consistency_with_catalog() {
    let c = catalog();
    let mut b = Build::new();
    b.add_perk(&c, def_of(&c, PerkId::Magazine(0)), 7).unwrap();
    assert!(b.consistent_with(&c));
    let snap = BuildSnapshot {
        name: None,
        gender: None,
        special: SpecialStat::all().into_iter().map(|s| (s, 1u8)).collect(),
        special_book: None,
        difficulty: None,
        perks: vec![(PerkId::Magazine(0), 11)],
        show_sheet: false,
    };
    let loaded = Build::from_snapshot(snap).unwrap();
    assert!(!loaded.consistent_with(&c));
}

#[test]
fn kind_labels() {
    assert_eq!(PerkKind::Special(SpecialStat::Luck).label(), "Luck");
    assert_eq!(PerkKind::Bobblehead.label(), "Bobbleheads");
    assert_eq!(PerkKind::Other.label(), "Other");
}

#[test]
fn candidates_include_both_gendered_names() {
    let mut t = tables();
    t.bobbleheads.push((
        MaybeVaried::Multi(Gendered { male: "Lady Killer".to_string(), female: "Black Widow".to_string() }),
        Rank { required_level: 1, description: desc("x"), effects: Effects::none() },
    ));
    let c = Catalog::load(t).unwrap();
    let names: Vec<String> = c.candidate_names().into_iter().map(|(_, n)| n).collect();
    assert!(names.contains(&"Lady Killer".to_string()));
    assert!(names.contains(&"Black Widow".to_string()));
    let (id, rank) = resolve(&c, "black widow").unwrap();
    assert_eq!(id, PerkId::Bobblehead(BobbleheadId::Other(1)));
    assert_eq!(rank, None);
}

#[test]
fn set_keeps_attribute_book() {
    let mut b = Build::new();
    b.set_special_book(Some(SpecialStat::Luck)).unwrap();
    b.set(SpecialStat::Luck, 6).unwrap();
    b.set(SpecialStat::Strength, 11).unwrap();
    assert_eq!(b.special_book, Some(SpecialStat::Luck));
    assert_eq!(b.total_base_points(SpecialStat::Luck), 7);
}

#[test]
fn catalog_refuses_attribute_listed_twice() {
    let mut t = tables();
    t.special.push((SpecialStat::Luck, vec![named("Extra Luck", single(Effects::none()))]));
    assert!(matches!(Catalog::load(t), Err(CatalogError::DuplicateIdentity)));
}
