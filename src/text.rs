//! Turning user text into attributes, genders, difficulties and perks.
//!
//! Similarity scores come from the caller, one per candidate in the order the
//! candidate lists give, in millionths; this module decides what they select.
use vstd::prelude::*;
use crate::catalog::Catalog;
use crate::error::PlanError;
use crate::special::{stat_at, Difficulty, Gender, PerkDef, PerkId, SpecialStat, STAT_COUNT};

verus! {

/// The lowest accepted similarity, in millionths.
pub const MATCH_THRESHOLD: u32 = 600000;

/// What `str::to_lowercase` returns for a string.
pub uninterp spec fn lower_of(s: Seq<char>) -> Seq<char>;

/// Relies on `str::to_lowercase`: the result depends on the characters alone.
#[verifier::external_body]
fn lowercase(s: &str) -> (r: String)
    ensures
        r@ == lower_of(s@),
{
    s.to_lowercase()
}

/// Whether `p` is a prefix of `s`.
pub fn is_prefix(p: &str, s: &str) -> (r: bool)
    ensures
        r == p@.is_prefix_of(s@),
{
    let pn = p.unicode_len();
    let sn = s.unicode_len();
    if pn > sn {
        return false;
    }
    let mut i: usize = 0;
    while i < pn
        invariant
            pn == p@.len(),
            sn == s@.len(),
            pn <= sn,
            i <= pn,
            forall|j: int| 0 <= j < i ==> p@[j] == s@[j],
        decreases pn - i,
    {
        if p.get_char(i) != s.get_char(i) {
            return false;
        }
        i = i + 1;
    }
    true
}

/// Whether two strings hold the same characters.
pub fn same_text(a: &str, b: &str) -> (r: bool)
    ensures
        r == (a@ == b@),
{
    let r = a.unicode_len() == b.unicode_len() && is_prefix(a, b);
    proof {
        if r {
            assert(a@ =~= b@);
        }
    }
    r
}

/// The lower-case name of an attribute.
pub open spec fn stat_key(s: SpecialStat) -> &'static str {
    match s {
        SpecialStat::Strength => "strength",
        SpecialStat::Perception => "perception",
        SpecialStat::Endurance => "endurance",
        SpecialStat::Charisma => "charisma",
        SpecialStat::Intelligence => "intelligence",
        SpecialStat::Agility => "agility",
        SpecialStat::Luck => "luck",
    }
}

impl SpecialStat {
    /// The lower-case name.
    pub fn key(&self) -> (r: &'static str)
        ensures
            r == stat_key(*self),
    {
        match self {
            SpecialStat::Strength => "strength",
            SpecialStat::Perception => "perception",
            SpecialStat::Endurance => "endurance",
            SpecialStat::Charisma => "charisma",
            SpecialStat::Intelligence => "intelligence",
            SpecialStat::Agility => "agility",
            SpecialStat::Luck => "luck",
        }
    }
}

/// The index of the best score: the highest, the last one among equals.
pub open spec fn is_best(s: Seq<u32>, i: int) -> bool {
    &&& 0 <= i < s.len()
    &&& forall|j: int| 0 <= j < s.len() ==> #[trigger] s[j] <= s[i]
    &&& forall|j: int| i < j < s.len() ==> #[trigger] s[j] < s[i]
}

/// The best-scoring candidate, if its score reaches the threshold.
pub fn best_match(scores: &Vec<u32>) -> (r: Option<usize>)
    ensures
        r matches Some(i) ==> is_best(scores@, i as int) && scores@[i as int] >= MATCH_THRESHOLD,
        r is None ==> forall|j: int| 0 <= j < scores@.len() ==> #[trigger] scores@[j] < MATCH_THRESHOLD,
{
    if scores.len() == 0 {
        return None;
    }
    let mut best: usize = 0;
    let mut i: usize = 1;
    while i < scores.len()
        invariant
            1 <= i <= scores@.len(),
            best < i,
            forall|j: int| 0 <= j < i ==> #[trigger] scores@[j] <= scores@[best as int],
            forall|j: int| best < j < i ==> #[trigger] scores@[j] < scores@[best as int],
        decreases scores@.len() - i,
    {
        if scores[i] >= scores[best] {
            best = i;
        }
        i = i + 1;
    }
    if scores[best] >= MATCH_THRESHOLD {
        Some(best)
    } else {
        None
    }
}

/// The attribute whose name starts with the lower-cased text, first in order.
pub open spec fn prefix_stat(q: Seq<char>) -> Option<SpecialStat> {
    if q.len() == 0 {
        None
    } else if exists|i: int| 0 <= i < 7 && q.is_prefix_of(#[trigger] stat_key(stat_at(i))@) {
        Some(stat_at(choose|i: int| 0 <= i < 7 && q.is_prefix_of(#[trigger] stat_key(stat_at(i))@) && forall|j: int| 0 <= j < i ==> !q.is_prefix_of(#[trigger] stat_key(stat_at(j))@)))
    } else {
        None
    }
}

/// The candidate names for attribute scores, in canonical order.
pub fn attribute_candidates() -> (r: Vec<&'static str>)
    ensures
        r@.len() == STAT_COUNT,
        forall|i: int| 0 <= i < 7 ==> #[trigger] r@[i] == stat_key(stat_at(i)),
{
    let mut r: Vec<&'static str> = Vec::new();
    let mut i: usize = 0;
    while i < STAT_COUNT
        invariant
            i <= STAT_COUNT,
            r@.len() == i,
            forall|j: int| 0 <= j < i ==> #[trigger] r@[j] == stat_key(stat_at(j)),
        decreases STAT_COUNT - i,
    {
        r.push(SpecialStat::from_index(i).key());
        i = i + 1;
    }
    r
}

/// An attribute from text: a non-empty case-insensitive prefix of its name
/// selects it; otherwise the best score over `attribute_candidates` does.
pub fn resolve_attribute_text(text: &str, scores: &Vec<u32>) -> (r: Result<SpecialStat, PlanError>)
    requires
        scores@.len() == STAT_COUNT,
    ensures
        prefix_stat(lower_of(text@)) matches Some(s) ==> r == Ok::<SpecialStat, PlanError>(s),
        prefix_stat(lower_of(text@)) is None ==> match r {
            Ok(s) => is_best(scores@, crate::special::stat_index(s)) && scores@[crate::special::stat_index(s)] >= MATCH_THRESHOLD,
            Err(e) => e == PlanError::NoMatch && forall|j: int| 0 <= j < 7 ==> #[trigger] scores@[j] < MATCH_THRESHOLD,
        },
{
    let lower = lowercase(text);
    let q = lower.as_str();
    if q.unicode_len() > 0 {
        let mut i: usize = 0;
        while i < STAT_COUNT
            invariant
                i <= STAT_COUNT,
                q@ == lower_of(text@),
                q@.len() > 0,
                forall|j: int| 0 <= j < i ==> !q@.is_prefix_of(#[trigger] stat_key(stat_at(j))@),
            decreases STAT_COUNT - i,
        {
            let stat = SpecialStat::from_index(i);
            if is_prefix(q, stat.key()) {
                proof {
                    let w = choose|k: int| 0 <= k < 7 && q@.is_prefix_of(#[trigger] stat_key(stat_at(k))@) && forall|j: int| 0 <= j < k ==> !q@.is_prefix_of(#[trigger] stat_key(stat_at(j))@);
                    assert(w == i as int) by {
                        if w < i {
                        } else if w > i {
                            assert(!q@.is_prefix_of(stat_key(stat_at(i as int))@));
                        }
                    }
                }
                return Ok(stat);
            }
            i = i + 1;
        }
    }
    proof {
        crate::special::lemma_stat_index_round_trip_all();
    }
    match best_match(scores) {
        Some(i) => Ok(SpecialStat::from_index(i)),
        None => Err(PlanError::NoMatch),
    }
}

/// Words that name a gender.
pub open spec fn gender_of_word(w: Seq<char>) -> Option<Gender> {
    if w == "male"@ || w == "man"@ || w == "boy"@ || w == "guy"@ || w == "gentleman"@ || w == "he"@ {
        Some(Gender::Male)
    } else if w == "female"@ || w == "woman"@ || w == "girl"@ || w == "lady"@ || w == "she"@ {
        Some(Gender::Female)
    } else {
        None
    }
}

/// A gender from one of the words that name it, in any case.
pub fn resolve_gender_text(text: &str) -> (r: Result<Gender, PlanError>)
    ensures
        gender_of_word(lower_of(text@)) matches Some(g) ==> r == Ok::<Gender, PlanError>(g),
        gender_of_word(lower_of(text@)) is None ==> r == Err::<Gender, PlanError>(PlanError::NoMatch),
{
    let lower = lowercase(text);
    let w = lower.as_str();
    if same_text(w, "male") || same_text(w, "man") || same_text(w, "boy") || same_text(w, "guy")
        || same_text(w, "gentleman") || same_text(w, "he") {
        Ok(Gender::Male)
    } else if same_text(w, "female") || same_text(w, "woman") || same_text(w, "girl") || same_text(
        w,
        "lady",
    ) || same_text(w, "she") {
        Ok(Gender::Female)
    } else {
        Err(PlanError::NoMatch)
    }
}

/// The difficulties in the order of `difficulty_candidates`.
pub open spec fn difficulty_at(i: int) -> Difficulty {
    if i == 0 {
        Difficulty::VeryEasy
    } else if i == 1 {
        Difficulty::Easy
    } else if i == 2 {
        Difficulty::Normal
    } else if i == 3 {
        Difficulty::Hard
    } else if i == 4 {
        Difficulty::VeryHard
    } else {
        Difficulty::Survival
    }
}

/// The lower-case name of a difficulty.
pub open spec fn difficulty_key(d: Difficulty) -> &'static str {
    match d {
        Difficulty::VeryEasy => "veryeasy",
        Difficulty::Easy => "easy",
        Difficulty::Normal => "normal",
        Difficulty::Hard => "hard",
        Difficulty::VeryHard => "veryhard",
        Difficulty::Survival => "survival",
    }
}

/// The candidate names for difficulty scores.
pub fn difficulty_candidates() -> (r: Vec<&'static str>)
    ensures
        r@.len() == 6,
        forall|i: int| 0 <= i < 6 ==> #[trigger] r@[i] == difficulty_key(difficulty_at(i)),
{
    let r = vec!["veryeasy", "easy", "normal", "hard", "veryhard", "survival"];
    proof {
        assert(r@[0] == difficulty_key(difficulty_at(0)));
    }
    r
}

/// A difficulty from its scores over `difficulty_candidates`.
pub fn resolve_difficulty_text(scores: &Vec<u32>) -> (r: Result<Difficulty, PlanError>)
    requires
        scores@.len() == 6,
    ensures
        r matches Ok(d) ==> exists|i: int| #[trigger] is_best(scores@, i) && scores@[i] >= MATCH_THRESHOLD && d == difficulty_at(i),
        r matches Err(e) ==> e == PlanError::NoMatch && forall|j: int| 0 <= j < 6 ==> #[trigger] scores@[j] < MATCH_THRESHOLD,
        r is Err <==> forall|j: int| 0 <= j < 6 ==> #[trigger] scores@[j] < MATCH_THRESHOLD,
{
    match best_match(scores) {
        Some(i) => {
            let d = if i == 0 {
                Difficulty::VeryEasy
            } else if i == 1 {
                Difficulty::Easy
            } else if i == 2 {
                Difficulty::Normal
            } else if i == 3 {
                Difficulty::Hard
            } else if i == 4 {
                Difficulty::VeryHard
            } else {
                Difficulty::Survival
            };
            proof {
                assert(is_best(scores@, i as int));
            }
            Ok(d)
        },
        None => Err(PlanError::NoMatch),
    }
}

/// Value of a string of decimal digits.
pub open spec fn digits_value(s: Seq<char>) -> int
    decreases s.len(),
{
    if s.len() == 0 {
        0
    } else {
        digits_value(s.drop_last()) * 10 + (s.last() as int - '0' as int)
    }
}

pub open spec fn all_digits(s: Seq<char>) -> bool {
    forall|i: int| 0 <= i < s.len() ==> '0' <= #[trigger] s[i] <= '9'
}

/// What `u8::from_str` accepts: an optional `+`, then decimal digits whose value fits.
pub open spec fn parse_u8_spec(s: Seq<char>) -> Option<u8> {
    let d = if s.len() > 0 && s[0] == '+' {
        s.drop_first()
    } else {
        s
    };
    if d.len() > 0 && all_digits(d) && digits_value(d) <= 255 {
        Some(digits_value(d) as u8)
    } else {
        None
    }
}

proof fn lemma_digits_value_grows(s: Seq<char>, k: int)
    requires
        all_digits(s),
        0 <= k <= s.len(),
    ensures
        0 <= digits_value(s.take(k)) <= digits_value(s),
    decreases s.len() - k,
{
    if k < s.len() {
        lemma_digits_value_grows(s, k + 1);
        assert(s.take(k + 1).drop_last() =~= s.take(k));
    } else {
        assert(s.take(k) =~= s);
    }
    lemma_digits_nonneg(s.take(k));
}

proof fn lemma_digits_nonneg(s: Seq<char>)
    requires
        all_digits(s),
    ensures
        digits_value(s) >= 0,
    decreases s.len(),
{
    if s.len() > 0 {
        lemma_digits_nonneg(s.drop_last());
    }
}

/// A rank number, read as `u8::from_str` reads it.
pub fn parse_u8(text: &str) -> (r: Option<u8>)
    ensures
        r == parse_u8_spec(text@),
{
    let n = text.unicode_len();
    let start: usize = if n > 0 && text.get_char(0) == '+' {
        1
    } else {
        0
    };
    let ghost d = if text@.len() > 0 && text@[0] == '+' {
        text@.drop_first()
    } else {
        text@
    };
    if start >= n {
        return None;
    }
    let mut value: u32 = 0;
    let mut i: usize = start;
    while i < n
        invariant
            n == text@.len(),
            start <= i <= n,
            d == text@.subrange(start as int, n as int),
            d == (if text@.len() > 0 && text@[0] == '+' {
                text@.drop_first()
            } else {
                text@
            }),
            all_digits(d.take(i - start)),
            value as int == digits_value(d.take(i - start)),
            value <= 255,
        decreases n - i,
    {
        let ch = text.get_char(i);
        proof {
            assert(d.take(i - start + 1).drop_last() =~= d.take(i - start));
            assert(d[i - start] == ch);
        }
        if ch < '0' || ch > '9' {
            proof {
                assert(!all_digits(d));
            }
            return None;
        }
        let digit = (ch as u32) - ('0' as u32);
        value = value * 10 + digit;
        if value > 255 {
            proof {
                assert(all_digits(d.take(i - start + 1)));
                if all_digits(d) {
                    lemma_digits_value_grows(d, i - start + 1);
                }
            }
            return None;
        }
        i = i + 1;
    }
    proof {
        assert(d.take(i - start) =~= d);
    }
    Some(value as u8)
}

/// The parts joined with nothing between them.
pub open spec fn joined(parts: Seq<String>) -> Seq<char>
    decreases parts.len(),
{
    if parts.len() == 0 {
        Seq::empty()
    } else {
        joined(parts.drop_last()) + parts.last()@
    }
}

/// The parts joined into the phrase to resolve; no parts is an error.
pub fn join_perk_def(parts: &[String]) -> (r: Result<String, PlanError>)
    ensures
        parts@.len() == 0 ==> r == Err::<String, PlanError>(PlanError::NoPerkGiven),
        r matches Ok(p) ==> parts@.len() > 0 && p@ == joined(parts@),
        parts@.len() > 0 ==> r is Ok,
{
    if parts.len() == 0 {
        return Err(PlanError::NoPerkGiven);
    }
    let mut out = String::new();
    let mut i: usize = 0;
    while i < parts.len()
        invariant
            i <= parts@.len(),
            out@ == joined(parts@.take(i as int)),
        decreases parts@.len() - i,
    {
        proof {
            assert(parts@.take(i + 1).drop_last() =~= parts@.take(i as int));
        }
        out.append(parts[i].as_str());
        i = i + 1;
    }
    proof {
        assert(parts@.take(i as int) =~= parts@);
    }
    Ok(out)
}

/// A perk request: the phrase to resolve with the rank it carries, and the
/// phrase to resolve without a rank should the first match nothing.
pub struct PerkQuery {
    pub phrase: String,
    pub rank: Option<u8>,
    pub fallback: Option<String>,
}

/// Splits a perk request into its phrase and an explicit trailing rank. A
/// trailing number is a rank when what precedes it names a perk; when that
/// part itself ends in a number, it must.
pub fn join_perk_def_and_rank(parts: &Vec<String>) -> (r: Result<PerkQuery, PlanError>)
    ensures
        parts@.len() == 0 <==> r is Err,
        r matches Err(e) ==> e == PlanError::NoPerkGiven,
        r matches Ok(q) ==> {
            let n = parts@.len() as int;
            let last = parse_u8_spec(parts@[n - 1]@);
            if n >= 2 && last is Some {
                &&& q.phrase@ == joined(parts@.take(n - 1))
                &&& q.rank == last
                &&& if parse_u8_spec(parts@[n - 2]@) is Some {
                    q.fallback is None
                } else {
                    q.fallback matches Some(f) && f@ == joined(parts@)
                }
            } else {
                q.phrase@ == joined(parts@) && q.rank is None && q.fallback is None
            }
        },
{
    let n = parts.len();
    if n == 0 {
        return Err(PlanError::NoPerkGiven);
    }
    let whole = join_perk_def(parts.as_slice())?;
    if n == 1 {
        return Ok(PerkQuery { phrase: whole, rank: None, fallback: None });
    }
    match parse_u8(parts[n - 1].as_str()) {
        Some(last) => {
            let sub = slice_prefix(parts, n - 1);
            let phrase = join_perk_def(sub.as_slice())?;
            proof {
                assert(sub@ =~= parts@.take(n - 1));
            }
            let fallback = match parse_u8(parts[n - 2].as_str()) {
                Some(_) => None,
                None => Some(whole),
            };
            Ok(PerkQuery { phrase, rank: Some(last), fallback })
        },
        None => Ok(PerkQuery { phrase: whole, rank: None, fallback: None }),
    }
}

/// The first `k` parts.
fn slice_prefix(parts: &Vec<String>, k: usize) -> (r: Vec<String>)
    requires
        k <= parts@.len(),
    ensures
        r@ =~= parts@.take(k as int),
{
    let mut r: Vec<String> = Vec::new();
    let mut i: usize = 0;
    while i < k
        invariant
            i <= k <= parts@.len(),
            r@ =~= parts@.take(i as int),
        decreases k - i,
    {
        r.push(parts[i].clone());
        i = i + 1;
    }
    r
}

/// Every name of every definition, with the slot of its definition.
pub open spec fn name_candidates(ds: Seq<PerkDef>) -> Seq<(usize, Seq<char>)>
    decreases ds.len(),
{
    if ds.len() == 0 {
        Seq::empty()
    } else {
        name_candidates(ds.drop_last()) + ds.last().name.spec_variants().map_values(
            |s: String| ((ds.len() - 1) as usize, s@),
        )
    }
}

proof fn lemma_candidate_slots(ds: Seq<PerkDef>)
    ensures
        forall|i: int| 0 <= i < name_candidates(ds).len() ==> (#[trigger] name_candidates(ds)[i]).0 < ds.len(),
    decreases ds.len(),
{
    if ds.len() > 0 {
        lemma_candidate_slots(ds.drop_last());
        let a = name_candidates(ds.drop_last());
        let b = ds.last().name.spec_variants().map_values(|s: String| ((ds.len() - 1) as usize, s@));
        assert forall|i: int| 0 <= i < (a + b).len() implies (#[trigger] (a + b)[i]).0 < ds.len() by {
            if i >= a.len() {
                assert((a + b)[i] == b[i - a.len()]);
            } else {
                assert((a + b)[i] == a[i]);
            }
        }
    }
}

/// Some score reaches the threshold.
pub open spec fn any_match(scores: Seq<u32>) -> bool {
    exists|j: int| 0 <= j < scores.len() && #[trigger] scores[j] >= MATCH_THRESHOLD
}

impl Catalog {
    /// The candidates that perk scores are given for.
    pub open spec fn spec_candidates(&self) -> Seq<(usize, Seq<char>)> {
        name_candidates(self.definitions())
    }

    /// `id` is the perk whose name scores best, at or above the threshold.
    pub open spec fn picks(&self, scores: Seq<u32>, id: PerkId) -> bool {
        exists|i: int|
            #![trigger is_best(scores, i)]
            is_best(scores, i) && scores[i] >= MATCH_THRESHOLD && self@.contains_key(id) && self@[id]
                == self.definitions()[self.spec_candidates()[i].0 as int]
    }

    /// Every perk name, with the slot of its definition, in slot order.
    pub fn candidate_names(&self) -> (r: Vec<(usize, String)>)
        ensures
            r@.len() == self.spec_candidates().len(),
            forall|i: int| #![trigger r@[i]] 0 <= i < r@.len() ==> r@[i].0 == self.spec_candidates()[i].0
                && r@[i].1@ == self.spec_candidates()[i].1,
    {
        let ghost ds = self.definitions();
        let mut r: Vec<(usize, String)> = Vec::new();
        let mut s: usize = 0;
        while s < self.len()
            invariant
                ds == self.definitions(),
                s <= ds.len(),
                r@.len() == name_candidates(ds.take(s as int)).len(),
                forall|i: int| 0 <= i < r@.len() ==> #[trigger] r@[i].0 == name_candidates(ds.take(s as int))[i].0
                    && r@[i].1@ == name_candidates(ds.take(s as int))[i].1,
            decreases ds.len() - s,
        {
            let d = self.definition(s);
            let names = d.name.iter();
            let ghost before = r@;
            let ghost a = name_candidates(ds.take(s as int));
            let ghost b = d.name.spec_variants().map_values(|x: String| (s, x@));
            let mut k: usize = 0;
            while k < names.len()
                invariant
                    k <= names@.len(),
                    names@.len() == d.name.spec_variants().len(),
                    forall|j: int| 0 <= j < names@.len() ==> *names@[j] == d.name.spec_variants()[j],
                    r@.len() == before.len() + k,
                    forall|j: int| 0 <= j < before.len() ==> #[trigger] r@[j] == before[j],
                    forall|j: int| 0 <= j < k ==> #[trigger] r@[before.len() + j].0 == s && r@[before.len() + j].1@ == d.name.spec_variants()[j]@,
                decreases names@.len() - k,
            {
                r.push((s, names[k].clone()));
                k = k + 1;
            }
            proof {
                assert(ds.take(s + 1).drop_last() =~= ds.take(s as int));
                assert(ds.take(s + 1).last() == *d);
                let c2 = name_candidates(ds.take(s + 1));
                assert(c2 == a + b);
                assert forall|i: int| 0 <= i < r@.len() implies #[trigger] r@[i].0 == c2[i].0 && r@[i].1@ == c2[i].1 by {
                    if i < before.len() {
                        assert(c2[i] == a[i]);
                    } else {
                        assert(c2[i] == b[i - before.len()]);
                        assert(r@[before.len() + (i - before.len())] == r@[i]);
                    }
                }
            }
            s = s + 1;
        }
        proof {
            assert(ds.take(s as int) =~= ds);
            let full = name_candidates(ds.take(s as int));
            assert(full == self.spec_candidates());
            assert forall|i: int| #![trigger r@[i]] 0 <= i < r@.len() implies r@[i].0 == self.spec_candidates()[i].0
                && r@[i].1@ == self.spec_candidates()[i].1 by {
                assert(r@[i].0 == full[i].0 && r@[i].1@ == full[i].1);
            }
        }
        r
    }

    /// The perk whose name scores best over `candidate_names`.
    pub fn resolve_perk(&self, scores: &Vec<u32>) -> (r: Result<PerkId, PlanError>)
        requires
            self.wf(),
            scores@.len() == self.spec_candidates().len(),
        ensures
            r matches Ok(id) ==> self.picks(scores@, id),
            r is Err <==> !any_match(scores@),
            r matches Err(e) ==> e == PlanError::NoMatch,
    {
        match best_match(scores) {
            Some(i) => {
                let cands = self.candidate_names();
                proof {
                    lemma_candidate_slots(self.definitions());
                    assert(cands@[i as int].0 == self.spec_candidates()[i as int].0);
                }
                let slot = cands[i].0;
                let id = self.identity_of_slot(slot);
                proof {
                    assert(is_best(scores@, i as int));
                }
                Ok(id)
            },
            None => Err(PlanError::NoMatch),
        }
    }

    /// A perk and an explicit rank from a query and the scores of its phrases.
    pub fn resolve_perk_query(
        &self,
        q: &PerkQuery,
        phrase_scores: &Vec<u32>,
        fallback_scores: &Vec<u32>,
    ) -> (r: Result<(PerkId, Option<u8>), PlanError>)
        requires
            self.wf(),
            phrase_scores@.len() == self.spec_candidates().len(),
            q.fallback is Some ==> fallback_scores@.len() == self.spec_candidates().len(),
        ensures
            any_match(phrase_scores@) ==> (r matches Ok((id, k)) && self.picks(phrase_scores@, id) && k == q.rank),
            !any_match(phrase_scores@) && q.fallback is Some && any_match(fallback_scores@) ==> (r matches Ok((id, k))
                && self.picks(fallback_scores@, id) && k is None),
            !any_match(phrase_scores@) && (q.fallback is None || !any_match(fallback_scores@)) ==> r
                == Err::<(PerkId, Option<u8>), PlanError>(PlanError::NoMatch),
    {
        match self.resolve_perk(phrase_scores) {
            Ok(id) => Ok((id, q.rank)),
            Err(e) => {
                if q.fallback.is_some() {
                    match self.resolve_perk(fallback_scores) {
                        Ok(id) => Ok((id, None)),
                        Err(e2) => Err(e2),
                    }
                } else {
                    Err(e)
                }
            },
        }
    }
}

} // verus!
