//! Scoring the entries of a dictionary against a query.
//!
//! A query is read three ways: as syllables with or without tone, as
//! characters, and as English words. Every reading that fits an entry gives a
//! match whose cost is a sum of penalties; each penalty is held in 32 bits
//! and stops at the largest value that those hold.

use crate::compiled_dictionary::{
    text_bytes, CompiledDictionary, CompiledDictionaryEntry, Jyutping, JyutpingStore,
};
use crate::jyutping_splitter::{parse_jyutping_tone, spec_base, spec_tone};
use crate::string_search::{
    bytes_eq_ignore_case, indexof_ignore_case, lemma_prefix_distance_at_least, prefix_distance,
    seq_eq_ci, spec_indexof_ci, spec_prefix_levenshtein,
};
use crate::text::{
    is_space, lemma_token_ranges_sound, scan_tokens, spec_is_space, spec_tokens, token_ranges,
    token_ranges_sound,
};
use crate::reconstruct_match::{
    lemma_jyutping_spans_nonempty, lemma_merge_apart_is_identity, lemma_merge_is_idempotent,
    lemma_merge_keeps_nonempty, lemma_traditional_spans_nonempty, merge_overlapping_match_spans,
    spans_apart, spans_nonempty, spec_jyutping_spans, spec_merge_spans, spec_traditional_spans,
};
use crate::rendered_result::RenderedResult;
use crate::text::{lemma_boundary_at_ascii, lemma_boundary_behind_ascii, str_range};
use crate::Stopwatch;
use bit_set::BitSet;
use vstd::prelude::*;
use vstd::string::*;
use vstd::utf8::*;

verus! {

/// For each pair of words that the entry holds in the other order.
pub const OUT_OF_ORDER_INVERSION_PENALTY: u32 = 8_000;

/// For each syllable of the entry that no word stands for, times its distance from the end.
pub const UNMATCHED_JYUTPING_PENALTY: u32 = 10_000;

/// For each byte of a syllable before the place where the typed text stands in it.
pub const JYUTPING_PARTIAL_MATCH_PENALTY_K: u32 = 12_000;

/// For each byte by which a syllable is longer than the typed text that stands in it.
pub const JYUTPING_COMPLETION_PENALTY_K: u32 = 2_500;

/// For each edit between the typed text and a prefix of the syllable.
pub const JYUTPING_PREFIX_LEVENSHTEIN_PENALTY_K: u32 = 20_000;

/// For any match in the definitions.
pub const ENGLISH_BASE_PENALTY: u32 = 5_000;

/// For each character outside ASCII of a query matched in the definitions.
pub const NON_ASCII_MATCH_IN_ENGLISH_PENALTY: u32 = 8_000;

/// For each byte of the definitions before the place where a word stands.
pub const ENGLISH_POS_OFFSET_PENALTY_K: u32 = 100;

/// For a word found in the middle of a word of the definitions.
pub const ENGLISH_MIDDLE_OF_WORD_PENALTY: u32 = 5_000;

/// A penalty as it is stored: the number itself, or the largest 32-bit value
/// where the number is larger.
pub open spec fn capped(cost: int) -> int {
    if cost > u32::MAX {
        u32::MAX as int
    } else {
        cost
    }
}

/// Adds a penalty to a stored one.
pub fn add_capped(stored: u32, more: u32) -> (r: u32)
    ensures
        r as int == capped(stored + more),
{
    stored.saturating_add(more)
}

/// A count times a penalty, as it is stored.
pub fn times_capped(count: usize, each: u32) -> (r: u32)
    ensures
        r as int == capped(count * each),
{
    let wide: u128 = count as u128;
    assert(wide * each <= 0xffff_ffff_ffff_ffff * 0xffff_ffff) by (nonlinear_arith)
        requires
            0 <= wide <= 0xffff_ffff_ffff_ffff,
            0 <= each <= 0xffff_ffff,
    ;
    let product: u128 = wide * (each as u128);
    if product > 0xffff_ffff {
        0xffff_ffff
    } else {
        product as u32
    }
}

/// Capping a sum once is the same as capping it after each step.
pub proof fn lemma_capped_sum(a: int, b: int)
    requires
        0 <= a,
        0 <= b,
    ensures
        capped(capped(a) + b) == capped(a + b),
        capped(a + capped(b)) == capped(a + b),
{
}

/// A set of small numbers, kept as one bit for each.
#[verifier::external_body]
pub struct IdSet {
    bits: BitSet,
}

/// The numbers that the set holds.
pub uninterp spec fn id_set_members(set: IdSet) -> Set<nat>;

impl IdSet {
    /// `bit_set::BitSet::new`: a set that holds nothing.
    #[verifier::external_body]
    fn raw_new() -> (set: IdSet)
        ensures
            id_set_members(set) == Set::<nat>::empty(),
    {
        IdSet { bits: BitSet::new() }
    }

    /// `bit_set::BitSet::insert`: afterwards the set holds `value` and what
    /// it held before. The largest `usize` is left out, since the bit vector
    /// grows to one bit more than the value.
    #[verifier::external_body]
    fn raw_insert(&mut self, value: usize)
        requires
            value < usize::MAX,
        ensures
            id_set_members(*final(self)) == id_set_members(*old(self)).insert(value as nat),
    {
        self.bits.insert(value);
    }

    /// `bit_set::BitSet::contains`: whether the set holds `value`.
    #[verifier::external_body]
    fn raw_contains(&self, value: usize) -> (held: bool)
        ensures
            held == id_set_members(*self).contains(value as nat),
    {
        self.bits.contains(value)
    }

    /// `bit_set::BitSet::make_empty`: afterwards the set holds nothing.
    #[verifier::external_body]
    fn raw_clear(&mut self)
        ensures
            id_set_members(*final(self)) == Set::<nat>::empty(),
    {
        self.bits.make_empty();
    }

    /// `bit_set::BitSet::count`: how many numbers the set holds.
    #[verifier::external_body]
    fn raw_count(&self) -> (count: usize)
        ensures
            count == id_set_members(*self).len(),
    {
        self.bits.count()
    }

    /// The numbers that the set holds.
    pub open spec fn view(&self) -> Set<nat> {
        id_set_members(*self)
    }

    /// A set that holds nothing.
    pub fn new() -> (set: IdSet)
        ensures
            set@ == Set::<nat>::empty(),
    {
        Self::raw_new()
    }

    /// Puts `value` into the set.
    pub fn insert(&mut self, value: usize)
        requires
            value < usize::MAX,
        ensures
            final(self)@ == old(self)@.insert(value as nat),
    {
        self.raw_insert(value)
    }

    /// Whether the set holds `value`.
    pub fn contains(&self, value: usize) -> (held: bool)
        ensures
            held == self@.contains(value as nat),
    {
        self.raw_contains(value)
    }

    /// Takes everything out of the set.
    pub fn clear(&mut self)
        ensures
            final(self)@ == Set::<nat>::empty(),
    {
        self.raw_clear()
    }

    /// How many numbers the set holds.
    pub fn len(&self) -> (count: usize)
        ensures
            count == self@.len(),
    {
        self.raw_count()
    }
}

/// The four penalties of a match.
#[derive(Debug, Clone, Copy, PartialEq, Eq, Structural)]
pub struct MatchCostInfo {
    pub term_match_cost: u32,
    pub unmatched_position_cost: u32,
    pub inversion_cost: u32,
    pub static_cost: u32,
}

impl MatchCostInfo {
    /// The sum of the four penalties.
    pub open spec fn spec_total(&self) -> int {
        self.term_match_cost + self.unmatched_position_cost + self.inversion_cost
            + self.static_cost
    }

    /// The sum of the four penalties, where it fits 32 bits; lower is better.
    pub fn total(&self) -> (sum: u32)
        requires
            self.spec_total() <= u32::MAX,
        ensures
            sum as int == self.spec_total(),
    {
        self.term_match_cost + self.unmatched_position_cost + self.inversion_cost
            + self.static_cost
    }

    /// The sum of the four penalties in 64 bits, which hold every sum.
    pub(crate) fn wide_total(&self) -> (sum: u64)
        ensures
            sum as int == self.spec_total(),
    {
        self.term_match_cost as u64 + self.unmatched_position_cost as u64
            + self.inversion_cost as u64 + self.static_cost as u64
    }
}

/// The reading of the query that gave a match.
#[derive(Debug, Clone, Copy, PartialEq, Eq, Structural)]
pub enum MatchType {
    Jyutping,
    Traditional,
    English,
}

/// One entry found for a query.
#[derive(Debug, Clone, Copy, PartialEq, Eq, Structural)]
pub struct Match {
    pub cost_info: MatchCostInfo,
    pub match_type: MatchType,
    pub entry_id: usize,
}

/// How many of the numbers in `rest` are smaller than `first`.
pub open spec fn count_smaller(first: int, rest: Seq<usize>) -> int
    decreases rest.len(),
{
    if rest.len() == 0 {
        0
    } else {
        count_smaller(first, rest.drop_last()) + if first > rest.last() {
            1int
        } else {
            0int
        }
    }
}

/// How many pairs of `positions` stand in the wrong order: the earlier one
/// is the larger.
pub open spec fn count_inversions(positions: Seq<usize>) -> int
    decreases positions.len(),
{
    if positions.len() == 0 {
        0
    } else {
        count_smaller(positions[0] as int, positions.drop_first()) + count_inversions(
            positions.drop_first(),
        )
    }
}

/// The penalty for matching the terms of a query out of order.
pub open spec fn spec_cost_inversions(positions: Seq<usize>) -> int {
    capped(count_inversions(positions) * 8_000)
}

/// No more numbers are smaller than there are numbers.
pub proof fn lemma_count_smaller_bounds(first: int, rest: Seq<usize>)
    ensures
        0 <= count_smaller(first, rest) <= rest.len(),
    decreases rest.len(),
{
    if rest.len() > 0 {
        lemma_count_smaller_bounds(first, rest.drop_last());
    }
}

/// No more pairs stand in the wrong order than the square of the number of
/// positions.
pub proof fn lemma_count_inversions_bounds(positions: Seq<usize>)
    ensures
        0 <= count_inversions(positions) <= positions.len() * positions.len(),
    decreases positions.len(),
{
    if positions.len() > 0 {
        let rest = positions.drop_first();
        lemma_count_smaller_bounds(positions[0] as int, rest);
        lemma_count_inversions_bounds(rest);
        assert(rest.len() * rest.len() + rest.len() <= positions.len() * positions.len())
            by (nonlinear_arith)
            requires
                rest.len() + 1 == positions.len(),
        ;
    }
}

/// The penalty for the pairs of `matched_positions` that stand in the wrong order.
pub fn cost_inversions(matched_positions: &[usize]) -> (cost: u32)
    ensures
        cost as int == spec_cost_inversions(matched_positions@),
{
    let n: usize = matched_positions.len();
    let mut cost: u32 = 0;
    let mut i: usize = n;
    assert(matched_positions@.skip(n as int) =~= Seq::<usize>::empty());
    while i > 0
        invariant
            n == matched_positions@.len(),
            i <= n,
            cost as int == capped(count_inversions(matched_positions@.skip(i as int)) * 8_000),
        decreases i,
    {
        i -= 1;
        let ghost tail = matched_positions@.skip(i as int);
        let ghost rest = matched_positions@.skip(i + 1);
        assert(tail.drop_first() =~= rest);
        assert(tail[0] == matched_positions@[i as int]);
        let mut j: usize = i + 1;
        let ghost before: int = count_inversions(rest);
        proof {
            lemma_count_inversions_bounds(rest);
            assert(rest.take(0) =~= Seq::<usize>::empty());
        }
        while j < n
            invariant
                n == matched_positions@.len(),
                i < j <= n,
                rest == matched_positions@.skip(i + 1),
                0 <= before,
                cost as int == capped(
                    (before + count_smaller(
                        matched_positions@[i as int] as int,
                        rest.take(j - i - 1),
                    )) * 8_000,
                ),
            decreases n - j,
        {
            let ghost seen = rest.take(j - i - 1);
            let ghost next = rest.take(j - i);
            proof {
                assert(next.drop_last() =~= seen);
                assert(next.last() == matched_positions@[j as int]);
                lemma_count_smaller_bounds(matched_positions@[i as int] as int, seen);
            }
            if matched_positions[i] > matched_positions[j] {
                cost = add_capped(cost, OUT_OF_ORDER_INVERSION_PENALTY);
            }
            j += 1;
        }
        assert(rest.take(n - i - 1) =~= rest);
    }
    assert(matched_positions@.skip(0) =~= matched_positions@);
    cost
}

/// The penalty of matching the typed `base` against a syllable of the
/// alphabet that it is not equal to: by where the base stands inside the
/// syllable and how much of the syllable is left over, or else by its edit
/// distance to a prefix of the syllable, where that is below 2.
pub open spec fn spec_penalty(base: Seq<u8>, syllable: Seq<u8>) -> Option<int> {
    if base.len() > 0 && spec_indexof_ci(base, syllable) is Some {
        Some(
            capped(
                spec_indexof_ci(base, syllable).unwrap() * 12_000 + (syllable.len() - base.len())
                    * 2_500,
            ),
        )
    } else if spec_prefix_levenshtein(base, syllable) < 2 {
        Some(spec_prefix_levenshtein(base, syllable) * 20_000)
    } else {
        None
    }
}

/// The typed `base` matches the syllable, exactly or at a penalty.
pub open spec fn spec_fits(base: Seq<u8>, syllable: Seq<u8>) -> bool {
    seq_eq_ci(syllable, base) || spec_penalty(base, syllable) is Some
}

/// The ids below `n` of the syllables that the typed `base` matches.
pub open spec fn spec_term_members(base: Seq<u8>, syllables: Seq<Seq<u8>>, n: int) -> Set<nat> {
    Set::new(|id: nat| id < n && id < syllables.len() && spec_fits(base, syllables[id as int]))
}

/// The ids below `n` of the syllables that the typed `base` matches at a
/// penalty, each with its penalty, in ascending order of id.
pub open spec fn spec_term_costs(base: Seq<u8>, syllables: Seq<Seq<u8>>, n: int) -> Seq<
    (i32, u32),
>
    decreases n,
{
    if n <= 0 {
        Seq::empty()
    } else {
        let before = spec_term_costs(base, syllables, n - 1);
        let syllable = syllables[n - 1];
        if !seq_eq_ci(syllable, base) && spec_penalty(base, syllable) is Some {
            before.push(((n - 1) as i32, spec_penalty(base, syllable).unwrap() as u32))
        } else {
            before
        }
    }
}

/// What a term of a query holds.
pub struct TermModel {
    /// The typed text without its tone.
    pub base: Seq<u8>,
    /// The typed tone.
    pub tone: Option<u8>,
    /// The ids of the syllables that the term matches.
    pub members: Set<nat>,
    /// Ids of matched syllables with the penalty of each; a matched syllable
    /// that is not listed has no penalty.
    pub costs: Seq<(i32, u32)>,
}

/// The term that a typed word gives over the syllable alphabet.
pub open spec fn spec_term(word: Seq<u8>, syllables: Seq<Seq<u8>>) -> TermModel {
    TermModel {
        base: spec_base(word),
        tone: spec_tone(word),
        members: spec_term_members(spec_base(word), syllables, syllables.len() as int),
        costs: spec_term_costs(spec_base(word), syllables, syllables.len() as int),
    }
}

/// One word of a query, read as a syllable.
pub struct JyutpingQueryTerm {
    pub string_no_tone: String,
    pub tone: Option<u8>,
    pub matches: IdSet,
    pub match_bit_to_match_cost: Vec<(i32, u32)>,
}

impl JyutpingQueryTerm {
    /// What the term holds.
    pub open spec fn view(&self) -> TermModel {
        TermModel {
            base: text_bytes(self.string_no_tone@),
            tone: self.tone,
            members: self.matches@,
            costs: self.match_bit_to_match_cost@,
        }
    }

    /// Reads the word `s` as a syllable and finds the syllables of the
    /// alphabet that it matches.
    pub fn create(s: &str, jyutping_store: &JyutpingStore) -> (term: Self)
        requires
            s.spec_bytes().len() >= 1,
            jyutping_store.wf(),
        ensures
            term@ == spec_term(s.spec_bytes(), jyutping_store@),
    {
        let (base_text, tone) = parse_jyutping_tone(s);
        let base: &[u8] = base_text.as_bytes();
        let mut matches: IdSet = IdSet::new();
        let mut costs: Vec<(i32, u32)> = Vec::new();
        let count: usize = jyutping_store.base_strings.len();
        let ghost syllables = jyutping_store@;
        let mut i: usize = 0;
        assert(matches@ =~= spec_term_members(base@, syllables, 0));
        while i < count
            invariant
                jyutping_store.wf(),
                syllables == jyutping_store@,
                count == syllables.len(),
                count == jyutping_store.base_strings@.len(),
                i <= count,
                matches@ == spec_term_members(base@, syllables, i as int),
                costs@ == spec_term_costs(base@, syllables, i as int),
            decreases count - i,
        {
            let syllable: &[u8] = jyutping_store.base_strings[i].as_str().as_bytes();
            assert(syllable@ == syllables[i as int]);
            let ghost before = matches@;
            let mut fits: bool = false;
            if bytes_eq_ignore_case(syllable, base) {
                fits = true;
            } else {
                let found: Option<usize> = if base.len() > 0 {
                    indexof_ignore_case(base, syllable)
                } else {
                    None
                };
                match found {
                    Some(at) => {
                        proof {
                            crate::string_search::lemma_first_match_from(base@, syllable@, 0);
                            lemma_capped_sum(at * 12_000, capped((syllable@.len() - base@.len()) * 2_500));
                            lemma_capped_sum(at * 12_000, (syllable@.len() - base@.len()) * 2_500);
                        }
                        let shift: u32 = times_capped(at, JYUTPING_PARTIAL_MATCH_PENALTY_K);
                        let rest: u32 = times_capped(
                            syllable.len() - base.len(),
                            JYUTPING_COMPLETION_PENALTY_K,
                        );
                        costs.push((i as i32, add_capped(shift, rest)));
                        fits = true;
                    },
                    None => {
                        proof {
                            lemma_prefix_distance_at_least(base@, syllable@);
                        }
                        if base.len() == 0 || base.len() - 1 <= syllable.len() {
                            let dist: u64 = prefix_distance(base, syllable);
                            if dist < 2 {
                                costs.push(
                                    (i as i32, dist as u32 * JYUTPING_PREFIX_LEVENSHTEIN_PENALTY_K),
                                );
                                fits = true;
                            }
                        }
                    },
                }
            }
            if fits {
                matches.insert(i);
            }
            proof {
                assert(fits == spec_fits(base@, syllables[i as int]));
                if fits {
                    assert(before.insert(i as nat) =~= spec_term_members(base@, syllables, i + 1));
                } else {
                    assert(before =~= spec_term_members(base@, syllables, i + 1));
                }
            }
            i += 1;
        }
        let term = Self {
            string_no_tone: base_text.to_owned(),
            tone,
            matches,
            match_bit_to_match_cost: costs,
        };
        term
    }

    /// The typed text with its tone digit behind it, where a tone was typed.
    pub fn string_with_tone(&self) -> (text: String)
        requires
            self.tone is Some ==> self.tone.unwrap() <= 9,
        ensures
            text@ == match self.tone {
                Some(tone) => self.string_no_tone@.push(((tone + 0x30) as u8) as char),
                None => self.string_no_tone@,
            },
    {
        let mut text: String = self.string_no_tone.clone();
        if let Some(tone) = self.tone {
            crate::text::push_char(&mut text, crate::text::digit_char(tone));
        }
        text
    }
}

/// A query as it is held for scoring: its words as syllables, and the ids of
/// its characters that the dictionary knows.
pub struct QueryTerms {
    pub jyutping_terms: Vec<JyutpingQueryTerm>,
    pub traditional_terms: Vec<u16>,
}

impl QueryTerms {
    /// What the syllable terms hold, in order.
    pub open spec fn terms(&self) -> Seq<TermModel> {
        Seq::new(self.jyutping_terms@.len(), |i: int| self.jyutping_terms@[i]@)
    }
}

/// The term can stand for the syllable: it matches the syllable's base, and
/// the tone, where one was typed, is the syllable's.
pub open spec fn term_fits(term: TermModel, syllable: Jyutping) -> bool {
    &&& term.members.contains(syllable.base as nat)
    &&& (term.tone is Some ==> term.tone.unwrap() == syllable.tone)
}

/// The penalty listed for the syllable base `base`: that of the first pair
/// with this id, and 0 where there is none.
pub open spec fn spec_pair_cost(costs: Seq<(i32, u32)>, base: int) -> int
    decreases costs.len(),
{
    if costs.len() == 0 {
        0
    } else if costs[0].0 == base {
        costs[0].1 as int
    } else {
        spec_pair_cost(costs.drop_first(), base)
    }
}

/// The best of the first `n` syllables for the term, as position and
/// penalty: the one with the least penalty among those that the term can
/// stand for, and of several such the first.
pub open spec fn spec_best(term: TermModel, syllables: Seq<Jyutping>, n: int) -> Option<
    (int, int),
>
    decreases n,
{
    if n <= 0 {
        None
    } else {
        let before = spec_best(term, syllables, n - 1);
        let syllable = syllables[n - 1];
        let cost = spec_pair_cost(term.costs, syllable.base as int);
        if term_fits(term, syllable) && (before is None || cost < before.unwrap().1) {
            Some((n - 1, cost))
        } else {
            before
        }
    }
}

/// What the best syllable is: the term can stand for it, no syllable that
/// the term can stand for has a smaller penalty, and none before it has the
/// same penalty. Where there is no best syllable, the term can stand for none.
pub proof fn lemma_spec_best(term: TermModel, syllables: Seq<Jyutping>, n: int)
    requires
        0 <= n <= syllables.len(),
    ensures
        match spec_best(term, syllables, n) {
            Some((at, cost)) => {
                &&& 0 <= at < n
                &&& term_fits(term, syllables[at])
                &&& cost == spec_pair_cost(term.costs, syllables[at].base as int)
                &&& forall|k: int|
                    0 <= k < n && term_fits(term, #[trigger] syllables[k]) ==> cost
                        <= spec_pair_cost(term.costs, syllables[k].base as int)
                &&& forall|k: int|
                    0 <= k < at && term_fits(term, #[trigger] syllables[k]) ==> cost
                        < spec_pair_cost(term.costs, syllables[k].base as int)
            },
            None => forall|k: int| 0 <= k < n ==> !term_fits(term, #[trigger] syllables[k]),
        },
    decreases n,
{
    if n > 0 {
        lemma_spec_best(term, syllables, n - 1);
    }
}

/// The best syllable for each of the first `count` terms, or nothing where
/// one of them can stand for no syllable.
pub open spec fn spec_all_best(terms: Seq<TermModel>, syllables: Seq<Jyutping>, count: int)
    -> Option<Seq<(int, int)>>
    decreases count,
{
    if count <= 0 {
        Some(Seq::empty())
    } else {
        match spec_all_best(terms, syllables, count - 1) {
            None => None,
            Some(before) => match spec_best(terms[count - 1], syllables, syllables.len() as int) {
                None => None,
                Some(best) => Some(before.push(best)),
            },
        }
    }
}

/// Once a term can stand for no syllable, more terms change nothing.
pub proof fn lemma_all_best_none(
    terms: Seq<TermModel>,
    syllables: Seq<Jyutping>,
    count: int,
    more: int,
)
    requires
        count <= more,
        spec_all_best(terms, syllables, count) is None,
    ensures
        spec_all_best(terms, syllables, more) is None,
    decreases more - count,
{
    if count < more {
        lemma_all_best_none(terms, syllables, count, more - 1);
    }
}

/// The sum of the penalties of the chosen syllables.
pub open spec fn spec_sum_costs(chosen: Seq<(int, int)>) -> int
    decreases chosen.len(),
{
    if chosen.len() == 0 {
        0
    } else {
        spec_sum_costs(chosen.drop_last()) + chosen.last().1
    }
}

/// The positions of the chosen syllables.
pub open spec fn spec_positions(chosen: Seq<(int, int)>) -> Seq<usize> {
    Seq::new(chosen.len(), |i: int| chosen[i].0 as usize)
}

/// The penalty for the syllables before position `upto` that no term chose:
/// for each, 10 000 times its distance from one behind the last syllable.
pub open spec fn spec_unmatched_cost(count: int, positions: Seq<usize>, upto: int) -> int
    decreases upto,
{
    if upto <= 0 {
        0
    } else {
        spec_unmatched_cost(count, positions, upto - 1) + if positions.contains(
            (upto - 1) as usize,
        ) {
            0
        } else {
            (count + 1 - (upto - 1)) * 10_000
        }
    }
}

/// The penalty for syllables left out is no more than if every syllable up to
/// `upto` were left out at the first position.
pub proof fn lemma_unmatched_cost_bounds(count: int, positions: Seq<usize>, upto: int)
    requires
        0 <= upto <= count,
    ensures
        0 <= spec_unmatched_cost(count, positions, upto) <= upto * (count + 1) * 10_000,
    decreases upto,
{
    if upto > 0 {
        lemma_unmatched_cost_bounds(count, positions, upto - 1);
        assert((upto - 1) * (count + 1) * 10_000 + (count + 1) * 10_000 == upto * (count + 1)
            * 10_000) by (nonlinear_arith);
    }
}

/// The penalties of an entry with the given syllables read against the
/// terms, without the entry's own cost; nothing where there are no terms,
/// where the entry has fewer syllables than there are terms, or where a term
/// can stand for none of the syllables.
pub open spec fn spec_jyutping_cost(terms: Seq<TermModel>, syllables: Seq<Jyutping>) -> Option<
    MatchCostInfo,
> {
    if terms.len() == 0 || syllables.len() < terms.len() {
        None
    } else {
        match spec_all_best(terms, syllables, terms.len() as int) {
            None => None,
            Some(chosen) => Some(
                MatchCostInfo {
                    term_match_cost: capped(spec_sum_costs(chosen)) as u32,
                    unmatched_position_cost: spec_unmatched_cost(
                        syllables.len() as int,
                        spec_positions(chosen),
                        syllables.len() as int,
                    ) as u32,
                    inversion_cost: spec_cost_inversions(spec_positions(chosen)) as u32,
                    static_cost: 0,
                },
            ),
        }
    }
}

/// The numbers that stand in `positions`.
pub open spec fn position_set(positions: Seq<usize>) -> Set<nat> {
    Set::new(|p: nat| exists|i: int| 0 <= i < positions.len() && positions[i] == p)
}

/// Buffers that the scoring of one entry fills and the next one takes over.
pub struct SearchScratch {
    pub entry_jyutping_matches: IdSet,
    pub matched_positions: Vec<usize>,
}

impl SearchScratch {
    /// Buffers that hold nothing.
    pub fn new() -> (scratch: Self)
        ensures
            scratch.entry_jyutping_matches@ == Set::<nat>::empty(),
            scratch.matched_positions@ == Seq::<usize>::empty(),
    {
        SearchScratch { entry_jyutping_matches: IdSet::new(), matched_positions: Vec::new() }
    }
}

/// The penalty listed for the syllable base `base`.
fn pair_cost(costs: &Vec<(i32, u32)>, base: u16) -> (cost: u32)
    ensures
        cost as int == spec_pair_cost(costs@, base as int),
{
    let mut k: usize = 0;
    assert(costs@.skip(0) =~= costs@);
    while k < costs.len()
        invariant
            k <= costs@.len(),
            spec_pair_cost(costs@, base as int) == spec_pair_cost(costs@.skip(k as int), base as int),
        decreases costs@.len() - k,
    {
        let pair: (i32, u32) = costs[k];
        assert(costs@.skip(k as int)[0] == costs@[k as int]);
        assert(costs@.skip(k as int).drop_first() =~= costs@.skip(k + 1));
        if pair.0 == base as i32 {
            return pair.1;
        }
        k += 1;
    }
    0
}

/// The best syllable for the term, as position and penalty.
pub fn best_syllable(term: &JyutpingQueryTerm, syllables: &Vec<Jyutping>) -> (best: Option<
    (usize, u32),
>)
    ensures
        match best {
            Some((at, cost)) => spec_best(term@, syllables@, syllables@.len() as int) == Some(
                (at as int, cost as int),
            ),
            None => spec_best(term@, syllables@, syllables@.len() as int) is None,
        },
{
    let mut best: Option<(usize, u32)> = None;
    let mut i: usize = 0;
    while i < syllables.len()
        invariant
            i <= syllables@.len(),
            match best {
                Some((at, cost)) => spec_best(term@, syllables@, i as int) == Some(
                    (at as int, cost as int),
                ),
                None => spec_best(term@, syllables@, i as int) is None,
            },
        decreases syllables@.len() - i,
    {
        let syllable: Jyutping = syllables[i];
        if term.matches.contains(syllable.base as usize) {
            let cost: u32 = pair_cost(&term.match_bit_to_match_cost, syllable.base);
            let tone_fits: bool = match term.tone {
                Some(tone) => tone == syllable.tone,
                None => true,
            };
            if tone_fits {
                let better: bool = match best {
                    Some((_, least)) => cost < least,
                    None => true,
                };
                if better {
                    best = Some((i, cost));
                }
            }
        }
        i += 1;
    }
    best
}

/// The penalties of an entry with the given syllables read against the terms.
pub fn score_jyutping(
    syllables: &Vec<Jyutping>,
    terms: &Vec<JyutpingQueryTerm>,
    scratch: &mut SearchScratch,
) -> (r: Option<MatchCostInfo>)
    requires
        syllables@.len() < 256,
    ensures
        r == spec_jyutping_cost(Seq::new(terms@.len(), |i: int| terms@[i]@), syllables@),
{
    let ghost models = Seq::new(terms@.len(), |i: int| terms@[i]@);
    if terms.len() == 0 {
        return None;
    }
    if syllables.len() < terms.len() {
        return None;
    }
    let count: usize = syllables.len();
    scratch.entry_jyutping_matches.clear();
    scratch.matched_positions.clear();
    let mut total: u32 = 0;
    let ghost mut chosen: Seq<(int, int)> = Seq::empty();
    let mut t: usize = 0;
    assert(scratch.entry_jyutping_matches@ =~= position_set(scratch.matched_positions@));
    while t < terms.len()
        invariant
            models == Seq::new(terms@.len(), |i: int| terms@[i]@),
            count == syllables@.len(),
            count < 256,
            t <= terms@.len(),
            spec_all_best(models, syllables@, t as int) == Some(chosen),
            chosen.len() == t,
            forall|i: int| 0 <= i < chosen.len() ==> 0 <= (#[trigger] chosen[i]).0 < count && 0
                <= chosen[i].1,
            0 <= spec_sum_costs(chosen),
            total as int == capped(spec_sum_costs(chosen)),
            scratch.matched_positions@ == spec_positions(chosen),
            scratch.entry_jyutping_matches@ == position_set(scratch.matched_positions@),
        decreases terms@.len() - t,
    {
        assert(models[t as int] == terms@[t as int]@);
        proof {
            lemma_spec_best(models[t as int], syllables@, count as int);
        }
        match best_syllable(&terms[t], syllables) {
            Some((at, cost)) => {
                proof {
                    lemma_capped_sum(spec_sum_costs(chosen), cost as int);
                }
                total = add_capped(total, cost);
                let ghost before = scratch.matched_positions@;
                let ghost before_set = scratch.entry_jyutping_matches@;
                scratch.entry_jyutping_matches.insert(at);
                scratch.matched_positions.push(at);
                proof {
                    let next = chosen.push((at as int, cost as int));
                    assert(next.drop_last() =~= chosen);
                    assert(spec_positions(next) =~= before.push(at));
                    let after = scratch.matched_positions@;
                    assert(after[before.len() as int] == at);
                    assert forall|p: nat| before_set.insert(at as nat).contains(p)
                        == position_set(after).contains(p) by {
                        if position_set(before).contains(p) {
                            let i = choose|i: int| 0 <= i < before.len() && before[i] == p;
                            assert(after[i] == p);
                        }
                        if position_set(after).contains(p) {
                            let i = choose|i: int| 0 <= i < after.len() && after[i] == p;
                            if i < before.len() {
                                assert(before[i] == p);
                            }
                        }
                    }
                    assert(before_set.insert(at as nat) =~= position_set(after));
                    chosen = next;
                }
            },
            None => {
                proof {
                    lemma_all_best_none(models, syllables@, t + 1, terms@.len() as int);
                }
                return None;
            },
        }
        t += 1;
    }
    let inversion_cost: u32 = cost_inversions(scratch.matched_positions.as_slice());
    let mut unmatched_position_cost: u32 = 0;
    let mut k: usize = 0;
    while k < count
        invariant
            count == syllables@.len(),
            count < 256,
            k <= count,
            scratch.entry_jyutping_matches@ == position_set(scratch.matched_positions@),
            unmatched_position_cost as int == spec_unmatched_cost(
                count as int,
                scratch.matched_positions@,
                k as int,
            ),
        decreases count - k,
    {
        proof {
            lemma_unmatched_cost_bounds(count as int, scratch.matched_positions@, k as int);
            lemma_unmatched_cost_bounds(count as int, scratch.matched_positions@, k + 1);
            assert(k * (count + 1) * 10_000 <= 255 * 256 * 10_000 && (k + 1) * (count + 1) * 10_000
                <= 255 * 256 * 10_000) by (nonlinear_arith)
                requires
                    0 <= k < count,
                    count <= 255,
            ;
            let positions = scratch.matched_positions@;
            if position_set(positions).contains(k as nat) {
                let i = choose|i: int| 0 <= i < positions.len() && positions[i] == k;
                assert(positions[i] == k);
            }
            if positions.contains(k) {
                let i = choose|i: int| 0 <= i < positions.len() && positions[i] == k;
                assert(position_set(positions).contains(k as nat));
            }
        }
        if !scratch.entry_jyutping_matches.contains(k) {
            unmatched_position_cost += ((count + 1) - k) as u32 * UNMATCHED_JYUTPING_PENALTY;
        }
        k += 1;
    }
    Some(
        MatchCostInfo {
            term_match_cost: total,
            unmatched_position_cost,
            inversion_cost,
            static_cost: 0,
        },
    )
}

impl CompiledDictionary {
    /// Reads the entry's syllables against the syllable terms of the query:
    /// the penalties of the match, without the entry's own cost, or nothing
    /// where there is no match.
    pub fn matches_jyutping_term(
        &self,
        entry: &CompiledDictionaryEntry,
        query_terms: &QueryTerms,
    ) -> (r: Option<MatchCostInfo>)
        requires
            entry.jyutping@.len() < 256,
        ensures
            r == spec_jyutping_cost(query_terms.terms(), entry.jyutping@),
    {
        let mut scratch: SearchScratch = SearchScratch::new();
        score_jyutping(&entry.jyutping, &query_terms.jyutping_terms, &mut scratch)
    }
}

/// Where each of the first `n` words stands first in `block`, or nothing
/// where one of them does not stand in it.
pub open spec fn spec_hits(words: Seq<Seq<u8>>, block: Seq<u8>, n: int) -> Option<Seq<usize>>
    decreases n,
{
    if n <= 0 {
        Some(Seq::empty())
    } else {
        match spec_hits(words, block, n - 1) {
            None => None,
            Some(before) => match spec_indexof_ci(words[n - 1], block) {
                None => None,
                Some(at) => Some(before.push(at as usize)),
            },
        }
    }
}

/// Once a word does not stand in the block, more words change nothing.
pub proof fn lemma_hits_none(words: Seq<Seq<u8>>, block: Seq<u8>, n: int, more: int)
    requires
        n <= more,
        spec_hits(words, block, n) is None,
    ensures
        spec_hits(words, block, more) is None,
    decreases more - n,
{
    if n < more {
        lemma_hits_none(words, block, n, more - 1);
    }
}

/// The penalty of a word found at `at`: 100 for each byte before it, and
/// 5 000 more where it starts in the middle of a word, that is behind a byte
/// that is neither whitespace nor a hyphen.
pub open spec fn spec_word_cost(block: Seq<u8>, at: int) -> int {
    at * 100 + if at > 0 && !spec_is_space(block[at - 1]) && block[at - 1] != 0x2d {
        5_000int
    } else {
        0int
    }
}

/// The sum of the penalties of the words found.
pub open spec fn spec_hits_cost(block: Seq<u8>, hits: Seq<usize>) -> int
    decreases hits.len(),
{
    if hits.len() == 0 {
        0
    } else {
        spec_hits_cost(block, hits.drop_last()) + spec_word_cost(block, hits.last() as int)
    }
}

/// The penalties of the words found are not negative.
pub proof fn lemma_hits_cost_nonnegative(block: Seq<u8>, hits: Seq<usize>)
    ensures
        0 <= spec_hits_cost(block, hits),
    decreases hits.len(),
{
    if hits.len() > 0 {
        lemma_hits_cost_nonnegative(block, hits.drop_last());
    }
}

/// How many of the characters lie outside ASCII.
pub open spec fn spec_count_non_ascii(chars: Seq<char>) -> int
    decreases chars.len(),
{
    if chars.len() == 0 {
        0
    } else {
        spec_count_non_ascii(chars.drop_last()) + if chars.last() as u32 >= 0x80 {
            1int
        } else {
            0int
        }
    }
}

/// No fewer than no characters lie outside ASCII.
pub proof fn lemma_count_non_ascii_nonnegative(chars: Seq<char>)
    ensures
        0 <= spec_count_non_ascii(chars),
    decreases chars.len(),
{
    if chars.len() > 0 {
        lemma_count_non_ascii_nonnegative(chars.drop_last());
    }
}

/// The penalties of an entry whose definitions are `block`, read against the
/// words of the query: nothing unless every word stands in the block; else
/// 5 000, the penalty of each word where it stands first, and 8 000 for each
/// character of the query outside ASCII.
pub open spec fn spec_english_cost(block: Seq<u8>, query: Seq<char>, static_cost: u32) -> Option<
    MatchCostInfo,
> {
    let words = spec_tokens(encode_utf8(query));
    match spec_hits(words, block, words.len() as int) {
        None => None,
        Some(hits) => Some(
            MatchCostInfo {
                term_match_cost: capped(
                    5_000 + spec_hits_cost(block, hits) + 8_000 * spec_count_non_ascii(query),
                ) as u32,
                unmatched_position_cost: 0,
                inversion_cost: spec_cost_inversions(hits) as u32,
                static_cost,
            },
        ),
    }
}

/// Every id of `terms` stands among `characters`.
pub open spec fn spec_traditional_match(characters: Seq<u16>, terms: Seq<u16>) -> bool {
    forall|i: int| 0 <= i < terms.len() ==> characters.contains(#[trigger] terms[i])
}

/// The ids of the characters of the query that the alphabet holds, in the
/// order of the query.
pub open spec fn spec_traditional_terms(alphabet: Seq<char>, query: Seq<char>) -> Seq<u16>
    decreases query.len(),
{
    if query.len() == 0 {
        Seq::empty()
    } else {
        let before = spec_traditional_terms(alphabet, query.drop_last());
        if alphabet.contains(query.last()) {
            before.push(alphabet.index_of(query.last()) as u16)
        } else {
            before
        }
    }
}

impl CompiledDictionary {
    /// The definitions of the entry lie inside the offset table.
    pub open spec fn english_range_wf(&self, entry: &CompiledDictionaryEntry) -> bool {
        &&& entry.english_start <= entry.english_end
        &&& entry.english_end < self.english_data_starts@.len()
    }

    /// The definitions of the entry, one behind the other.
    pub open spec fn spec_english_block(&self, entry: &CompiledDictionaryEntry) -> Seq<u8> {
        self.english_data@.subrange(
            self.english_data_starts@[entry.english_start as int] as int,
            self.english_data_starts@[entry.english_end as int] as int,
        )
    }

    /// Counts the characters of `s` that lie outside ASCII, as a penalty of
    /// 8 000 each.
    fn non_ascii_cost(s: &str) -> (cost: u32)
        ensures
            cost as int == capped(8_000 * spec_count_non_ascii(s@)),
    {
        let mut cost: u32 = 0;
        assert(s@.take(0) =~= Seq::<char>::empty());
        for c in it: s.chars()
            invariant
                it.seq() == s@,
                cost as int == capped(8_000 * spec_count_non_ascii(s@.take(it.index() as int))),
        {
            proof {
                assert(s@.take(it.index() + 1).drop_last() =~= s@.take(it.index() as int));
                lemma_count_non_ascii_nonnegative(s@.take(it.index() as int));
            }
            if c as u32 >= 0x80 {
                cost = add_capped(cost, NON_ASCII_MATCH_IN_ENGLISH_PENALTY);
            }
        }
        assert(s@.take(s@.len() as int) =~= s@);
        cost
    }

    /// Reads the entry's definitions against the words of the query: the
    /// penalties of the match, or nothing where the entry has no definition
    /// or a word of the query stands in none.
    pub fn matches_query_english(&self, entry: &CompiledDictionaryEntry, s: &str) -> (r: Option<
        MatchCostInfo,
    >)
        requires
            self.starts_wf(),
            self.english_range_wf(entry),
        ensures
            r == if entry.english_start == entry.english_end {
                None
            } else {
                spec_english_cost(self.spec_english_block(entry), s@, entry.cost)
            },
    {
        let mut scratch: SearchScratch = SearchScratch::new();
        self.score_english(entry, s, &mut scratch)
    }

    /// As `matches_query_english`, with buffers handed in.
    pub fn score_english(
        &self,
        entry: &CompiledDictionaryEntry,
        s: &str,
        scratch: &mut SearchScratch,
    ) -> (r: Option<MatchCostInfo>)
        requires
            self.starts_wf(),
            self.english_range_wf(entry),
        ensures
            r == if entry.english_start == entry.english_end {
                None
            } else {
                spec_english_cost(self.spec_english_block(entry), s@, entry.cost)
            },
    {
        if entry.english_start == entry.english_end {
            return None;
        }
        let start: usize = self.english_data_starts[entry.english_start as usize] as usize;
        let end: usize = self.english_data_starts[entry.english_end as usize] as usize;
        let block: &[u8] = &self.english_data.as_slice()[start..end];
        let query: &[u8] = s.as_bytes();
        let ranges: Vec<(usize, usize)> = scan_tokens(query);
        let ghost words = spec_tokens(query@);
        proof {
            lemma_token_ranges_sound(query@);
        }
        scratch.matched_positions.clear();
        let mut match_cost: u32 = ENGLISH_BASE_PENALTY;
        let mut t: usize = 0;
        while t < ranges.len()
            invariant
                entry.english_start != entry.english_end,
                block@ == self.spec_english_block(entry),
                query@ == encode_utf8(s@),
                words == spec_tokens(query@),
                token_ranges_sound(query@, token_ranges(query@)),
                ranges@.len() == token_ranges(query@).len(),
                forall|i: int|
                    0 <= i < ranges@.len() ==> (#[trigger] ranges@[i]).0 as int == token_ranges(
                        query@,
                    )[i].0 && ranges@[i].1 as int == token_ranges(query@)[i].1,
                t <= ranges@.len(),
                spec_hits(words, block@, t as int) == Some(scratch.matched_positions@),
                match_cost as int == capped(
                    5_000 + spec_hits_cost(block@, scratch.matched_positions@),
                ),
            decreases ranges@.len() - t,
        {
            let range: (usize, usize) = ranges[t];
            proof {
                let r = token_ranges(query@)[t as int];
                assert(0 <= r.0 < r.1 <= query@.len());
                assert(words[t as int] == query@.subrange(r.0, r.1));
            }
            let word: &[u8] = &query[range.0..range.1];
            match indexof_ignore_case(word, block) {
                Some(at) => {
                    proof {
                        crate::string_search::lemma_first_match_from(word@, block@, 0);
                        lemma_hits_cost_nonnegative(block@, scratch.matched_positions@);
                        let before = scratch.matched_positions@;
                        let after = before.push(at);
                        assert(after.drop_last() =~= before);
                        lemma_capped_sum(5_000 + spec_hits_cost(block@, before), at * 100);
                        lemma_capped_sum(5_000 + spec_hits_cost(block@, before), capped(at * 100));
                        lemma_capped_sum(5_000 + spec_hits_cost(block@, before) + at * 100, 5_000);
                    }
                    scratch.matched_positions.push(at);
                    match_cost = add_capped(
                        match_cost,
                        times_capped(at, ENGLISH_POS_OFFSET_PENALTY_K),
                    );
                    if at > 0 {
                        let before_byte: u8 = block[at - 1];
                        if !(is_space(before_byte) || before_byte == 0x2d) {
                            match_cost = add_capped(match_cost, ENGLISH_MIDDLE_OF_WORD_PENALTY);
                        }
                    }
                },
                None => {
                    proof {
                        assert(spec_indexof_ci(words[t as int], block@) is None);
                        assert(spec_hits(words, block@, t + 1) is None);
                        lemma_hits_none(words, block@, t + 1, words.len() as int);
                    }
                    return None;
                },
            }
            t += 1;
        }
        let inversion_cost: u32 = cost_inversions(scratch.matched_positions.as_slice());
        let extra: u32 = Self::non_ascii_cost(s);
        proof {
            lemma_hits_cost_nonnegative(block@, scratch.matched_positions@);
            lemma_count_non_ascii_nonnegative(s@);
            lemma_capped_sum(
                5_000 + spec_hits_cost(block@, scratch.matched_positions@),
                8_000 * spec_count_non_ascii(s@),
            );
            lemma_capped_sum(
                5_000 + spec_hits_cost(block@, scratch.matched_positions@),
                capped(8_000 * spec_count_non_ascii(s@)),
            );
        }
        match_cost = add_capped(match_cost, extra);
        Some(
            MatchCostInfo {
                term_match_cost: match_cost,
                unmatched_position_cost: 0,
                inversion_cost,
                static_cost: entry.cost,
            },
        )
    }

    /// Whether every character id of the query stands in the entry.
    pub fn matches_query_traditional(
        &self,
        entry: &CompiledDictionaryEntry,
        query_terms: &QueryTerms,
    ) -> (r: bool)
        ensures
            r == spec_traditional_match(entry.characters@, query_terms.traditional_terms@),
    {
        let mut t: usize = 0;
        while t < query_terms.traditional_terms.len()
            invariant
                t <= query_terms.traditional_terms@.len(),
                forall|i: int|
                    0 <= i < t ==> entry.characters@.contains(
                        #[trigger] query_terms.traditional_terms@[i],
                    ),
            decreases query_terms.traditional_terms@.len() - t,
        {
            let id: u16 = query_terms.traditional_terms[t];
            let mut found: bool = false;
            let mut k: usize = 0;
            while k < entry.characters.len() && !found
                invariant
                    k <= entry.characters@.len(),
                    found ==> entry.characters@.contains(id),
                    !found ==> forall|j: int| 0 <= j < k ==> entry.characters@[j] != id,
                decreases entry.characters@.len() - k + if found { 0int } else { 1int },
            {
                if entry.characters[k] == id {
                    found = true;
                } else {
                    k += 1;
                }
            }
            if !found {
                return false;
            }
            t += 1;
        }
        true
    }

    /// The ids of the characters of `s` that the dictionary knows, in order.
    pub fn traditional_terms(&self, s: &str) -> (terms: Vec<u16>)
        requires
            self.character_store.wf(),
        ensures
            terms@ == spec_traditional_terms(self.character_store.characters@, s@),
    {
        let mut terms: Vec<u16> = Vec::new();
        let ghost alphabet = self.character_store.characters@;
        assert(s@.take(0) =~= Seq::<char>::empty());
        for c in it: s.chars()
            invariant
                self.character_store.wf(),
                alphabet == self.character_store.characters@,
                it.seq() == s@,
                terms@ == spec_traditional_terms(alphabet, s@.take(it.index() as int)),
        {
            proof {
                assert(s@.take(it.index() + 1).drop_last() =~= s@.take(it.index() as int));
            }
            if let Some(id) = self.character_store.char_to_index(c) {
                proof {
                    assert(alphabet.contains(c));
                    let other = alphabet.index_of(c);
                    assert(alphabet[other] == c);
                    if other < id {
                        assert(alphabet[other] < alphabet[id as int]);
                    } else if id < other {
                        assert(alphabet[id as int] < alphabet[other]);
                    }
                }
                terms.push(id);
            }
        }
        assert(s@.take(s@.len() as int) =~= s@);
        terms
    }
}

/// A match with the stretches to highlight.
#[derive(Debug)]
pub struct MatchWithHitInfo {
    pub match_obj: Match,
    pub matched_spans: Vec<(usize, usize)>,
}

/// What the clock said at the four checkpoints of a search.
#[derive(Debug, Clone, Copy, PartialEq, Eq, Structural)]
pub struct Timings {
    pub jyutping_pre_ms: i32,
    pub traditional_pre_ms: i32,
    pub full_match: i32,
    pub rank: i32,
}

/// What a search gives back.
#[derive(Debug)]
pub struct SearchResult {
    pub matches: Vec<MatchWithHitInfo>,
    pub timings: Timings,
    pub internal_candidates: usize,
}

/// `m` put into `ranked` behind every match that does not cost more.
pub open spec fn spec_insert_ranked(ranked: Seq<Match>, m: Match) -> Seq<Match>
    decreases ranked.len(),
{
    if ranked.len() == 0 {
        seq![m]
    } else if ranked.last().cost_info.spec_total() <= m.cost_info.spec_total() {
        ranked.push(m)
    } else {
        spec_insert_ranked(ranked.drop_last(), m).push(ranked.last())
    }
}

/// The matches in ascending order of total cost; matches of equal cost keep
/// their order.
pub open spec fn spec_rank(matches: Seq<Match>) -> Seq<Match>
    decreases matches.len(),
{
    if matches.len() == 0 {
        Seq::empty()
    } else {
        spec_insert_ranked(spec_rank(matches.drop_last()), matches.last())
    }
}

/// The first `limit` of the matches, or all where there are fewer.
pub open spec fn spec_truncate(matches: Seq<Match>, limit: int) -> Seq<Match> {
    if matches.len() <= limit {
        matches
    } else {
        matches.take(limit)
    }
}

/// No match costs less than one before it.
pub open spec fn ranked_ascending(ranked: Seq<Match>) -> bool {
    forall|i: int, j: int|
        0 <= i <= j < ranked.len() ==> ranked[i].cost_info.spec_total()
            <= ranked[j].cost_info.spec_total()
}

/// Putting a match in makes the matches one more.
pub proof fn lemma_insert_ranked_len(ranked: Seq<Match>, m: Match)
    ensures
        spec_insert_ranked(ranked, m).len() == ranked.len() + 1,
    decreases ranked.len(),
{
    if ranked.len() > 0 && ranked.last().cost_info.spec_total() > m.cost_info.spec_total() {
        lemma_insert_ranked_len(ranked.drop_last(), m);
    }
}

/// Putting a match in is putting it at the place behind the last match that
/// does not cost more.
pub proof fn lemma_insert_ranked_at(ranked: Seq<Match>, m: Match, at: int)
    requires
        0 <= at <= ranked.len(),
        forall|k: int|
            at <= k < ranked.len() ==> (#[trigger] ranked[k]).cost_info.spec_total()
                > m.cost_info.spec_total(),
        at > 0 ==> ranked[at - 1].cost_info.spec_total() <= m.cost_info.spec_total(),
    ensures
        spec_insert_ranked(ranked, m) == ranked.insert(at, m),
    decreases ranked.len() - at,
{
    if at == ranked.len() {
        assert(ranked.insert(at, m) =~= ranked.push(m));
    } else {
        let head = ranked.drop_last();
        lemma_insert_ranked_at(head, m, at);
        assert(head.insert(at, m).push(ranked.last()) =~= ranked.insert(at, m));
    }
}

/// Putting a match into an ascending sequence leaves it ascending.
pub proof fn lemma_insert_ranked_ascending(ranked: Seq<Match>, m: Match)
    requires
        ranked_ascending(ranked),
    ensures
        ranked_ascending(spec_insert_ranked(ranked, m)),
    decreases ranked.len(),
{
    if ranked.len() == 0 {
    } else if ranked.last().cost_info.spec_total() <= m.cost_info.spec_total() {
    } else {
        let head = ranked.drop_last();
        lemma_insert_ranked_ascending(head, m);
        lemma_insert_ranked_len(head, m);
        lemma_insert_ranked_bounded(head, m, ranked.last().cost_info.spec_total());
    }
}

/// Putting a match in brings no cost above what was there and what is put in.
pub proof fn lemma_insert_ranked_bounded(ranked: Seq<Match>, m: Match, bound: int)
    requires
        forall|i: int| 0 <= i < ranked.len() ==> (#[trigger] ranked[i]).cost_info.spec_total() <= bound,
        m.cost_info.spec_total() <= bound,
    ensures
        forall|i: int|
            0 <= i < spec_insert_ranked(ranked, m).len() ==> (#[trigger] spec_insert_ranked(
                ranked,
                m,
            )[i]).cost_info.spec_total() <= bound,
    decreases ranked.len(),
{
    if ranked.len() > 0 && ranked.last().cost_info.spec_total() > m.cost_info.spec_total() {
        lemma_insert_ranked_bounded(ranked.drop_last(), m, bound);
    }
}

/// The ranking is ascending and as long as what was ranked.
pub proof fn lemma_rank_ascending(matches: Seq<Match>)
    ensures
        ranked_ascending(spec_rank(matches)),
        spec_rank(matches).len() == matches.len(),
    decreases matches.len(),
{
    if matches.len() > 0 {
        lemma_rank_ascending(matches.drop_last());
        lemma_insert_ranked_ascending(spec_rank(matches.drop_last()), matches.last());
        lemma_insert_ranked_len(spec_rank(matches.drop_last()), matches.last());
    }
}

/// For the best few it makes no difference whether a match is put into the
/// whole ranking or into its best few only.
pub proof fn lemma_insert_ranked_truncate(ranked: Seq<Match>, m: Match, limit: int)
    requires
        ranked_ascending(ranked),
        0 <= limit,
    ensures
        spec_truncate(spec_insert_ranked(ranked, m), limit) == spec_truncate(
            spec_insert_ranked(spec_truncate(ranked, limit), m),
            limit,
        ),
    decreases ranked.len(),
{
    if ranked.len() > limit {
        let head = ranked.drop_last();
        let last = ranked.last();
        let best = ranked.take(limit);
        assert(spec_truncate(ranked, limit) == best);
        assert(head.take(limit) =~= best);
        lemma_insert_ranked_len(head, m);
        lemma_insert_ranked_len(best, m);
        if last.cost_info.spec_total() <= m.cost_info.spec_total() {
            assert(ranked.push(m).take(limit) =~= best);
            if limit > 0 {
                assert(best.last() == ranked[limit - 1]);
                assert(best.push(m).take(limit) =~= best);
            } else {
                assert(seq![m].take(0) =~= best);
            }
        } else {
            assert(ranked_ascending(head));
            lemma_insert_ranked_truncate(head, m, limit);
            let put = spec_insert_ranked(head, m);
            assert(put.push(last).take(limit) =~= put.take(limit));
            assert(spec_truncate(head, limit) == best);
        }
    }
}

/// The best `limit` of the matches, ranked.
pub fn rank_top(matches: &Vec<Match>, limit: usize) -> (top: Vec<Match>)
    ensures
        top@ == spec_truncate(spec_rank(matches@), limit as int),
{
    let mut top: Vec<Match> = Vec::new();
    let mut i: usize = 0;
    assert(matches@.take(0) =~= Seq::<Match>::empty());
    while i < matches.len()
        invariant
            i <= matches@.len(),
            top@ == spec_truncate(spec_rank(matches@.take(i as int)), limit as int),
        decreases matches@.len() - i,
    {
        let m: Match = matches[i];
        let ghost seen = matches@.take(i as int);
        let ghost ranked = spec_rank(seen);
        proof {
            assert(matches@.take(i + 1).drop_last() =~= seen);
            lemma_rank_ascending(seen);
            lemma_insert_ranked_truncate(ranked, m, limit as int);
            lemma_insert_ranked_len(top@, m);
        }
        if limit > 0 {
            let cost: u64 = m.cost_info.wide_total();
            let mut at: usize = top.len();
            while at > 0 && top[at - 1].cost_info.wide_total() > cost
                invariant
                    at <= top@.len(),
                    cost as int == m.cost_info.spec_total(),
                    forall|k: int|
                        at <= k < top@.len() ==> (#[trigger] top@[k]).cost_info.spec_total()
                            > m.cost_info.spec_total(),
                decreases at,
            {
                at -= 1;
            }
            proof {
                lemma_insert_ranked_at(top@, m, at as int);
            }
            if at < limit {
                top.insert(at, m);
                if top.len() > limit {
                    let ghost full = top@;
                    top.pop();
                    assert(top@ =~= full.take(limit as int));
                }
            } else {
                assert(top@.insert(at as int, m).take(limit as int) =~= top@);
            }
        } else {
            assert(spec_insert_ranked(top@, m).take(0) =~= top@);
        }
        i += 1;
    }
    assert(matches@.take(matches@.len() as int) =~= matches@);
    top
}

/// Ranking brings no match that was not there: what holds of every match
/// holds of every ranked one.
pub proof fn lemma_rank_keeps(matches: Seq<Match>, holds: spec_fn(Match) -> bool)
    requires
        forall|i: int| 0 <= i < matches.len() ==> holds(#[trigger] matches[i]),
    ensures
        forall|i: int| 0 <= i < spec_rank(matches).len() ==> holds(#[trigger] spec_rank(matches)[i]),
    decreases matches.len(),
{
    if matches.len() > 0 {
        lemma_rank_keeps(matches.drop_last(), holds);
        lemma_insert_ranked_keeps(spec_rank(matches.drop_last()), matches.last(), holds);
    }
}

/// Putting in a match of which something holds among matches of which it
/// holds leaves matches of which it holds.
pub proof fn lemma_insert_ranked_keeps(ranked: Seq<Match>, m: Match, holds: spec_fn(Match) -> bool)
    requires
        forall|i: int| 0 <= i < ranked.len() ==> holds(#[trigger] ranked[i]),
        holds(m),
    ensures
        forall|i: int|
            0 <= i < spec_insert_ranked(ranked, m).len() ==> holds(
                #[trigger] spec_insert_ranked(ranked, m)[i],
            ),
    decreases ranked.len(),
{
    let put = spec_insert_ranked(ranked, m);
    if ranked.len() == 0 {
        assert(put[0] == m);
    } else if ranked.last().cost_info.spec_total() <= m.cost_info.spec_total() {
        assert forall|i: int| 0 <= i < put.len() implies holds(#[trigger] put[i]) by {
            if i < ranked.len() {
                assert(put[i] == ranked[i]);
            }
        }
    } else {
        let head = ranked.drop_last();
        assert forall|i: int| 0 <= i < head.len() implies holds(#[trigger] head[i]) by {
            assert(head[i] == ranked[i]);
        }
        lemma_insert_ranked_keeps(head, m, holds);
        let inner = spec_insert_ranked(head, m);
        assert forall|i: int| 0 <= i < put.len() implies holds(#[trigger] put[i]) by {
            if i < inner.len() {
                assert(put[i] == inner[i]);
            } else {
                assert(put[i] == ranked[ranked.len() - 1]);
            }
        }
    }
}

/// What is put in is there afterwards, and so is what was there.
pub proof fn lemma_insert_ranked_holds(ranked: Seq<Match>, m: Match, x: Match)
    requires
        ranked.contains(x) || x == m,
    ensures
        spec_insert_ranked(ranked, m).contains(x),
    decreases ranked.len(),
{
    let put = spec_insert_ranked(ranked, m);
    if ranked.len() == 0 {
        assert(put[0] == m);
    } else if ranked.last().cost_info.spec_total() <= m.cost_info.spec_total() {
        if x == m {
            assert(put[ranked.len() as int] == m);
        } else {
            let i = choose|i: int| 0 <= i < ranked.len() && ranked[i] == x;
            assert(put[i] == x);
        }
    } else {
        let head = ranked.drop_last();
        let inner = spec_insert_ranked(head, m);
        lemma_insert_ranked_len(head, m);
        if x == m || head.contains(x) {
            lemma_insert_ranked_holds(head, m, x);
            let i = choose|i: int| 0 <= i < inner.len() && inner[i] == x;
            assert(put[i] == x);
        } else {
            let i = choose|i: int| 0 <= i < ranked.len() && ranked[i] == x;
            if i < head.len() {
                assert(head[i] == x);
            }
            assert(put[inner.len() as int] == x);
        }
    }
}

/// Ranking drops no match.
pub proof fn lemma_rank_holds(matches: Seq<Match>, x: Match)
    requires
        matches.contains(x),
    ensures
        spec_rank(matches).contains(x),
    decreases matches.len(),
{
    let i = choose|i: int| 0 <= i < matches.len() && matches[i] == x;
    let head = matches.drop_last();
    if i < matches.len() - 1 {
        assert(head[i] == x);
        lemma_rank_holds(head, x);
    }
    lemma_insert_ranked_holds(spec_rank(head), matches.last(), x);
}

impl MatchWithHitInfo {
    /// The match and the stretches to highlight.
    pub open spec fn view(&self) -> (Match, Seq<(usize, usize)>) {
        (self.match_obj, self.matched_spans@)
    }
}

impl SearchResult {
    /// The matches with their stretches, in order.
    pub open spec fn hits(&self) -> Seq<(Match, Seq<(usize, usize)>)> {
        Seq::new(self.matches@.len(), |i: int| self.matches@[i]@)
    }
}

impl CompiledDictionary {
    /// The words of the query, read as syllables over the alphabet.
    pub open spec fn spec_query_terms(&self, query: Seq<char>) -> Seq<TermModel> {
        Seq::new(
            spec_tokens(encode_utf8(query)).len(),
            |i: int| spec_term(spec_tokens(encode_utf8(query))[i], self.jyutping_store@),
        )
    }

    /// The matches that entry `i` gives for the query: one as syllables; or
    /// else, one as English words where the query is longer than two bytes,
    /// and one as characters where the query holds known characters.
    pub open spec fn spec_entry_matches(&self, i: int, query: Seq<char>) -> Seq<Match> {
        let entry = &self.entries@[i];
        match spec_jyutping_cost(self.spec_query_terms(query), entry.jyutping@) {
            Some(cost) => seq![
                Match {
                    cost_info: MatchCostInfo {
                        term_match_cost: cost.term_match_cost,
                        unmatched_position_cost: cost.unmatched_position_cost,
                        inversion_cost: cost.inversion_cost,
                        static_cost: entry.cost,
                    },
                    match_type: MatchType::Jyutping,
                    entry_id: i as usize,
                },
            ],
            None => {
                let english = if encode_utf8(query).len() > 2 && entry.english_start
                    != entry.english_end {
                    match spec_english_cost(self.spec_english_block(entry), query, entry.cost) {
                        Some(cost) => seq![
                            Match {
                                cost_info: cost,
                                match_type: MatchType::English,
                                entry_id: i as usize,
                            },
                        ],
                        None => Seq::empty(),
                    }
                } else {
                    Seq::empty()
                };
                let terms = spec_traditional_terms(self.character_store.characters@, query);
                let traditional = if terms.len() > 0 && spec_traditional_match(
                    entry.characters@,
                    terms,
                ) {
                    seq![
                        Match {
                            cost_info: MatchCostInfo {
                                term_match_cost: 0,
                                unmatched_position_cost: 0,
                                inversion_cost: 0,
                                static_cost: entry.cost,
                            },
                            match_type: MatchType::Traditional,
                            entry_id: i as usize,
                        },
                    ]
                } else {
                    Seq::empty()
                };
                english + traditional
            },
        }
    }

    /// The matches of the first `n` entries, entry by entry.
    pub open spec fn spec_candidates(&self, query: Seq<char>, n: int) -> Seq<Match>
        decreases n,
    {
        if n <= 0 {
            Seq::empty()
        } else {
            self.spec_candidates(query, n - 1) + self.spec_entry_matches(n - 1, query)
        }
    }

    /// The stretches that a match gives before any are made one: term by
    /// term in the romanisation, character by character, or word by word in
    /// the definitions, by the kind of the match.
    pub open spec fn spec_raw_spans(&self, m: Match, query: Seq<char>) -> Seq<(usize, usize)> {
        let entry = &self.entries@[m.entry_id as int];
        match m.match_type {
            MatchType::Jyutping => spec_jyutping_spans(
                self.jyutping_store@,
                entry.jyutping@,
                self.spec_query_terms(query),
                self.spec_query_terms(query).len() as int,
            ),
            MatchType::Traditional => spec_traditional_spans(
                entry.characters@,
                spec_traditional_terms(self.character_store.characters@, query),
                entry.characters@.len() as int,
            ),
            MatchType::English => self.spec_english_spans(
                spec_tokens(encode_utf8(query)),
                entry.english_start as int,
                entry.english_end as int,
            ),
        }
    }

    /// The stretches to highlight for a match, overlapping and touching ones
    /// made one.
    pub open spec fn spec_match_spans(&self, m: Match, query: Seq<char>) -> Seq<(usize, usize)> {
        spec_merge_spans(self.spec_raw_spans(m, query))
    }

    /// The matches that a search returns: the best `max_results` of all
    /// matches of all entries, or nothing for a query without a word.
    pub open spec fn spec_search_matches(&self, query: Seq<char>, max_results: int) -> Seq<Match> {
        if spec_tokens(encode_utf8(query)).len() == 0 {
            Seq::empty()
        } else {
            spec_truncate(
                spec_rank(self.spec_candidates(query, self.entries@.len() as int)),
                max_results,
            )
        }
    }

    /// What a search returns: each match with its stretches.
    pub open spec fn spec_search(&self, query: Seq<char>, max_results: int) -> Seq<
        (Match, Seq<(usize, usize)>),
    > {
        Seq::new(
            self.spec_search_matches(query, max_results).len(),
            |i: int|
                (
                    self.spec_search_matches(query, max_results)[i],
                    self.spec_match_spans(self.spec_search_matches(query, max_results)[i], query),
                ),
        )
    }

    /// How many matches all entries give for the query, before any is dropped.
    pub open spec fn spec_candidate_count(&self, query: Seq<char>) -> int {
        if spec_tokens(encode_utf8(query)).len() == 0 {
            0
        } else {
            self.spec_candidates(query, self.entries@.len() as int).len() as int
        }
    }

    /// Every match of the first `n` entries names one of them.
    pub proof fn lemma_candidates_in_range(&self, query: Seq<char>, n: int)
        requires
            0 <= n <= self.entries@.len(),
        ensures
            forall|i: int|
                0 <= i < self.spec_candidates(query, n).len() ==> (#[trigger] self.spec_candidates(
                    query,
                    n,
                )[i]).entry_id < n,
            self.spec_candidates(query, n).len() <= 2 * n,
        decreases n,
    {
        if n > 0 {
            self.lemma_candidates_in_range(query, n - 1);
        }
    }

    /// The matches of an entry are among the matches of the entries up to it.
    pub proof fn lemma_candidates_hold_entry(&self, query: Seq<char>, i: int, n: int, x: Match)
        requires
            0 <= i < n,
            self.spec_entry_matches(i, query).contains(x),
        ensures
            self.spec_candidates(query, n).contains(x),
        decreases n,
    {
        let before = self.spec_candidates(query, n - 1);
        let here = self.spec_entry_matches(n - 1, query);
        if i < n - 1 {
            self.lemma_candidates_hold_entry(query, i, n - 1, x);
            let k = choose|k: int| 0 <= k < before.len() && before[k] == x;
            assert((before + here)[k] == x);
        } else {
            let k = choose|k: int| 0 <= k < here.len() && here[k] == x;
            assert((before + here)[before.len() + k] == x);
        }
    }

    /// A match of an entry is among what a search returns, where the query
    /// has a word and the search may return as many matches as there are.
    pub proof fn lemma_match_is_returned(
        &self,
        query: Seq<char>,
        i: int,
        x: Match,
        max_results: int,
    )
        requires
            0 <= i < self.entries@.len(),
            self.spec_entry_matches(i, query).contains(x),
            spec_tokens(encode_utf8(query)).len() > 0,
            max_results >= self.spec_candidate_count(query),
        ensures
            self.spec_search_matches(query, max_results).contains(x),
    {
        let all = self.spec_candidates(query, self.entries@.len() as int);
        self.lemma_candidates_hold_entry(query, i, self.entries@.len() as int, x);
        lemma_rank_holds(all, x);
        lemma_rank_ascending(all);
    }

    /// Two searches of one dictionary for one query, with one limit, return
    /// the same matches with the same stretches, out of as many candidates,
    /// whatever their clocks said.
    pub proof fn lemma_search_is_pure(
        &self,
        query: Seq<char>,
        max_results: int,
        first: SearchResult,
        second: SearchResult,
    )
        requires
            first.hits() == self.spec_search(query, max_results),
            first.internal_candidates as int == self.spec_candidate_count(query),
            second.hits() == self.spec_search(query, max_results),
            second.internal_candidates as int == self.spec_candidate_count(query),
        ensures
            first.hits() == second.hits(),
            first.matches@.len() == second.matches@.len(),
            forall|i: int|
                0 <= i < first.matches@.len() ==> (#[trigger] first.matches@[i]).match_obj
                    == second.matches@[i].match_obj && first.matches@[i].matched_spans@
                    == second.matches@[i].matched_spans@,
            first.internal_candidates == second.internal_candidates,
    {
        assert(first.hits().len() == first.matches@.len());
        assert(second.hits().len() == second.matches@.len());
        assert forall|i: int| 0 <= i < first.matches@.len() implies (#[trigger] first.matches@[i]).match_obj
            == second.matches@[i].match_obj && first.matches@[i].matched_spans@
            == second.matches@[i].matched_spans@ by {
            assert(first.hits()[i] == first.matches@[i]@);
            assert(second.hits()[i] == second.matches@[i]@);
        }
    }

    /// The stretches of a match of an entry of the dictionary: each of the
    /// stretches that the match gives has its start before its end; once
    /// they are made one they lie apart in ascending order, none touching
    /// the next, so that merging them again changes nothing; and where they
    /// lay apart in order as they were given, they are what was given.
    pub proof fn lemma_match_spans_are_merged(&self, m: Match, query: Seq<char>)
        requires
            self.wf(),
            m.entry_id < self.entries@.len(),
        ensures
            spans_nonempty(self.spec_raw_spans(m, query)),
            spans_nonempty(self.spec_match_spans(m, query)),
            spans_apart(self.spec_match_spans(m, query)),
            spec_merge_spans(self.spec_match_spans(m, query)) == self.spec_match_spans(m, query),
            spans_apart(self.spec_raw_spans(m, query)) ==> self.spec_match_spans(m, query)
                == self.spec_raw_spans(m, query),
    {
        let entry = &self.entries@[m.entry_id as int];
        self.lemma_wf_parts();
        assert(self.entry_wf(entry));
        match m.match_type {
            MatchType::Jyutping => {
                lemma_jyutping_spans_nonempty(
                    self.jyutping_store@,
                    entry.jyutping@,
                    self.spec_query_terms(query),
                    self.spec_query_terms(query).len() as int,
                );
            },
            MatchType::Traditional => {
                lemma_traditional_spans_nonempty(
                    entry.characters@,
                    spec_traditional_terms(self.character_store.characters@, query),
                    entry.characters@.len() as int,
                );
            },
            MatchType::English => {
                lemma_token_ranges_sound(encode_utf8(query));
                self.lemma_english_spans_nonempty(
                    spec_tokens(encode_utf8(query)),
                    entry.english_start as int,
                    entry.english_end as int,
                );
            },
        }
        let raw = self.spec_raw_spans(m, query);
        lemma_merge_keeps_nonempty(raw);
        lemma_merge_is_idempotent(raw);
        if spans_apart(raw) {
            lemma_merge_apart_is_identity(raw);
        }
    }

    /// What holds of the stretches of a match holds of every match that a
    /// search returns: they lie apart in ascending order, none touching the
    /// next, and merging them again changes nothing.
    pub proof fn lemma_search_spans_are_merged(&self, query: Seq<char>, max_results: int, i: int)
        requires
            self.wf(),
            0 <= max_results,
            0 <= i < self.spec_search(query, max_results).len(),
        ensures
            self.spec_search(query, max_results)[i].1 == spec_merge_spans(
                self.spec_raw_spans(self.spec_search(query, max_results)[i].0, query),
            ),
            spans_apart(self.spec_search(query, max_results)[i].1),
            spec_merge_spans(self.spec_search(query, max_results)[i].1) == self.spec_search(
                query,
                max_results,
            )[i].1,
            spans_apart(self.spec_raw_spans(self.spec_search(query, max_results)[i].0, query))
                ==> self.spec_search(query, max_results)[i].1 == self.spec_raw_spans(
                self.spec_search(query, max_results)[i].0,
                query,
            ),
    {
        let found = self.spec_search_matches(query, max_results);
        assert(self.spec_search(query, max_results).len() == found.len());
        assert(spec_tokens(encode_utf8(query)).len() > 0);
        let count = self.entries@.len() as int;
        let all = self.spec_candidates(query, count);
        let ranked = spec_rank(all);
        let in_range = |m: Match| m.entry_id < count;
        self.lemma_candidates_in_range(query, count);
        assert forall|k: int| 0 <= k < all.len() implies in_range(#[trigger] all[k]) by {}
        lemma_rank_keeps(all, in_range);
        assert(found == spec_truncate(ranked, max_results));
        assert(i < ranked.len() && found[i] == ranked[i]);
        assert(in_range(ranked[i]));
        self.lemma_match_spans_are_merged(found[i], query);
        assert(self.spec_search(query, max_results)[i] == (
            found[i],
            self.spec_match_spans(found[i], query),
        ));
    }

    /// The words of the query as syllable terms.
    fn jyutping_terms(&self, s: &str) -> (terms: Vec<JyutpingQueryTerm>)
        requires
            self.jyutping_store.wf(),
        ensures
            Seq::new(terms@.len(), |i: int| terms@[i]@) == self.spec_query_terms(s@),
    {
        let bytes: &[u8] = s.as_bytes();
        let ranges: Vec<(usize, usize)> = scan_tokens(bytes);
        let ghost words = spec_tokens(bytes@);
        proof {
            lemma_token_ranges_sound(bytes@);
            encode_utf8_valid_utf8(s@);
        }
        let mut terms: Vec<JyutpingQueryTerm> = Vec::new();
        let mut t: usize = 0;
        while t < ranges.len()
            invariant
                self.jyutping_store.wf(),
                bytes@ == s.spec_bytes(),
                valid_utf8(bytes@),
                words == spec_tokens(bytes@),
                token_ranges_sound(bytes@, token_ranges(bytes@)),
                ranges@.len() == token_ranges(bytes@).len(),
                forall|i: int|
                    0 <= i < ranges@.len() ==> (#[trigger] ranges@[i]).0 as int == token_ranges(
                        bytes@,
                    )[i].0 && ranges@[i].1 as int == token_ranges(bytes@)[i].1,
                t <= ranges@.len(),
                terms@.len() == t,
                forall|i: int|
                    0 <= i < t ==> (#[trigger] terms@[i])@ == spec_term(words[i], self.jyutping_store@),
            decreases ranges@.len() - t,
        {
            let range: (usize, usize) = ranges[t];
            proof {
                let r = token_ranges(bytes@)[t as int];
                assert(0 <= r.0 < r.1 <= bytes@.len());
                assert(words[t as int] == bytes@.subrange(r.0, r.1));
                if r.0 > 0 {
                    lemma_boundary_behind_ascii(bytes@, r.0 - 1);
                }
                if r.1 < bytes@.len() {
                    lemma_boundary_at_ascii(bytes@, r.1);
                } else {
                    is_char_boundary_start_end_of_seq(bytes@);
                }
            }
            let word: &str = str_range(s, range.0, range.1);
            let term: JyutpingQueryTerm = JyutpingQueryTerm::create(word, &self.jyutping_store);
            terms.push(term);
            t += 1;
        }
        assert(Seq::new(terms@.len(), |i: int| terms@[i]@) =~= self.spec_query_terms(s@));
        terms
    }

    /// Finds the entries that match the query and returns the best
    /// `max_results` of them, best first, each with the stretches to
    /// highlight, which lie apart in ascending order and can be marked in
    /// what is displayed of the entry. A query without a word finds nothing,
    /// and the clock is not read for it.
    pub fn search(&self, s: &str, max_results: usize, stopwatch: Box<dyn Stopwatch>) -> (result:
        SearchResult)
        requires
            self.wf(),
        ensures
            result.hits() == self.spec_search(s@, max_results as int),
            result.internal_candidates as int == self.spec_candidate_count(s@),
            result.matches@.len() <= max_results,
            result.matches@.len() <= result.internal_candidates,
            forall|i: int|
                0 <= i < result.matches@.len() ==> spans_nonempty(
                    (#[trigger] result.matches@[i]).matched_spans@,
                ) && spans_apart(result.matches@[i].matched_spans@),
            forall|i: int|
                0 <= i < result.matches@.len() ==> RenderedResult::match_fits(
                    #[trigger] &result.matches@[i],
                    self,
                ),
            spec_tokens(s.spec_bytes()).len() == 0 ==> result.timings == (Timings {
                jyutping_pre_ms: 0,
                traditional_pre_ms: 0,
                full_match: 0,
                rank: 0,
            }),
    {
        let mut timings: Timings = Timings {
            jyutping_pre_ms: 0,
            traditional_pre_ms: 0,
            full_match: 0,
            rank: 0,
        };
        proof {
            self.lemma_wf_parts();
        }
        let jyutping_terms: Vec<JyutpingQueryTerm> = self.jyutping_terms(s);
        if jyutping_terms.len() == 0 {
            let result = SearchResult { matches: Vec::new(), timings, internal_candidates: 0 };
            assert(result.hits() =~= self.spec_search(s@, max_results as int));
            return result;
        }
        timings.jyutping_pre_ms = stopwatch.elapsed_ms();
        let traditional_terms: Vec<u16> = self.traditional_terms(s);
        timings.traditional_pre_ms = stopwatch.elapsed_ms();
        let query_terms: QueryTerms = QueryTerms { jyutping_terms, traditional_terms };
        assert(query_terms.terms() =~= self.spec_query_terms(s@));
        let query_len: usize = s.as_bytes().len();

        let mut scratch: SearchScratch = SearchScratch::new();
        let mut matches: Vec<Match> = Vec::new();
        let mut i: usize = 0;
        while i < self.entries.len()
            invariant
                self.wf(),
                query_terms.terms() == self.spec_query_terms(s@),
                query_terms.traditional_terms@ == spec_traditional_terms(
                    self.character_store.characters@,
                    s@,
                ),
                query_len == encode_utf8(s@).len(),
                i <= self.entries@.len(),
                matches@ == self.spec_candidates(s@, i as int),
            decreases self.entries@.len() - i,
        {
            let entry: &CompiledDictionaryEntry = &self.entries[i];
            proof {
                self.lemma_wf_parts();
            }
            let ghost before = matches@;
            match score_jyutping(&entry.jyutping, &query_terms.jyutping_terms, &mut scratch) {
                Some(cost) => {
                    matches.push(
                        Match {
                            cost_info: MatchCostInfo {
                                term_match_cost: cost.term_match_cost,
                                unmatched_position_cost: cost.unmatched_position_cost,
                                inversion_cost: cost.inversion_cost,
                                static_cost: entry.cost,
                            },
                            match_type: MatchType::Jyutping,
                            entry_id: i,
                        },
                    );
                },
                None => {
                    if query_len > 2 {
                        if let Some(cost_info) = self.score_english(entry, s, &mut scratch) {
                            matches.push(
                                Match { cost_info, match_type: MatchType::English, entry_id: i },
                            );
                        }
                    }
                    if query_terms.traditional_terms.len() > 0 {
                        if self.matches_query_traditional(entry, &query_terms) {
                            matches.push(
                                Match {
                                    cost_info: MatchCostInfo {
                                        term_match_cost: 0,
                                        unmatched_position_cost: 0,
                                        inversion_cost: 0,
                                        static_cost: entry.cost,
                                    },
                                    match_type: MatchType::Traditional,
                                    entry_id: i,
                                },
                            );
                        }
                    }
                },
            }
            assert(matches@ =~= before + self.spec_entry_matches(i as int, s@));
            i += 1;
        }
        timings.full_match = stopwatch.elapsed_ms();
        let internal_candidates: usize = matches.len();

        let top: Vec<Match> = rank_top(&matches, max_results);
        timings.rank = stopwatch.elapsed_ms();
        proof {
            self.lemma_candidates_in_range(s@, self.entries@.len() as int);
            lemma_rank_keeps(matches@, |m: Match| m.entry_id < self.entries@.len());
            lemma_rank_ascending(matches@);
        }

        let mut hits: Vec<MatchWithHitInfo> = Vec::new();
        let mut k: usize = 0;
        while k < top.len()
            invariant
                self.wf(),
                query_terms.terms() == self.spec_query_terms(s@),
                query_terms.traditional_terms@ == spec_traditional_terms(
                    self.character_store.characters@,
                    s@,
                ),
                top@ == self.spec_search_matches(s@, max_results as int),
                forall|j: int| 0 <= j < top@.len() ==> (#[trigger] top@[j]).entry_id < self.entries@.len(),
                k <= top@.len(),
                hits@.len() == k,
                forall|j: int|
                    0 <= j < k ==> (#[trigger] hits@[j])@ == (
                        top@[j],
                        self.spec_match_spans(top@[j], s@),
                    ) && spans_nonempty(hits@[j].matched_spans@) && spans_apart(
                        hits@[j].matched_spans@,
                    ) && RenderedResult::match_fits(&hits@[j], self),
            decreases top@.len() - k,
        {
            let m: Match = top[k];
            let entry: &CompiledDictionaryEntry = &self.entries[m.entry_id];
            proof {
                self.lemma_wf_parts();
            }
            let spans: Vec<(usize, usize)> = match m.match_type {
                MatchType::Jyutping => self.get_jyutping_matched_spans(entry, &query_terms),
                MatchType::Traditional => self.get_traditional_matched_spans(entry, &query_terms),
                MatchType::English => self.get_english_matched_spans(entry, s),
            };
            let matched_spans: Vec<(usize, usize)> = merge_overlapping_match_spans(spans);
            let hit: MatchWithHitInfo = MatchWithHitInfo { match_obj: m, matched_spans };
            proof {
                self.lemma_match_spans_are_merged(m, s@);
                self.lemma_match_can_render(&hit, s@);
            }
            hits.push(hit);
            k += 1;
        }
        let result = SearchResult { matches: hits, timings, internal_candidates };
        assert(result.hits() =~= self.spec_search(s@, max_results as int));
        result
    }
}

impl Default for Timings {
    /// No time gone by at any checkpoint.
    fn default() -> (timings: Self)
        ensures
            timings == (Timings { jyutping_pre_ms: 0, traditional_pre_ms: 0, full_match: 0, rank: 0 }),
    {
        Timings { jyutping_pre_ms: 0, traditional_pre_ms: 0, full_match: 0, rank: 0 }
    }
}

impl Default for SearchResult {
    /// A result without matches.
    fn default() -> (result: Self)
        ensures
            result.matches@ == Seq::<MatchWithHitInfo>::empty(),
            result.timings == (Timings {
                jyutping_pre_ms: 0,
                traditional_pre_ms: 0,
                full_match: 0,
                rank: 0,
            }),
            result.internal_candidates == 0,
    {
        SearchResult { matches: Vec::new(), timings: Timings::default(), internal_candidates: 0 }
    }
}

} // verus!
