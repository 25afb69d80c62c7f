//! A query that is the romanisation of an entry finds that entry at no cost
//! but the entry's own.

use crate::compiled_dictionary::{CompiledDictionary, Jyutping};
use crate::reconstruct_match::{
    lemma_display_holds_syllable, lemma_jyutping_display_len, spec_jyutping_display,
    spec_syllable_start, syllables_in,
};
use crate::search::{
    count_inversions, count_smaller, spec_all_best, spec_best, spec_fits, spec_jyutping_cost,
    spec_pair_cost, spec_penalty, spec_positions, spec_sum_costs, spec_term, spec_term_costs,
    spec_unmatched_cost, term_fits, Match, MatchCostInfo, MatchType, TermModel,
};
use crate::string_search::{
    eq_ci, lemma_edit_row_zero, lemma_first_match_from, matches_at_ci, seq_eq_ci,
    spec_indexof_ci, spec_prefix_levenshtein,
};
use crate::text::{spec_is_space, spec_tokens, token_ranges};
use vstd::prelude::*;
use vstd::utf8::*;

verus! {

/// A space behind a text adds no word to it.
pub proof fn lemma_tokens_append_space(s: Seq<u8>)
    ensures
        token_ranges(s.push(0x20u8)) == token_ranges(s),
{
    assert(s.push(0x20u8).take(s.len() as int) =~= s);
}

/// A run of bytes that are no whitespace, put behind a text that is empty or
/// ends in whitespace, adds one word to it: the run.
pub proof fn lemma_tokens_append_word(s: Seq<u8>, w: Seq<u8>)
    requires
        w.len() > 0,
        forall|i: int| 0 <= i < w.len() ==> !spec_is_space(#[trigger] w[i]),
        s.len() == 0 || spec_is_space(s.last()),
    ensures
        token_ranges(s + w) == token_ranges(s).push((s.len() as int, (s.len() + w.len()) as int)),
    decreases w.len(),
{
    let all = s + w;
    let n = all.len() - 1;
    let head = w.drop_last();
    assert(all.take(n) =~= s + head);
    assert(all[n] == w[w.len() - 1]);
    if head.len() == 0 {
        assert(s + head =~= s);
        if n >= 1 {
            assert(all[n - 1] == s.last());
        }
    } else {
        assert forall|i: int| 0 <= i < head.len() implies !spec_is_space(#[trigger] head[i]) by {
            assert(head[i] == w[i]);
        }
        lemma_tokens_append_word(s, head);
        assert(all[n - 1] == w[w.len() - 2]);
        let before = token_ranges(s + head);
        assert(before.drop_last() =~= token_ranges(s));
    }
}

/// The bases of the syllables hold no whitespace and are not empty.
pub open spec fn bases_plain(alphabet: Seq<Seq<u8>>, syllables: Seq<Jyutping>) -> bool {
    forall|k: int|
        0 <= k < syllables.len() ==> (#[trigger] alphabet[syllables[k].base as int]).len() > 0
            && forall|i: int|
            0 <= i < alphabet[syllables[k].base as int].len() ==> !spec_is_space(
                #[trigger] alphabet[syllables[k].base as int][i],
            )
}

/// Syllable `k` as it is written: its base and its tone digit.
pub open spec fn spec_written(alphabet: Seq<Seq<u8>>, syllables: Seq<Jyutping>, k: int) -> Seq<u8> {
    alphabet[syllables[k].base as int].push((syllables[k].tone + 0x30) as u8)
}

/// The words of the romanisation of the first `n` syllables are the
/// syllables as they are written, each where the syllable starts.
pub proof fn lemma_display_ranges(alphabet: Seq<Seq<u8>>, syllables: Seq<Jyutping>, n: int)
    requires
        syllables_in(alphabet, syllables),
        bases_plain(alphabet, syllables),
        0 <= n <= syllables.len(),
    ensures
        token_ranges(spec_jyutping_display(alphabet, syllables, n)) == Seq::new(
            n as nat,
            |k: int|
                (
                    spec_syllable_start(alphabet, syllables, k),
                    spec_syllable_start(alphabet, syllables, k) + alphabet[syllables[k].base as int].len()
                        + 1,
                ),
        ),
        n > 0 ==> !spec_is_space(spec_jyutping_display(alphabet, syllables, n).last()),
    decreases n,
{
    let ranges = |k: int|
        (
            spec_syllable_start(alphabet, syllables, k),
            spec_syllable_start(alphabet, syllables, k) + alphabet[syllables[k].base as int].len() + 1,
        );
    if n > 0 {
        lemma_display_ranges(alphabet, syllables, n - 1);
        lemma_jyutping_display_len(alphabet, syllables, n - 1);
        let before = spec_jyutping_display(alphabet, syllables, n - 1);
        let spaced = if n == 1 {
            before
        } else {
            before.push(0x20u8)
        };
        let base = alphabet[syllables[n - 1].base as int];
        let digit = (syllables[n - 1].tone + 0x30) as u8;
        let word = base.push(digit);
        assert(syllables[n - 1].tone <= 9);
        assert forall|i: int| 0 <= i < word.len() implies !spec_is_space(#[trigger] word[i]) by {
            if i < base.len() {
                assert(word[i] == base[i]);
                assert(!spec_is_space(alphabet[syllables[n - 1].base as int][i]));
            }
        }
        if n > 1 {
            lemma_tokens_append_space(before);
        } else {
            assert(before =~= Seq::<u8>::empty());
        }
        lemma_tokens_append_word(spaced, word);
        assert(spec_jyutping_display(alphabet, syllables, n) =~= spaced + word);
        assert(token_ranges(spaced + word) =~= Seq::new(n as nat, ranges));
        assert((spaced + word).last() == digit);
    } else {
        assert(token_ranges(spec_jyutping_display(alphabet, syllables, 0)) =~= Seq::new(
            0 as nat,
            ranges,
        ));
    }
}

/// The words of the romanisation of an entry are its syllables as they are
/// written.
pub proof fn lemma_display_tokens(alphabet: Seq<Seq<u8>>, syllables: Seq<Jyutping>)
    requires
        syllables_in(alphabet, syllables),
        bases_plain(alphabet, syllables),
    ensures
        spec_tokens(spec_jyutping_display(alphabet, syllables, syllables.len() as int)) == Seq::new(
            syllables.len(),
            |k: int| spec_written(alphabet, syllables, k),
        ),
{
    let n = syllables.len() as int;
    let display = spec_jyutping_display(alphabet, syllables, n);
    lemma_display_ranges(alphabet, syllables, n);
    let words = spec_tokens(display);
    assert(words.len() == syllables.len());
    assert forall|k: int| 0 <= k < n implies words[k] == spec_written(alphabet, syllables, k) by {
        lemma_display_holds_syllable(alphabet, syllables, k);
        let start = spec_syllable_start(alphabet, syllables, k);
        let base = alphabet[syllables[k].base as int];
        assert(words[k] == display.subrange(start, start + base.len() + 1));
        assert(display.subrange(start, start + base.len() + 1) =~= display.subrange(
            start,
            start + base.len(),
        ).push(display[start + base.len()]));
    }
    assert(words =~= Seq::new(syllables.len(), |k: int| spec_written(alphabet, syllables, k)));
}

/// A typed text that is not empty matches a syllable at no cost only where
/// it is the syllable but for case.
pub proof fn lemma_penalty_positive(base: Seq<u8>, syllable: Seq<u8>)
    requires
        base.len() > 0,
        !seq_eq_ci(syllable, base),
        spec_penalty(base, syllable) is Some,
    ensures
        spec_penalty(base, syllable).unwrap() > 0,
{
    if spec_indexof_ci(base, syllable) is Some {
        let at = spec_indexof_ci(base, syllable).unwrap();
        lemma_first_match_from(base, syllable, 0);
        if at == 0 && syllable.len() == base.len() {
            assert forall|k: int| 0 <= k < syllable.len() implies eq_ci(
                #[trigger] syllable[k],
                base[k],
            ) by {
                assert(eq_ci(base[k], syllable[0 + k]));
            }
        }
        assert(at * 12_000 + (syllable.len() - base.len()) * 2_500 > 0) by (nonlinear_arith)
            requires
                at >= 0,
                syllable.len() - base.len() >= 0,
                at > 0 || syllable.len() - base.len() > 0,
        ;
    } else {
        let dist = spec_prefix_levenshtein(base, syllable);
        crate::string_search::lemma_prefix_distance_at_least(base, syllable);
        if dist == 0 {
            if syllable.len() > 0 {
                lemma_edit_row_zero(base, syllable, syllable.len() as int);
                assert(matches_at_ci(base, syllable, 0));
                lemma_first_match_from(base, syllable, 0);
            }
        }
    }
}

/// The penalty listed for an id is never negative.
pub proof fn lemma_pair_cost_nonnegative(costs: Seq<(i32, u32)>, id: int)
    ensures
        spec_pair_cost(costs, id) >= 0,
    decreases costs.len(),
{
    if costs.len() > 0 && costs[0].0 != id {
        lemma_pair_cost_nonnegative(costs.drop_first(), id);
    }
}

/// Where no pair has the id, the penalty listed for it is 0.
pub proof fn lemma_pair_cost_absent(costs: Seq<(i32, u32)>, id: int)
    requires
        forall|i: int| 0 <= i < costs.len() ==> (#[trigger] costs[i]).0 != id,
    ensures
        spec_pair_cost(costs, id) == 0,
    decreases costs.len(),
{
    if costs.len() > 0 {
        assert(costs[0].0 != id);
        assert forall|i: int| 0 <= i < costs.drop_first().len() implies (
        #[trigger] costs.drop_first()[i]).0 != id by {
            assert(costs.drop_first()[i] == costs[i + 1]);
        }
        lemma_pair_cost_absent(costs.drop_first(), id);
    }
}

/// The penalty listed for an id is that of the first pair with the id.
pub proof fn lemma_pair_cost_found(costs: Seq<(i32, u32)>, id: int, at: int)
    requires
        0 <= at < costs.len(),
        costs[at].0 == id,
        forall|i: int| 0 <= i < at ==> (#[trigger] costs[i]).0 != id,
    ensures
        spec_pair_cost(costs, id) == costs[at].1,
    decreases at,
{
    if at > 0 {
        assert(costs[0].0 != id);
        assert forall|i: int| 0 <= i < at - 1 implies (#[trigger] costs.drop_first()[i]).0 != id by {
            assert(costs.drop_first()[i] == costs[i + 1]);
        }
        assert(costs.drop_first()[at - 1] == costs[at]);
        lemma_pair_cost_found(costs.drop_first(), id, at - 1);
    }
}

/// The pairs that a term lists: their ids ascend and lie below `n`, each is
/// the id of a syllable that the typed text matches at a penalty, with that
/// penalty, and every such syllable below `n` is listed.
pub proof fn lemma_term_costs_shape(base: Seq<u8>, alphabet: Seq<Seq<u8>>, n: int)
    requires
        0 <= n <= alphabet.len() <= 0x2000,
    ensures
        ({
            let costs = spec_term_costs(base, alphabet, n);
            &&& forall|i: int|
                0 <= i < costs.len() ==> 0 <= (#[trigger] costs[i]).0 < n && !seq_eq_ci(
                    alphabet[costs[i].0 as int],
                    base,
                ) && spec_penalty(base, alphabet[costs[i].0 as int]) is Some && costs[i].1
                    == spec_penalty(base, alphabet[costs[i].0 as int]).unwrap()
            &&& forall|i: int, j: int|
                0 <= i < j < costs.len() ==> (#[trigger] costs[i]).0 < (#[trigger] costs[j]).0
            &&& forall|id: int|
                0 <= id < n && !seq_eq_ci(#[trigger] alphabet[id], base) && spec_penalty(
                    base,
                    alphabet[id],
                ) is Some ==> exists|i: int| 0 <= i < costs.len() && (#[trigger] costs[i]).0 == id
        }),
    decreases n,
{
    if n > 0 {
        lemma_term_costs_shape(base, alphabet, n - 1);
        let before = spec_term_costs(base, alphabet, n - 1);
        let costs = spec_term_costs(base, alphabet, n);
        let syllable = alphabet[n - 1];
        if !seq_eq_ci(syllable, base) && spec_penalty(base, syllable) is Some {
            lemma_penalty_bounds(base, syllable);
            assert(costs == before.push(((n - 1) as i32, spec_penalty(base, syllable).unwrap() as u32)));
            assert forall|id: int|
                0 <= id < n && !seq_eq_ci(#[trigger] alphabet[id], base) && spec_penalty(
                    base,
                    alphabet[id],
                ) is Some implies exists|i: int|
                0 <= i < costs.len() && (#[trigger] costs[i]).0 == id by {
                if id < n - 1 {
                    let i = choose|i: int| 0 <= i < before.len() && (#[trigger] before[i]).0 == id;
                    assert(costs[i].0 == id);
                } else {
                    assert(costs[costs.len() - 1].0 == id);
                }
            }
        } else {
            assert(costs == before);
        }
    }
}

/// A penalty fits 32 bits and is not negative.
pub proof fn lemma_penalty_bounds(base: Seq<u8>, syllable: Seq<u8>)
    requires
        spec_penalty(base, syllable) is Some,
    ensures
        0 <= spec_penalty(base, syllable).unwrap() <= u32::MAX,
{
    if base.len() > 0 && spec_indexof_ci(base, syllable) is Some {
        lemma_first_match_from(base, syllable, 0);
        let at = spec_indexof_ci(base, syllable).unwrap();
        assert(at * 12_000 + (syllable.len() - base.len()) * 2_500 >= 0) by (nonlinear_arith)
            requires
                at >= 0,
                syllable.len() - base.len() >= 0,
        ;
    } else {
        crate::string_search::lemma_prefix_distance_at_least(base, syllable);
    }
}

/// A syllable that the typed text is but for case is listed at no penalty.
pub proof fn lemma_exact_costs_nothing(base: Seq<u8>, alphabet: Seq<Seq<u8>>, id: int)
    requires
        0 <= id < alphabet.len() <= 0x2000,
        seq_eq_ci(alphabet[id], base),
    ensures
        spec_pair_cost(spec_term_costs(base, alphabet, alphabet.len() as int), id) == 0,
{
    lemma_term_costs_shape(base, alphabet, alphabet.len() as int);
    lemma_pair_cost_absent(spec_term_costs(base, alphabet, alphabet.len() as int), id);
}

/// A syllable that the typed text matches without being it but for case is
/// listed at a penalty above 0.
pub proof fn lemma_inexact_costs_something(base: Seq<u8>, alphabet: Seq<Seq<u8>>, id: int)
    requires
        0 <= id < alphabet.len() <= 0x2000,
        base.len() > 0,
        !seq_eq_ci(alphabet[id], base),
        spec_fits(base, alphabet[id]),
    ensures
        spec_pair_cost(spec_term_costs(base, alphabet, alphabet.len() as int), id) > 0,
{
    let costs = spec_term_costs(base, alphabet, alphabet.len() as int);
    lemma_term_costs_shape(base, alphabet, alphabet.len() as int);
    let at = choose|i: int| 0 <= i < costs.len() && (#[trigger] costs[i]).0 == id;
    assert forall|i: int| 0 <= i < at implies (#[trigger] costs[i]).0 != id by {
        assert(costs[i].0 < costs[at].0);
    }
    lemma_pair_cost_found(costs, id, at);
    lemma_penalty_positive(base, alphabet[id]);
    lemma_penalty_bounds(base, alphabet[id]);
}

/// A text is itself but for case.
pub proof fn lemma_seq_eq_ci_reflexive(a: Seq<u8>)
    ensures
        seq_eq_ci(a, a),
{
}

/// No two syllables have the same tone and bases that are equal but for case.
pub open spec fn syllables_distinct(alphabet: Seq<Seq<u8>>, syllables: Seq<Jyutping>) -> bool {
    forall|a: int, b: int|
        0 <= a < b < syllables.len() ==> !(syllables[a].tone == syllables[b].tone && seq_eq_ci(
            alphabet[syllables[a].base as int],
            alphabet[syllables[b].base as int],
        ))
}

/// The term that syllable `k` gives when it is typed as it is written.
pub open spec fn spec_written_term(alphabet: Seq<Seq<u8>>, syllables: Seq<Jyutping>, k: int)
    -> TermModel {
    spec_term(spec_written(alphabet, syllables, k), alphabet)
}

/// A syllable typed as it is written is matched best by itself, at no
/// penalty.
pub proof fn lemma_written_term_best(alphabet: Seq<Seq<u8>>, syllables: Seq<Jyutping>, k: int)
    requires
        alphabet.len() <= 0x2000,
        syllables_in(alphabet, syllables),
        bases_plain(alphabet, syllables),
        syllables_distinct(alphabet, syllables),
        0 <= k < syllables.len(),
    ensures
        spec_best(spec_written_term(alphabet, syllables, k), syllables, syllables.len() as int)
            == Some((k, 0int)),
{
    let term = spec_written_term(alphabet, syllables, k);
    let base = alphabet[syllables[k].base as int];
    let id = syllables[k].base as int;
    let word = spec_written(alphabet, syllables, k);
    assert(syllables[k].tone <= 9);
    assert(word.drop_last() =~= base);
    assert(term.base == base);
    assert(term.tone == Some(syllables[k].tone));
    assert(base.len() > 0);
    lemma_seq_eq_ci_reflexive(base);
    assert(spec_fits(base, alphabet[id]));
    assert(term.members.contains(id as nat));
    assert(term_fits(term, syllables[k]));
    lemma_exact_costs_nothing(base, alphabet, id);
    crate::search::lemma_spec_best(term, syllables, syllables.len() as int);
    let best = spec_best(term, syllables, syllables.len() as int);
    assert(best is Some);
    let (at, cost) = best.unwrap();
    lemma_pair_cost_nonnegative(term.costs, syllables[at].base as int);
    assert(cost == 0);
    if at < k {
        let other = syllables[at].base as int;
        assert(term.members.contains(other as nat));
        assert(spec_fits(base, alphabet[other]));
        if seq_eq_ci(alphabet[other], base) {
            assert(false);
        } else {
            lemma_inexact_costs_something(base, alphabet, other);
        }
    }
}

/// The positions 0 to `n - 1`, each chosen at no penalty.
pub open spec fn spec_straight(n: int) -> Seq<(int, int)> {
    Seq::new(n as nat, |k: int| (k, 0int))
}

/// Positions that ascend hold no pair in the wrong order.
pub proof fn lemma_ascending_no_inversions(positions: Seq<usize>)
    requires
        forall|i: int, j: int| 0 <= i < j < positions.len() ==> positions[i] < positions[j],
    ensures
        count_inversions(positions) == 0,
    decreases positions.len(),
{
    if positions.len() > 0 {
        let rest = positions.drop_first();
        assert forall|i: int, j: int| 0 <= i < j < rest.len() implies rest[i] < rest[j] by {
            assert(positions[i + 1] < positions[j + 1]);
        }
        lemma_ascending_no_inversions(rest);
        lemma_none_smaller(positions[0] as int, rest);
    }
}

/// Where every number of `rest` is above `first`, none of them is smaller.
proof fn lemma_none_smaller(first: int, rest: Seq<usize>)
    requires
        forall|i: int| 0 <= i < rest.len() ==> first < #[trigger] rest[i],
    ensures
        count_smaller(first, rest) == 0,
    decreases rest.len(),
{
    if rest.len() > 0 {
        assert forall|i: int| 0 <= i < rest.drop_last().len() implies first
            < #[trigger] rest.drop_last()[i] by {
            assert(rest.drop_last()[i] == rest[i]);
        }
        lemma_none_smaller(first, rest.drop_last());
        assert(first < rest[rest.len() - 1]);
    }
}

/// Where every position was chosen, none costs anything for being left out.
pub proof fn lemma_all_chosen_costs_nothing(count: int, positions: Seq<usize>, upto: int)
    requires
        0 <= upto <= count,
        forall|p: usize| (p as int) < upto ==> #[trigger] positions.contains(p),
    ensures
        spec_unmatched_cost(count, positions, upto) == 0,
    decreases upto,
{
    if upto > 0 {
        lemma_all_chosen_costs_nothing(count, positions, upto - 1);
        assert(positions.contains((upto - 1) as usize));
    }
}

/// Positions chosen at no penalty cost nothing together.
pub proof fn lemma_straight_sum(n: int)
    requires
        0 <= n,
    ensures
        spec_sum_costs(spec_straight(n)) == 0,
    decreases n,
{
    if n > 0 {
        assert(spec_straight(n).drop_last() =~= spec_straight(n - 1));
        lemma_straight_sum(n - 1);
    }
}

/// The syllables of an entry, each typed as it is written, are matched by
/// the entry at no penalty.
pub proof fn lemma_written_terms_cost_nothing(alphabet: Seq<Seq<u8>>, syllables: Seq<Jyutping>)
    requires
        alphabet.len() <= 0x2000,
        syllables_in(alphabet, syllables),
        bases_plain(alphabet, syllables),
        syllables_distinct(alphabet, syllables),
        0 < syllables.len() < 256,
    ensures
        spec_jyutping_cost(
            Seq::new(syllables.len(), |k: int| spec_written_term(alphabet, syllables, k)),
            syllables,
        ) == Some(
            MatchCostInfo {
                term_match_cost: 0,
                unmatched_position_cost: 0,
                inversion_cost: 0,
                static_cost: 0,
            },
        ),
{
    let n = syllables.len() as int;
    let terms = Seq::new(syllables.len(), |k: int| spec_written_term(alphabet, syllables, k));
    lemma_all_written_best(alphabet, syllables, terms, n);
    let chosen = spec_straight(n);
    lemma_straight_sum(n);
    let positions = spec_positions(chosen);
    assert forall|i: int, j: int| 0 <= i < j < positions.len() implies positions[i]
        < positions[j] by {
        assert(positions[i] == i as usize && positions[j] == j as usize);
    }
    lemma_ascending_no_inversions(positions);
    assert forall|p: usize| (p as int) < n implies #[trigger] positions.contains(p) by {
        assert(positions[p as int] == p);
    }
    lemma_all_chosen_costs_nothing(n, positions, n);
}

/// The first `count` syllables typed as they are written are matched best, each
/// by itself.
proof fn lemma_all_written_best(
    alphabet: Seq<Seq<u8>>,
    syllables: Seq<Jyutping>,
    terms: Seq<TermModel>,
    count: int,
)
    requires
        alphabet.len() <= 0x2000,
        syllables_in(alphabet, syllables),
        bases_plain(alphabet, syllables),
        syllables_distinct(alphabet, syllables),
        terms == Seq::new(syllables.len(), |k: int| spec_written_term(alphabet, syllables, k)),
        0 <= count <= syllables.len(),
    ensures
        spec_all_best(terms, syllables, count) == Some(spec_straight(count)),
    decreases count,
{
    if count > 0 {
        lemma_all_written_best(alphabet, syllables, terms, count - 1);
        lemma_written_term_best(alphabet, syllables, count - 1);
        assert(terms[count - 1] == spec_written_term(alphabet, syllables, count - 1));
        assert(spec_straight(count - 1).push((count - 1, 0int)) =~= spec_straight(count));
    } else {
        assert(spec_straight(0) =~= Seq::<(int, int)>::empty());
    }
}

impl CompiledDictionary {
    /// A query that is the romanisation of an entry, with its tones, finds
    /// that entry as syllables, at no cost but the entry's own: no penalty
    /// for a term, for a syllable left out or for the order. This holds where
    /// the bases of the entry's syllables are not empty and hold no
    /// whitespace, and no two of its syllables have the same tone and bases
    /// that are equal but for case.
    pub proof fn lemma_exact_match_costs_nothing(&self, i: int, query: Seq<char>)
        requires
            self.wf(),
            0 <= i < self.entries@.len(),
            self.entries@[i].jyutping@.len() > 0,
            encode_utf8(query) == spec_jyutping_display(
                self.jyutping_store@,
                self.entries@[i].jyutping@,
                self.entries@[i].jyutping@.len() as int,
            ),
            bases_plain(self.jyutping_store@, self.entries@[i].jyutping@),
            syllables_distinct(self.jyutping_store@, self.entries@[i].jyutping@),
        ensures
            self.spec_entry_matches(i, query) == seq![
                Match {
                    cost_info: MatchCostInfo {
                        term_match_cost: 0,
                        unmatched_position_cost: 0,
                        inversion_cost: 0,
                        static_cost: self.entries@[i].cost,
                    },
                    match_type: MatchType::Jyutping,
                    entry_id: i as usize,
                },
            ],
            self.spec_entry_matches(i, query)[0].cost_info.spec_total() == self.entries@[i].cost,
    {
        let alphabet = self.jyutping_store@;
        let syllables = self.entries@[i].jyutping@;
        self.lemma_wf_parts();
        assert(self.entry_wf(&self.entries@[i]));
        assert(syllables_in(alphabet, syllables));
        lemma_display_tokens(alphabet, syllables);
        let terms = Seq::new(syllables.len(), |k: int| spec_written_term(alphabet, syllables, k));
        assert(self.spec_query_terms(query) =~= terms);
        lemma_written_terms_cost_nothing(alphabet, syllables);
    }

    /// A query that is the romanisation of an entry, with its tones, has
    /// that entry among what a search returns, at no cost but the entry's
    /// own, where the search may return as many matches as there are. This
    /// holds of the entries of which `lemma_exact_match_costs_nothing` holds.
    pub proof fn lemma_exact_match_is_found(&self, i: int, query: Seq<char>, max_results: int)
        requires
            self.wf(),
            0 <= i < self.entries@.len(),
            self.entries@[i].jyutping@.len() > 0,
            encode_utf8(query) == spec_jyutping_display(
                self.jyutping_store@,
                self.entries@[i].jyutping@,
                self.entries@[i].jyutping@.len() as int,
            ),
            bases_plain(self.jyutping_store@, self.entries@[i].jyutping@),
            syllables_distinct(self.jyutping_store@, self.entries@[i].jyutping@),
            max_results >= self.spec_candidate_count(query),
        ensures
            self.spec_search_matches(query, max_results).contains(
                Match {
                    cost_info: MatchCostInfo {
                        term_match_cost: 0,
                        unmatched_position_cost: 0,
                        inversion_cost: 0,
                        static_cost: self.entries@[i].cost,
                    },
                    match_type: MatchType::Jyutping,
                    entry_id: i as usize,
                },
            ),
    {
        let found = Match {
            cost_info: MatchCostInfo {
                term_match_cost: 0,
                unmatched_position_cost: 0,
                inversion_cost: 0,
                static_cost: self.entries@[i].cost,
            },
            match_type: MatchType::Jyutping,
            entry_id: i as usize,
        };
        self.lemma_exact_match_costs_nothing(i, query);
        assert(self.spec_entry_matches(i, query)[0] == found);
        self.lemma_wf_parts();
        assert(self.entry_wf(&self.entries@[i]));
        lemma_display_tokens(self.jyutping_store@, self.entries@[i].jyutping@);
        self.lemma_match_is_returned(query, i, found, max_results);
    }
}

} // verus!
