//! Compiling entries given as texts into a dictionary.

use crate::builder::{Builder, DictionaryEntry};
use crate::compiled_dictionary::{
    bases_strictly_ascending, chars_strictly_ascending, spec_display_characters, text_bytes,
    CharacterStore, CompiledDictionary, CompiledDictionaryEntry, Jyutping, JyutpingStore,
    FLAG_SOURCE_CCCANTO, FLAG_SOURCE_CEDICT,
};
use crate::exact_match::spec_written;
use crate::jyutping_splitter::{
    lemma_scan_syllable, parse_jyutping_tone, spec_base, spec_next_syllable, spec_syllables_from,
    JyutpingSplitter,
};
use crate::string_search::spec_is_ascii_letter;
use crate::text::spec_is_digit;
use crate::{EntrySource, StringVecSet};
use vstd::prelude::*;
use vstd::string::*;
use vstd::utf8::*;

verus! {

/// `e` put into `sorted` behind every entry that does not cost more.
pub open spec fn spec_insert_by_cost(sorted: Seq<DictionaryEntry>, e: DictionaryEntry) -> Seq<
    DictionaryEntry,
>
    decreases sorted.len(),
{
    if sorted.len() == 0 {
        seq![e]
    } else if sorted.last().cost <= e.cost {
        sorted.push(e)
    } else {
        spec_insert_by_cost(sorted.drop_last(), e).push(sorted.last())
    }
}

/// The entries in ascending order of cost; entries of equal cost keep their
/// order.
pub open spec fn spec_sort_by_cost(entries: Seq<DictionaryEntry>) -> Seq<DictionaryEntry>
    decreases entries.len(),
{
    if entries.len() == 0 {
        Seq::empty()
    } else {
        spec_insert_by_cost(spec_sort_by_cost(entries.drop_last()), entries.last())
    }
}

/// No entry costs less than one before it.
pub open spec fn costs_ascending(entries: Seq<DictionaryEntry>) -> bool {
    forall|i: int, j: int| 0 <= i <= j < entries.len() ==> entries[i].cost <= entries[j].cost
}

/// Putting an entry into entries that ascend in cost leaves them ascending,
/// makes them one more, and brings no entry that was not there or put in.
pub proof fn lemma_insert_by_cost(sorted: Seq<DictionaryEntry>, e: DictionaryEntry)
    requires
        costs_ascending(sorted),
    ensures
        costs_ascending(spec_insert_by_cost(sorted, e)),
        spec_insert_by_cost(sorted, e).len() == sorted.len() + 1,
        forall|i: int|
            0 <= i < spec_insert_by_cost(sorted, e).len() ==> (#[trigger] spec_insert_by_cost(
                sorted,
                e,
            )[i]) == e || sorted.contains(spec_insert_by_cost(sorted, e)[i]),
    decreases sorted.len(),
{
    let put = spec_insert_by_cost(sorted, e);
    if sorted.len() == 0 {
    } else if sorted.last().cost <= e.cost {
        assert forall|i: int| 0 <= i < put.len() implies (#[trigger] put[i]) == e
            || sorted.contains(put[i]) by {
            if i < sorted.len() {
                assert(sorted[i] == put[i]);
            }
        }
    } else {
        let head = sorted.drop_last();
        lemma_insert_by_cost(head, e);
        let inner = spec_insert_by_cost(head, e);
        assert forall|i: int| 0 <= i < put.len() implies (#[trigger] put[i]) == e
            || sorted.contains(put[i]) by {
            if i < inner.len() {
                assert(put[i] == inner[i]);
                if inner[i] != e {
                    let k = choose|k: int| 0 <= k < head.len() && head[k] == inner[i];
                    assert(sorted[k] == put[i]);
                }
            } else {
                assert(sorted[sorted.len() - 1] == put[i]);
            }
        }
        assert forall|i: int, j: int| 0 <= i <= j < put.len() implies put[i].cost
            <= put[j].cost by {
            if j < inner.len() {
                assert(put[i] == inner[i] && put[j] == inner[j]);
            } else if i < inner.len() {
                assert(put[i] == inner[i]);
                if inner[i] != e {
                    let k = choose|k: int| 0 <= k < head.len() && head[k] == inner[i];
                    assert(sorted[k].cost <= sorted[sorted.len() - 1].cost);
                }
            }
        }
    }
}

/// The sorted entries ascend in cost, are as many as were given, and each
/// of them was given.
pub proof fn lemma_sort_by_cost(entries: Seq<DictionaryEntry>)
    ensures
        costs_ascending(spec_sort_by_cost(entries)),
        spec_sort_by_cost(entries).len() == entries.len(),
        forall|i: int|
            0 <= i < entries.len() ==> entries.contains(#[trigger] spec_sort_by_cost(entries)[i]),
    decreases entries.len(),
{
    if entries.len() > 0 {
        let head = entries.drop_last();
        lemma_sort_by_cost(head);
        lemma_insert_by_cost(spec_sort_by_cost(head), entries.last());
        let sorted = spec_sort_by_cost(entries);
        assert forall|i: int| 0 <= i < entries.len() implies entries.contains(
            #[trigger] sorted[i],
        ) by {
            if sorted[i] == entries.last() {
                assert(entries[entries.len() - 1] == sorted[i]);
            } else {
                let inner = spec_sort_by_cost(head);
                let k = choose|k: int| 0 <= k < inner.len() && inner[k] == sorted[i];
                let j = choose|j: int| 0 <= j < head.len() && head[j] == inner[k];
                assert(entries[j] == sorted[i]);
            }
        }
    }
}

/// The entries of cost `cost`, in their order.
pub open spec fn spec_of_cost(entries: Seq<DictionaryEntry>, cost: u32) -> Seq<DictionaryEntry>
    decreases entries.len(),
{
    if entries.len() == 0 {
        Seq::empty()
    } else if entries.last().cost == cost {
        spec_of_cost(entries.drop_last(), cost).push(entries.last())
    } else {
        spec_of_cost(entries.drop_last(), cost)
    }
}

/// `sorted` holds the entries of `entries` in ascending order of cost, those
/// of each cost in the order they have in `entries`.
pub open spec fn stably_sorted(sorted: Seq<DictionaryEntry>, entries: Seq<DictionaryEntry>) -> bool {
    &&& sorted.len() == entries.len()
    &&& costs_ascending(sorted)
    &&& forall|cost: u32| #[trigger] spec_of_cost(sorted, cost) == spec_of_cost(entries, cost)
}

/// `<[T]>::sort_by_key` with the cost as key: afterwards the entries stand
/// in ascending order of cost, and those of each cost are the same and in
/// the same order as before.
#[verifier::external_body]
fn sort_by_cost(entries: &mut Vec<DictionaryEntry>)
    ensures
        stably_sorted(final(entries)@, old(entries)@),
{
    entries.sort_by_key(|e| e.cost);
}

/// Putting an entry in is putting it at the place behind the last entry
/// that does not cost more.
proof fn lemma_insert_by_cost_at(sorted: Seq<DictionaryEntry>, e: DictionaryEntry, at: int)
    requires
        0 <= at <= sorted.len(),
        forall|k: int| at <= k < sorted.len() ==> (#[trigger] sorted[k]).cost > e.cost,
        at > 0 ==> sorted[at - 1].cost <= e.cost,
    ensures
        spec_insert_by_cost(sorted, e) == sorted.insert(at, e),
    decreases sorted.len() - at,
{
    if at == sorted.len() {
        assert(sorted.insert(at, e) =~= sorted.push(e));
    } else {
        let head = sorted.drop_last();
        lemma_insert_by_cost_at(head, e, at);
        assert(head.insert(at, e).push(sorted.last()) =~= sorted.insert(at, e));
    }
}

/// The entries of a cost are no more than all entries, and where the last
/// of them stands, an entry of that cost stands, with none of it behind.
proof fn lemma_last_of_cost(x: Seq<DictionaryEntry>, cost: u32) -> (at: int)
    requires
        spec_of_cost(x, cost).len() > 0,
    ensures
        0 <= at < x.len(),
        x[at] == spec_of_cost(x, cost).last(),
        x[at].cost == cost,
        forall|k: int| at < k < x.len() ==> (#[trigger] x[k]).cost != cost,
        spec_of_cost(x.remove(at), cost) == spec_of_cost(x, cost).drop_last(),
        forall|other: u32|
            other != cost ==> #[trigger] spec_of_cost(x.remove(at), other) == spec_of_cost(x, other),
    decreases x.len(),
{
    if x.last().cost == cost {
        let at = x.len() - 1;
        assert(x.remove(at) =~= x.drop_last());
        assert(spec_of_cost(x, cost).drop_last() =~= spec_of_cost(x.drop_last(), cost));
        at
    } else {
        let head = x.drop_last();
        let at = lemma_last_of_cost(head, cost);
        assert(x.remove(at) =~= head.remove(at).push(x.last()));
        assert(x.remove(at).drop_last() =~= head.remove(at));
        assert forall|other: u32| other != cost implies #[trigger] spec_of_cost(
            x.remove(at),
            other,
        ) == spec_of_cost(x, other) by {
            assert(spec_of_cost(head.remove(at), other) == spec_of_cost(head, other));
        }
        assert forall|k: int| at < k < x.len() implies (#[trigger] x[k]).cost != cost by {
            if k < head.len() {
                assert(head[k].cost != cost);
            }
        }
        at
    }
}

/// There is but one way to sort entries by cost and leave those of equal
/// cost in their order.
pub proof fn lemma_stably_sorted_is_sort(sorted: Seq<DictionaryEntry>, entries: Seq<DictionaryEntry>)
    requires
        stably_sorted(sorted, entries),
    ensures
        sorted == spec_sort_by_cost(entries),
    decreases entries.len(),
{
    if entries.len() == 0 {
        assert(sorted =~= Seq::<DictionaryEntry>::empty());
    } else {
        let e = entries.last();
        let head = entries.drop_last();
        assert(spec_of_cost(sorted, e.cost) == spec_of_cost(entries, e.cost));
        let at = lemma_last_of_cost(sorted, e.cost);
        let rest = sorted.remove(at);
        assert(sorted[at] == e);
        assert(stably_sorted(rest, head)) by {
            assert forall|i: int, j: int| 0 <= i <= j < rest.len() implies rest[i].cost
                <= rest[j].cost by {
                let a = if i < at {
                    i
                } else {
                    i + 1
                };
                let b = if j < at {
                    j
                } else {
                    j + 1
                };
                assert(rest[i] == sorted[a] && rest[j] == sorted[b]);
            }
            assert forall|cost: u32| #[trigger] spec_of_cost(rest, cost) == spec_of_cost(
                head,
                cost,
            ) by {
                assert(spec_of_cost(sorted, cost) == spec_of_cost(entries, cost));
                if cost == e.cost {
                    assert(spec_of_cost(entries, cost).drop_last() =~= spec_of_cost(head, cost));
                }
            }
        }
        lemma_stably_sorted_is_sort(rest, head);
        assert forall|k: int| at <= k < rest.len() implies (#[trigger] rest[k]).cost > e.cost by {
            assert(rest[k] == sorted[k + 1]);
            assert(sorted[at].cost <= sorted[k + 1].cost);
            assert(sorted[k + 1].cost != e.cost);
        }
        if at > 0 {
            assert(rest[at - 1] == sorted[at - 1]);
            assert(sorted[at - 1].cost <= sorted[at].cost);
        }
        lemma_insert_by_cost_at(rest, e, at);
        assert(rest.insert(at, e) =~= sorted);
    }
}

/// The syllables of a romanisation as they are written: letters and one digit.
pub open spec fn spec_words_from(text: Seq<u8>, from: int) -> Seq<Seq<u8>> {
    Seq::new(
        spec_syllables_from(text, from).len(),
        |i: int|
            text.subrange(spec_syllables_from(text, from)[i].0, spec_syllables_from(text, from)[i].1),
    )
}

/// The syllables of a romanisation as they are written.
pub open spec fn spec_words(text: Seq<u8>) -> Seq<Seq<u8>> {
    spec_words_from(text, 0)
}

/// A word is one letter or more and then a digit.
pub open spec fn word_wf(word: Seq<u8>) -> bool {
    &&& word.len() >= 2
    &&& spec_is_digit(word.last())
    &&& forall|k: int| 0 <= k < word.len() - 1 ==> spec_is_ascii_letter(#[trigger] word[k])
}

/// Every syllable found is one letter or more and then a digit.
pub proof fn lemma_words_wf(text: Seq<u8>, from: int)
    requires
        0 <= from <= text.len(),
    ensures
        forall|i: int|
            0 <= i < spec_words_from(text, from).len() ==> word_wf(
                #[trigger] spec_words_from(text, from)[i],
            ),
    decreases text.len() - from,
{
    lemma_scan_syllable(text, from, from);
    match spec_next_syllable(text, from) {
        Some((start, end)) => {
            if from < end <= text.len() {
                lemma_words_wf(text, end);
                let ranges = spec_syllables_from(text, from);
                let rest = spec_syllables_from(text, end);
                assert(ranges == seq![(start, end)] + rest);
                let words = spec_words_from(text, from);
                assert forall|i: int| 0 <= i < words.len() implies word_wf(#[trigger] words[i]) by {
                    if i == 0 {
                        let w = text.subrange(start, end);
                        assert(w.last() == text[end - 1]);
                        assert forall|k: int| 0 <= k < w.len() - 1 implies spec_is_ascii_letter(
                            #[trigger] w[k],
                        ) by {
                            assert(w[k] == text[start + k]);
                        }
                    } else {
                        assert(ranges[i] == rest[i - 1]);
                        assert(words[i] == spec_words_from(text, end)[i - 1]);
                    }
                }
            }
        },
        None => {},
    }
}

/// Cuts a romanisation into its syllables.
pub fn split_words<'a>(text: &'a str) -> (words: Vec<&'a str>)
    ensures
        words@.len() == spec_words(text.spec_bytes()).len(),
        forall|i: int|
            0 <= i < words@.len() ==> (#[trigger] words@[i]).spec_bytes() == spec_words(
                text.spec_bytes(),
            )[i],
        forall|i: int| 0 <= i < words@.len() ==> word_wf((#[trigger] words@[i]).spec_bytes()),
{
    let ghost bytes = text.spec_bytes();
    let mut splitter: JyutpingSplitter<'a> = JyutpingSplitter::new(text);
    let mut words: Vec<&'a str> = Vec::new();
    let ghost mut found: Seq<(int, int)> = Seq::empty();
    assert(found + spec_syllables_from(bytes, 0) =~= spec_syllables_from(bytes, 0));
    loop
        invariant
            bytes == text.spec_bytes(),
            splitter.wf(),
            splitter.text() == bytes,
            0 <= splitter.position() <= bytes.len(),
            found + spec_syllables_from(bytes, splitter.position()) == spec_syllables_from(bytes, 0),
            words@.len() == found.len(),
            forall|i: int|
                0 <= i < words@.len() ==> (#[trigger] words@[i]).spec_bytes() == bytes.subrange(
                    found[i].0,
                    found[i].1,
                ),
        decreases bytes.len() - splitter.position(),
    {
        let ghost at = splitter.position();
        proof {
            lemma_scan_syllable(bytes, at, at);
        }
        match splitter.next() {
            Some(word) => {
                let ghost range = (splitter.position() - word.spec_bytes().len(), splitter.position());
                proof {
                    assert(spec_syllables_from(bytes, at) == seq![range] + spec_syllables_from(
                        bytes,
                        range.1,
                    ));
                    assert(found.push(range) + spec_syllables_from(bytes, range.1) =~= found
                        + spec_syllables_from(bytes, at));
                    found = found.push(range);
                }
                words.push(word);
            },
            None => {
                proof {
                    assert(spec_syllables_from(bytes, at) =~= Seq::<(int, int)>::empty());
                    assert(found =~= spec_syllables_from(bytes, 0));
                    lemma_words_wf(bytes, 0);
                    assert forall|i: int| 0 <= i < words@.len() implies (
                    #[trigger] words@[i]).spec_bytes() == spec_words(bytes)[i] && word_wf(
                        words@[i].spec_bytes(),
                    ) by {
                        assert(word_wf(spec_words_from(bytes, 0)[i]));
                    }
                }
                return words;
            },
        }
    }
}

/// The characters of the first `n` entries.
pub open spec fn spec_all_chars(entries: Seq<DictionaryEntry>, n: int) -> Set<char>
    decreases n,
{
    if n <= 0 {
        Set::empty()
    } else {
        spec_all_chars(entries, n - 1).union(entries[n - 1].traditional@.to_set())
    }
}

/// The bases of the words.
pub open spec fn spec_word_bases(words: Seq<Seq<u8>>) -> Seq<Seq<u8>> {
    Seq::new(words.len(), |k: int| spec_base(words[k]))
}

/// The syllable bases of the first `n` entries.
pub open spec fn spec_all_bases(entries: Seq<DictionaryEntry>, n: int) -> Set<Seq<u8>>
    decreases n,
{
    if n <= 0 {
        Set::empty()
    } else {
        spec_all_bases(entries, n - 1).union(
            spec_word_bases(spec_words(text_bytes(entries[n - 1].jyutping@))).to_set(),
        )
    }
}

/// The characters of the entries, each once, in ascending order.
pub fn collect_characters(entries: &Vec<DictionaryEntry>) -> (store: CharacterStore)
    ensures
        chars_strictly_ascending(store.characters@),
        store.characters@.to_set() == spec_all_chars(entries@, entries@.len() as int),
{
    let mut store: CharacterStore = CharacterStore { characters: Vec::new() };
    let mut i: usize = 0;
    assert(store.characters@.to_set() =~= spec_all_chars(entries@, 0));
    while i < entries.len()
        invariant
            i <= entries@.len(),
            chars_strictly_ascending(store.characters@),
            store.characters@.to_set() == spec_all_chars(entries@, i as int),
        decreases entries@.len() - i,
    {
        let text: &str = entries[i].traditional.as_str();
        let ghost before = store.characters@.to_set();
        assert(text@.take(0).to_set() =~= Set::<char>::empty());
        assert(before.union(text@.take(0).to_set()) =~= before);
        for c in it: text.chars()
            invariant
                it.seq() == text@,
                chars_strictly_ascending(store.characters@),
                store.characters@.to_set() == before.union(text@.take(it.index() as int).to_set()),
        {
            let ghost seen = text@.take(it.index() as int);
            let ghost next = text@.take(it.index() + 1);
            store.insert(c);
            proof {
                assert(next =~= seen.push(c));
                assert(next.to_set() =~= seen.to_set().insert(c)) by {
                    assert forall|x: char| next.to_set().contains(x) == seen.to_set().insert(
                        c,
                    ).contains(x) by {
                        if next.contains(x) {
                            let k = choose|k: int| 0 <= k < next.len() && next[k] == x;
                            if k < seen.len() {
                                assert(seen[k] == x);
                            }
                        }
                        if seen.contains(x) {
                            let k = choose|k: int| 0 <= k < seen.len() && seen[k] == x;
                            assert(next[k] == x);
                        }
                        if x == c {
                            assert(next[seen.len() as int] == c);
                        }
                    }
                }
                assert(before.union(seen.to_set()).insert(c) =~= before.union(next.to_set()));
            }
        }
        assert(text@.take(text@.len() as int) =~= text@);
        i += 1;
    }
    store
}

/// Adding an element to a sequence adds it to the set of its elements.
pub proof fn lemma_push_to_set<T>(seen: Seq<T>, x: T)
    ensures
        seen.push(x).to_set() == seen.to_set().insert(x),
{
    let next = seen.push(x);
    assert forall|y: T| next.to_set().contains(y) == seen.to_set().insert(x).contains(y) by {
        if next.contains(y) {
            let k = choose|k: int| 0 <= k < next.len() && next[k] == y;
            if k < seen.len() {
                assert(seen[k] == y);
            }
        }
        if seen.contains(y) {
            let k = choose|k: int| 0 <= k < seen.len() && seen[k] == y;
            assert(next[k] == y);
        }
        if y == x {
            assert(next[seen.len() as int] == x);
        }
    }
    assert(next.to_set() =~= seen.to_set().insert(x));
}

/// The syllable bases of the entries, each once, in ascending order.
pub fn collect_bases(entries: &Vec<DictionaryEntry>) -> (store: JyutpingStore)
    ensures
        bases_strictly_ascending(store@),
        store@.to_set() == spec_all_bases(entries@, entries@.len() as int),
{
    let mut store: JyutpingStore = JyutpingStore { base_strings: Vec::new() };
    let mut i: usize = 0;
    assert(store@.to_set() =~= spec_all_bases(entries@, 0));
    while i < entries.len()
        invariant
            i <= entries@.len(),
            bases_strictly_ascending(store@),
            store@.to_set() == spec_all_bases(entries@, i as int),
        decreases entries@.len() - i,
    {
        let words: Vec<&str> = split_words(entries[i].jyutping.as_str());
        let ghost all = spec_word_bases(spec_words(text_bytes(entries@[i as int].jyutping@)));
        let ghost before = store@.to_set();
        let mut k: usize = 0;
        assert(all.take(0).to_set() =~= Set::<Seq<u8>>::empty());
        assert(before.union(all.take(0).to_set()) =~= before);
        while k < words.len()
            invariant
                all == spec_word_bases(spec_words(text_bytes(entries@[i as int].jyutping@))),
                words@.len() == all.len(),
                forall|j: int|
                    0 <= j < words@.len() ==> spec_base((#[trigger] words@[j]).spec_bytes())
                        == all[j],
                forall|j: int|
                    0 <= j < words@.len() ==> (#[trigger] words@[j]).spec_bytes().len() >= 2,
                k <= words@.len(),
                bases_strictly_ascending(store@),
                store@.to_set() == before.union(all.take(k as int).to_set()),
            decreases words@.len() - k,
        {
            let (base, _) = parse_jyutping_tone(words[k]);
            store.insert(base);
            proof {
                assert(all.take(k + 1) =~= all.take(k as int).push(all[k as int]));
                lemma_push_to_set(all.take(k as int), all[k as int]);
                assert(before.union(all.take(k as int).to_set()).insert(all[k as int])
                    =~= before.union(all.take(k + 1).to_set()));
            }
            k += 1;
        }
        assert(all.take(all.len() as int) =~= all);
        i += 1;
    }
    store
}

/// The ids of the characters of a text, each of which the alphabet holds.
pub fn compile_characters(text: &str, store: &CharacterStore) -> (ids: Vec<u16>)
    requires
        store.wf(),
        forall|k: int| 0 <= k < text@.len() ==> store.characters@.contains(#[trigger] text@[k]),
    ensures
        spec_display_characters(store.characters@, ids@) == text@,
        forall|k: int| 0 <= k < ids@.len() ==> (#[trigger] ids@[k]) < store.characters@.len(),
{
    let mut ids: Vec<u16> = Vec::new();
    assert(spec_display_characters(store.characters@, ids@) =~= text@.take(0));
    for c in it: text.chars()
        invariant
            store.wf(),
            it.seq() == text@,
            forall|k: int| 0 <= k < text@.len() ==> store.characters@.contains(#[trigger] text@[k]),
            ids@.len() == it.index(),
            spec_display_characters(store.characters@, ids@) == text@.take(it.index() as int),
            forall|k: int| 0 <= k < ids@.len() ==> (#[trigger] ids@[k]) < store.characters@.len(),
    {
        assert(it.index() < text@.len());
        let ghost before = ids@;
        let ghost seen = text@.take(it.index() as int);
        assert(store.characters@.contains(text@[it.index() as int]));
        match store.char_to_index(c) {
            Some(id) => {
                ids.push(id);
                proof {
                    let shown = spec_display_characters(store.characters@, ids@);
                    let next = text@.take(it.index() + 1);
                    assert(shown.len() == next.len());
                    assert forall|k: int| 0 <= k < shown.len() implies shown[k] == next[k] by {
                        if k < before.len() {
                            assert(ids@[k] == before[k]);
                            assert(spec_display_characters(store.characters@, before)[k]
                                == seen[k]);
                        }
                    }
                    assert(shown =~= next);
                }
            },
            None => {},
        }
    }
    assert(text@.take(text@.len() as int) =~= text@);
    ids
}

/// The syllables that the words name over the alphabet, which holds the
/// base of each; nothing where a word has a tone above 6.
pub fn compile_syllables(words: &Vec<&str>, store: &JyutpingStore) -> (r: Option<Vec<Jyutping>>)
    requires
        store.wf(),
        forall|k: int| 0 <= k < words@.len() ==> word_wf((#[trigger] words@[k]).spec_bytes()),
        forall|k: int|
            0 <= k < words@.len() ==> store@.contains(
                spec_base((#[trigger] words@[k]).spec_bytes()),
            ),
    ensures
        match r {
            Some(syllables) => {
                &&& syllables@.len() == words@.len()
                &&& forall|k: int|
                    0 <= k < syllables@.len() ==> (#[trigger] syllables@[k]).tone <= 6
                        && syllables@[k].base < store@.len()
                &&& forall|k: int|
                    0 <= k < syllables@.len() ==> spec_written(store@, syllables@, k)
                        == (#[trigger] words@[k]).spec_bytes()
            },
            None => exists|k: int|
                0 <= k < words@.len() && (#[trigger] words@[k]).spec_bytes().last() > 0x36,
        },
{
    let mut syllables: Vec<Jyutping> = Vec::new();
    let mut k: usize = 0;
    while k < words.len()
        invariant
            store.wf(),
            forall|j: int| 0 <= j < words@.len() ==> word_wf((#[trigger] words@[j]).spec_bytes()),
            forall|j: int|
                0 <= j < words@.len() ==> store@.contains(
                    spec_base((#[trigger] words@[j]).spec_bytes()),
                ),
            k <= words@.len(),
            syllables@.len() == k,
            forall|j: int|
                0 <= j < k ==> (#[trigger] syllables@[j]).tone <= 6 && syllables@[j].base
                    < store@.len(),
            forall|j: int|
                0 <= j < k ==> spec_written(store@, syllables@, j) == (
                #[trigger] words@[j]).spec_bytes(),
        decreases words@.len() - k,
    {
        let word: &str = words[k];
        let ghost bytes = word.spec_bytes();
        assert(word_wf(bytes));
        assert(store@.contains(spec_base(bytes)));
        match store.get(word) {
            Some(syllable) => {
                if syllable.tone > 6 {
                    return None;
                }
                let ghost before = syllables@;
                syllables.push(syllable);
                proof {
                    assert(bytes.drop_last().push(bytes.last()) =~= bytes);
                    assert forall|j: int| 0 <= j < k + 1 implies spec_written(
                        store@,
                        syllables@,
                        j,
                    ) == (#[trigger] words@[j]).spec_bytes() by {
                        if j < k {
                            assert(syllables@[j] == before[j]);
                            assert(spec_written(store@, before, j) == words@[j].spec_bytes());
                        }
                    }
                }
            },
            None => {},
        }
        k += 1;
    }
    Some(syllables)
}

/// The definitions of the first `n` entries, one after the other.
pub open spec fn spec_all_definitions(entries: Seq<DictionaryEntry>, n: int) -> Seq<Seq<u8>>
    decreases n,
{
    if n <= 0 {
        Seq::empty()
    } else {
        spec_all_definitions(entries, n - 1) + entries[n - 1].english_sets@
    }
}

/// How many bytes the texts take together.
pub open spec fn spec_bytes_total(texts: Seq<Seq<u8>>) -> int
    decreases texts.len(),
{
    if texts.len() == 0 {
        0
    } else {
        spec_bytes_total(texts.drop_last()) + texts.last().len()
    }
}

/// More texts take at least as many bytes.
pub proof fn lemma_bytes_total_grows(texts: Seq<Seq<u8>>, n: int)
    requires
        0 <= n <= texts.len(),
    ensures
        0 <= spec_bytes_total(texts.take(n)) <= spec_bytes_total(texts),
    decreases texts.len() - n,
{
    if n < texts.len() {
        lemma_bytes_total_grows(texts, n + 1);
        assert(texts.take(n + 1).drop_last() =~= texts.take(n));
        lemma_bytes_total_nonnegative(texts.take(n));
    } else {
        assert(texts.take(n) =~= texts);
        lemma_bytes_total_nonnegative(texts);
    }
}

/// Texts take no fewer than no bytes.
pub proof fn lemma_bytes_total_nonnegative(texts: Seq<Seq<u8>>)
    ensures
        0 <= spec_bytes_total(texts),
    decreases texts.len(),
{
    if texts.len() > 0 {
        lemma_bytes_total_nonnegative(texts.drop_last());
    }
}

/// Where definition `j` ends in a blob that is being filled: where the next
/// one starts, or where the blob ends.
pub open spec fn spec_end_of(data: Seq<u8>, starts: Seq<u32>, j: int) -> int {
    if j + 1 < starts.len() {
        starts[j + 1] as int
    } else {
        data.len() as int
    }
}

/// The blob and its offsets hold the definitions `texts`, one after the
/// other from the start of the blob to its end.
pub open spec fn blob_holds(data: Seq<u8>, starts: Seq<u32>, texts: Seq<Seq<u8>>) -> bool {
    &&& starts.len() == texts.len()
    &&& data.len() == spec_bytes_total(texts)
    &&& data.len() <= u32::MAX
    &&& forall|j: int|
        0 <= j < starts.len() ==> (#[trigger] starts[j]) <= spec_end_of(data, starts, j)
            <= data.len()
    &&& forall|j: int|
        0 <= j < starts.len() ==> data.subrange(starts[j] as int, spec_end_of(data, starts, j))
            == #[trigger] texts[j]
}

/// Puts one definition behind those that the blob holds.
fn append_definition(
    data: &mut Vec<u8>,
    starts: &mut Vec<u32>,
    text: &[u8],
    Ghost(held): Ghost<Seq<Seq<u8>>>,
)
    requires
        blob_holds(old(data)@, old(starts)@, held),
        old(data)@.len() + text@.len() <= u32::MAX,
    ensures
        blob_holds(final(data)@, final(starts)@, held.push(text@)),
{
    let ghost before = data@;
    let ghost before_starts = starts@;
    starts.push(data.len() as u32);
    data.extend_from_slice(text);
    proof {
        let next = held.push(text@);
        assert(data@ =~= before + text@);
        assert(next.drop_last() =~= held);
        assert forall|j: int| 0 <= j < starts@.len() implies (#[trigger] starts@[j])
            <= spec_end_of(data@, starts@, j) <= data@.len() && data@.subrange(
            starts@[j] as int,
            spec_end_of(data@, starts@, j),
        ) == next[j] by {
            if j < before_starts.len() {
                assert(starts@[j] == before_starts[j]);
                assert(spec_end_of(data@, starts@, j) == spec_end_of(before, before_starts, j));
                assert(before_starts[j] <= spec_end_of(before, before_starts, j) <= before.len());
                assert(data@.subrange(starts@[j] as int, spec_end_of(data@, starts@, j))
                    =~= before.subrange(
                    before_starts[j] as int,
                    spec_end_of(before, before_starts, j),
                ));
                assert(next[j] == held[j]);
            } else {
                assert(data@.subrange(before.len() as int, data@.len() as int) =~= text@);
            }
        }
    }
}

/// Puts definitions behind those that the blob holds; nothing is promised of
/// the blob where they do not fit 32 bits, and the answer is no.
fn append_definitions(
    data: &mut Vec<u8>,
    starts: &mut Vec<u32>,
    definitions: &StringVecSet,
    Ghost(held): Ghost<Seq<Seq<u8>>>,
) -> (fit: bool)
    requires
        blob_holds(old(data)@, old(starts)@, held),
    ensures
        fit == (spec_bytes_total(held + definitions@) <= u32::MAX),
        fit ==> blob_holds(final(data)@, final(starts)@, held + definitions@),
{
    let ghost all = held + definitions@;
    let mut k: usize = 0;
    assert(all.take(held.len() as int) =~= held);
    while k < definitions.inner.len()
        invariant
            all == held + definitions@,
            definitions@.len() == definitions.inner@.len(),
            k <= definitions.inner@.len(),
            blob_holds(data@, starts@, all.take(held.len() + k)),
        decreases definitions.inner@.len() - k,
    {
        let text: &[u8] = definitions.inner[k].as_str().as_bytes();
        let ghost now = all.take(held.len() + k);
        proof {
            assert(text@ == definitions@[k as int]);
            assert(all[held.len() + k] == text@);
            assert(all.take(held.len() + k + 1) =~= now.push(text@));
            assert(now.push(text@).drop_last() =~= now);
            lemma_bytes_total_grows(all, held.len() + k + 1);
        }
        if text.len() > 0xffff_ffff - data.len() {
            return false;
        }
        append_definition(data, starts, text, Ghost(now));
        k += 1;
    }
    assert(all.take((held.len() + definitions@.len()) as int) =~= all);
    true
}

/// The flag that names the source of an entry.
pub open spec fn spec_source_flag(source: EntrySource) -> u8 {
    match source {
        EntrySource::CEDict => 0x1u8,
        EntrySource::CCanto => 0x2u8,
    }
}

/// The entry can be stored: it has fewer than 128 characters, fewer than 256
/// syllables, each with a tone of 6 at most, and fewer than 256 definitions.
pub open spec fn entry_fits(e: &DictionaryEntry) -> bool {
    &&& e.traditional@.len() < 128
    &&& spec_words(text_bytes(e.jyutping@)).len() < 256
    &&& forall|k: int|
        0 <= k < spec_words(text_bytes(e.jyutping@)).len() ==> (#[trigger] spec_words(
            text_bytes(e.jyutping@),
        )[k]).last() <= 0x36
    &&& e.english_sets@.len() < 256
}

/// `c` is `e` compiled over the two alphabets, with its definitions from
/// number `first` on.
pub open spec fn entry_compiled(
    c: &CompiledDictionaryEntry,
    e: &DictionaryEntry,
    chars: Seq<char>,
    bases: Seq<Seq<u8>>,
    first: int,
) -> bool {
    &&& spec_display_characters(chars, c.characters@) == e.traditional@
    &&& forall|k: int| 0 <= k < c.characters@.len() ==> (#[trigger] c.characters@[k]) < chars.len()
    &&& c.jyutping@.len() == spec_words(text_bytes(e.jyutping@)).len()
    &&& forall|k: int|
        0 <= k < c.jyutping@.len() ==> (#[trigger] c.jyutping@[k]).tone <= 6 && c.jyutping@[k].base
            < bases.len()
    &&& forall|k: int|
        0 <= k < c.jyutping@.len() ==> spec_written(bases, c.jyutping@, k) == #[trigger] spec_words(
            text_bytes(e.jyutping@),
        )[k]
    &&& c.english_start == first
    &&& c.english_end == first + e.english_sets@.len()
    &&& c.cost == e.cost
    &&& c.flags == spec_source_flag(e.source)
}

/// Compiles one entry and puts its definitions into the blob. Nothing where
/// the entry cannot be stored, or the definitions leave 32 bits.
fn compile_entry(
    entry: &DictionaryEntry,
    characters: &CharacterStore,
    bases: &JyutpingStore,
    data: &mut Vec<u8>,
    starts: &mut Vec<u32>,
    Ghost(held): Ghost<Seq<Seq<u8>>>,
) -> (r: Option<CompiledDictionaryEntry>)
    requires
        characters.wf(),
        bases.wf(),
        forall|k: int|
            0 <= k < entry.traditional@.len() ==> characters.characters@.contains(
                #[trigger] entry.traditional@[k],
            ),
        forall|k: int|
            0 <= k < spec_words(text_bytes(entry.jyutping@)).len() ==> bases@.contains(
                spec_base(#[trigger] spec_words(text_bytes(entry.jyutping@))[k]),
            ),
        blob_holds(old(data)@, old(starts)@, held),
        held.len() < u32::MAX,
    ensures
        match r {
            Some(c) => {
                &&& entry_fits(entry)
                &&& entry_compiled(&c, entry, characters.characters@, bases@, held.len() as int)
                &&& blob_holds(final(data)@, final(starts)@, held + entry.english_sets@)
                &&& (held + entry.english_sets@).len() < u32::MAX
            },
            None => !entry_fits(entry) || spec_bytes_total(held + entry.english_sets@) > u32::MAX
                || (held + entry.english_sets@).len() >= u32::MAX,
        },
{
    let ghost words_spec = spec_words(text_bytes(entry.jyutping@));
    let ids: Vec<u16> = compile_characters(entry.traditional.as_str(), characters);
    if ids.len() >= 128 {
        return None;
    }
    let words: Vec<&str> = split_words(entry.jyutping.as_str());
    if words.len() >= 256 {
        return None;
    }
    proof {
        assert forall|k: int| 0 <= k < words@.len() implies bases@.contains(
            spec_base((#[trigger] words@[k]).spec_bytes()),
        ) by {
            assert(words@[k].spec_bytes() == words_spec[k]);
        }
    }
    let syllables: Vec<Jyutping> = match compile_syllables(&words, bases) {
        Some(syllables) => syllables,
        None => {
            proof {
                let k = choose|k: int|
                    0 <= k < words@.len() && (#[trigger] words@[k]).spec_bytes().last() > 0x36;
                assert(words_spec[k] == words@[k].spec_bytes());
            }
            return None;
        },
    };
    let count: usize = entry.english_sets.inner.len();
    if count >= 256 {
        return None;
    }
    assert(starts@.len() == held.len());
    if count >= 0xffff_ffff - starts.len() {
        return None;
    }
    let english_start: u32 = starts.len() as u32;
    if !append_definitions(data, starts, &entry.english_sets, Ghost(held)) {
        return None;
    }
    let english_end: u32 = starts.len() as u32;
    let flags: u8 = match entry.source {
        EntrySource::CEDict => FLAG_SOURCE_CEDICT,
        EntrySource::CCanto => FLAG_SOURCE_CCCANTO,
    };
    proof {
        assert forall|k: int| 0 <= k < words_spec.len() implies (#[trigger] words_spec[k]).last()
            <= 0x36 by {
            let w = words@[k].spec_bytes();
            assert(w == words_spec[k]);
            assert(word_wf(w));
            assert(spec_written(bases@, syllables@, k) == w);
            assert(syllables@[k].tone <= 6);
            assert(w.last() == (syllables@[k].tone + 0x30) as u8);
        }
        assert forall|k: int| 0 <= k < syllables@.len() implies spec_written(
            bases@,
            syllables@,
            k,
        ) == #[trigger] words_spec[k] by {
            assert(words@[k].spec_bytes() == words_spec[k]);
        }
    }
    Some(
        CompiledDictionaryEntry {
            characters: ids,
            jyutping: syllables,
            english_start,
            english_end,
            cost: entry.cost,
            flags,
        },
    )
}

/// The entries can be stored: they and their definitions are few enough to
/// be counted in 32 bits, the definitions together take no more bytes than
/// 32 bits count, there are no more than 65536 different characters and 8192
/// different syllable bases, none longer than `MAX_BASE_BYTES`, and every
/// entry can be stored.
pub open spec fn entries_fit(entries: Seq<DictionaryEntry>) -> bool {
    &&& entries.len() <= u32::MAX
    &&& spec_all_chars(entries, entries.len() as int).len() <= 0x1_0000
    &&& spec_all_bases(entries, entries.len() as int).len() <= 0x2000
    &&& forall|b: Seq<u8>|
        #[trigger] spec_all_bases(entries, entries.len() as int).contains(b) ==> b.len()
            <= 0xff_ffff
    &&& forall|i: int| 0 <= i < entries.len() ==> entry_fits(#[trigger] &entries[i])
    &&& spec_bytes_total(spec_all_definitions(entries, entries.len() as int)) <= u32::MAX
    &&& spec_all_definitions(entries, entries.len() as int).len() < u32::MAX
}

/// The dictionary holds the entries compiled, in their order: its alphabets
/// hold just their characters and syllable bases, and its blob just their
/// definitions.
pub open spec fn compiled_from(d: &CompiledDictionary, entries: Seq<DictionaryEntry>) -> bool {
    &&& d.character_store.characters@.to_set() == spec_all_chars(entries, entries.len() as int)
    &&& d.jyutping_store@.to_set() == spec_all_bases(entries, entries.len() as int)
    &&& d.entries@.len() == entries.len()
    &&& forall|i: int|
        0 <= i < entries.len() ==> entry_compiled(
            #[trigger] &d.entries@[i],
            &entries[i],
            d.character_store.characters@,
            d.jyutping_store@,
            spec_all_definitions(entries, i).len() as int,
        )
    &&& d.english_data_starts@.len() == spec_all_definitions(entries, entries.len() as int).len()
        + 1
    &&& forall|j: int|
        0 <= j < spec_all_definitions(entries, entries.len() as int).len() ==> d.spec_definition(j)
            == #[trigger] spec_all_definitions(entries, entries.len() as int)[j]
    &&& d.english_data@.len() == spec_bytes_total(
        spec_all_definitions(entries, entries.len() as int),
    )
}

/// The definitions of fewer entries open the definitions of more.
pub proof fn lemma_all_definitions_prefix(entries: Seq<DictionaryEntry>, n: int, more: int)
    requires
        0 <= n <= more,
    ensures
        spec_all_definitions(entries, n).len() <= spec_all_definitions(entries, more).len(),
        spec_all_definitions(entries, more).take(spec_all_definitions(entries, n).len() as int)
            == spec_all_definitions(entries, n),
    decreases more - n,
{
    let small = spec_all_definitions(entries, n);
    let big = spec_all_definitions(entries, more);
    if n < more {
        lemma_all_definitions_prefix(entries, n, more - 1);
        let mid = spec_all_definitions(entries, more - 1);
        assert(big.take(mid.len() as int) =~= mid);
        assert(big.take(small.len() as int) =~= mid.take(small.len() as int));
    } else {
        assert(big.take(small.len() as int) =~= small);
    }
}

/// The characters of an entry are among the characters of the entries up to
/// it, and its syllable bases among theirs.
pub proof fn lemma_entry_in_alphabets(entries: Seq<DictionaryEntry>, i: int, n: int)
    requires
        0 <= i < n,
    ensures
        entries[i].traditional@.to_set().subset_of(spec_all_chars(entries, n)),
        spec_word_bases(spec_words(text_bytes(entries[i].jyutping@))).to_set().subset_of(
            spec_all_bases(entries, n),
        ),
    decreases n,
{
    if i < n - 1 {
        lemma_entry_in_alphabets(entries, i, n - 1);
    }
}

/// Every definition is a text.
pub proof fn lemma_all_definitions_are_text(entries: Seq<DictionaryEntry>, n: int)
    requires
        0 <= n <= entries.len(),
    ensures
        forall|j: int|
            0 <= j < spec_all_definitions(entries, n).len() ==> valid_utf8(
                #[trigger] spec_all_definitions(entries, n)[j],
            ),
    decreases n,
{
    if n > 0 {
        lemma_all_definitions_are_text(entries, n - 1);
        let before = spec_all_definitions(entries, n - 1);
        let here = entries[n - 1].english_sets@;
        assert forall|j: int| 0 <= j < (before + here).len() implies valid_utf8(
            #[trigger] (before + here)[j],
        ) by {
            if j >= before.len() {
                let k = j - before.len();
                assert(here[k] == encode_utf8(entries[n - 1].english_sets.inner@[k]@));
                encode_utf8_valid_utf8(entries[n - 1].english_sets.inner@[k]@);
            }
        }
    }
}

/// A dictionary put together from compiled entries is valid, and its
/// definitions are those of the entries.
proof fn lemma_compiled_is_valid(
    d: &CompiledDictionary,
    entries: Seq<DictionaryEntry>,
    starts: Seq<u32>,
)
    requires
        d.character_store.wf(),
        d.jyutping_store.wf(),
        costs_ascending(entries),
        entries.len() <= u32::MAX,
        d.entries@.len() == entries.len(),
        forall|i: int| 0 <= i < entries.len() ==> entry_fits(#[trigger] &entries[i]),
        forall|i: int|
            0 <= i < entries.len() ==> entry_compiled(
                #[trigger] &d.entries@[i],
                &entries[i],
                d.character_store.characters@,
                d.jyutping_store@,
                spec_all_definitions(entries, i).len() as int,
            ),
        spec_all_definitions(entries, entries.len() as int).len() < u32::MAX,
        blob_holds(d.english_data@, starts, spec_all_definitions(entries, entries.len() as int)),
        d.english_data_starts@ == starts.push(d.english_data@.len() as u32),
    ensures
        d.wf(),
        forall|j: int|
            0 <= j < spec_all_definitions(entries, entries.len() as int).len() ==> d.spec_definition(
                j,
            ) == #[trigger] spec_all_definitions(entries, entries.len() as int)[j],
{
    let n = entries.len() as int;
    let defs = spec_all_definitions(entries, n);
    let data = d.english_data@;
    let all_starts = d.english_data_starts@;
    let model = d@;
    assert(all_starts.len() == defs.len() + 1);
    // The offsets.
    assert forall|j: int| 0 <= j < defs.len() implies all_starts[j] <= all_starts[j + 1]
        && all_starts[j + 1] <= data.len() && d.spec_definition(j) == #[trigger] defs[j] by {
        assert(all_starts[j] == starts[j]);
        assert(spec_end_of(data, starts, j) == all_starts[j + 1] as int);
        assert(starts[j] <= spec_end_of(data, starts, j) <= data.len());
    }
    assert forall|i: int, j: int| 0 <= i <= j < all_starts.len() implies all_starts[i]
        <= all_starts[j] by {
        lemma_steps_ascend(all_starts, i, j);
    }
    assert forall|i: int| 0 <= i < all_starts.len() implies #[trigger] all_starts[i]
        <= data.len() by {
        if i < defs.len() {
            assert(all_starts[i] <= all_starts[i + 1]);
            assert(all_starts[i + 1] <= data.len());
        }
    }
    assert(model.starts_wf());
    // The definitions.
    lemma_all_definitions_are_text(entries, n);
    assert forall|j: int| 0 <= j < all_starts.len() - 1 implies valid_utf8(
        #[trigger] model.definition(j),
    ) by {
        assert(d.spec_definition(j) == defs[j]);
    }
    // The alphabets.
    assert forall|i: int| 0 <= i < model.syllables.len() implies (
    #[trigger] model.syllables[i]).len() <= 0xff_ffff && valid_utf8(model.syllables[i]) by {
        encode_utf8_valid_utf8(d.jyutping_store.base_strings@[i]@);
    }
    // The entries.
    assert forall|i: int| 0 <= i < model.entries.len() implies model.entry_wf(
        #[trigger] model.entries[i],
    ) by {
        let c = d.entries@[i];
        let e = entries[i];
        assert(entry_fits(&entries[i]));
        assert(entry_compiled(
            &d.entries@[i],
            &entries[i],
            d.character_store.characters@,
            d.jyutping_store@,
            spec_all_definitions(entries, i).len() as int,
        ));
        lemma_all_definitions_prefix(entries, i + 1, n);
        assert(spec_all_definitions(entries, i + 1) == spec_all_definitions(entries, i)
            + entries[i].english_sets@);
        assert(c.characters@.len() == e.traditional@.len());
        assert(c.flags % 4 != 0);
    }
    assert(model.entries_chained()) by {
        if n > 0 {
            assert(entry_compiled(
                &d.entries@[0],
                &entries[0],
                d.character_store.characters@,
                d.jyutping_store@,
                spec_all_definitions(entries, 0).len() as int,
            ));
            assert(model.entries[0] == d.entries@[0]@);
        }
        assert forall|i: int| 0 <= i < model.entries.len() - 1 implies (
        #[trigger] model.entries[i]).english_end == model.entries[i + 1].english_start
            && model.entries[i].cost <= model.entries[i + 1].cost by {
            assert(entry_compiled(
                &d.entries@[i],
                &entries[i],
                d.character_store.characters@,
                d.jyutping_store@,
                spec_all_definitions(entries, i).len() as int,
            ));
            assert(entry_compiled(
                &d.entries@[i + 1],
                &entries[i + 1],
                d.character_store.characters@,
                d.jyutping_store@,
                spec_all_definitions(entries, i + 1).len() as int,
            ));
            assert(spec_all_definitions(entries, i + 1) == spec_all_definitions(entries, i)
                + entries[i].english_sets@);
            assert(model.entries[i] == d.entries@[i]@);
            assert(model.entries[i + 1] == d.entries@[i + 1]@);
            assert(entries[i].cost <= entries[i + 1].cost);
        }
    }
}

/// Offsets of which none is above the next one ascend.
proof fn lemma_steps_ascend(starts: Seq<u32>, i: int, j: int)
    requires
        0 <= i <= j < starts.len(),
        forall|k: int| 0 <= k < starts.len() - 1 ==> starts[k] <= #[trigger] starts[k + 1],
    ensures
        starts[i] <= starts[j],
    decreases j - i,
{
    if i < j {
        lemma_steps_ascend(starts, i, j - 1);
        assert(starts[j - 1] <= starts[j - 1 + 1]);
    }
}

/// Every entry can be stored, and so can their definitions together.
pub open spec fn entries_storable(entries: Seq<DictionaryEntry>) -> bool {
    &&& forall|i: int| 0 <= i < entries.len() ==> entry_fits(#[trigger] &entries[i])
    &&& spec_bytes_total(spec_all_definitions(entries, entries.len() as int)) <= u32::MAX
    &&& spec_all_definitions(entries, entries.len() as int).len() < u32::MAX
}

/// The alphabets hold the characters and the syllable bases of every entry.
pub open spec fn alphabets_hold(
    chars: Seq<char>,
    bases: Seq<Seq<u8>>,
    entries: Seq<DictionaryEntry>,
) -> bool {
    &&& forall|i: int, k: int|
        0 <= i < entries.len() && 0 <= k < entries[i].traditional@.len() ==> chars.contains(
            #[trigger] entries[i].traditional@[k],
        )
    &&& forall|i: int, k: int|
        0 <= i < entries.len() && 0 <= k < spec_words(text_bytes(entries[i].jyutping@)).len()
            ==> bases.contains(
            spec_base(#[trigger] spec_words(text_bytes(entries[i].jyutping@))[k]),
        )
}

/// The first `upto` entries are compiled in `compiled`.
pub open spec fn compiled_upto(
    compiled: Seq<CompiledDictionaryEntry>,
    entries: Seq<DictionaryEntry>,
    chars: Seq<char>,
    bases: Seq<Seq<u8>>,
    upto: int,
) -> bool {
    &&& compiled.len() == upto
    &&& forall|j: int| 0 <= j < upto ==> entry_fits(#[trigger] &entries[j])
    &&& forall|j: int|
        0 <= j < upto ==> entry_compiled(
            #[trigger] &compiled[j],
            &entries[j],
            chars,
            bases,
            spec_all_definitions(entries, j).len() as int,
        )
}

/// One more entry compiled is one more of the entries compiled.
proof fn lemma_compiled_one_more(
    before: Seq<CompiledDictionaryEntry>,
    c: CompiledDictionaryEntry,
    entries: Seq<DictionaryEntry>,
    chars: Seq<char>,
    bases: Seq<Seq<u8>>,
    i: int,
)
    requires
        0 <= i < entries.len(),
        compiled_upto(before, entries, chars, bases, i),
        entry_fits(&entries[i]),
        entry_compiled(&c, &entries[i], chars, bases, spec_all_definitions(entries, i).len() as int),
    ensures
        compiled_upto(before.push(c), entries, chars, bases, i + 1),
{
    let after = before.push(c);
    assert forall|j: int| 0 <= j < i + 1 implies entry_compiled(
        #[trigger] &after[j],
        &entries[j],
        chars,
        bases,
        spec_all_definitions(entries, j).len() as int,
    ) by {
        if j < i {
            assert(after[j] == before[j]);
        }
    }
}

/// Where an entry cannot be stored, or the definitions up to it leave 32
/// bits, the entries cannot be stored.
proof fn lemma_not_storable(entries: Seq<DictionaryEntry>, i: int)
    requires
        0 <= i < entries.len(),
        !entry_fits(&entries[i]) || spec_bytes_total(spec_all_definitions(entries, i + 1))
            > u32::MAX || spec_all_definitions(entries, i + 1).len() >= u32::MAX,
    ensures
        !entries_storable(entries),
{
    let n = entries.len() as int;
    lemma_all_definitions_prefix(entries, i + 1, n);
    lemma_bytes_total_grows(
        spec_all_definitions(entries, n),
        spec_all_definitions(entries, i + 1).len() as int,
    );
}

/// Compiles the entries, which are in the order in which they are to stand,
/// over alphabets that hold their characters and syllable bases: the
/// compiled entries, and the blob of their definitions with its offsets, the
/// last offset still to come. Nothing where the entries cannot be stored.
fn compile_entries(
    entries: &Vec<DictionaryEntry>,
    characters: &CharacterStore,
    bases: &JyutpingStore,
) -> (r: Option<(Vec<CompiledDictionaryEntry>, Vec<u8>, Vec<u32>)>)
    requires
        characters.wf(),
        bases.wf(),
        alphabets_hold(characters.characters@, bases@, entries@),
    ensures
        r is Some <==> entries_storable(entries@),
        match r {
            Some((compiled, data, starts)) => {
                &&& compiled_upto(
                    compiled@,
                    entries@,
                    characters.characters@,
                    bases@,
                    entries@.len() as int,
                )
                &&& blob_holds(data@, starts@, spec_all_definitions(entries@, entries@.len() as int))
            },
            None => true,
        },
{
    let ghost sorted = entries@;
    let ghost n = sorted.len() as int;
    let mut compiled: Vec<CompiledDictionaryEntry> = Vec::new();
    let mut english_data: Vec<u8> = Vec::new();
    let mut english_data_starts: Vec<u32> = Vec::new();
    let mut i: usize = 0;
    proof {
        assert(spec_all_definitions(sorted, 0) =~= Seq::<Seq<u8>>::empty());
    }
    while i < entries.len()
        invariant
            sorted == entries@,
            n == sorted.len(),
            characters.wf(),
            bases.wf(),
            alphabets_hold(characters.characters@, bases@, sorted),
            i <= n,
            compiled_upto(compiled@, sorted, characters.characters@, bases@, i as int),
            blob_holds(english_data@, english_data_starts@, spec_all_definitions(sorted, i as int)),
            spec_all_definitions(sorted, i as int).len() < u32::MAX,
        decreases n - i,
    {
        let entry: &DictionaryEntry = &entries[i];
        let ghost held = spec_all_definitions(sorted, i as int);
        let ghost before = compiled@;
        assert(spec_all_definitions(sorted, i + 1) == held + entry.english_sets@);
        match compile_entry(
            entry,
            characters,
            bases,
            &mut english_data,
            &mut english_data_starts,
            Ghost(held),
        ) {
            Some(c) => {
                proof {
                    lemma_compiled_one_more(
                        before,
                        c,
                        sorted,
                        characters.characters@,
                        bases@,
                        i as int,
                    );
                }
                compiled.push(c);
            },
            None => {
                proof {
                    lemma_not_storable(sorted, i as int);
                }
                return None;
            },
        }
        i += 1;
    }
    Some((compiled, english_data, english_data_starts))
}

/// Alphabets that hold the characters and the syllable bases of all entries
/// hold those of each.
proof fn lemma_alphabets_hold(chars: Seq<char>, bases: Seq<Seq<u8>>, entries: Seq<DictionaryEntry>)
    requires
        chars.to_set() == spec_all_chars(entries, entries.len() as int),
        bases.to_set() == spec_all_bases(entries, entries.len() as int),
    ensures
        alphabets_hold(chars, bases, entries),
{
    let n = entries.len() as int;
    assert forall|i: int, k: int|
        0 <= i < entries.len() && 0 <= k < entries[i].traditional@.len() implies chars.contains(
        #[trigger] entries[i].traditional@[k],
    ) by {
        lemma_entry_in_alphabets(entries, i, n);
        assert(entries[i].traditional@.to_set().contains(entries[i].traditional@[k]));
        assert(chars.to_set().contains(entries[i].traditional@[k]));
    }
    assert forall|i: int, k: int|
        0 <= i < entries.len() && 0 <= k < spec_words(
            text_bytes(entries[i].jyutping@),
        ).len() implies bases.contains(
        spec_base(#[trigger] spec_words(text_bytes(entries[i].jyutping@))[k]),
    ) by {
        lemma_entry_in_alphabets(entries, i, n);
        let words = spec_words(text_bytes(entries[i].jyutping@));
        assert(spec_word_bases(words)[k] == spec_base(words[k]));
        assert(spec_word_bases(words).to_set().contains(spec_base(words[k])));
        assert(bases.to_set().contains(spec_base(words[k])));
    }
}

/// The alphabets that hold just what the entries use are valid just where
/// the entries use no more than the alphabets can hold.
proof fn lemma_alphabets_fit(characters: &CharacterStore, bases: &JyutpingStore, entries: Seq<DictionaryEntry>)
    requires
        chars_strictly_ascending(characters.characters@),
        bases_strictly_ascending(bases@),
        characters.characters@.to_set() == spec_all_chars(entries, entries.len() as int),
        bases@.to_set() == spec_all_bases(entries, entries.len() as int),
    ensures
        characters.wf() == (spec_all_chars(entries, entries.len() as int).len() <= 0x1_0000),
        bases.wf() == (spec_all_bases(entries, entries.len() as int).len() <= 0x2000
            && forall|b: Seq<u8>|
            #[trigger] spec_all_bases(entries, entries.len() as int).contains(b) ==> b.len()
                <= 0xff_ffff),
{
    let n = entries.len() as int;
    let store = bases@;
    characters.characters@.unique_seq_to_set();
    assert(store.no_duplicates()) by {
        assert forall|i: int, j: int|
            0 <= i < store.len() && 0 <= j < store.len() && i != j implies store[i]
            != store[j] by {
            crate::validity::lemma_bytes_lt_irreflexive(store[i]);
            if i < j {
                assert(crate::compiled_dictionary::bytes_lt(store[i], store[j]));
            } else {
                assert(crate::compiled_dictionary::bytes_lt(store[j], store[i]));
            }
        }
    }
    store.unique_seq_to_set();
    if bases.wf() {
        assert forall|b: Seq<u8>| #[trigger] spec_all_bases(entries, n).contains(b) implies b.len()
            <= 0xff_ffff by {
            assert(store.to_set().contains(b));
            let i = choose|i: int| 0 <= i < store.len() && store[i] == b;
            assert(store[i].len() <= 0xff_ffff);
        }
    } else if store.len() <= 0x2000 {
        let i = choose|i: int| 0 <= i < store.len() && (#[trigger] store[i]).len() > 0xff_ffff;
        assert(store.to_set().contains(store[i]));
    }
}

impl CompiledDictionary {
    /// Compiles the entries into a dictionary: the entries in ascending
    /// order of cost, entries of equal cost in the order they were given,
    /// over the alphabets of their characters and syllable bases. Nothing
    /// where the entries cannot be stored.
    pub fn try_from_builder(dict: Builder) -> (r: Option<CompiledDictionary>)
        ensures
            r is Some <==> entries_fit(spec_sort_by_cost(dict.entries@)),
            r is Some ==> r.unwrap().wf() && compiled_from(
                &r.unwrap(),
                spec_sort_by_cost(dict.entries@),
            ),
    {
        let mut entries: Vec<DictionaryEntry> = dict.entries;
        sort_by_cost(&mut entries);
        let ghost sorted = entries@;
        proof {
            lemma_stably_sorted_is_sort(sorted, dict.entries@);
            lemma_sort_by_cost(dict.entries@);
        }
        if entries.len() > 0xffff_ffff {
            return None;
        }
        let character_store: CharacterStore = collect_characters(&entries);
        let jyutping_store: JyutpingStore = collect_bases(&entries);
        proof {
            lemma_alphabets_fit(&character_store, &jyutping_store, sorted);
            lemma_alphabets_hold(character_store.characters@, jyutping_store@, sorted);
        }
        if !character_store.is_valid() {
            return None;
        }
        if !jyutping_store.is_valid() {
            return None;
        }
        let (compiled, english_data, starts) = match compile_entries(
            &entries,
            &character_store,
            &jyutping_store,
        ) {
            Some(parts) => parts,
            None => {
                return None;
            },
        };
        let ghost held = starts@;
        let mut english_data_starts: Vec<u32> = starts;
        english_data_starts.push(english_data.len() as u32);
        let dictionary = CompiledDictionary {
            character_store,
            jyutping_store,
            entries: compiled,
            english_data,
            english_data_starts,
        };
        proof {
            lemma_compiled_is_valid(&dictionary, sorted, held);
        }
        Some(dictionary)
    }

    /// Compiles the entries into a dictionary: the entries in ascending
    /// order of cost, entries of equal cost in the order they were given,
    /// over the alphabets of their characters and syllable bases. The entries
    /// must be such as can be stored.
    pub fn from_builder(dict: Builder) -> (d: CompiledDictionary)
        requires
            entries_fit(spec_sort_by_cost(dict.entries@)),
        ensures
            d.wf(),
            compiled_from(&d, spec_sort_by_cost(dict.entries@)),
    {
        match Self::try_from_builder(dict) {
            Some(d) => d,
            None => CompiledDictionary {
                character_store: CharacterStore { characters: Vec::new() },
                jyutping_store: JyutpingStore { base_strings: Vec::new() },
                entries: Vec::new(),
                english_data: Vec::new(),
                english_data_starts: Vec::new(),
            },
        }
    }
}

} // verus!
