//! What a dictionary is built from: entries as texts, with their costs.

use crate::alphabet::{bases_of, find_text, lemma_insert_keeps_ascending};
use crate::compiled_dictionary::{bases_strictly_ascending, bytes_lt};
use crate::{spec_added, EntrySource, StringVecSet};
use vstd::prelude::*;
use vstd::string::*;
use vstd::utf8::*;

verus! {

/// An entry before it is compiled.
#[derive(Debug)]
pub struct DictionaryEntry {
    pub cost: u32,
    pub traditional: String,
    pub jyutping: String,
    pub english_sets: StringVecSet,
    pub source: EntrySource,
}

/// What an entry holds, its texts as bytes.
pub struct EntryContent {
    pub cost: u32,
    pub traditional: Seq<u8>,
    pub jyutping: Seq<u8>,
    pub definitions: Seq<Seq<u8>>,
    pub source: EntrySource,
}

impl DictionaryEntry {
    /// What the entry holds.
    pub open spec fn view(&self) -> EntryContent {
        EntryContent {
            cost: self.cost,
            traditional: encode_utf8(self.traditional@),
            jyutping: encode_utf8(self.jyutping@),
            definitions: self.english_sets@,
            source: self.source,
        }
    }
}

/// The entries that a dictionary is compiled from.
#[derive(Debug)]
pub struct Builder {
    pub entries: Vec<DictionaryEntry>,
}

/// The entry as `readings` annotate it: with the first romanisation noted
/// for its word where one is noted, and as it was where none is.
pub open spec fn spec_annotated(
    before: &DictionaryEntry,
    after: &DictionaryEntry,
    readings: &TextMap,
) -> bool {
    &&& after.cost == before.cost
    &&& after.traditional == before.traditional
    &&& after.english_sets == before.english_sets
    &&& after.source == before.source
    &&& encode_utf8(after.jyutping@) == match readings.spec_get(encode_utf8(before.traditional@)) {
        Some(set) => set[0],
        None => encode_utf8(before.jyutping@),
    }
}

impl Builder {
    /// Gives every entry whose word has romanisations noted the first of them.
    pub fn annotate(&mut self, trad_to_jyutping: &TraditionalToJyutping)
        requires
            trad_to_jyutping.inner.wf(),
            trad_to_jyutping.inner.sets_nonempty(),
        ensures
            final(self).entries@.len() == old(self).entries@.len(),
            forall|i: int|
                0 <= i < final(self).entries@.len() ==> spec_annotated(
                    &old(self).entries@[i],
                    #[trigger] &final(self).entries@[i],
                    &trad_to_jyutping.inner,
                ),
    {
        let mut i: usize = 0;
        while i < self.entries.len()
            invariant
                trad_to_jyutping.inner.wf(),
                trad_to_jyutping.inner.sets_nonempty(),
                self.entries@.len() == old(self).entries@.len(),
                i <= self.entries@.len(),
                forall|j: int|
                    0 <= j < i ==> spec_annotated(
                        &old(self).entries@[j],
                        #[trigger] &self.entries@[j],
                        &trad_to_jyutping.inner,
                    ),
                forall|j: int|
                    i <= j < self.entries@.len() ==> (#[trigger] self.entries@[j]) == old(
                        self,
                    ).entries@[j],
            decreases self.entries@.len() - i,
        {
            if let Some(at) = trad_to_jyutping.inner.find(self.entries[i].traditional.as_str()) {
                assert(trad_to_jyutping.inner.values@[at as int]@.len() > 0);
                let first: String = trad_to_jyutping.inner.values[at].inner[0].clone();
                assert(trad_to_jyutping.inner.values@[at as int]@[0] == encode_utf8(first@));
                self.entries[i].jyutping = first;
            }
            i += 1;
        }
    }
}

/// `needle` stands somewhere in `hay`, byte for byte.
pub open spec fn spec_contains_bytes(hay: Seq<u8>, needle: Seq<u8>) -> bool {
    exists|at: int|
        0 <= at && at + needle.len() <= hay.len() && #[trigger] hay.subrange(
            at,
            at + needle.len(),
        ) == needle
}

/// Whether `needle` stands somewhere in `hay`, byte for byte.
pub fn bytes_contain(hay: &[u8], needle: &[u8]) -> (r: bool)
    ensures
        r == spec_contains_bytes(hay@, needle@),
{
    if needle.len() > hay.len() {
        return false;
    }
    let last: usize = hay.len() - needle.len();
    let mut at: usize = 0;
    while at <= last
        invariant
            last == hay@.len() - needle@.len(),
            hay@.len() <= usize::MAX,
            at <= last + 1,
            forall|k: int| 0 <= k < at ==> #[trigger] hay@.subrange(k, k + needle@.len()) != needle@,
        decreases last + 1 - at,
    {
        let mut k: usize = 0;
        while k < needle.len() && hay[at + k] == needle[k]
            invariant
                at + needle@.len() <= hay@.len() <= usize::MAX,
                k <= needle@.len(),
                forall|j: int| 0 <= j < k ==> hay@[at + j] == needle@[j],
            decreases needle@.len() - k,
        {
            k += 1;
        }
        if k == needle.len() {
            assert(hay@.subrange(at as int, at + needle@.len()) =~= needle@);
            return true;
        }
        assert(hay@.subrange(at as int, at + needle@.len())[k as int] != needle@[k as int]);
        if at == last {
            return false;
        }
        at += 1;
    }
    false
}

/// One of the needles stands in one of the haystacks.
pub open spec fn spec_matches_terms(needles: Seq<Seq<u8>>, haystacks: Seq<Seq<u8>>) -> bool {
    exists|n: int, h: int|
        0 <= n < needles.len() && 0 <= h < haystacks.len() && spec_contains_bytes(
            #[trigger] haystacks[h],
            #[trigger] needles[n],
        )
}

/// The texts as byte strings.
pub open spec fn strs_bytes(texts: Seq<&str>) -> Seq<Seq<u8>> {
    Seq::new(texts.len(), |i: int| texts[i].spec_bytes())
}

/// Whether one of the needles stands in one of the haystacks.
pub fn matches_terms(needles: &[&str], heystacks: &[String]) -> (r: bool)
    ensures
        r == spec_matches_terms(strs_bytes(needles@), bases_of(heystacks@)),
{
    let ghost ns = strs_bytes(needles@);
    let ghost hs = bases_of(heystacks@);
    let mut n: usize = 0;
    while n < needles.len()
        invariant
            ns == strs_bytes(needles@),
            hs == bases_of(heystacks@),
            n <= needles@.len(),
            forall|i: int, h: int|
                0 <= i < n && 0 <= h < hs.len() ==> !spec_contains_bytes(
                    #[trigger] hs[h],
                    #[trigger] ns[i],
                ),
        decreases needles@.len() - n,
    {
        let needle: &[u8] = needles[n].as_bytes();
        assert(needle@ == ns[n as int]);
        let mut h: usize = 0;
        while h < heystacks.len()
            invariant
                ns == strs_bytes(needles@),
                hs == bases_of(heystacks@),
                n < needles@.len(),
                needle@ == ns[n as int],
                h <= heystacks@.len(),
                forall|j: int| 0 <= j < h ==> !spec_contains_bytes(#[trigger] hs[j], ns[n as int]),
            decreases heystacks@.len() - h,
        {
            let hay: &[u8] = heystacks[h].as_str().as_bytes();
            assert(hay@ == hs[h as int]);
            if bytes_contain(hay, needle) {
                return true;
            }
            h += 1;
        }
        n += 1;
    }
    false
}

/// The cost that the wording of the definitions adds to an entry: for an
/// abbreviation, for the lack of a measure word, for a surname, for the lack
/// of a mark that the word is Cantonese, and for words of the classics.
pub open spec fn spec_cost_heuristic(definitions: Seq<Seq<u8>>) -> int {
    (if spec_matches_terms(seq!["abbr.".spec_bytes()], definitions) {
        5000int
    } else {
        0int
    }) + (if !spec_matches_terms(seq!["M:".spec_bytes(), "CL:".spec_bytes()], definitions) {
        5000int
    } else {
        0int
    }) + (if spec_matches_terms(
        seq!["Surname".spec_bytes(), "surname".spec_bytes()],
        definitions,
    ) {
        2000int
    } else {
        0int
    }) + (if !spec_matches_terms(seq!["(Cantonese)".spec_bytes()], definitions) {
        2000int
    } else {
        0int
    }) + (if spec_matches_terms(seq!["Confucius".spec_bytes()], definitions) {
        5000int
    } else {
        0int
    }) + (if spec_matches_terms(
        seq!["Dynasty".spec_bytes(), "Dynasties".spec_bytes()],
        definitions,
    ) {
        5000int
    } else {
        0int
    }) + (if spec_matches_terms(seq!["(Buddhism)".spec_bytes()], definitions) {
        5000int
    } else {
        0int
    })
}

/// Whether one of one or two needles stands in one of the definitions.
fn matches_either(first: &str, second: &str, definitions: &[String]) -> (r: bool)
    ensures
        r == spec_matches_terms(
            seq![first.spec_bytes(), second.spec_bytes()],
            bases_of(definitions@),
        ),
        first.spec_bytes() == second.spec_bytes() ==> r == spec_matches_terms(
            seq![first.spec_bytes()],
            bases_of(definitions@),
        ),
{
    let mut needles: Vec<&str> = Vec::new();
    needles.push(first);
    needles.push(second);
    let r: bool = matches_terms(needles.as_slice(), definitions);
    proof {
        let two = seq![first.spec_bytes(), second.spec_bytes()];
        let one = seq![first.spec_bytes()];
        let hs = bases_of(definitions@);
        assert(strs_bytes(needles@) =~= two);
        if first.spec_bytes() == second.spec_bytes() {
            if spec_matches_terms(two, hs) {
                let (n, h) = choose|n: int, h: int|
                    0 <= n < two.len() && 0 <= h < hs.len() && spec_contains_bytes(
                        #[trigger] hs[h],
                        #[trigger] two[n],
                    );
                assert(spec_contains_bytes(hs[h], one[0]));
            }
            if spec_matches_terms(one, hs) {
                let (n, h) = choose|n: int, h: int|
                    0 <= n < one.len() && 0 <= h < hs.len() && spec_contains_bytes(
                        #[trigger] hs[h],
                        #[trigger] one[n],
                    );
                assert(spec_contains_bytes(hs[h], two[0]));
            }
        }
    }
    r
}

/// The cost that the wording of the definitions adds to an entry.
pub fn cost_heuristic(english_definitions: &[String]) -> (cost: u32)
    ensures
        cost as int == spec_cost_heuristic(bases_of(english_definitions@)),
{
    let mut cost: u32 = 0;
    if matches_either("abbr.", "abbr.", english_definitions) {
        cost += 5000;
    }
    if !matches_either("M:", "CL:", english_definitions) {
        cost += 5000;
    }
    if matches_either("Surname", "surname", english_definitions) {
        cost += 2000;
    }
    if !matches_either("(Cantonese)", "(Cantonese)", english_definitions) {
        cost += 2000;
    }
    if matches_either("Confucius", "Confucius", english_definitions) {
        cost += 5000;
    }
    if matches_either("Dynasty", "Dynasties", english_definitions) {
        cost += 5000;
    }
    if matches_either("(Buddhism)", "(Buddhism)", english_definitions) {
        cost += 5000;
    }
    cost
}

/// Sets of texts by key, the keys in ascending order of their bytes.
#[derive(Debug)]
pub struct TextMap {
    pub keys: Vec<String>,
    pub values: Vec<StringVecSet>,
}

impl TextMap {
    /// The keys are strictly ascending, and each has its set.
    pub open spec fn wf(&self) -> bool {
        &&& bases_strictly_ascending(bases_of(self.keys@))
        &&& self.keys@.len() == self.values@.len()
    }

    /// No set is empty.
    pub open spec fn sets_nonempty(&self) -> bool {
        forall|i: int| 0 <= i < self.values@.len() ==> (#[trigger] self.values@[i])@.len() > 0
    }

    /// The set of `key`, where there is one.
    pub open spec fn spec_get(&self, key: Seq<u8>) -> Option<Seq<Seq<u8>>> {
        if bases_of(self.keys@).contains(key) {
            Some(self.values@[bases_of(self.keys@).index_of(key)]@)
        } else {
            None
        }
    }

    /// A map without keys.
    pub fn new() -> (map: Self)
        ensures
            map.wf(),
            map.sets_nonempty(),
            map.keys@.len() == 0,
    {
        TextMap { keys: Vec::new(), values: Vec::new() }
    }

    /// Where the set of `key` stands, where there is one.
    pub fn find(&self, key: &str) -> (r: Option<usize>)
        requires
            self.wf(),
        ensures
            match r {
                Some(at) => at < self.keys@.len() && bases_of(self.keys@)[at as int]
                    == key.spec_bytes() && self.spec_get(key.spec_bytes()) == Some(
                    self.values@[at as int]@,
                ),
                None => self.spec_get(key.spec_bytes()) is None,
            },
    {
        let (found, at) = find_text(&self.keys, key.as_bytes());
        if found {
            proof {
                self.lemma_index_of(at as int);
            }
            Some(at)
        } else {
            None
        }
    }

    /// A key stands at one place only.
    pub proof fn lemma_index_of(&self, at: int)
        requires
            self.wf(),
            0 <= at < self.keys@.len(),
        ensures
            bases_of(self.keys@).contains(bases_of(self.keys@)[at]),
            bases_of(self.keys@).index_of(bases_of(self.keys@)[at]) == at,
    {
        let keys = bases_of(self.keys@);
        let other = keys.index_of(keys[at]);
        assert(keys.contains(keys[at]));
        assert(keys[other] == keys[at]);
        crate::validity::lemma_bytes_lt_irreflexive(keys[at]);
        if other < at {
            assert(bytes_lt(keys[other], keys[at]));
        } else if at < other {
            assert(bytes_lt(keys[at], keys[other]));
        }
    }

    /// Puts `val` into the set of `key`, which is made where there is none.
    pub fn add(&mut self, key: &str, val: &str)
        requires
            old(self).wf(),
        ensures
            final(self).wf(),
            final(self).spec_get(key.spec_bytes()) == Some(
                match old(self).spec_get(key.spec_bytes()) {
                    Some(set) => spec_added(set, val.spec_bytes()),
                    None => seq![val.spec_bytes()],
                },
            ),
            forall|other: Seq<u8>|
                other != key.spec_bytes() ==> final(self).spec_get(other) == old(self).spec_get(
                    other,
                ),
            old(self).sets_nonempty() ==> final(self).sets_nonempty(),
    {
        let ghost keys = bases_of(self.keys@);
        let ghost w = key.spec_bytes();
        let (found, at) = find_text(&self.keys, key.as_bytes());
        if found {
            let ghost before = *self;
            let mut set: StringVecSet = StringVecSet { inner: Vec::new() };
            core::mem::swap(&mut set, &mut self.values[at]);
            set.add_clone(val);
            core::mem::swap(&mut set, &mut self.values[at]);
            proof {
                before.lemma_index_of(at as int);
                self.lemma_index_of(at as int);
                assert forall|other: Seq<u8>| other != w implies self.spec_get(other)
                    == before.spec_get(other) by {
                    if keys.contains(other) {
                        let i = keys.index_of(other);
                        assert(keys[i] == other);
                        assert(i != at);
                    }
                }
            }
        } else {
            let ghost before = *self;
            self.keys.insert(at, key.to_owned());
            self.values.insert(at, StringVecSet::single(val.to_owned()));
            proof {
                let after = bases_of(self.keys@);
                assert(after =~= keys.insert(at as int, w));
                lemma_insert_keeps_ascending(keys, at as int, w);
                self.lemma_index_of(at as int);
                assert forall|other: Seq<u8>| other != w implies self.spec_get(other)
                    == before.spec_get(other) by {
                    if keys.contains(other) {
                        let i = keys.index_of(other);
                        assert(keys[i] == other);
                        before.lemma_index_of(i);
                        let j = if i < at {
                            i
                        } else {
                            i + 1
                        };
                        assert(after[j] == other);
                        self.lemma_index_of(j);
                    } else if after.contains(other) {
                        let j = choose|j: int| 0 <= j < after.len() && after[j] == other;
                        if j < at {
                            assert(keys[j] == other);
                        } else if j > at {
                            assert(keys[j - 1] == other);
                        }
                    }
                }
            }
        }
    }
}

/// The romanisations of words, and the words of romanisations.
#[derive(Debug)]
pub struct TraditionalToJyutping {
    pub inner: TextMap,
    pub reverse: TextMap,
}

impl TraditionalToJyutping {
    /// A table that holds nothing.
    pub fn new() -> (table: Self)
        ensures
            table.inner.wf(),
            table.reverse.wf(),
            table.inner.sets_nonempty(),
            table.reverse.sets_nonempty(),
            table.inner.keys@.len() == 0,
            table.reverse.keys@.len() == 0,
    {
        TraditionalToJyutping { inner: TextMap::new(), reverse: TextMap::new() }
    }

    /// Notes that `chars` is read `jyutping`, both ways.
    pub fn add(&mut self, chars: &str, jyutping: &str)
        requires
            old(self).inner.wf(),
            old(self).reverse.wf(),
        ensures
            final(self).inner.wf(),
            final(self).reverse.wf(),
            final(self).inner.spec_get(chars.spec_bytes()) == Some(
                match old(self).inner.spec_get(chars.spec_bytes()) {
                    Some(set) => spec_added(set, jyutping.spec_bytes()),
                    None => seq![jyutping.spec_bytes()],
                },
            ),
            final(self).reverse.spec_get(jyutping.spec_bytes()) == Some(
                match old(self).reverse.spec_get(jyutping.spec_bytes()) {
                    Some(set) => spec_added(set, chars.spec_bytes()),
                    None => seq![chars.spec_bytes()],
                },
            ),
            forall|other: Seq<u8>|
                other != chars.spec_bytes() ==> final(self).inner.spec_get(other) == old(
                    self,
                ).inner.spec_get(other),
            forall|other: Seq<u8>|
                other != jyutping.spec_bytes() ==> final(self).reverse.spec_get(other) == old(
                    self,
                ).reverse.spec_get(other),
            old(self).inner.sets_nonempty() ==> final(self).inner.sets_nonempty(),
            old(self).reverse.sets_nonempty() ==> final(self).reverse.sets_nonempty(),
    {
        self.inner.add(chars, jyutping);
        self.reverse.add(jyutping, chars);
    }
}

impl Default for Builder {
    /// A builder without entries.
    fn default() -> (builder: Self)
        ensures
            builder.entries@ == Seq::<DictionaryEntry>::empty(),
    {
        Builder { entries: Vec::new() }
    }
}

impl Default for TextMap {
    /// A map without keys.
    fn default() -> (map: Self)
        ensures
            map.wf(),
            map.sets_nonempty(),
            map.keys@.len() == 0,
    {
        TextMap::new()
    }
}

impl Default for TraditionalToJyutping {
    /// A table that holds nothing.
    fn default() -> (table: Self)
        ensures
            table.inner.wf(),
            table.reverse.wf(),
            table.inner.sets_nonempty(),
            table.reverse.sets_nonempty(),
    {
        TraditionalToJyutping::new()
    }
}

} // verus!
