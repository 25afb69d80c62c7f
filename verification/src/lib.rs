//! Cantonese–English dictionary search: a compact binary index and the
//! query engine that runs over it, with machine-checked contracts.


pub mod alphabet;
pub mod builder;
pub mod case_folding;
pub mod compile;
pub mod compiled_dictionary;
pub mod data_reader;
pub mod data_writer;
pub mod deserialization;
pub mod endian;
pub mod exact_match;
pub mod format;
pub mod jyutping_splitter;
pub mod reconstruct_match;
pub mod renderable;
pub mod rendered_result;
pub mod search;
pub mod source_text;
pub mod sources;
pub mod serialization;
pub mod string_search;
pub mod text;
pub mod validity;
pub mod vbyte;

use crate::string_search::{bytes_eq_ignore_case, seq_eq_ci};
use std::time::{Duration, Instant};
use vstd::prelude::*;
use vstd::string::*;
use vstd::utf8::*;

verus! {

/// A point in time as the standard library measures it.
#[verifier::external_type_specification]
#[verifier::external_body]
pub struct ExInstant(Instant);

/// `std::time::Instant::now`: the present moment, of which nothing is known.
#[verifier::external_body]
fn instant_now() -> (now: Instant) {
    Instant::now()
}

/// `std::time::Instant::duration_since`: the time that passed from `start`
/// to `now`, of which nothing is known.
#[verifier::external_body]
fn duration_between(now: &Instant, start: &Instant) -> (passed: Duration) {
    now.duration_since(*start)
}

/// `std::time::Duration::as_millis`: the whole milliseconds of the span, of
/// which nothing is known.
#[verifier::external_body]
fn whole_millis(passed: &Duration) -> (ms: u128) {
    passed.as_millis()
}

/// A clock that starts when it is made.
pub struct NativeStopwatch {
    start: Instant,
}

impl NativeStopwatch {
    /// Starts a clock.
    pub fn new() -> Self {
        Self { start: instant_now() }
    }
}

impl Stopwatch for NativeStopwatch {
    /// Milliseconds gone by since the clock was started, cut to 32 bits.
    fn elapsed_ms(&self) -> i32 {
        let now: Instant = instant_now();
        let passed: Duration = duration_between(&now, &self.start);
        whole_millis(&passed) as i32
    }
}

/// Texts in the order in which they came, none twice when case is not
/// regarded.
#[derive(Debug, Clone)]
pub struct StringVecSet {
    pub inner: Vec<String>,
}

/// One of `texts` is `x` but for ASCII case.
pub open spec fn holds_folded(texts: Seq<Seq<u8>>, x: Seq<u8>) -> bool {
    exists|i: int| 0 <= i < texts.len() && seq_eq_ci(#[trigger] texts[i], x)
}

/// `texts` with `x` behind them, unless one of them is `x` but for case.
pub open spec fn spec_added(texts: Seq<Seq<u8>>, x: Seq<u8>) -> Seq<Seq<u8>> {
    if holds_folded(texts, x) {
        texts
    } else {
        texts.push(x)
    }
}

/// `texts` with the first `n` of `more` added one by one.
pub open spec fn spec_extended(texts: Seq<Seq<u8>>, more: Seq<Seq<u8>>, n: int) -> Seq<Seq<u8>>
    decreases n,
{
    if n <= 0 {
        texts
    } else {
        spec_added(spec_extended(texts, more, n - 1), more[n - 1])
    }
}

impl StringVecSet {
    /// The texts as byte strings.
    pub open spec fn view(&self) -> Seq<Seq<u8>> {
        Seq::new(self.inner@.len(), |i: int| encode_utf8(self.inner@[i]@))
    }

    /// A set of one text.
    pub fn single(x: String) -> (set: Self)
        ensures
            set@ == seq![encode_utf8(x@)],
    {
        let mut inner: Vec<String> = Vec::new();
        inner.push(x);
        let set = Self { inner };
        assert(set@ =~= seq![encode_utf8(x@)]);
        set
    }

    /// Whether the set holds `x`, case not regarded.
    pub fn contains(&self, x: &str) -> (held: bool)
        ensures
            held == holds_folded(self@, x.spec_bytes()),
    {
        let mut i: usize = 0;
        while i < self.inner.len()
            invariant
                i <= self.inner@.len(),
                forall|k: int| 0 <= k < i ==> !seq_eq_ci(#[trigger] self@[k], x.spec_bytes()),
            decreases self.inner@.len() - i,
        {
            if bytes_eq_ignore_case(self.inner[i].as_str().as_bytes(), x.as_bytes()) {
                assert(seq_eq_ci(self@[i as int], x.spec_bytes()));
                return true;
            }
            i += 1;
        }
        false
    }

    /// Puts a copy of `val` into the set, unless the set holds it.
    pub fn add_clone(&mut self, val: &str)
        ensures
            final(self)@ == spec_added(old(self)@, val.spec_bytes()),
    {
        if !self.contains(val) {
            self.inner.push(val.to_owned());
            assert(self@ =~= old(self)@.push(val.spec_bytes()));
        }
    }

    /// Puts `val` into the set, unless the set holds it.
    pub fn add(&mut self, val: String)
        ensures
            final(self)@ == spec_added(old(self)@, encode_utf8(val@)),
    {
        if !self.contains(val.as_str()) {
            let ghost bytes = encode_utf8(val@);
            self.inner.push(val);
            assert(self@ =~= old(self)@.push(bytes));
        }
    }

    /// Puts the texts of `other` into the set one by one.
    pub fn extend(&mut self, other: StringVecSet)
        ensures
            final(self)@ == spec_extended(old(self)@, other@, other@.len() as int),
    {
        let mut i: usize = 0;
        while i < other.inner.len()
            invariant
                i <= other.inner@.len(),
                self@ == spec_extended(old(self)@, other@, i as int),
            decreases other.inner@.len() - i,
        {
            assert(other@[i as int] == encode_utf8(other.inner@[i as int]@));
            self.add_clone(other.inner[i].as_str());
            i += 1;
        }
    }
}

/// A clock that a search reads at its checkpoints.
pub trait Stopwatch {
    /// Milliseconds gone by since the clock was started.
    fn elapsed_ms(&self) -> i32;
}

/// A sink for diagnostic lines.
pub trait DebugLogger {
    /// Takes a line of information.
    fn log(&self, logline: &str);

    /// Takes a line that tells of an error.
    fn log_error(&self, logline: &str);
}

/// A stretch of a byte buffer that holds a text.
#[derive(Debug, Clone, Copy)]
pub struct OffsetString {
    pub start: u32,
    pub len: u32,
}

/// The source file that an entry was taken from.
#[derive(Debug, Clone, Copy, PartialEq, Eq, Structural)]
pub enum EntrySource {
    CEDict,
    CCanto,
}

impl Default for StringVecSet {
    /// A set without texts.
    fn default() -> (set: Self)
        ensures
            set@ == Seq::<Seq<u8>>::empty(),
    {
        let set = StringVecSet { inner: Vec::new() };
        assert(set@ =~= Seq::<Seq<u8>>::empty());
        set
    }
}

} // verus!
