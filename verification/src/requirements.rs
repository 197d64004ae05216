//! The requirements of a manifest: every logical line, stripped of its
//! trivia and parsed as a PEP 508 requirement.

use pep508_rs::{Pep508Error, Requirement};
use std::ops::Deref;
use std::str::FromStr;
use vstd::prelude::*;
use vstd::string::StringSliceAdditionalSpecFns;
use vstd::utf8::*;

use crate::lines::{logical_lines, RequirementsIterator};
use crate::trivia::clean_span;

verus! {

broadcast use vstd::utf8::group_utf8_lib;

/// `pep508_rs::Requirement`, a parsed requirement. Nothing is known of
/// what it holds.
#[verifier::external_type_specification]
#[verifier::external_body]
pub struct ExRequirement(Requirement);

/// `pep508_rs::Pep508Error`, the reason why a text is no requirement.
/// Nothing is known of what it holds.
#[verifier::external_type_specification]
#[verifier::external_body]
pub struct ExPep508Error(Pep508Error);

/// What `pep508_rs` makes of the requirement `specifier`: the requirement
/// it stands for, or the reason why it stands for none.
pub uninterp spec fn parsed_requirement(specifier: Seq<char>) -> Result<Requirement, Pep508Error>;

/// `<pep508_rs::Requirement as FromStr>::from_str` parses `input` and reads
/// nothing else: no file, no environment, no clock. Its result is therefore
/// a function of the characters of `input`, which `parsed_requirement`
/// names. Which texts parse, and to what, is not claimed.
pub assume_specification[ <Requirement as FromStr>::from_str ](input: &str) -> (parsed: Result<
    Requirement,
    <Requirement as FromStr>::Err,
>)
    ensures
        parsed == parsed_requirement(input@),
;

/// The text of the requirement in the logical line `line`: the line up to
/// its clean span.
pub open spec fn requirement_text(line: Seq<u8>) -> Seq<char> {
    decode_utf8(line.take(clean_span(line)))
}

/// The requirement texts of a manifest, one for each logical line, in
/// order.
pub open spec fn requirement_texts(manifest: Seq<u8>) -> Seq<Seq<char>> {
    logical_lines(manifest).map_values(|line: Seq<u8>| requirement_text(line))
}

/// True when `entries` holds, in order, what each of `texts` parses to.
pub open spec fn all_parsed(texts: Seq<Seq<char>>, entries: Seq<Requirement>) -> bool {
    &&& entries.len() == texts.len()
    &&& forall|i: int|
        0 <= i < texts.len() ==> parsed_requirement(#[trigger] texts[i]) == Ok::<
            Requirement,
            Pep508Error,
        >(entries[i])
}

/// True when `texts[at]` is the first text that does not parse, and fails
/// with `error`.
pub open spec fn first_failure(texts: Seq<Seq<char>>, at: int, error: Pep508Error) -> bool {
    &&& 0 <= at < texts.len()
    &&& parsed_requirement(texts[at]) == Err::<Requirement, Pep508Error>(error)
    &&& forall|j: int| 0 <= j < at ==> parsed_requirement(#[trigger] texts[j]) is Ok
}

/// The requirements of a manifest, in the order of its lines.
#[derive(Debug)]
pub struct Requirements(Vec<Requirement>);

impl View for Requirements {
    type V = Seq<Requirement>;

    closed spec fn view(&self) -> Seq<Requirement> {
        self.0@
    }
}

impl Requirements {
    /// The collection without entries.
    pub fn new() -> (r: Self)
        ensures
            r@ == Seq::<Requirement>::empty(),
    {
        Requirements(Vec::new())
    }

    /// The collection with one more line taken in: with the requirement
    /// added at the end where the line parsed, and given up for the
    /// error where it did not.
    pub fn with_parsed(self, parsed: Result<Requirement, Pep508Error>) -> (r: Result<
        Self,
        Pep508Error,
    >)
        ensures
            match parsed {
                Ok(requirement) => r matches Ok(longer) && longer@ == self@.push(requirement),
                Err(error) => r == Err::<Self, Pep508Error>(error),
            },
    {
        match parsed {
            Ok(requirement) => {
                let mut entries = self.0;
                entries.push(requirement);
                Ok(Requirements(entries))
            },
            Err(error) => Err(error),
        }
    }
}

impl Deref for Requirements {
    type Target = [Requirement];

    /// The requirements as a slice, in the order of the manifest.
    fn deref(&self) -> (entries: &[Requirement])
        ensures
            entries@ == self@,
    {
        self.0.as_slice()
    }
}

impl FromStr for Requirements {
    type Err = Pep508Error;

    /// Parses a manifest: every logical line, stripped of its trivia, is
    /// a requirement. The first line that is none fails the whole
    /// manifest with its error.
    fn from_str(s: &str) -> (r: Result<Self, Pep508Error>)
        ensures
            match r {
                Ok(requirements) => all_parsed(
                    requirement_texts(s.spec_bytes()),
                    requirements@,
                ),
                Err(error) => exists|at: int|
                    first_failure(requirement_texts(s.spec_bytes()), at, error),
            },
    {
        let ghost lines = logical_lines(s.spec_bytes());
        let ghost texts = requirement_texts(s.spec_bytes());
        let mut cursor = RequirementsIterator::new(s);
        let mut requirements = Requirements::new();
        assert(cursor.rest() =~= s.spec_bytes());
        loop
            invariant
                lines == logical_lines(s.spec_bytes()),
                texts == requirement_texts(s.spec_bytes()),
                0 <= requirements@.len() <= lines.len(),
                cursor.remaining() == lines.skip(requirements@.len() as int),
                all_parsed(texts.take(requirements@.len() as int), requirements@),
            decreases cursor.remaining().len(),
        {
            let ghost done = requirements@.len() as int;
            let ghost before = cursor.remaining();
            match cursor.next() {
                None => {
                    assert(texts.take(done) =~= texts);
                    return Ok(requirements);
                },
                Some(line) => {
                    assert(line.spec_bytes() == before[0]);
                    assert(lines.skip(done).drop_first() =~= lines.skip(done + 1));
                    let text = line.as_str();
                    match requirements.with_parsed(Requirement::from_str(text)) {
                        Ok(longer) => {
                            requirements = longer;
                        },
                        Err(error) => {
                            assert(first_failure(texts, done, error)) by {
                                assert forall|j: int| 0 <= j < done implies parsed_requirement(
                                    #[trigger] texts[j],
                                ) is Ok by {
                                    assert(texts.take(done)[j] == texts[j]);
                                }
                            }
                            return Err(error);
                        },
                    }
                },
            }
        }
    }
}

} // verus!
