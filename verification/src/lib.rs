//! Turns a colour scheme whose slots may link to one another into one in which
//! every slot holds a literal colour.
//!
//! A scheme passes through two stages. Linking merges the sections of a raw
//! scheme into one namespace of slots and tells colours from links; resolving
//! follows every link to the colour at its end, or reports the links that lead
//! nowhere.
//!
//! The code of the two stages is in [`messy`] and [`resolve`], on top of the
//! ordered map of [`ordered`]. What the stages compute is stated on sequences
//! of pairs: [`assoc`] holds the operations of an ordered map, [`model`] the
//! steps of a resolution, and [`chain`] the meaning of a scheme, which knows
//! nothing of steps. That the steps give every slot what the meaning asks for
//! is proved in [`soundness`], and that the errors of a failed resolution are
//! right is proved in [`reports`]; [`text`] says what names and errors look
//! like when they are printed.

pub mod assoc;
pub mod chain;
pub mod messy;
pub mod model;
pub mod ordered;
pub mod reports;
pub mod resolve;
pub mod soundness;
pub mod text;

pub use crate::messy::{LinkedScheme, MessyScheme};
pub use crate::resolve::ResolvedScheme;

use crate::assoc::Entries;
use crate::messy::{empty_keys, error_keys, lemma_empty_keys, merged, raw_entries};
use crate::model::{resolution, Failure};
use crate::resolve::{color_names, failures_view};
use itertools::Itertools;
use vstd::prelude::*;

verus! {

/// What a scheme says of itself. It is carried through unchanged.
#[derive(Clone, Debug)]
pub struct Metadata {
    pub name: String,
    pub author: String,
    pub description: Option<String>,
}

/// A literal colour, such as `#ff0000`.
#[derive(Debug, PartialEq, Eq, PartialOrd, Ord, Hash)]
pub struct Color(pub String);

/// The name of a slot.
#[derive(Debug, PartialEq, Eq, PartialOrd, Ord, Hash)]
pub struct SlotName(pub String);

/// Several slot names, in a fixed order.
#[derive(Debug, PartialEq, Eq, PartialOrd, Ord, Hash)]
pub struct MultipleSlotNames(pub Vec<SlotName>);

/// What a slot holds before resolution.
#[derive(Debug)]
pub enum Value {
    /// A literal colour.
    Contains(Color),
    /// The colour of another slot, whatever that turns out to be.
    LinkedTo(SlotName),
}

/// What a slot holds before resolution, as mathematical data.
pub ghost enum Link {
    Contains(Seq<char>),
    LinkedTo(Seq<char>),
}

impl View for Color {
    type V = Seq<char>;

    open spec fn view(&self) -> Seq<char> {
        self.0@
    }
}

impl View for SlotName {
    type V = Seq<char>;

    open spec fn view(&self) -> Seq<char> {
        self.0@
    }
}

impl View for MultipleSlotNames {
    type V = Seq<Seq<char>>;

    open spec fn view(&self) -> Seq<Seq<char>> {
        names_view(self.0@)
    }
}

impl View for Value {
    type V = Link;

    open spec fn view(&self) -> Link {
        match self {
            Value::Contains(color) => Link::Contains(color@),
            Value::LinkedTo(name) => Link::LinkedTo(name@),
        }
    }
}

/// The names of a list of slots.
pub open spec fn names_view(names: Seq<SlotName>) -> Seq<Seq<char>> {
    Seq::new(names.len(), |i: int| names[i]@)
}

impl Clone for Color {
    fn clone(&self) -> (copy: Self)
        ensures
            copy == *self,
    {
        Color(self.0.clone())
    }
}

impl Clone for SlotName {
    fn clone(&self) -> (copy: Self)
        ensures
            copy == *self,
    {
        SlotName(self.0.clone())
    }
}

impl Clone for MultipleSlotNames {
    fn clone(&self) -> (copy: Self)
        ensures
            copy@ == self@,
    {
        MultipleSlotNames(clone_names(&self.0))
    }
}

impl Clone for Value {
    fn clone(&self) -> (copy: Self)
        ensures
            copy == *self,
    {
        match self {
            Value::Contains(color) => Value::Contains(color.clone()),
            Value::LinkedTo(name) => Value::LinkedTo(name.clone()),
        }
    }
}

/// A copy of a list of names.
pub fn clone_names(names: &Vec<SlotName>) -> (copy: Vec<SlotName>)
    ensures
        copy@ == names@,
{
    let mut copy: Vec<SlotName> = Vec::new();
    let mut i: usize = 0;
    while i < names.len()
        invariant
            i <= names.len(),
            copy@ == names@.subrange(0, i as int),
        decreases names.len() - i,
    {
        copy.push(names[i].clone());
        assert(copy@ =~= names@.subrange(0, i + 1));
        i = i + 1;
    }
    assert(copy@ =~= names@);
    copy
}

impl From<Vec<SlotName>> for MultipleSlotNames {
    fn from(source: Vec<SlotName>) -> (names: Self) {
        MultipleSlotNames(source)
    }
}

impl vstd::std_specs::convert::FromSpecImpl<Vec<SlotName>> for MultipleSlotNames {
    open spec fn obeys_from_spec() -> bool {
        true
    }

    open spec fn from_spec(source: Vec<SlotName>) -> Self {
        MultipleSlotNames(source)
    }
}

impl From<Color> for Value {
    fn from(color: Color) -> (value: Self) {
        Value::Contains(color)
    }
}

impl vstd::std_specs::convert::FromSpecImpl<Color> for Value {
    open spec fn obeys_from_spec() -> bool {
        true
    }

    open spec fn from_spec(color: Color) -> Self {
        Value::Contains(color)
    }
}

impl From<SlotName> for Value {
    fn from(name: SlotName) -> (value: Self) {
        Value::LinkedTo(name)
    }
}

impl vstd::std_specs::convert::FromSpecImpl<SlotName> for Value {
    open spec fn obeys_from_spec() -> bool {
        true
    }

    open spec fn from_spec(name: SlotName) -> Self {
        Value::LinkedTo(name)
    }
}

/// Why a scheme could not be turned into a resolved one: the stage that
/// failed, with all that it found.
#[derive(Debug)]
pub enum Error {
    /// The text of the scheme could not be read, or the result not written;
    /// this is what the reader or writer said of it.
    SerdeYamlError(String),
    /// Linking failed: these values were empty.
    LinkError(Vec<messy::EmptyValueError>),
    /// Resolving failed: these links lead nowhere.
    ResolveError(Vec<resolve::Error>),
}

impl From<Vec<messy::EmptyValueError>> for Error {
    fn from(source: Vec<messy::EmptyValueError>) -> (error: Self) {
        Error::LinkError(source)
    }
}

impl vstd::std_specs::convert::FromSpecImpl<Vec<messy::EmptyValueError>> for Error {
    open spec fn obeys_from_spec() -> bool {
        true
    }

    open spec fn from_spec(source: Vec<messy::EmptyValueError>) -> Self {
        Error::LinkError(source)
    }
}

impl From<Vec<resolve::Error>> for Error {
    fn from(source: Vec<resolve::Error>) -> (error: Self) {
        Error::ResolveError(source)
    }
}

impl vstd::std_specs::convert::FromSpecImpl<Vec<resolve::Error>> for Error {
    open spec fn obeys_from_spec() -> bool {
        true
    }

    open spec fn from_spec(source: Vec<resolve::Error>) -> Self {
        Error::ResolveError(source)
    }
}

/// Links a raw scheme and resolves it. Whichever stage fails first reports
/// all that it found; resolving is tried only on a scheme that linking
/// accepted.
pub fn resolve_scheme(scheme: MessyScheme) -> (outcome: Result<ResolvedScheme, Error>)
    ensures
        match outcome {
            Ok(resolved) => {
                &&& empty_keys(raw_entries(scheme)).len() == 0
                &&& resolution(merged(raw_entries(scheme))) == Ok::<
                    Entries<Seq<char>>,
                    Seq<Failure>,
                >(color_names(resolved.slots@))
                &&& resolved.meta.name == scheme.name
                &&& resolved.meta.author == scheme.author
                &&& resolved.meta.description == scheme.description
            },
            Err(Error::LinkError(errors)) => {
                &&& errors@.len() > 0
                &&& error_keys(errors@) == empty_keys(raw_entries(scheme))
            },
            Err(Error::ResolveError(errors)) => {
                &&& empty_keys(raw_entries(scheme)).len() == 0
                &&& resolution(merged(raw_entries(scheme))) == Err::<
                    Entries<Seq<char>>,
                    Seq<Failure>,
                >(failures_view(errors@))
            },
            Err(Error::SerdeYamlError(_)) => false,
        },
{
    proof {
        lemma_empty_keys(raw_entries(scheme));
    }
    match LinkedScheme::try_from(scheme) {
        Err(errors) => {
            assert(error_keys(errors@).len() == errors@.len());
            Err(Error::from(errors))
        },
        Ok(linked) => match ResolvedScheme::try_from(linked) {
            Err(errors) => Err(Error::from(errors)),
            Ok(resolved) => Ok(resolved),
        },
    }
}

/// The successes among `items`, in order.
pub open spec fn successes<T, E>(items: Seq<Result<T, E>>) -> Seq<T>
    decreases items.len(),
{
    if items.len() == 0 {
        Seq::empty()
    } else {
        match items.last() {
            Ok(item) => successes(items.drop_last()).push(item),
            Err(_) => successes(items.drop_last()),
        }
    }
}

/// The failures among `items`, in order.
pub open spec fn failures<T, E>(items: Seq<Result<T, E>>) -> Seq<E>
    decreases items.len(),
{
    if items.len() == 0 {
        Seq::empty()
    } else {
        match items.last() {
            Ok(_) => failures(items.drop_last()),
            Err(error) => failures(items.drop_last()).push(error),
        }
    }
}

/// `Itertools::partition_result` on the items of a vector: the successes go to
/// one vector and the failures to another, each in the order in which they
/// stood.
#[verifier::external_body]
fn partition_results<T, E>(items: Vec<Result<T, E>>) -> (parts: (Vec<T>, Vec<E>))
    ensures
        parts.0@ == successes(items@),
        parts.1@ == failures(items@),
{
    items.into_iter().partition_result()
}

/// All the successes if nothing failed, or else all the failures: never only
/// the first one.
pub fn collect_or_errors<T, E>(items: Vec<Result<T, E>>) -> (outcome: Result<Vec<T>, Vec<E>>)
    ensures
        match outcome {
            Ok(all) => failures(items@).len() == 0 && all@ == successes(items@),
            Err(errors) => errors@.len() > 0 && errors@ == failures(items@),
        },
{
    let (ok, err) = partition_results(items);
    if !err.is_empty() {
        Err(err)
    } else {
        Ok(ok)
    }
}

} // verus!
