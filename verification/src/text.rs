//! What the names and the errors look like in a report.

use crate::messy::{error_keys, EmptyValueError};
use crate::model::Failure;
use crate::resolve::failures_view;
use crate::{Error, MultipleSlotNames, SlotName};
use vstd::prelude::*;

verus! {

/// A name between double quotes.
pub open spec fn quoted(name: Seq<char>) -> Seq<char> {
    "\""@ + name + "\""@
}

/// Names between double quotes, with a comma and a blank between one and the
/// next.
pub open spec fn listed(names: Seq<Seq<char>>) -> Seq<char>
    decreases names.len(),
{
    if names.len() == 0 {
        Seq::empty()
    } else if names.len() == 1 {
        quoted(names[0])
    } else {
        listed(names.drop_last()) + ", "@ + quoted(names.last())
    }
}

/// A list of names between square brackets.
pub open spec fn bracketed(names: Seq<Seq<char>>) -> Seq<char> {
    "["@ + listed(names) + "]"@
}

/// What is said of an empty value under `key`.
pub open spec fn empty_value_text(key: Seq<char>) -> Seq<char> {
    "key '"@ + key
        + "' had an empty value, which can neither link to another slot nor specify a color"@
}

/// What is said of a link that leads nowhere.
pub open spec fn failure_text(failure: Failure) -> Seq<char> {
    match failure {
        Failure::InfiniteLoop { involved } => {
            "Noticed a neverending loop of slot links, involved are "@ + bracketed(involved)
        },
        Failure::LinkToNonexistent { from, to } => {
            bracketed(from) + " link to "@ + quoted(to) + ", which doesn't exist"@
        },
        Failure::LinkToItself { subject } => {
            "Impossible to resolve "@ + quoted(subject) + ", which links to itself"@
        },
    }
}

/// Each text on a line of its own, behind a tab.
pub open spec fn lines(texts: Seq<Seq<char>>) -> Seq<char>
    decreases texts.len(),
{
    if texts.len() == 0 {
        Seq::empty()
    } else {
        lines(texts.drop_last()) + "\t"@ + texts.last() + "\n"@
    }
}

/// What is said of each of the empty values under `keys`.
pub open spec fn empty_value_texts(keys: Seq<Seq<char>>) -> Seq<Seq<char>> {
    Seq::new(keys.len(), |i: int| empty_value_text(keys[i]))
}

/// What is said of each of `failures`.
pub open spec fn failure_texts(failures: Seq<Failure>) -> Seq<Seq<char>> {
    Seq::new(failures.len(), |i: int| failure_text(failures[i]))
}

/// The report of a scheme that could not be turned into a resolved one: a
/// line that names the stage, and a line for each thing that the stage found.
pub open spec fn report(error: Error) -> Seq<char> {
    match error {
        Error::SerdeYamlError(message) => {
            "Could not de/serialize scheme YAML: "@ + message@ + "\n"@
        },
        Error::LinkError(errors) => {
            "Could not meaningfully structure scheme:\n"@ + lines(
                empty_value_texts(error_keys(errors@)),
            )
        },
        Error::ResolveError(errors) => {
            "Could not resolve scheme:\n"@ + lines(failure_texts(failures_view(errors@)))
        },
    }
}

impl SlotName {
    /// The name between double quotes.
    pub fn to_string(&self) -> (text: String)
        ensures
            text@ == quoted(self@),
    {
        let mut text = String::from_str("\"");
        text.append(self.0.as_str());
        text.append("\"");
        text
    }
}

impl MultipleSlotNames {
    /// The names between square brackets, each between double quotes, with a
    /// comma and a blank between one and the next.
    pub fn to_string(&self) -> (text: String)
        ensures
            text@ == bracketed(self@),
    {
        let ghost names = self@;
        let mut text = String::from_str("[");
        let mut i: usize = 0;
        assert(text@ =~= "["@ + listed(names.subrange(0, 0)));
        while i < self.0.len()
            invariant
                i <= self.0.len(),
                names == self@,
                text@ == "["@ + listed(names.subrange(0, i as int)),
            decreases self.0.len() - i,
        {
            let name = self.0[i].to_string();
            proof {
                assert(names.subrange(0, i + 1).drop_last() =~= names.subrange(0, i as int));
                assert(names.subrange(0, i + 1).last() == self.0[i as int]@);
                assert(names.subrange(0, i + 1)[0] == names[0]);
            }
            if i == 0 {
                text.append(name.as_str());
                assert(text@ =~= "["@ + listed(names.subrange(0, i + 1)));
            } else {
                text.append(", ");
                text.append(name.as_str());
                assert(text@ =~= "["@ + listed(names.subrange(0, i + 1)));
            }
            i = i + 1;
        }
        assert(names.subrange(0, i as int) =~= names);
        text.append("]");
        text
    }
}

impl EmptyValueError {
    /// What is said of the empty value.
    pub fn to_string(&self) -> (text: String)
        ensures
            text@ == empty_value_text(self@),
    {
        let mut text = String::from_str("key '");
        text.append(self.key.as_str());
        text.append(
            "' had an empty value, which can neither link to another slot nor specify a color",
        );
        text
    }
}

impl crate::resolve::Error {
    /// What is said of the link that leads nowhere.
    pub fn to_string(&self) -> (text: String)
        ensures
            text@ == failure_text(self@),
    {
        match self {
            crate::resolve::Error::InfiniteLoop { involved } => {
                let mut text = String::from_str(
                    "Noticed a neverending loop of slot links, involved are ",
                );
                text.append(involved.to_string().as_str());
                text
            },
            crate::resolve::Error::LinkToNonexistent { from, to } => {
                let mut text = from.to_string();
                text.append(" link to ");
                text.append(to.to_string().as_str());
                text.append(", which doesn't exist");
                text
            },
            crate::resolve::Error::LinkToItself { subject } => {
                let mut text = String::from_str("Impossible to resolve ");
                text.append(subject.to_string().as_str());
                text.append(", which links to itself");
                text
            },
        }
    }
}

impl Error {
    /// The report: a line that names the stage that failed, and a line for
    /// each thing that the stage found.
    pub fn to_string(&self) -> (text: String)
        ensures
            text@ == report(*self),
    {
        match self {
            Error::SerdeYamlError(message) => {
                let mut text = String::from_str("Could not de/serialize scheme YAML: ");
                text.append(message.as_str());
                text.append("\n");
                text
            },
            Error::LinkError(errors) => {
                let ghost texts = empty_value_texts(error_keys(errors@));
                let mut text = String::from_str("Could not meaningfully structure scheme:\n");
                let mut i: usize = 0;
                assert(text@ =~= "Could not meaningfully structure scheme:\n"@ + lines(
                    texts.subrange(0, 0),
                ));
                while i < errors.len()
                    invariant
                        i <= errors.len(),
                        texts == empty_value_texts(error_keys(errors@)),
                        text@ == "Could not meaningfully structure scheme:\n"@ + lines(
                            texts.subrange(0, i as int),
                        ),
                    decreases errors.len() - i,
                {
                    let line = errors[i].to_string();
                    proof {
                        assert(texts.subrange(0, i + 1).drop_last() =~= texts.subrange(
                            0,
                            i as int,
                        ));
                        assert(texts.subrange(0, i + 1).last() == line@);
                    }
                    text.append("\t");
                    text.append(line.as_str());
                    text.append("\n");
                    assert(text@ =~= "Could not meaningfully structure scheme:\n"@ + lines(
                        texts.subrange(0, i + 1),
                    ));
                    i = i + 1;
                }
                assert(texts.subrange(0, i as int) =~= texts);
                text
            },
            Error::ResolveError(errors) => {
                let ghost texts = failure_texts(failures_view(errors@));
                let mut text = String::from_str("Could not resolve scheme:\n");
                let mut i: usize = 0;
                assert(text@ =~= "Could not resolve scheme:\n"@ + lines(texts.subrange(0, 0)));
                while i < errors.len()
                    invariant
                        i <= errors.len(),
                        texts == failure_texts(failures_view(errors@)),
                        text@ == "Could not resolve scheme:\n"@ + lines(
                            texts.subrange(0, i as int),
                        ),
                    decreases errors.len() - i,
                {
                    let line = errors[i].to_string();
                    proof {
                        assert(texts.subrange(0, i + 1).drop_last() =~= texts.subrange(
                            0,
                            i as int,
                        ));
                        assert(texts.subrange(0, i + 1).last() == line@);
                    }
                    text.append("\t");
                    text.append(line.as_str());
                    text.append("\n");
                    assert(text@ =~= "Could not resolve scheme:\n"@ + lines(
                        texts.subrange(0, i + 1),
                    ));
                    i = i + 1;
                }
                assert(texts.subrange(0, i as int) =~= texts);
                text
            },
        }
    }
}

} // verus!
