//! Raw schemes and the linking stage: the sections of a raw scheme are merged
//! into one namespace of slots, and colours are told from links.

use crate::assoc::{lemma_same_keys, put, Entries};
use crate::ordered::OrderedMap;
use crate::{collect_or_errors, failures, successes, Color, Link, Metadata, SlotName, Value};
use vstd::prelude::*;
use vstd::std_specs::convert::TryFromSpecImpl;
use vstd::string::{axiom_spec_iter, next_postcondition};

verus! {

/// A scheme as it is written down: what it says of itself, and three sections
/// of named values that are not yet told apart into colours and links.
#[derive(Clone, Debug)]
pub struct MessyScheme {
    pub name: String,
    pub author: String,
    pub description: Option<String>,
    pub variables: OrderedMap<String>,
    pub overrides: OrderedMap<String>,
    pub palette: OrderedMap<String>,
}

/// A value that was empty, under the name `key`: it can neither link to
/// another slot nor be a colour.
#[derive(Debug)]
pub struct EmptyValueError {
    pub key: String,
}

impl View for EmptyValueError {
    type V = Seq<char>;

    open spec fn view(&self) -> Seq<char> {
        self.key@
    }
}

/// A scheme whose sections were merged into one namespace of slots, each of
/// which holds a colour or links to another slot.
#[derive(Clone, Debug)]
pub struct LinkedScheme {
    pub meta: Metadata,
    pub slots: OrderedMap<Value>,
}

/// The named values of a section, as mathematical data.
pub open spec fn section_view(entries: Entries<String>) -> Entries<Seq<char>> {
    Seq::new(entries.len(), |i: int| (entries[i].0, entries[i].1@))
}

/// The slots of a linked scheme, as mathematical data.
pub open spec fn links_view(entries: Entries<Value>) -> Entries<Link> {
    Seq::new(entries.len(), |i: int| (entries[i].0, entries[i].1@))
}

/// The keys of a list of errors.
pub open spec fn error_keys(errors: Seq<EmptyValueError>) -> Seq<Seq<char>> {
    Seq::new(errors.len(), |i: int| errors[i]@)
}

/// All the named values of a raw scheme: the variables come first, then the
/// overrides, then the palette.
pub open spec fn raw_entries(source: MessyScheme) -> Entries<Seq<char>> {
    section_view(source.variables@) + section_view(source.overrides@) + section_view(
        source.palette@,
    )
}

/// What a value that is not empty stands for: a colour if it begins with `#`,
/// or else a link to the slot that it names.
pub open spec fn classify(value: Seq<char>) -> Link {
    if value.len() > 0 && value[0] == '#' {
        Link::Contains(value)
    } else {
        Link::LinkedTo(value)
    }
}

/// The keys of the values of `raw` that are empty, in order.
pub open spec fn empty_keys(raw: Entries<Seq<char>>) -> Seq<Seq<char>>
    decreases raw.len(),
{
    if raw.len() == 0 {
        Seq::empty()
    } else if raw.last().1.len() == 0 {
        empty_keys(raw.drop_last()).push(raw.last().0)
    } else {
        empty_keys(raw.drop_last())
    }
}

/// The slots that `raw` makes: each key is a slot, in the order in which the
/// keys first occur, and holds what the last value under that key stands for.
pub open spec fn merged(raw: Entries<Seq<char>>) -> Entries<Link>
    decreases raw.len(),
{
    if raw.len() == 0 {
        Seq::empty()
    } else {
        put(merged(raw.drop_last()), raw.last().0, classify(raw.last().1))
    }
}

/// A key and its slot, or the key of an empty value, as mathematical data.
pub open spec fn item_view(item: Result<(SlotName, Value), EmptyValueError>) -> Result<
    (Seq<char>, Link),
    Seq<char>,
> {
    match item {
        Ok(slot) => Ok((slot.0@, slot.1@)),
        Err(error) => Err(error@),
    }
}

/// What becomes of one named value.
pub open spec fn checked(entry: (Seq<char>, Seq<char>)) -> Result<(Seq<char>, Link), Seq<char>> {
    if entry.1.len() == 0 {
        Err(entry.0)
    } else {
        Ok((entry.0, classify(entry.1)))
    }
}

/// Tells what the value under `key` stands for; an empty one stands for
/// nothing.
pub fn classify_entry(key: String, value: String) -> (item: Result<
    (SlotName, Value),
    EmptyValueError,
>)
    ensures
        item_view(item) == checked((key@, value@)),
{
    broadcast use {axiom_spec_iter, next_postcondition};

    let mut letters = value.as_str().chars();
    let first = letters.next();
    match first {
        None => Err(EmptyValueError { key }),
        Some('#') => Ok((SlotName(key), Value::Contains(Color(value)))),
        _ => Ok((SlotName(key), Value::LinkedTo(SlotName(value)))),
    }
}

/// What becomes of each named value of `raw`.
pub open spec fn checked_all(raw: Entries<Seq<char>>) -> Seq<
    Result<(Seq<char>, Link), Seq<char>>,
> {
    Seq::new(raw.len(), |i: int| checked(raw[i]))
}

/// The items of a list, as mathematical data.
pub open spec fn items_view(items: Seq<Result<(SlotName, Value), EmptyValueError>>) -> Seq<
    Result<(Seq<char>, Link), Seq<char>>,
> {
    Seq::new(items.len(), |i: int| item_view(items[i]))
}

/// The slots of a list, as mathematical data.
pub open spec fn pairs_view(pairs: Seq<(SlotName, Value)>) -> Entries<Link> {
    Seq::new(pairs.len(), |i: int| (pairs[i].0@, pairs[i].1@))
}

/// The map that is filled with `pairs` in order: a later pair takes the place
/// of an earlier one with the same name.
pub open spec fn gathered(pairs: Entries<Link>) -> Entries<Link>
    decreases pairs.len(),
{
    if pairs.len() == 0 {
        Seq::empty()
    } else {
        put(gathered(pairs.drop_last()), pairs.last().0, pairs.last().1)
    }
}

/// Some value of `raw` is empty exactly if `empty_keys` names a key.
pub proof fn lemma_empty_keys(raw: Entries<Seq<char>>)
    ensures
        empty_keys(raw).len() > 0 <==> exists|i: int|
            0 <= i < raw.len() && (#[trigger] raw[i]).1.len() == 0,
    decreases raw.len(),
{
    if raw.len() > 0 {
        let shorter = raw.drop_last();
        lemma_empty_keys(shorter);
        if exists|i: int| 0 <= i < shorter.len() && (#[trigger] shorter[i]).1.len() == 0 {
            let i = choose|i: int| 0 <= i < shorter.len() && (#[trigger] shorter[i]).1.len() == 0;
            assert(raw[i].1.len() == 0);
        }
        if exists|i: int| 0 <= i < raw.len() && (#[trigger] raw[i]).1.len() == 0 {
            let i = choose|i: int| 0 <= i < raw.len() && (#[trigger] raw[i]).1.len() == 0;
            if i < shorter.len() {
                assert(shorter[i].1.len() == 0);
            }
        }
        if raw.last().1.len() == 0 {
            assert(raw[raw.len() - 1].1.len() == 0);
        }
    }
}

/// The failures among the checked values are the keys of the empty values,
/// and where nothing failed, the successes make the merged slots.
proof fn lemma_checked(raw: Entries<Seq<char>>)
    ensures
        failures(checked_all(raw)) == empty_keys(raw),
        empty_keys(raw).len() == 0 ==> gathered(successes(checked_all(raw))) == merged(raw),
        empty_keys(raw).len() == 0 ==> successes(checked_all(raw)).len() == raw.len(),
    decreases raw.len(),
{
    if raw.len() > 0 {
        let shorter = raw.drop_last();
        lemma_checked(shorter);
        assert(checked_all(raw).drop_last() =~= checked_all(shorter));
        assert(checked_all(raw).last() == checked(raw.last()));
        if empty_keys(raw).len() == 0 {
            let all = successes(checked_all(raw));
            assert(all.drop_last() =~= successes(checked_all(shorter)));
        }
    }
}

/// Taking the successes or the failures of a list commutes with looking at
/// the list as mathematical data.
proof fn lemma_items_view(items: Seq<Result<(SlotName, Value), EmptyValueError>>)
    ensures
        error_keys(failures(items)) == failures(items_view(items)),
        pairs_view(successes(items)) == successes(items_view(items)),
    decreases items.len(),
{
    if items.len() > 0 {
        let shorter = items.drop_last();
        lemma_items_view(shorter);
        assert(items_view(items).drop_last() =~= items_view(shorter));
        assert(items_view(items).last() == item_view(items.last()));
        match items.last() {
            Ok(slot) => {
                assert(pairs_view(successes(items)) =~= pairs_view(successes(shorter)).push(
                    (slot.0@, slot.1@),
                ));
                assert(error_keys(failures(items)) =~= error_keys(failures(shorter)));
            },
            Err(error) => {
                assert(error_keys(failures(items)) =~= error_keys(failures(shorter)).push(
                    error@,
                ));
                assert(pairs_view(successes(items)) =~= pairs_view(successes(shorter)));
            },
        }
    } else {
        assert(error_keys(failures(items)) =~= failures(items_view(items)));
        assert(pairs_view(successes(items)) =~= successes(items_view(items)));
    }
}

/// Checks every named value of a section, in order, and adds what becomes of
/// it to `items`.
fn check_section(
    section: OrderedMap<String>,
    items: &mut Vec<Result<(SlotName, Value), EmptyValueError>>,
)
    ensures
        items_view(final(items)@) == items_view(old(items)@) + checked_all(
            section_view(section@),
        ),
{
    let ghost raw = section_view(section@);
    let ghost before = items_view(items@);
    let entries = section.into_entries();
    let ghost all = entries@;
    assert(items_view(items@) =~= before + checked_all(raw).subrange(0, 0));
    for entry in walker: entries.into_iter()
        invariant
            walker.seq() == all,
            all.len() == raw.len(),
            forall|k: int|
                0 <= k < all.len() ==> (#[trigger] all[k]).0@ == raw[k].0 && all[k].1@ == raw[k].1,
            items_view(items@) == before + checked_all(raw).subrange(0, walker.index()),
    {
        let ghost reached = items@;
        let ghost at = walker.index();
        let item = classify_entry(entry.0, entry.1);
        items.push(item);
        proof {
            assert(item_view(item) == checked_all(raw)[at]);
            assert(items_view(items@) =~= items_view(reached).push(item_view(item)));
            assert(items_view(items@) =~= before + checked_all(raw).subrange(0, at + 1));
        }
    }
    assert(checked_all(raw).subrange(0, raw.len() as int) =~= checked_all(raw));
}

impl TryFrom<MessyScheme> for LinkedScheme {
    type Error = Vec<EmptyValueError>;

    /// Links a raw scheme: its three sections are merged into one namespace
    /// of slots, in which a later value under a key replaces an earlier one,
    /// and each value is told to be a colour or a link. All values are looked
    /// at, and the keys of all the empty ones are reported together.
    fn try_from(source: MessyScheme) -> (outcome: Result<Self, Vec<EmptyValueError>>)
        ensures
            outcome is Err <==> exists|i: int|
                0 <= i < raw_entries(source).len() && (#[trigger] raw_entries(source)[i]).1.len()
                    == 0,
            match outcome {
                Ok(linked) => {
                    &&& linked.meta.name == source.name
                    &&& linked.meta.author == source.author
                    &&& linked.meta.description == source.description
                    &&& links_view(linked.slots@) == merged(raw_entries(source))
                },
                Err(errors) => error_keys(errors@) == empty_keys(raw_entries(source)),
            },
    {
        let ghost raw = raw_entries(source);
        let MessyScheme { name, author, description, variables, overrides, palette } = source;
        let mut items: Vec<Result<(SlotName, Value), EmptyValueError>> = Vec::new();
        check_section(variables, &mut items);
        check_section(overrides, &mut items);
        check_section(palette, &mut items);
        proof {
            assert(items_view(items@) =~= checked_all(raw));
            lemma_items_view(items@);
            lemma_checked(raw);
            lemma_empty_keys(raw);
        }
        match collect_or_errors(items) {
            Err(errors) => Err(errors),
            Ok(pairs) => {
                let ghost all = pairs@;
                let ghost wanted = pairs_view(all);
                let mut slots: OrderedMap<Value> = OrderedMap::new();
                assert(links_view(slots@) =~= gathered(wanted.subrange(0, 0)));
                for pair in walker: pairs.into_iter()
                    invariant
                        walker.seq() == all,
                        wanted == pairs_view(all),
                        links_view(slots@) == gathered(wanted.subrange(0, walker.index())),
                {
                    let ghost reached = slots@;
                    let ghost at = walker.index();
                    let (name, value) = pair;
                    slots.insert(name.0, value);
                    proof {
                        lemma_same_keys(reached, links_view(reached), all[at].0@);
                        assert(wanted.subrange(0, at + 1).drop_last() =~= wanted.subrange(0, at));
                        assert(wanted.subrange(0, at + 1).last() == wanted[at]);
                        assert(links_view(slots@) =~= put(
                            links_view(reached),
                            all[at].0@,
                            all[at].1@,
                        ));
                    }
                }
                assert(wanted.subrange(0, wanted.len() as int) =~= wanted);
                Ok(LinkedScheme { meta: Metadata { name, author, description }, slots })
            },
        }
    }
}

impl TryFromSpecImpl<MessyScheme> for LinkedScheme {
    open spec fn obeys_try_from_spec() -> bool {
        false
    }

    open spec fn try_from_spec(source: MessyScheme) -> Result<Self, Vec<EmptyValueError>> {
        arbitrary()
    }
}

} // verus!
