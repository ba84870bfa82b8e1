//! The resolving stage: every link is followed to the colour at its end.

use crate::assoc::{
    distinct_keys, has_key, index_of, keys, lemma_has_key, lemma_put, lemma_put_twice,
    lemma_same_keys, lemma_swap_remove, lookup, put, swap_remove, Entries,
};
use crate::chain::{ends_in, resolvable};
use crate::messy::{links_view, LinkedScheme};
use crate::model::{
    anchored, colors, complaint, complaints, fill, find_loop, in_loop, migrate, reported,
    resolution, run, scan_loop, settle, start, step, verdict, waiting_on, Failure, Progress,
    Status,
};
use crate::ordered::OrderedMap;
use crate::reports::failure_is_never_empty;
use crate::soundness::{lemma_anchored, resolution_follows_chains};
use crate::{
    clone_names, names_view, Color, Link, Metadata, MultipleSlotNames, SlotName, Value,
};
use vstd::prelude::*;
use vstd::std_specs::convert::TryFromSpecImpl;

verus! {

/// Why a scheme could not be resolved.
#[derive(Debug)]
pub enum Error {
    /// Slots that link to one another in a circle.
    InfiniteLoop { involved: MultipleSlotNames },
    /// Slots whose links end at a name that is no slot.
    LinkToNonexistent { from: MultipleSlotNames, to: SlotName },
    /// A slot that links to itself.
    LinkToItself { subject: SlotName },
}

impl View for Error {
    type V = Failure;

    open spec fn view(&self) -> Failure {
        match self {
            Error::InfiniteLoop { involved } => Failure::InfiniteLoop { involved: involved@ },
            Error::LinkToNonexistent { from, to } => Failure::LinkToNonexistent {
                from: from@,
                to: to@,
            },
            Error::LinkToItself { subject } => Failure::LinkToItself { subject: subject@ },
        }
    }
}

impl Clone for Error {
    fn clone(&self) -> (copy: Self)
        ensures
            copy@ == self@,
    {
        match self {
            Error::InfiniteLoop { involved } => Error::InfiniteLoop { involved: involved.clone() },
            Error::LinkToNonexistent { from, to } => Error::LinkToNonexistent {
                from: from.clone(),
                to: to.clone(),
            },
            Error::LinkToItself { subject } => Error::LinkToItself { subject: subject.clone() },
        }
    }
}

/// The errors of a list, as mathematical data.
pub open spec fn failures_view(errors: Seq<Error>) -> Seq<Failure> {
    Seq::new(errors.len(), |i: int| errors[i]@)
}

/// What is known of a slot during resolution.
enum PossiblyResolvedColor {
    BlockedOn(SlotName),
    Ready(Color),
}

impl View for PossiblyResolvedColor {
    type V = Status;

    closed spec fn view(&self) -> Status {
        match self {
            PossiblyResolvedColor::BlockedOn(name) => Status::BlockedOn(name@),
            PossiblyResolvedColor::Ready(color) => Status::Ready(color@),
        }
    }
}

impl Clone for PossiblyResolvedColor {
    fn clone(&self) -> (copy: Self)
        ensures
            copy == *self,
    {
        match self {
            PossiblyResolvedColor::BlockedOn(name) => PossiblyResolvedColor::BlockedOn(
                name.clone(),
            ),
            PossiblyResolvedColor::Ready(color) => PossiblyResolvedColor::Ready(color.clone()),
        }
    }
}

/// The state of a resolution between two steps.
struct State {
    /// slots which are already seen, done or not
    resolved: OrderedMap<PossiblyResolvedColor>,
    /// left slots which are depended on, right slots which depend on the left
    pending: OrderedMap<Vec<SlotName>>,
    /// any loops which were detected while processing
    errors: Vec<Error>,
}

spec fn statuses(entries: Entries<PossiblyResolvedColor>) -> Entries<Status> {
    Seq::new(entries.len(), |i: int| (entries[i].0, entries[i].1@))
}

spec fn waiting(entries: Entries<Vec<SlotName>>) -> Entries<Seq<Seq<char>>> {
    Seq::new(entries.len(), |i: int| (entries[i].0, names_view(entries[i].1@)))
}

impl View for State {
    type V = Progress;

    closed spec fn view(&self) -> Progress {
        Progress {
            resolved: statuses(self.resolved@),
            pending: waiting(self.pending@),
            errors: failures_view(self.errors@),
        }
    }
}

proof fn lemma_statuses(entries: Entries<PossiblyResolvedColor>, key: Seq<char>)
    requires
        distinct_keys(entries),
    ensures
        distinct_keys(statuses(entries)),
        lookup(statuses(entries), key) == match lookup(entries, key) {
            Some(status) => Some(status@),
            None => None,
        },
        forall|status: PossiblyResolvedColor|
            statuses(put(entries, key, status)) == put(statuses(entries), key, status@),
{
    lemma_same_keys(entries, statuses(entries), key);
    if has_key(entries, key) {
        lemma_has_key(entries, key);
    }
    assert forall|status: PossiblyResolvedColor|
        statuses(put(entries, key, status)) == put(statuses(entries), key, status@) by {
        assert(statuses(put(entries, key, status)) =~= put(statuses(entries), key, status@));
    }
}

proof fn lemma_waiting(entries: Entries<Vec<SlotName>>, key: Seq<char>)
    requires
        distinct_keys(entries),
    ensures
        distinct_keys(waiting(entries)),
        has_key(waiting(entries), key) == has_key(entries, key),
        lookup(waiting(entries), key) == match lookup(entries, key) {
            Some(names) => Some(names_view(names@)),
            None => None,
        },
        forall|names: Vec<SlotName>|
            waiting(put(entries, key, names)) == put(waiting(entries), key, names_view(names@)),
        waiting(swap_remove(entries, key)) == swap_remove(waiting(entries), key),
{
    lemma_same_keys(entries, waiting(entries), key);
    if has_key(entries, key) {
        lemma_has_key(entries, key);
    }
    assert forall|names: Vec<SlotName>|
        waiting(put(entries, key, names)) == put(waiting(entries), key, names_view(names@)) by {
        assert(waiting(put(entries, key, names)) =~= put(
            waiting(entries),
            key,
            names_view(names@),
        ));
    }
    assert(waiting(swap_remove(entries, key)) =~= swap_remove(waiting(entries), key));
}

/// Gives each of `names` the status `status`.
fn assign_each(
    resolved: &mut OrderedMap<PossiblyResolvedColor>,
    names: &Vec<SlotName>,
    status: &PossiblyResolvedColor,
)
    ensures
        statuses(final(resolved)@) == fill(
            statuses(old(resolved)@),
            names_view(names@),
            status@,
        ),
{
    let ghost wanted = names_view(names@);
    let mut i: usize = 0;
    while i < names.len()
        invariant
            i <= names.len(),
            wanted == names_view(names@),
            statuses(resolved@) == fill(
                statuses(old(resolved)@),
                wanted.subrange(0, i as int),
                status@,
            ),
        decreases names.len() - i,
    {
        let ghost reached = resolved@;
        resolved.insert(names[i].0.clone(), status.clone());
        proof {
            lemma_statuses(reached, names[i as int]@);
            assert(wanted.subrange(0, i + 1).drop_last() =~= wanted.subrange(0, i as int));
            assert(wanted.subrange(0, i + 1).last() == names[i as int]@);
        }
        i = i + 1;
    }
    assert(wanted.subrange(0, i as int) =~= wanted);
}

/// `this_name` has the colour `color`, and so has every slot that waited for
/// it.
fn insert_this_and_dependents(this_name: SlotName, color: Color, state: &mut State)
    ensures
        final(state)@ == settle(old(state)@, this_name@, color@),
{
    let ghost pending0 = state.pending@;
    let ready = PossiblyResolvedColor::Ready(color);
    let dependents = state.pending.swap_remove(this_name.0.as_str());
    proof {
        lemma_waiting(pending0, this_name@);
    }
    match dependents {
        Some(names) => {
            assign_each(&mut state.resolved, &names, &ready);
        },
        None => {
            assert(fill(statuses(state.resolved@), Seq::empty(), ready@) == statuses(
                state.resolved@,
            ));
        },
    }
    let ghost reached = state.resolved@;
    state.resolved.insert(this_name.0, ready);
    proof {
        lemma_statuses(reached, this_name@);
    }
}

/// `this_name`, and every slot that waited for it, now waits for
/// `block_name`.
fn migrate_this_to_blocker(this_name: SlotName, block_name: SlotName, state: &mut State)
    ensures
        final(state)@ == migrate(old(state)@, this_name@, block_name@),
{
    let ghost pending0 = state.pending@;
    let ghost this = this_name@;
    let ghost blocker = block_name@;
    let mut pending_on_this = match state.pending.swap_remove(this_name.0.as_str()) {
        Some(names) => names,
        None => Vec::with_capacity(1),
    };
    let ghost pending1 = state.pending@;
    proof {
        lemma_waiting(pending0, this);
        lemma_swap_remove(pending0, this);
        assert(names_view(pending_on_this@) =~= waiting_on(waiting(pending0), this));
    }
    // make sure that this slot will also depend on the new blocker
    pending_on_this.push(this_name);
    let ghost moved = names_view(pending_on_this@);
    assert(moved =~= waiting_on(waiting(pending0), this).push(this));
    let blocked = PossiblyResolvedColor::BlockedOn(block_name.clone());
    assign_each(&mut state.resolved, &pending_on_this, &blocked);
    // the list of the blocker is taken out, grows, and goes back to its place: an
    // empty list holds the place meanwhile
    let empty: Vec<SlotName> = Vec::new();
    let ghost first = empty;
    let mut joined = match state.pending.insert(block_name.0.clone(), empty) {
        Some(names) => names,
        None => Vec::new(),
    };
    proof {
        lemma_waiting(pending1, blocker);
        assert(names_view(joined@) =~= waiting_on(waiting(pending1), blocker));
    }
    joined.append(&mut pending_on_this);
    proof {
        assert(names_view(joined@) =~= waiting_on(waiting(pending1), blocker) + moved);
        lemma_put_twice(pending1, blocker, first, joined);
        lemma_waiting(pending1, blocker);
    }
    state.pending.insert(block_name.0, joined);
}

/// Checks whether the link from `start` to `target` has closed a loop in
/// `state`, errors with the names involved if that's the case.
fn detect_loop(start: &SlotName, target: &SlotName, state: &State) -> (outcome: Result<
    (),
    Vec<SlotName>,
>)
    ensures
        match outcome {
            Ok(_) => crate::model::detect_loop(state@.pending, start@, target@) is None,
            Err(involved) => crate::model::detect_loop(state@.pending, start@, target@) == Some(
                names_view(involved@),
            ),
        },
{
    let path_depth: Vec<SlotName> = Vec::new();
    assert(names_view(path_depth@) =~= Seq::<Seq<char>>::empty());
    assert(waiting(state.pending@).len() == state.pending@.len());
    detect_loop_impl(target, start, &path_depth, state, state.pending.len())
}

/// The walk below `current`, `depth` levels deep at most; `path_depth` holds
/// the names above `current`.
fn detect_loop_impl(
    target: &SlotName,
    current: &SlotName,
    path_depth: &Vec<SlotName>,
    state: &State,
    depth: usize,
) -> (outcome: Result<(), Vec<SlotName>>)
    ensures
        match outcome {
            Ok(_) => find_loop(
                state@.pending,
                target@,
                current@,
                names_view(path_depth@),
                depth as nat,
            ) is None,
            Err(involved) => find_loop(
                state@.pending,
                target@,
                current@,
                names_view(path_depth@),
                depth as nat,
            ) == Some(names_view(involved@)),
        },
    decreases depth,
{
    if depth == 0 {
        return Ok(());
    }
    let found = state.pending.get(current.0.as_str());
    proof {
        lemma_waiting(state.pending@, current@);
    }
    match found {
        None => Ok(()),
        Some(names) => {
            let mut path = clone_names(path_depth);
            path.push(current.clone());
            let ghost above = names_view(path@);
            let ghost below = names_view(names@);
            assert(above =~= names_view(path_depth@).push(current@));
            let mut i: usize = 0;
            while i < names.len()
                invariant
                    i <= names.len(),
                    depth > 0,
                    above == names_view(path@),
                    above == names_view(path_depth@).push(current@),
                    below == names_view(names@),
                    lookup(state@.pending, current@) == Some(below),
                    scan_loop(state@.pending, target@, below, 0, above, depth as nat) == scan_loop(
                        state@.pending,
                        target@,
                        below,
                        i as nat,
                        above,
                        depth as nat,
                    ),
                decreases names.len() - i,
            {
                let name = &names[i];
                assert(below[i as int] == name@);
                if target.0 == name.0 {
                    path.push(name.clone());
                    assert(names_view(path@) =~= above.push(target@));
                    return Err(path);
                } else {
                    match detect_loop_impl(target, name, &path, state, depth - 1) {
                        Err(involved) => {
                            return Err(involved);
                        },
                        Ok(_) => {},
                    }
                }
                i = i + 1;
            }
            Ok(())
        },
    }
}

/// One step of the resolution: the slot `this_name` with its value is taken
/// in.
fn take_in(this_name: SlotName, value: Value, state: &mut State)
    ensures
        final(state)@ == step(old(state)@, this_name@, value@),
{
    match value {
        Value::Contains(color) => {
            // a colour: the slot is resolved, and so is all that waited for it
            insert_this_and_dependents(this_name, color, state);
        },
        Value::LinkedTo(target) => {
            // so this links to some other name...
            let known = match state.resolved.get(target.0.as_str()) {
                Some(status) => Some(status.clone()),
                None => None,
            };
            proof {
                lemma_statuses(state.resolved@, target@);
            }
            match known {
                Some(PossiblyResolvedColor::Ready(color)) => {
                    // ...but that name has been resolved already
                    insert_this_and_dependents(this_name, color, state);
                },
                Some(PossiblyResolvedColor::BlockedOn(block_name)) => {
                    // ...but that name is also just blocked, let's block on the actual one
                    // and "migrate" all existing values (then check for loops)
                    migrate_this_to_blocker(this_name.clone(), block_name, state);
                    match detect_loop(&this_name, &target, state) {
                        Err(involved) => {
                            let ghost before = state.errors@;
                            let error = Error::InfiniteLoop {
                                involved: MultipleSlotNames::from(involved),
                            };
                            state.errors.push(error);
                            assert(failures_view(state.errors@) =~= failures_view(before).push(
                                error@,
                            ));
                        },
                        Ok(_) => {},
                    }
                },
                None => {
                    // ...but that target name isn't even processed yet, in that case the
                    // target name is the blocker
                    migrate_this_to_blocker(this_name, target, state);
                },
            }
        },
    }
}

/// The colours of a map, as mathematical data.
pub open spec fn color_names(entries: Entries<Color>) -> Entries<Seq<char>> {
    Seq::new(entries.len(), |i: int| (entries[i].0, entries[i].1@))
}

/// Adds each of `names` to the set `ignore`.
fn insert_names(ignore: &mut OrderedMap<()>, names: &Vec<SlotName>)
    ensures
        forall|name: Seq<char>|
            has_key(final(ignore)@, name) == (has_key(old(ignore)@, name) || names_view(
                names@,
            ).contains(name)),
{
    let ghost wanted = names_view(names@);
    let mut i: usize = 0;
    while i < names.len()
        invariant
            i <= names.len(),
            wanted == names_view(names@),
            forall|name: Seq<char>|
                has_key(ignore@, name) == (has_key(old(ignore)@, name) || wanted.subrange(
                    0,
                    i as int,
                ).contains(name)),
        decreases names.len() - i,
    {
        let ghost reached = ignore@;
        let ghost added = names[i as int]@;
        ignore.insert(names[i].0.clone(), ());
        proof {
            lemma_put(reached, added, ());
            let shorter = wanted.subrange(0, i as int);
            let longer = wanted.subrange(0, i + 1);
            assert(longer =~= shorter.push(added));
            assert forall|name: Seq<char>| has_key(ignore@, name) == (has_key(old(ignore)@, name)
                || longer.contains(name)) by {
                if name == added {
                    assert(longer[i as int] == name);
                    assert(longer.contains(name));
                } else {
                    assert(has_key(ignore@, name) == has_key(reached, name));
                    if shorter.contains(name) {
                        let k = choose|k: int| 0 <= k < shorter.len() && shorter[k] == name;
                        assert(longer[k] == name);
                        assert(longer.contains(name));
                    }
                    if longer.contains(name) {
                        let k = choose|k: int| 0 <= k < longer.len() && longer[k] == name;
                        assert(k < i);
                        assert(shorter[k] == name);
                        assert(shorter.contains(name));
                    }
                }
            }
        }
        i = i + 1;
    }
    assert(wanted.subrange(0, i as int) =~= wanted);
}

/// The names, as a set, of all the loops that `errors` reports.
fn names_to_ignore(errors: &Vec<Error>) -> (ignore: OrderedMap<()>)
    ensures
        forall|name: Seq<char>|
            has_key(ignore@, name) == reported(failures_view(errors@), name),
{
    let ghost all = failures_view(errors@);
    let mut ignore: OrderedMap<()> = OrderedMap::new();
    let mut i: usize = 0;
    while i < errors.len()
        invariant
            i <= errors.len(),
            all == failures_view(errors@),
            forall|name: Seq<char>|
                has_key(ignore@, name) == reported(all.subrange(0, i as int), name),
        decreases errors.len() - i,
    {
        let ghost reached = ignore@;
        match &errors[i] {
            Error::InfiniteLoop { involved } => {
                insert_names(&mut ignore, &involved.0);
            },
            _ => {},
        }
        proof {
            let shorter = all.subrange(0, i as int);
            let longer = all.subrange(0, i + 1);
            assert(longer[i as int] == errors[i as int]@);
            assert forall|name: Seq<char>| has_key(ignore@, name) == reported(longer, name) by {
                if reported(shorter, name) {
                    let k = choose|k: int| 0 <= k < shorter.len() && in_loop(shorter[k], name);
                    assert(in_loop(longer[k], name));
                }
                if reported(longer, name) {
                    let k = choose|k: int| 0 <= k < longer.len() && in_loop(longer[k], name);
                    if k < i {
                        assert(in_loop(shorter[k], name));
                    }
                }
                if in_loop(longer[i as int], name) {
                    assert(reported(longer, name));
                }
            }
        }
        i = i + 1;
    }
    assert(all.subrange(0, i as int) =~= all);
    ignore
}

impl State {
    /// The state before the first step.
    fn new() -> (state: State)
        ensures
            state@ == start(),
    {
        let state = State {
            resolved: OrderedMap::new(),
            pending: OrderedMap::new(),
            errors: Vec::new(),
        };
        assert(state@.resolved =~= start().resolved);
        assert(state@.pending =~= start().pending);
        assert(state@.errors =~= start().errors);
        state
    }

    /// Returns all resolved values, erroring if there's anything pending.
    fn resolved_or_errors(self) -> (outcome: Result<OrderedMap<Color>, Vec<Error>>)
        requires
            anchored(self@),
        ensures
            match outcome {
                Ok(slots) => verdict(self@) == Ok::<Entries<Seq<char>>, Seq<Failure>>(
                    color_names(slots@),
                ),
                Err(errors) => verdict(self@) == Err::<Entries<Seq<char>>, Seq<Failure>>(
                    failures_view(errors@),
                ),
            },
    {
        let ghost progress = self@;
        let State { resolved, pending, mut errors } = self;
        assert(progress.pending.len() == pending@.len());
        if pending.is_empty() {
            let ghost all = resolved@;
            let entries = resolved.into_entries();
            let ghost given = entries@;
            let mut slots: OrderedMap<Color> = OrderedMap::new();
            assert(color_names(slots@) =~= colors(statuses(all)).subrange(0, 0));
            assert forall|k: int| 0 <= k < all.len() implies (#[trigger] all[k]).1@ is Ready by {
                let known = progress.resolved[k];
                assert(known.1 == all[k].1@);
                if known.1 is BlockedOn {
                    lemma_has_key(progress.pending, known.1->BlockedOn_0);
                }
            }
            for entry in walker: entries.into_iter()
                invariant
                    walker.seq() == given,
                    given.len() == all.len(),
                    distinct_keys(all),
                    forall|k: int|
                        0 <= k < given.len() ==> (#[trigger] given[k]).0@ == all[k].0 && given[k].1
                            == all[k].1,
                    forall|k: int| 0 <= k < all.len() ==> (#[trigger] all[k]).1@ is Ready,
                    color_names(slots@) == colors(statuses(all)).subrange(0, walker.index()),
            {
                let ghost reached = slots@;
                let ghost at = walker.index();
                let ghost key = all[at].0;
                proof {
                    assert(color_names(reached).len() == reached.len());
                    assert(reached.len() == at);
                    if has_key(reached, key) {
                        lemma_has_key(reached, key);
                        let p = index_of(reached, key);
                        assert(color_names(reached)[p].0 == key);
                        assert(colors(statuses(all)).subrange(0, at)[p].0 == all[p].0);
                        assert(all[p].0 != all[at].0);
                    }
                }
                let (name, status) = entry;
                match status {
                    PossiblyResolvedColor::Ready(color) => {
                        slots.insert(name, color);
                    },
                    PossiblyResolvedColor::BlockedOn(_) => {
                        // there can be no value blocked on another if there's nothing pending
                        assert(all[at].1@ is Ready);
                    },
                }
                assert(color_names(slots@) =~= colors(statuses(all)).subrange(0, at + 1));
            }
            assert(colors(statuses(all)).subrange(0, all.len() as int) =~= colors(
                statuses(all),
            ));
            Ok(slots)
        } else {
            // ok, then let's analyze what happened
            // they've been detected as loops already and might issue false positives else
            let ignore = names_to_ignore(&errors);
            let ghost loops = failures_view(errors@);
            let ghost all = waiting(pending@);
            let entries = pending.into_entries();
            let ghost given = entries@;
            assert(failures_view(errors@) =~= loops + complaints(all.subrange(0, 0), loops));
            for entry in walker: entries.into_iter()
                invariant
                    walker.seq() == given,
                    given.len() == all.len(),
                    forall|k: int|
                        0 <= k < given.len() ==> (#[trigger] given[k]).0@ == all[k].0
                            && names_view(given[k].1@) == all[k].1,
                    forall|name: Seq<char>| has_key(ignore@, name) == reported(loops, name),
                    failures_view(errors@) == loops + complaints(
                        all.subrange(0, walker.index()),
                        loops,
                    ),
            {
                let ghost before = errors@;
                let ghost at = walker.index();
                let (target, dependents) = entry;
                proof {
                    assert(all.subrange(0, at + 1).drop_last() =~= all.subrange(0, at));
                    assert(all.subrange(0, at + 1).last() == all[at]);
                }
                if ignore.get(target.as_str()).is_none() {
                    // [0] is safe here, there's no case where an empty set depends on
                    // something; the length is looked at all the same
                    let error = if dependents.len() > 0 && dependents[0].0 == target {
                        Error::LinkToItself { subject: SlotName(target) }
                    } else {
                        Error::LinkToNonexistent {
                            from: MultipleSlotNames::from(dependents),
                            to: SlotName(target),
                        }
                    };
                    assert(error@ == complaint(all[at].0, all[at].1));
                    errors.push(error);
                    assert(failures_view(errors@) =~= failures_view(before).push(error@));
                }
                assert(failures_view(errors@) =~= loops + complaints(
                    all.subrange(0, at + 1),
                    loops,
                ));
            }
            assert(all.subrange(0, all.len() as int) =~= all);
            Err(errors)
        }
    }
}

/// A scheme in which every slot holds a colour.
#[derive(Clone, Debug)]
pub struct ResolvedScheme {
    pub meta: Metadata,
    pub slots: OrderedMap<Color>,
}

impl TryFrom<LinkedScheme> for ResolvedScheme {
    type Error = Vec<Error>;

    /// Resolves a scheme: every slot gets the colour that its chain of links
    /// ends in, or everything that stands in the way is reported.
    ///
    /// The idea is to run through all slots once, and at each
    /// - if it's a link and its target has no colour yet, put it on the list
    ///   of those that wait for the target, and with it all that waited for
    ///   the slot itself;
    /// - if it's a colour, or a link to a slot that has one, give the colour
    ///   to the slot and to all that waited for it.
    ///
    /// So links accumulate until a fitting colour settles them.
    fn try_from(source: LinkedScheme) -> (outcome: Result<Self, Vec<Error>>)
        ensures
            match outcome {
                Ok(scheme) => scheme.meta == source.meta && resolution(
                    links_view(source.slots@),
                ) == Ok::<Entries<Seq<char>>, Seq<Failure>>(color_names(scheme.slots@)),
                Err(errors) => resolution(links_view(source.slots@)) == Err::<
                    Entries<Seq<char>>,
                    Seq<Failure>,
                >(failures_view(errors@)),
            },
            outcome is Ok <==> forall|i: int|
                0 <= i < source.slots@.len() ==> resolvable(
                    links_view(source.slots@),
                    (#[trigger] source.slots@[i]).0,
                ),
            outcome is Err ==> outcome->Err_0@.len() > 0,
            outcome is Ok ==> outcome->Ok_0.slots@.len() == source.slots@.len(),
            outcome is Ok ==> keys(outcome->Ok_0.slots@) == keys(source.slots@),
            outcome is Ok ==> forall|i: int|
                0 <= i < source.slots@.len() ==> ends_in(
                    links_view(source.slots@),
                    source.slots@[i].0,
                    (#[trigger] outcome->Ok_0.slots@[i]).1@,
                ),
    {
        let LinkedScheme { meta, slots } = source;
        let ghost given = slots@;
        let ghost links = links_view(given);
        let entries = slots.into_entries();
        let ghost all = entries@;
        let mut state = State::new();
        proof {
            lemma_same_keys(given, links, Seq::empty());
            assert(links.subrange(0, 0) =~= Seq::<(Seq<char>, Link)>::empty());
        }
        for entry in walker: entries.into_iter()
            invariant
                walker.seq() == all,
                all.len() == links.len(),
                forall|k: int|
                    0 <= k < all.len() ==> (#[trigger] all[k]).0@ == links[k].0 && all[k].1@
                        == links[k].1,
                state@ == run(links.subrange(0, walker.index())),
        {
            let ghost at = walker.index();
            let (this_name, value) = entry;
            take_in(SlotName(this_name), value, &mut state);
            proof {
                assert(links.subrange(0, at + 1).drop_last() =~= links.subrange(0, at));
                assert(links.subrange(0, at + 1).last() == links[at]);
            }
        }
        proof {
            assert(links.subrange(0, links.len() as int) =~= links);
            lemma_anchored(links);
            resolution_follows_chains(links);
            if resolution(links) is Err {
                failure_is_never_empty(links);
            }
            assert(keys(links) =~= keys(given));
            assert forall|k: int| 0 <= k < given.len() implies (#[trigger] given[k]).0
                == links[k].0 by {}
        }
        match state.resolved_or_errors() {
            Ok(slots) => {
                proof {
                    assert(keys(slots@).len() == slots@.len());
                    assert(keys(given).len() == given.len());
                    assert(keys(slots@) =~= keys(color_names(slots@)));
                    assert forall|k: int| 0 <= k < given.len() implies ends_in(
                        links,
                        given[k].0,
                        (#[trigger] slots@[k]).1@,
                    ) by {
                        assert(color_names(slots@)[k].1 == slots@[k].1@);
                        assert(ends_in(links, links[k].0, resolution(links)->Ok_0[k].1));
                    }
                }
                Ok(ResolvedScheme { meta, slots })
            },
            Err(errors) => {
                assert(failures_view(errors@).len() == errors@.len());
                Err(errors)
            },
        }
    }
}

impl TryFromSpecImpl<LinkedScheme> for ResolvedScheme {
    open spec fn obeys_try_from_spec() -> bool {
        false
    }

    open spec fn try_from_spec(source: LinkedScheme) -> Result<Self, Vec<Error>> {
        arbitrary()
    }
}

} // verus!
