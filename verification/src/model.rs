//! The resolution of a scheme, stated on mathematical data.
//!
//! A scheme is a list of `(name, link)` pairs with distinct names. Resolution
//! goes through the pairs once, in order, and keeps three things: what is known
//! of each name seen so far, which names wait for which other name, and the
//! loops noticed on the way. The functions of this file say what each step does
//! to these three, and what is reported in the end.

use crate::assoc::{has_key, lookup, put, swap_remove, Entries};
use crate::Link;
use vstd::prelude::*;

verus! {

/// What is known of a slot during resolution.
pub ghost enum Status {
    /// The slot waits for the slot of this name.
    BlockedOn(Seq<char>),
    /// The slot has this colour.
    Ready(Seq<char>),
}

/// Why a scheme could not be resolved.
pub ghost enum Failure {
    InfiniteLoop { involved: Seq<Seq<char>> },
    LinkToNonexistent { from: Seq<Seq<char>>, to: Seq<char> },
    LinkToItself { subject: Seq<char> },
}

/// The state of a resolution between two steps.
pub ghost struct Progress {
    /// Every name seen so far, with its colour or the name it waits for.
    pub resolved: Entries<Status>,
    /// Each name that others wait for, with those that wait for it, oldest
    /// first.
    pub pending: Entries<Seq<Seq<char>>>,
    /// The loops noticed so far.
    pub errors: Seq<Failure>,
}

/// The state before the first step.
pub open spec fn start() -> Progress {
    Progress { resolved: Seq::empty(), pending: Seq::empty(), errors: Seq::empty() }
}

/// The names that wait for `name`, oldest first.
pub open spec fn waiting_on(pending: Entries<Seq<Seq<char>>>, name: Seq<char>) -> Seq<Seq<char>> {
    match lookup(pending, name) {
        Some(names) => names,
        None => Seq::empty(),
    }
}

/// `resolved` after each of `names` in turn got `status`.
pub open spec fn fill(resolved: Entries<Status>, names: Seq<Seq<char>>, status: Status) -> Entries<
    Status,
>
    decreases names.len(),
{
    if names.len() == 0 {
        resolved
    } else {
        put(fill(resolved, names.drop_last(), status), names.last(), status)
    }
}

/// `this` has the colour `color`, and so has every name that waited for it.
pub open spec fn settle(progress: Progress, this: Seq<char>, color: Seq<char>) -> Progress {
    Progress {
        resolved: put(
            fill(progress.resolved, waiting_on(progress.pending, this), Status::Ready(color)),
            this,
            Status::Ready(color),
        ),
        pending: swap_remove(progress.pending, this),
        errors: progress.errors,
    }
}

/// `this`, and every name that waited for it, now waits for `blocker`: they
/// join those that wait for `blocker` already.
pub open spec fn migrate(progress: Progress, this: Seq<char>, blocker: Seq<char>) -> Progress {
    let moved = waiting_on(progress.pending, this).push(this);
    let others = swap_remove(progress.pending, this);
    Progress {
        resolved: fill(progress.resolved, moved, Status::BlockedOn(blocker)),
        pending: put(others, blocker, waiting_on(others, blocker) + moved),
        errors: progress.errors,
    }
}

/// The walk from `current` down the names that wait for it, and down those
/// that wait for them, as far as `depth` allows: the path to the first place
/// where `target` waits, if there is one. `path` holds the names above
/// `current`.
pub open spec fn find_loop(
    pending: Entries<Seq<Seq<char>>>,
    target: Seq<char>,
    current: Seq<char>,
    path: Seq<Seq<char>>,
    depth: nat,
) -> Option<Seq<Seq<char>>>
    decreases depth, 1nat, 0nat,
{
    if depth == 0 {
        None
    } else {
        match lookup(pending, current) {
            Some(names) => scan_loop(pending, target, names, 0, path.push(current), depth),
            None => None,
        }
    }
}

/// The part of the walk that goes through `names` from position `from` on.
pub open spec fn scan_loop(
    pending: Entries<Seq<Seq<char>>>,
    target: Seq<char>,
    names: Seq<Seq<char>>,
    from: nat,
    path: Seq<Seq<char>>,
    depth: nat,
) -> Option<Seq<Seq<char>>>
    decreases depth, 0nat, names.len() - from,
{
    if depth == 0 || from >= names.len() {
        None
    } else if names[from as int] == target {
        Some(path.push(target))
    } else {
        match find_loop(pending, target, names[from as int], path, (depth - 1) as nat) {
            Some(found) => Some(found),
            None => scan_loop(pending, target, names, from + 1, path, depth),
        }
    }
}

/// The loop that the link from `start` to `target` closes, if it closes one.
/// The walk goes no deeper than there are names that others wait for: a deeper
/// one would pass some name twice.
pub open spec fn detect_loop(
    pending: Entries<Seq<Seq<char>>>,
    start: Seq<char>,
    target: Seq<char>,
) -> Option<Seq<Seq<char>>> {
    find_loop(pending, target, start, Seq::empty(), pending.len())
}

/// `progress` with the loop, if any, that the link from `this` to `target`
/// has closed.
pub open spec fn note_loop(progress: Progress, this: Seq<char>, target: Seq<char>) -> Progress {
    match detect_loop(progress.pending, this, target) {
        Some(involved) => Progress {
            errors: progress.errors.push(Failure::InfiniteLoop { involved }),
            ..progress
        },
        None => progress,
    }
}

/// One step: the pair `(this, link)` is taken in.
pub open spec fn step(progress: Progress, this: Seq<char>, link: Link) -> Progress {
    match link {
        Link::Contains(color) => settle(progress, this, color),
        Link::LinkedTo(target) => match lookup(progress.resolved, target) {
            Some(Status::Ready(color)) => settle(progress, this, color),
            Some(Status::BlockedOn(blocker)) => note_loop(
                migrate(progress, this, blocker),
                this,
                target,
            ),
            None => migrate(progress, this, target),
        },
    }
}

/// The state after all of `links` were taken in, in order.
pub open spec fn run(links: Entries<Link>) -> Progress
    decreases links.len(),
{
    if links.len() == 0 {
        start()
    } else {
        step(run(links.drop_last()), links.last().0, links.last().1)
    }
}

/// `failure` is a loop that `name` is part of.
pub open spec fn in_loop(failure: Failure, name: Seq<char>) -> bool {
    failure is InfiniteLoop && failure->involved.contains(name)
}

/// `name` is part of a loop that `errors` reports.
pub open spec fn reported(errors: Seq<Failure>, name: Seq<char>) -> bool {
    exists|i: int| 0 <= i < errors.len() && in_loop(#[trigger] errors[i], name)
}

/// What is reported of the names that `target` has left waiting.
pub open spec fn complaint(target: Seq<char>, dependents: Seq<Seq<char>>) -> Failure {
    if dependents.len() > 0 && dependents[0] == target {
        Failure::LinkToItself { subject: target }
    } else {
        Failure::LinkToNonexistent { from: dependents, to: target }
    }
}

/// One complaint for each name that is still waited for and is in no reported
/// loop, in the order of `pending`.
pub open spec fn complaints(pending: Entries<Seq<Seq<char>>>, errors: Seq<Failure>) -> Seq<
    Failure,
>
    decreases pending.len(),
{
    if pending.len() == 0 {
        Seq::empty()
    } else {
        let before = complaints(pending.drop_last(), errors);
        if reported(errors, pending.last().0) {
            before
        } else {
            before.push(complaint(pending.last().0, pending.last().1))
        }
    }
}

/// Every name that waits is waited for: the name it waits for has its list in
/// `pending`.
pub open spec fn anchored(progress: Progress) -> bool {
    forall|i: int|
        0 <= i < progress.resolved.len() && (#[trigger] progress.resolved[i]).1 is BlockedOn
            ==> has_key(progress.pending, progress.resolved[i].1->BlockedOn_0)
}

/// The colour of a status; of a slot that still waits, the name it waits for.
pub open spec fn color_of(status: Status) -> Seq<char> {
    match status {
        Status::Ready(color) => color,
        Status::BlockedOn(blocker) => blocker,
    }
}

/// The colours of `resolved`, name by name.
pub open spec fn colors(resolved: Entries<Status>) -> Entries<Seq<char>> {
    Seq::new(resolved.len(), |i: int| (resolved[i].0, color_of(resolved[i].1)))
}

/// What the resolution ends in: the colours, if nothing is waited for any
/// more, or else the loops noticed on the way followed by the complaints.
pub open spec fn verdict(progress: Progress) -> Result<Entries<Seq<char>>, Seq<Failure>> {
    if progress.pending.len() == 0 {
        Ok(colors(progress.resolved))
    } else {
        Err(progress.errors + complaints(progress.pending, progress.errors))
    }
}

/// The outcome of resolving `links`.
pub open spec fn resolution(links: Entries<Link>) -> Result<Entries<Seq<char>>, Seq<Failure>> {
    verdict(run(links))
}

} // verus!
