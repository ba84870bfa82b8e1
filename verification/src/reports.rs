//! Why the reports are right: what the errors of a failed resolution say of
//! the scheme.

use crate::assoc::{
    distinct_keys, has_key, index_of, lemma_has_key, lemma_index_of, lemma_put,
    lemma_swap_remove, lookup, put, swap_remove, Entries,
};
use crate::chain::{
    chase, leads, lemma_chase_after_walk, lemma_circle, lemma_circle_back, lemma_circle_stays,
    lemma_grown, lemma_walk_split, walk,
};
use crate::model::{
    complaint, complaints, fill, find_loop, in_loop, migrate, reported, resolution, run,
    scan_loop, start, step, waiting_on, Failure, Progress, Status,
};
use crate::soundness::{
    known_right, lemma_fill, lemma_keys, lemma_run, lemma_step, lemma_waiter,
    lemma_waiters_known, list_right, sound,
};
use crate::Link;
use vstd::prelude::*;

verus! {

/// What a step makes of the slot that it takes in: the colour that the slot
/// gets, or the name that it will wait for.
pub open spec fn fate(progress: Progress, link: Link) -> Status {
    match link {
        Link::Contains(color) => Status::Ready(color),
        Link::LinkedTo(target) => match lookup(progress.resolved, target) {
            Some(Status::Ready(color)) => Status::Ready(color),
            Some(Status::BlockedOn(blocker)) => Status::BlockedOn(blocker),
            None => Status::BlockedOn(target),
        },
    }
}

/// The slot `this` links to a slot that waits, directly or not, for `this`:
/// taking it in closes a circle.
pub open spec fn closes(progress: Progress, this: Seq<char>, link: Link) -> bool {
    link is LinkedTo && lookup(progress.resolved, link->LinkedTo_0) == Some(
        Status::BlockedOn(this),
    )
}

/// The list of those that wait for `blocker` after `this` was made to wait
/// for it.
pub open spec fn joined(progress: Progress, this: Seq<char>, blocker: Seq<char>) -> Seq<
    Seq<char>,
> {
    (if blocker == this {
        Seq::empty()
    } else {
        waiting_on(progress.pending, blocker)
    }) + waiting_on(progress.pending, this).push(this)
}

/// What a step does, name by name: the new slot and all that waited for it
/// share its fate, and nothing else changes but the list that they join.
pub proof fn lemma_effect(links: Entries<Link>, progress: Progress, this: Seq<char>, link: Link)
    requires
        sound(links, progress),
        !has_key(links, this),
    ensures
        sound(links.push((this, link)), step(progress, this, link)),
        forall|name: Seq<char>| #[trigger]
            lookup(step(progress, this, link).resolved, name) == (if name == this || waiting_on(
                progress.pending,
                this,
            ).contains(name) {
                Some(fate(progress, link))
            } else {
                lookup(progress.resolved, name)
            }),
        fate(progress, link) is Ready ==> forall|other: Seq<char>| #[trigger]
            lookup(step(progress, this, link).pending, other) == (if other == this {
                None
            } else {
                lookup(progress.pending, other)
            }),
        fate(progress, link) is BlockedOn ==> forall|other: Seq<char>| #[trigger]
            lookup(step(progress, this, link).pending, other) == (if other == fate(
                progress,
                link,
            )->BlockedOn_0 {
                Some(joined(progress, this, other))
            } else if other == this {
                None
            } else {
                lookup(progress.pending, other)
            }),
{
    let after = step(progress, this, link);
    let waiters = waiting_on(progress.pending, this);
    let new = fate(progress, link);
    lemma_step(links, progress, this, link);
    lemma_waiters_known(links, progress, this);
    lemma_fill(progress.resolved, waiters, new);
    let filled = fill(progress.resolved, waiters, new);
    lemma_keys(filled, links, this);
    lemma_keys(progress.resolved, links, this);
    lemma_put(filled, this, new);
    lemma_swap_remove(progress.pending, this);
    let others = swap_remove(progress.pending, this);
    assert(waiters.push(this).drop_last() =~= waiters);
    match new {
        Status::Ready(color) => {
            assert(after.resolved == put(filled, this, new));
            assert(after.pending == others);
        },
        Status::BlockedOn(blocker) => {
            let moved = migrate(progress, this, blocker);
            assert(after.resolved == moved.resolved);
            assert(after.pending == moved.pending);
            assert(moved.resolved == put(filled, this, new));
            let list = waiting_on(others, blocker) + waiters.push(this);
            lemma_put(others, blocker, list);
            assert(list == joined(progress, this, blocker));
        },
    }
}

/// A walk through a list finds `target` at its place if no name in front of
/// it is waited for.
proof fn lemma_scan(
    pending: Entries<Seq<Seq<char>>>,
    target: Seq<char>,
    names: Seq<Seq<char>>,
    from: nat,
    at: nat,
    path: Seq<Seq<char>>,
    depth: nat,
)
    requires
        depth > 0,
        from <= at < names.len(),
        names[at as int] == target,
        forall|k: int| from <= k < at ==> lookup(pending, #[trigger] names[k]) is None,
    ensures
        scan_loop(pending, target, names, from, path, depth) == Some(path.push(target)),
    decreases at - from,
{
    if names[from as int] != target {
        assert(lookup(pending, names[from as int]) is None);
        assert(find_loop(pending, target, names[from as int], path, (depth - 1) as nat) is None);
        lemma_scan(pending, target, names, from + 1, at, path, depth);
    }
}

/// A step reports a circle exactly if the new slot closes one, and then it
/// names the new slot and the slot that it links to.
pub proof fn lemma_errors(links: Entries<Link>, progress: Progress, this: Seq<char>, link: Link)
    requires
        sound(links, progress),
        !has_key(links, this),
    ensures
        step(progress, this, link).errors == (if closes(progress, this, link) {
            progress.errors.push(Failure::InfiniteLoop { involved: seq![this, link->LinkedTo_0] })
        } else {
            progress.errors
        }),
{
    lemma_effect(links, progress, this, link);
    match link {
        Link::Contains(_) => {},
        Link::LinkedTo(target) => {
            match lookup(progress.resolved, target) {
                Some(Status::BlockedOn(blocker)) => {
                    let moved = migrate(progress, this, blocker);
                    let after = step(progress, this, link);
                    assert(after.pending == moved.pending);
                    if blocker == this {
                        let waiters = waiting_on(progress.pending, this);
                        let list = joined(progress, this, this);
                        assert(lookup(after.pending, this) == Some(list));
                        lemma_blocked_waits(links, progress, target, this);
                        let at = choose|at: int| 0 <= at < waiters.len() && waiters[at] == target;
                        assert(list[at] == target);
                        lemma_has_key(after.pending, this);
                        assert forall|k: int| 0 <= k < at implies lookup(
                            after.pending,
                            #[trigger] list[k],
                        ) is None by {
                            assert(list[k] == waiters[k]);
                            assert(waiters.contains(waiters[k]));
                            lemma_waiter(links, progress, this, waiters[k]);
                            assert(list_right(links, progress, waiters[k]));
                        }
                        lemma_scan(
                            after.pending,
                            target,
                            list,
                            0,
                            at as nat,
                            Seq::<Seq<char>>::empty().push(this),
                            after.pending.len(),
                        );
                        assert(Seq::<Seq<char>>::empty().push(this).push(target) =~= seq![
                            this,
                            target,
                        ]);
                    } else {
                        assert(lookup(after.pending, this) is None);
                    }
                },
                _ => {},
            }
        },
    }
}

/// A slot that waits stands on the list of the name it waits for.
proof fn lemma_blocked_waits(
    links: Entries<Link>,
    progress: Progress,
    name: Seq<char>,
    blocker: Seq<char>,
)
    requires
        sound(links, progress),
        lookup(progress.resolved, name) == Some(Status::BlockedOn(blocker)),
    ensures
        has_key(progress.pending, blocker),
        waiting_on(progress.pending, blocker).contains(name),
        leads(links, name, blocker),
        has_key(links, name),
{
    crate::soundness::lemma_blocked(links, progress, name, blocker);
    lemma_keys(progress.resolved, links, name);
}

/// The last link of a walk is the link of some slot.
proof fn lemma_last_hop(links: Entries<Link>, name: Seq<char>, steps: nat, goal: Seq<char>)
    requires
        steps >= 1,
        walk(links, name, steps) == Some(goal),
    ensures
        exists|from: Seq<char>| #[trigger] lookup(links, from) == Some(Link::LinkedTo(goal)),
    decreases steps,
{
    match lookup(links, name) {
        Some(Link::LinkedTo(target)) => {
            if steps == 1 {
                assert(walk(links, target, 0) == Some(target));
                assert(lookup(links, name) == Some(Link::LinkedTo(goal)));
            } else {
                lemma_last_hop(links, target, (steps - 1) as nat, goal);
            }
        },
        _ => {},
    }
}

/// The report of a circle is right: it names two slots, of which the first
/// links to the second, and both wait for the first.
pub open spec fn loop_right(links: Entries<Link>, progress: Progress, failure: Failure) -> bool {
    &&& failure is InfiniteLoop
    &&& failure->involved.len() == 2
    &&& failure->involved[0] != failure->involved[1]
    &&& lookup(links, failure->involved[0]) == Some(Link::LinkedTo(failure->involved[1]))
    &&& lookup(progress.resolved, failure->involved[0]) == Some(
        Status::BlockedOn(failure->involved[0]),
    )
    &&& lookup(progress.resolved, failure->involved[1]) == Some(
        Status::BlockedOn(failure->involved[0]),
    )
}

/// Some report of a circle names `name` first.
pub open spec fn closer_reported(errors: Seq<Failure>, name: Seq<char>) -> bool {
    exists|k: int|
        0 <= k < errors.len() && (#[trigger] errors[k]) is InfiniteLoop
            && errors[k]->involved.len() == 2 && errors[k]->involved[0] == name
}

/// The slot at `at` links to itself, and no slot in front of it links to it.
pub open spec fn first_self_link(links: Entries<Link>, at: int) -> bool {
    &&& links[at].1 == Link::LinkedTo(links[at].0)
    &&& forall|j: int| 0 <= j < at ==> (#[trigger] links[j]).1 != Link::LinkedTo(links[at].0)
}

/// What holds of the reports after every step: every report of a circle is
/// right, no slot is named first in two of them, every slot that waits for
/// itself without linking to itself is named first in one, and a slot that
/// links to itself, with no slot in front of it that links to it, is the
/// oldest on its own list.
pub open spec fn reports_right(links: Entries<Link>, progress: Progress) -> bool {
    &&& forall|k: int|
        0 <= k < progress.errors.len() ==> loop_right(links, progress, #[trigger] progress.errors[k])
    &&& forall|j: int, k: int|
        0 <= j < k < progress.errors.len() ==> (#[trigger] progress.errors[j])->involved[0] != (
        #[trigger] progress.errors[k])->involved[0]
    &&& forall|name: Seq<char>|
        #[trigger] lookup(progress.resolved, name) == Some(Status::BlockedOn(name)) && lookup(
            links,
            name,
        ) != Some(Link::LinkedTo(name)) ==> closer_reported(progress.errors, name)
    &&& forall|at: int|
        0 <= at < links.len() && #[trigger] first_self_link(links, at) ==> has_key(
            progress.pending,
            links[at].0,
        ) && waiting_on(progress.pending, links[at].0)[0] == links[at].0
}

/// Every step keeps the reports right.
pub proof fn lemma_reports_step(
    links: Entries<Link>,
    progress: Progress,
    this: Seq<char>,
    link: Link,
)
    requires
        sound(links, progress),
        reports_right(links, progress),
        !has_key(links, this),
    ensures
        reports_right(links.push((this, link)), step(progress, this, link)),
{
    let grown = links.push((this, link));
    let after = step(progress, this, link);
    let waiters = waiting_on(progress.pending, this);
    let new = fate(progress, link);
    lemma_grown(links, this, link);
    lemma_effect(links, progress, this, link);
    lemma_errors(links, progress, this, link);
    lemma_keys(progress.resolved, links, this);
    assert(!waiters.contains(this)) by {
        if waiters.contains(this) {
            lemma_waiter(links, progress, this, this);
        }
    }
    // the reports that were there stay right
    assert forall|k: int| 0 <= k < progress.errors.len() implies loop_right(
        grown,
        after,
        #[trigger] progress.errors[k],
    ) by {
        let failure = progress.errors[k];
        assert(loop_right(links, progress, failure));
        let closer = failure->involved[0];
        let target = failure->involved[1];
        lemma_keys(progress.resolved, links, closer);
        lemma_keys(progress.resolved, links, target);
        if waiters.contains(closer) {
            lemma_waiter(links, progress, this, closer);
        }
        if waiters.contains(target) {
            lemma_waiter(links, progress, this, target);
        }
    }
    if closes(progress, this, link) {
        let target = link->LinkedTo_0;
        let failure = Failure::InfiniteLoop { involved: seq![this, target] };
        lemma_blocked_waits(links, progress, target, this);
        assert(loop_right(grown, after, failure));
        assert(after.errors[progress.errors.len() as int] == failure);
    }
    assert forall|k: int| 0 <= k < after.errors.len() implies loop_right(
        grown,
        after,
        #[trigger] after.errors[k],
    ) by {
        if k < progress.errors.len() {
            assert(after.errors[k] == progress.errors[k]);
        }
    }
    assert forall|j: int, k: int| 0 <= j < k < after.errors.len() implies (
    #[trigger] after.errors[j])->involved[0] != (#[trigger] after.errors[k])->involved[0] by {
        assert(after.errors[j] == progress.errors[j]);
        assert(loop_right(links, progress, progress.errors[j]));
        if k < progress.errors.len() {
            assert(after.errors[k] == progress.errors[k]);
        } else {
            lemma_keys(progress.resolved, links, progress.errors[j]->involved[0]);
        }
    }
    assert forall|name: Seq<char>|
        #[trigger] lookup(after.resolved, name) == Some(Status::BlockedOn(name)) && lookup(
            grown,
            name,
        ) != Some(Link::LinkedTo(name)) implies closer_reported(after.errors, name) by {
        if name == this {
            assert(closes(progress, this, link));
            assert(after.errors[progress.errors.len() as int]->involved[0] == this);
        } else if waiters.contains(name) {
            lemma_waiter(links, progress, this, name);
            match link {
                Link::LinkedTo(target) => {
                    match lookup(progress.resolved, target) {
                        Some(Status::BlockedOn(blocker)) => {
                            lemma_blocked_waits(links, progress, target, blocker);
                            assert(list_right(links, progress, blocker));
                        },
                        _ => {},
                    }
                },
                _ => {},
            }
        } else {
            assert(lookup(progress.resolved, name) == Some(Status::BlockedOn(name)));
            assert(closer_reported(progress.errors, name));
            let k = choose|k: int|
                0 <= k < progress.errors.len() && (#[trigger] progress.errors[k]) is InfiniteLoop
                    && progress.errors[k]->involved.len() == 2
                    && progress.errors[k]->involved[0] == name;
            assert(after.errors[k] == progress.errors[k]);
        }
    }
    assert forall|at: int| 0 <= at < grown.len() && #[trigger] first_self_link(
        grown,
        at,
    ) implies has_key(after.pending, grown[at].0) && waiting_on(after.pending, grown[at].0)[0]
        == grown[at].0 by {
        if at < links.len() {
            let name = links[at].0;
            assert(grown[at] == links[at]);
            assert(first_self_link(links, at)) by {
                assert forall|j: int| 0 <= j < at implies (#[trigger] links[j]).1
                    != Link::LinkedTo(links[at].0) by {
                    assert(grown[j] == links[j]);
                }
            }
            lemma_index_of(links, at);
            assert(list_right(links, progress, name));
            assert(lookup(after.pending, name) is Some);
        } else {
            assert(grown[at] == (this, link));
            if waiters.len() > 0 {
                assert(waiters.contains(waiters[0]));
                lemma_waiter(links, progress, this, waiters[0]);
                lemma_blocked_waits(links, progress, waiters[0], this);
                let steps = choose|steps: nat|
                    steps >= 1 && walk(links, waiters[0], steps) == Some(this);
                lemma_last_hop(links, waiters[0], steps, this);
                let from = choose|from: Seq<char>| #[trigger]
                    lookup(links, from) == Some(Link::LinkedTo(this));
                lemma_has_key(links, from);
                let j = index_of(links, from);
                assert(grown[j] == links[j]);
            }
            assert(joined(progress, this, this) =~= seq![this]);
            assert(lookup(after.pending, this) == Some(joined(progress, this, this)));
        }
    }
}

/// After a whole scheme was taken in, the state is sound and the reports are
/// right.
pub proof fn lemma_reports_run(links: Entries<Link>)
    requires
        distinct_keys(links),
    ensures
        sound(links, run(links)),
        reports_right(links, run(links)),
    decreases links.len(),
{
    lemma_run(links);
    if links.len() == 0 {
        assert forall|name: Seq<char>| lookup(start().resolved, name) is None by {}
    } else {
        let shorter = links.drop_last();
        let last = links.last();
        assert(distinct_keys(shorter));
        lemma_reports_run(shorter);
        assert(!has_key(shorter, last.0)) by {
            if has_key(shorter, last.0) {
                lemma_has_key(shorter, last.0);
                let p = index_of(shorter, last.0);
                assert(links[p].0 != links[links.len() - 1].0);
            }
        }
        lemma_reports_step(shorter, run(shorter), last.0, last.1);
        assert(shorter.push((last.0, last.1)) =~= links);
    }
}

/// The name that a complaint is about.
pub open spec fn about(failure: Failure) -> Seq<char> {
    match failure {
        Failure::LinkToNonexistent { from, to } => to,
        Failure::LinkToItself { subject } => subject,
        Failure::InfiniteLoop { involved } => Seq::empty(),
    }
}

/// `failure` names `name`.
pub open spec fn mentions(failure: Failure, name: Seq<char>) -> bool {
    match failure {
        Failure::InfiniteLoop { involved } => involved.contains(name),
        Failure::LinkToNonexistent { from, to } => to == name || from.contains(name),
        Failure::LinkToItself { subject } => subject == name,
    }
}

/// There is one complaint for each name that is waited for and is in no
/// reported circle, and no other complaint.
pub proof fn lemma_complaints(pending: Entries<Seq<Seq<char>>>, errors: Seq<Failure>)
    requires
        distinct_keys(pending),
    ensures
        forall|k: int|
            0 <= k < complaints(pending, errors).len() ==> {
                let failure = #[trigger] complaints(pending, errors)[k];
                &&& !(failure is InfiniteLoop)
                &&& has_key(pending, about(failure))
                &&& !reported(errors, about(failure))
                &&& failure == complaint(about(failure), waiting_on(pending, about(failure)))
            },
        forall|j: int, k: int|
            0 <= j < k < complaints(pending, errors).len() ==> about(
                #[trigger] complaints(pending, errors)[j],
            ) != about(#[trigger] complaints(pending, errors)[k]),
        forall|name: Seq<char>|
            #[trigger] has_key(pending, name) && !reported(errors, name) ==> exists|k: int|
                0 <= k < complaints(pending, errors).len() && #[trigger] complaints(
                    pending,
                    errors,
                )[k] == complaint(name, waiting_on(pending, name)),
    decreases pending.len(),
{
    if pending.len() > 0 {
        let shorter = pending.drop_last();
        let last = pending.last();
        let before = complaints(shorter, errors);
        let all = complaints(pending, errors);
        assert(distinct_keys(shorter));
        lemma_complaints(shorter, errors);
        assert(!has_key(shorter, last.0)) by {
            if has_key(shorter, last.0) {
                lemma_has_key(shorter, last.0);
                let p = index_of(shorter, last.0);
                assert(pending[p].0 != pending[pending.len() - 1].0);
            }
        }
        assert(pending =~= shorter.push(last));
        lemma_put(shorter, last.0, last.1);
        assert(put(shorter, last.0, last.1) == pending);
        assert(about(complaint(last.0, last.1)) == last.0);
        assert forall|k: int| 0 <= k < all.len() implies {
            let failure = #[trigger] all[k];
            &&& !(failure is InfiniteLoop)
            &&& has_key(pending, about(failure))
            &&& !reported(errors, about(failure))
            &&& failure == complaint(about(failure), waiting_on(pending, about(failure)))
        } by {
            if k < before.len() {
                assert(all[k] == before[k]);
                assert(has_key(shorter, about(before[k])));
            }
        }
        assert forall|j: int, k: int| 0 <= j < k < all.len() implies about(#[trigger] all[j])
            != about(#[trigger] all[k]) by {
            assert(all[j] == before[j]);
            assert(has_key(shorter, about(before[j])));
            if k < before.len() {
                assert(all[k] == before[k]);
            }
        }
        assert forall|name: Seq<char>|
            #[trigger] has_key(pending, name) && !reported(errors, name) implies exists|k: int|
            0 <= k < all.len() && #[trigger] all[k] == complaint(
                name,
                waiting_on(pending, name),
            ) by {
            if name == last.0 {
                assert(all[before.len() as int] == complaint(name, waiting_on(pending, name)));
            } else {
                assert(has_key(shorter, name));
                let k = choose|k: int|
                    0 <= k < before.len() && #[trigger] before[k] == complaint(
                        name,
                        waiting_on(shorter, name),
                    );
                assert(all[k] == before[k]);
            }
        }
    }
}

/// A failed resolution reports something.
pub proof fn failure_is_never_empty(links: Entries<Link>)
    requires
        distinct_keys(links),
        resolution(links) is Err,
    ensures
        resolution(links)->Err_0.len() > 0,
{
    let progress = run(links);
    lemma_reports_run(links);
    lemma_complaints(progress.pending, progress.errors);
    let name = progress.pending[0].0;
    lemma_index_of(progress.pending, 0);
    if !reported(progress.errors, name) {
        assert(has_key(progress.pending, name));
    }
}

/// Every circle that is reported is there: the report names two slots, of
/// which the first links to the second, and links lead from the second back
/// to the first.
pub proof fn reported_circles_are_there(links: Entries<Link>, at: int)
    requires
        distinct_keys(links),
        resolution(links) is Err,
        0 <= at < resolution(links)->Err_0.len(),
        resolution(links)->Err_0[at] is InfiniteLoop,
    ensures
        resolution(links)->Err_0[at]->involved.len() == 2,
        resolution(links)->Err_0[at]->involved[0] != resolution(links)->Err_0[at]->involved[1],
        lookup(links, resolution(links)->Err_0[at]->involved[0]) == Some(
            Link::LinkedTo(resolution(links)->Err_0[at]->involved[1]),
        ),
        leads(
            links,
            resolution(links)->Err_0[at]->involved[1],
            resolution(links)->Err_0[at]->involved[0],
        ),
{
    let progress = run(links);
    lemma_reports_run(links);
    lemma_complaints(progress.pending, progress.errors);
    let all = resolution(links)->Err_0;
    if at < progress.errors.len() {
        assert(all[at] == progress.errors[at]);
        assert(loop_right(links, progress, progress.errors[at]));
        lemma_blocked_waits(
            links,
            progress,
            all[at]->involved[1],
            all[at]->involved[0],
        );
    } else {
        assert(all[at] == complaints(progress.pending, progress.errors)[at
            - progress.errors.len()]);
    }
}

/// Every complaint is right. One that says that slots link to a name that
/// does not exist names slots from which links lead to that name, and the name
/// is no slot, or is a slot that links to itself and for which an older slot
/// waited already. One that says that a slot links to itself names a slot
/// that does so.
pub proof fn complaints_are_right(links: Entries<Link>, at: int)
    requires
        distinct_keys(links),
        resolution(links) is Err,
        0 <= at < resolution(links)->Err_0.len(),
    ensures
        match resolution(links)->Err_0[at] {
            Failure::LinkToNonexistent { from, to } => {
                &&& from.len() > 0
                &&& forall|k: int|
                    0 <= k < from.len() ==> has_key(links, #[trigger] from[k]) && leads(
                        links,
                        from[k],
                        to,
                    )
                &&& !has_key(links, to) || lookup(links, to) == Some(Link::LinkedTo(to))
            },
            Failure::LinkToItself { subject } => lookup(links, subject) == Some(
                Link::LinkedTo(subject),
            ),
            Failure::InfiniteLoop { involved } => true,
        },
{
    let progress = run(links);
    lemma_reports_run(links);
    lemma_complaints(progress.pending, progress.errors);
    let all = resolution(links)->Err_0;
    if at < progress.errors.len() {
        assert(all[at] == progress.errors[at]);
        assert(loop_right(links, progress, progress.errors[at]));
    } else {
        let failure = complaints(progress.pending, progress.errors)[at - progress.errors.len()];
        assert(all[at] == failure);
        let name = about(failure);
        let list = waiting_on(progress.pending, name);
        assert(list_right(links, progress, name));
        lemma_self_waiting(links, progress, name);
        assert forall|k: int| 0 <= k < list.len() implies has_key(links, #[trigger] list[k])
            && leads(links, list[k], name) by {
            assert(list.contains(list[k]));
            lemma_waiter(links, progress, name, list[k]);
            lemma_blocked_waits(links, progress, list[k], name);
        }
        if list[0] == name {
            assert(list.contains(list[0]));
            lemma_waiter(links, progress, name, name);
        }
    }
}

/// A slot that is waited for, and is in no reported circle, links to itself.
proof fn lemma_self_waiting(links: Entries<Link>, progress: Progress, name: Seq<char>)
    requires
        sound(links, progress),
        reports_right(links, progress),
        has_key(progress.pending, name),
        !reported(progress.errors, name),
    ensures
        !has_key(links, name) || lookup(links, name) == Some(Link::LinkedTo(name)),
{
    assert(list_right(links, progress, name));
    if has_key(links, name) && lookup(links, name) != Some(Link::LinkedTo(name)) {
        assert(lookup(progress.resolved, name) == Some(Status::BlockedOn(name)));
        assert(closer_reported(progress.errors, name));
        let k = choose|k: int|
            0 <= k < progress.errors.len() && (#[trigger] progress.errors[k]) is InfiniteLoop
                && progress.errors[k]->involved.len() == 2 && progress.errors[k]->involved[0]
                == name;
        assert(progress.errors[k]->involved.contains(name));
        assert(in_loop(progress.errors[k], name));
    }
}

/// A slot from which links lead to a name that is no slot waits for that
/// name in the end.
proof fn lemma_ends_at(links: Entries<Link>, progress: Progress, name: Seq<char>, ghost: Seq<char>)
    requires
        sound(links, progress),
        !has_key(links, ghost),
        leads(links, name, ghost),
    ensures
        lookup(progress.resolved, name) == Some(Status::BlockedOn(ghost)),
{
    let n = choose|steps: nat| steps >= 1 && walk(links, name, steps) == Some(ghost);
    assert(has_key(links, name));
    lemma_keys(progress.resolved, links, name);
    assert(known_right(links, progress, name));
    match lookup(progress.resolved, name) {
        Some(Status::Ready(color)) => {
            let m = choose|steps: nat| chase(links, name, steps) == Some(color);
            lemma_chase_after_walk(links, name, n, ghost, m);
        },
        Some(Status::BlockedOn(blocker)) => {
            let reached = choose|steps: nat|
                steps >= 1 && walk(links, name, steps) == Some(blocker);
            assert(list_right(links, progress, blocker));
            if reached < n {
                lemma_walk_split(links, name, reached, (n - reached) as nat);
                if has_key(links, blocker) {
                    assert(known_right(links, progress, blocker));
                    let round = choose|steps: nat|
                        steps >= 1 && walk(links, blocker, steps) == Some(blocker);
                    lemma_circle_stays(links, blocker, round, (n - reached) as nat, ghost);
                }
            } else if reached > n {
                lemma_walk_split(links, name, n, (reached - n) as nat);
            }
        },
        None => {},
    }
}

/// The names of a reported circle are slots.
proof fn lemma_circle_slots(links: Entries<Link>, progress: Progress, at: int, name: Seq<char>)
    requires
        sound(links, progress),
        reports_right(links, progress),
        0 <= at < progress.errors.len(),
        mentions(progress.errors[at], name),
    ensures
        has_key(links, name),
        name == progress.errors[at]->involved[0] || name == progress.errors[at]->involved[1],
        lookup(progress.resolved, name) == Some(
            Status::BlockedOn(progress.errors[at]->involved[0]),
        ),
{
    let failure = progress.errors[at];
    assert(loop_right(links, progress, failure));
    let involved = failure->involved;
    let k = choose|k: int| 0 <= k < involved.len() && involved[k] == name;
    lemma_keys(progress.resolved, links, name);
}

/// Links that lead nowhere are reported, once and in full. If some slot
/// links to `ghost` and `ghost` is no slot, the resolution fails, and exactly
/// one of its errors names `ghost`: it says that slots link to a name that
/// does not exist, and the slots that it names are all those from which links
/// lead to `ghost`.
pub proof fn links_to_nowhere_are_reported(links: Entries<Link>, slot: Seq<char>, ghost: Seq<char>)
    requires
        distinct_keys(links),
        lookup(links, slot) == Some(Link::LinkedTo(ghost)),
        !has_key(links, ghost),
    ensures
        resolution(links) is Err,
        exists|at: int|
            0 <= at < resolution(links)->Err_0.len() && {
                let failure = #[trigger] resolution(links)->Err_0[at];
                &&& failure is LinkToNonexistent
                &&& failure->to == ghost
                &&& forall|name: Seq<char>| #[trigger]
                    failure->from.contains(name) <==> leads(links, name, ghost)
                &&& forall|other: int|
                    0 <= other < resolution(links)->Err_0.len() && other != at ==> !mentions(
                        #[trigger] resolution(links)->Err_0[other],
                        ghost,
                    )
            },
{
    let progress = run(links);
    lemma_reports_run(links);
    lemma_complaints(progress.pending, progress.errors);
    let found = complaints(progress.pending, progress.errors);
    assert(walk(links, ghost, 0) == Some(ghost));
    assert(walk(links, slot, 1) == Some(ghost));
    lemma_ends_at(links, progress, slot, ghost);
    lemma_blocked_waits(links, progress, slot, ghost);
    lemma_has_key(progress.pending, ghost);
    let all = resolution(links)->Err_0;
    assert(all == progress.errors + found);
    if reported(progress.errors, ghost) {
        let k = choose|k: int|
            0 <= k < progress.errors.len() && in_loop(#[trigger] progress.errors[k], ghost);
        lemma_circle_slots(links, progress, k, ghost);
    }
    let list = waiting_on(progress.pending, ghost);
    let k = choose|k: int| 0 <= k < found.len() && #[trigger] found[k] == complaint(ghost, list);
    let at = progress.errors.len() + k;
    assert(all[at] == found[k]);
    assert(list_right(links, progress, ghost));
    assert(list.contains(list[0]));
    lemma_waiter(links, progress, ghost, list[0]);
    let failure = all[at];
    assert(failure == Failure::LinkToNonexistent { from: list, to: ghost });
    assert forall|name: Seq<char>| #[trigger] list.contains(name) <==> leads(
        links,
        name,
        ghost,
    ) by {
        if list.contains(name) {
            lemma_waiter(links, progress, ghost, name);
            lemma_blocked_waits(links, progress, name, ghost);
        }
        if leads(links, name, ghost) {
            lemma_ends_at(links, progress, name, ghost);
            lemma_blocked_waits(links, progress, name, ghost);
        }
    }
    assert forall|other: int| 0 <= other < all.len() && other != at implies !mentions(
        #[trigger] all[other],
        ghost,
    ) by {
        if other < progress.errors.len() {
            assert(all[other] == progress.errors[other]);
            if mentions(all[other], ghost) {
                lemma_circle_slots(links, progress, other, ghost);
            }
        } else {
            let j = other - progress.errors.len();
            assert(all[other] == found[j]);
            if j < k {
                assert(about(found[j]) != about(found[k]));
            } else {
                assert(about(found[k]) != about(found[j]));
            }
            let name = about(found[j]);
            let names = waiting_on(progress.pending, name);
            if names.contains(ghost) {
                lemma_waiter(links, progress, name, ghost);
            }
        }
    }
}

/// A link of a slot to itself is reported, once. If a slot links to itself,
/// and no slot in front of it links to it, the resolution fails, and exactly
/// one of its errors names the slot: it says that the slot links to itself.
pub proof fn a_link_to_itself_is_reported(links: Entries<Link>, place: int)
    requires
        distinct_keys(links),
        0 <= place < links.len(),
        first_self_link(links, place),
    ensures
        resolution(links) is Err,
        exists|at: int|
            0 <= at < resolution(links)->Err_0.len() && {
                &&& #[trigger] resolution(links)->Err_0[at] == Failure::LinkToItself {
                    subject: links[place].0,
                }
                &&& forall|other: int|
                    0 <= other < resolution(links)->Err_0.len() && other != at ==> !mentions(
                        #[trigger] resolution(links)->Err_0[other],
                        links[place].0,
                    )
            },
{
    let progress = run(links);
    let subject = links[place].0;
    lemma_reports_run(links);
    lemma_complaints(progress.pending, progress.errors);
    lemma_index_of(links, place);
    let found = complaints(progress.pending, progress.errors);
    let all = resolution(links)->Err_0;
    let list = waiting_on(progress.pending, subject);
    assert(has_key(progress.pending, subject) && list[0] == subject);
    lemma_has_key(progress.pending, subject);
    assert(all == progress.errors + found);
    assert(list_right(links, progress, subject));
    assert(list.contains(list[0]));
    lemma_waiter(links, progress, subject, subject);
    assert forall|other: int| 0 <= other < progress.errors.len() implies !mentions(
        #[trigger] progress.errors[other],
        subject,
    ) by {
        if mentions(progress.errors[other], subject) {
            lemma_circle_slots(links, progress, other, subject);
            assert(loop_right(links, progress, progress.errors[other]));
        }
    }
    if reported(progress.errors, subject) {
        let k = choose|k: int|
            0 <= k < progress.errors.len() && in_loop(#[trigger] progress.errors[k], subject);
        assert(mentions(progress.errors[k], subject));
    }
    let k = choose|k: int|
        0 <= k < found.len() && #[trigger] found[k] == complaint(subject, list);
    let at = progress.errors.len() + k;
    assert(all[at] == found[k]);
    assert forall|other: int| 0 <= other < all.len() && other != at implies !mentions(
        #[trigger] all[other],
        subject,
    ) by {
        if other < progress.errors.len() {
            assert(all[other] == progress.errors[other]);
        } else {
            let j = other - progress.errors.len();
            assert(all[other] == found[j]);
            if j < k {
                assert(about(found[j]) != about(found[k]));
            } else {
                assert(about(found[k]) != about(found[j]));
            }
            let name = about(found[j]);
            let names = waiting_on(progress.pending, name);
            if names.contains(subject) {
                lemma_waiter(links, progress, name, subject);
            }
        }
    }
}

/// Every circle is reported, once. If links lead from a slot back to it, and
/// the slot does not link to itself, the resolution fails, and exactly one of
/// its errors names the slot: it reports a circle, and the slot that it names
/// first is the slot itself or a slot of the same circle.
pub proof fn every_circle_is_reported(links: Entries<Link>, name: Seq<char>)
    requires
        distinct_keys(links),
        leads(links, name, name),
        lookup(links, name) != Some(Link::LinkedTo(name)),
    ensures
        resolution(links) is Err,
        exists|at: int|
            0 <= at < resolution(links)->Err_0.len() && {
                let failure = #[trigger] resolution(links)->Err_0[at];
                &&& failure is InfiniteLoop
                &&& failure->involved.len() == 2
                &&& failure->involved[0] == name || (leads(links, name, failure->involved[0])
                    && leads(links, failure->involved[0], name))
                &&& forall|other: int|
                    0 <= other < resolution(links)->Err_0.len() && other != at ==> !mentions(
                        #[trigger] resolution(links)->Err_0[other],
                        name,
                    )
            },
{
    let progress = run(links);
    lemma_reports_run(links);
    lemma_complaints(progress.pending, progress.errors);
    let found = complaints(progress.pending, progress.errors);
    let round = choose|steps: nat| steps >= 1 && walk(links, name, steps) == Some(name);
    assert(has_key(links, name));
    lemma_keys(progress.resolved, links, name);
    assert(known_right(links, progress, name));
    match lookup(progress.resolved, name) {
        Some(Status::Ready(color)) => {
            let m = choose|steps: nat| chase(links, name, steps) == Some(color);
            lemma_circle(links, name, round, m);
        },
        Some(Status::BlockedOn(closer)) => {
            let reached = choose|steps: nat|
                steps >= 1 && walk(links, name, steps) == Some(closer);
            lemma_circle_stays(links, name, round, reached, closer);
            lemma_circle_back(links, name, round, reached, closer);
            assert(list_right(links, progress, closer));
            lemma_has_key(progress.pending, closer);
            if lookup(links, closer) == Some(Link::LinkedTo(closer)) {
                let back = choose|steps: nat|
                    steps >= 1 && walk(links, closer, steps) == Some(name);
                lemma_stays_put(links, closer, back);
            }
            let all = resolution(links)->Err_0;
            assert(all == progress.errors + found);
            assert(closer_reported(progress.errors, closer));
            let at = choose|k: int|
                0 <= k < progress.errors.len() && (#[trigger] progress.errors[k]) is InfiniteLoop
                    && progress.errors[k]->involved.len() == 2 && progress.errors[k]->involved[0]
                    == closer;
            let failure = progress.errors[at];
            assert(all[at] == failure);
            assert(loop_right(links, progress, failure));
            assert(failure->involved.contains(closer));
            assert(in_loop(failure, closer));
            assert forall|other: int| 0 <= other < all.len() && other != at implies !mentions(
                #[trigger] all[other],
                name,
            ) by {
                if other < progress.errors.len() {
                    assert(all[other] == progress.errors[other]);
                    assert(loop_right(links, progress, progress.errors[other]));
                    if other < at {
                        assert(progress.errors[other]->involved[0]
                            != progress.errors[at]->involved[0]);
                    } else {
                        assert(progress.errors[at]->involved[0]
                            != progress.errors[other]->involved[0]);
                    }
                    if mentions(all[other], name) {
                        lemma_circle_slots(links, progress, other, name);
                    }
                } else {
                    let k = other - progress.errors.len();
                    assert(all[other] == found[k]);
                    let about_name = about(found[k]);
                    let names = waiting_on(progress.pending, about_name);
                    if names.contains(name) {
                        lemma_waiter(links, progress, about_name, name);
                    }
                    if about_name == name {
                        assert(list_right(links, progress, name));
                    }
                }
            }
        },
        None => {},
    }
}

/// A walk from a slot that links to itself stays at that slot.
proof fn lemma_stays_put(links: Entries<Link>, name: Seq<char>, steps: nat)
    requires
        lookup(links, name) == Some(Link::LinkedTo(name)),
    ensures
        walk(links, name, steps) == Some(name),
    decreases steps,
{
    if steps > 0 {
        lemma_stays_put(links, name, (steps - 1) as nat);
    }
}

/// Between two slots that link to each other, every walk stays.
proof fn lemma_pair_walk(links: Entries<Link>, one: Seq<char>, other: Seq<char>, steps: nat)
    requires
        lookup(links, one) == Some(Link::LinkedTo(other)),
        lookup(links, other) == Some(Link::LinkedTo(one)),
    ensures
        walk(links, one, steps) == Some(one) || walk(links, one, steps) == Some(other),
        walk(links, other, steps) == Some(one) || walk(links, other, steps) == Some(other),
    decreases steps,
{
    if steps > 0 {
        lemma_pair_walk(links, one, other, (steps - 1) as nat);
    }
}

/// A slot of a pair of slots that link to each other waits, in the end, for
/// one of the two, and that one waits for itself.
proof fn lemma_pair_waits(
    links: Entries<Link>,
    progress: Progress,
    one: Seq<char>,
    other: Seq<char>,
) -> (blocker: Seq<char>)
    requires
        sound(links, progress),
        lookup(links, one) == Some(Link::LinkedTo(other)),
        lookup(links, other) == Some(Link::LinkedTo(one)),
    ensures
        blocker == one || blocker == other,
        lookup(progress.resolved, one) == Some(Status::BlockedOn(blocker)),
        lookup(progress.resolved, blocker) == Some(Status::BlockedOn(blocker)),
{
    assert(walk(links, one, 0) == Some(one));
    assert(walk(links, other, 1) == Some(one));
    assert(walk(links, one, 2) == Some(one));
    lemma_keys(progress.resolved, links, one);
    assert(known_right(links, progress, one));
    match lookup(progress.resolved, one) {
        Some(Status::Ready(color)) => {
            let m = choose|steps: nat| chase(links, one, steps) == Some(color);
            lemma_circle(links, one, 2, m);
            one
        },
        Some(Status::BlockedOn(blocker)) => {
            let reached = choose|steps: nat|
                steps >= 1 && walk(links, one, steps) == Some(blocker);
            lemma_pair_walk(links, one, other, reached);
            assert(list_right(links, progress, blocker));
            blocker
        },
        None => one,
    }
}

/// A circle of two is reported, once. If two slots link to each other, the
/// resolution fails, and exactly one of its errors names either of them: it
/// reports a circle of these two slots.
pub proof fn a_circle_of_two_is_reported(links: Entries<Link>, one: Seq<char>, other: Seq<char>)
    requires
        distinct_keys(links),
        one != other,
        lookup(links, one) == Some(Link::LinkedTo(other)),
        lookup(links, other) == Some(Link::LinkedTo(one)),
    ensures
        resolution(links) is Err,
        exists|at: int|
            0 <= at < resolution(links)->Err_0.len() && {
                let failure = #[trigger] resolution(links)->Err_0[at];
                &&& failure is InfiniteLoop
                &&& failure->involved == seq![one, other] || failure->involved == seq![other, one]
                &&& forall|j: int|
                    0 <= j < resolution(links)->Err_0.len() && j != at ==> {
                        &&& !mentions(#[trigger] resolution(links)->Err_0[j], one)
                        &&& !mentions(resolution(links)->Err_0[j], other)
                    }
            },
{
    let progress = run(links);
    lemma_reports_run(links);
    lemma_complaints(progress.pending, progress.errors);
    let found = complaints(progress.pending, progress.errors);
    let closer = lemma_pair_waits(links, progress, one, other);
    let second = lemma_pair_waits(links, progress, other, one);
    let target = if closer == one { other } else { one };
    lemma_blocked_waits(links, progress, closer, closer);
    lemma_has_key(progress.pending, closer);
    let all = resolution(links)->Err_0;
    assert(all == progress.errors + found);
    assert(lookup(links, closer) == Some(Link::LinkedTo(target)));
    assert(closer_reported(progress.errors, closer));
    let at = choose|k: int|
        0 <= k < progress.errors.len() && (#[trigger] progress.errors[k]) is InfiniteLoop
            && progress.errors[k]->involved.len() == 2 && progress.errors[k]->involved[0]
            == closer;
    let failure = progress.errors[at];
    assert(all[at] == failure);
    assert(loop_right(links, progress, failure));
    assert(failure->involved =~= seq![closer, target]);
    assert(failure->involved[0] == closer && failure->involved[1] == target);
    assert(failure->involved.contains(closer));
    assert(failure->involved.contains(target));
    assert(in_loop(failure, closer) && in_loop(failure, target));
    assert(lookup(progress.resolved, target) == Some(Status::BlockedOn(closer)));
    assert forall|j: int| 0 <= j < all.len() && j != at implies !mentions(
        #[trigger] all[j],
        closer,
    ) && !mentions(all[j], target) by {
        if j < progress.errors.len() {
            assert(all[j] == progress.errors[j]);
            assert(loop_right(links, progress, progress.errors[j]));
            if j < at {
                assert(progress.errors[j]->involved[0] != progress.errors[at]->involved[0]);
            } else {
                assert(progress.errors[at]->involved[0] != progress.errors[j]->involved[0]);
            }
            if mentions(all[j], closer) {
                lemma_circle_slots(links, progress, j, closer);
            }
            if mentions(all[j], target) {
                lemma_circle_slots(links, progress, j, target);
            }
        } else {
            let k = j - progress.errors.len();
            assert(all[j] == found[k]);
            let name = about(found[k]);
            let names = waiting_on(progress.pending, name);
            if names.contains(closer) {
                lemma_waiter(links, progress, name, closer);
            }
            if names.contains(target) {
                lemma_waiter(links, progress, name, target);
            }
        }
    }
}

} // verus!
