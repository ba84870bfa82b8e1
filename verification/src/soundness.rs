//! Why the resolution is right: what holds between a scheme and the state of
//! its resolution after every step.

use crate::assoc::{
    distinct_keys, has_key, index_of, keys, lemma_has_key, lemma_index_of, lemma_put,
    lemma_swap_remove, lookup, put, swap_remove, Entries,
};
use crate::chain::{
    chase, ends_in, leads, lemma_chase_after_walk, lemma_chase_grows, lemma_dead_end, lemma_grown,
    lemma_one_colour, lemma_walk_grows, lemma_walk_on, resolvable, walk,
};
use crate::model::{
    anchored, colors, fill, migrate, note_loop, resolution, run, settle, start, step, waiting_on,
    Progress, Status,
};
use crate::Link;
use vstd::prelude::*;

verus! {

/// Nothing will come of waiting for `name` as things stand: it is no slot so
/// far, or it waits for itself.
pub open spec fn stuck(links: Entries<Link>, progress: Progress, name: Seq<char>) -> bool {
    !has_key(links, name) || lookup(progress.resolved, name) == Some(Status::BlockedOn(name))
}

/// What is known of `name` is true of the scheme: its colour is the one its
/// chain ends in, or its links lead to the name it waits for, on whose list it
/// stands.
pub open spec fn known_right(links: Entries<Link>, progress: Progress, name: Seq<char>) -> bool {
    match lookup(progress.resolved, name) {
        Some(Status::Ready(color)) => ends_in(links, name, color),
        Some(Status::BlockedOn(blocker)) => has_key(progress.pending, blocker) && waiting_on(
            progress.pending,
            blocker,
        ).contains(name) && leads(links, name, blocker),
        None => true,
    }
}

/// The list of those that wait for `blocker`, if there is one, is not empty,
/// holds only names that wait for `blocker`, and nothing will come of waiting.
pub open spec fn list_right(links: Entries<Link>, progress: Progress, blocker: Seq<char>) -> bool {
    has_key(progress.pending, blocker) ==> {
        &&& waiting_on(progress.pending, blocker).len() > 0
        &&& stuck(links, progress, blocker)
        &&& forall|k: int|
            0 <= k < waiting_on(progress.pending, blocker).len() ==> lookup(
                progress.resolved,
                #[trigger] waiting_on(progress.pending, blocker)[k],
            ) == Some(Status::BlockedOn(blocker))
    }
}

/// What holds between a scheme and the state of its resolution after every
/// step.
pub open spec fn sound(links: Entries<Link>, progress: Progress) -> bool {
    &&& distinct_keys(links)
    &&& distinct_keys(progress.resolved)
    &&& distinct_keys(progress.pending)
    &&& keys(progress.resolved) == keys(links)
    &&& forall|name: Seq<char>| #[trigger] known_right(links, progress, name)
    &&& forall|blocker: Seq<char>| #[trigger] list_right(links, progress, blocker)
}

/// Lists with the same names hold the same names.
pub proof fn lemma_keys<T, U>(left: Entries<T>, right: Entries<U>, key: Seq<char>)
    requires
        keys(left) == keys(right),
    ensures
        has_key(left, key) == has_key(right, key),
{
    assert(keys(left).len() == left.len());
    assert(keys(right).len() == right.len());
    if has_key(left, key) {
        lemma_has_key(left, key);
        let p = index_of(left, key);
        assert(keys(left)[p] == key);
        assert(keys(right)[p] == right[p].0);
    }
    if has_key(right, key) {
        lemma_has_key(right, key);
        let p = index_of(right, key);
        assert(keys(right)[p] == key);
        assert(keys(left)[p] == left[p].0);
    }
}

/// Giving a status to names that are known changes the status of these names
/// and nothing else.
pub proof fn lemma_fill(resolved: Entries<Status>, names: Seq<Seq<char>>, status: Status)
    requires
        distinct_keys(resolved),
        forall|k: int| 0 <= k < names.len() ==> has_key(resolved, #[trigger] names[k]),
    ensures
        distinct_keys(fill(resolved, names, status)),
        keys(fill(resolved, names, status)) == keys(resolved),
        forall|name: Seq<char>|
            #[trigger] lookup(fill(resolved, names, status), name) == (if names.contains(name) {
                Some(status)
            } else {
                lookup(resolved, name)
            }),
    decreases names.len(),
{
    if names.len() > 0 {
        let shorter = names.drop_last();
        let last = names.last();
        assert forall|k: int| 0 <= k < shorter.len() implies has_key(
            resolved,
            #[trigger] shorter[k],
        ) by {
            assert(shorter[k] == names[k]);
        }
        lemma_fill(resolved, shorter, status);
        let middle = fill(resolved, shorter, status);
        assert(has_key(resolved, names[names.len() - 1]));
        lemma_keys(middle, resolved, last);
        lemma_put(middle, last, status);
        assert forall|name: Seq<char>| #[trigger]
            lookup(fill(resolved, names, status), name) == (if names.contains(name) {
                Some(status)
            } else {
                lookup(resolved, name)
            }) by {
            assert(lookup(middle, name) == (if shorter.contains(name) {
                Some(status)
            } else {
                lookup(resolved, name)
            }));
            if name == last {
                assert(names[names.len() - 1] == name);
            } else {
                if shorter.contains(name) {
                    let k = choose|k: int| 0 <= k < shorter.len() && shorter[k] == name;
                    assert(names[k] == name);
                }
                if names.contains(name) {
                    let k = choose|k: int| 0 <= k < names.len() && names[k] == name;
                    assert(shorter[k] == name);
                }
            }
        }
    } else {
        assert forall|name: Seq<char>| !names.contains(name) by {}
    }
}

/// A name that stands on a list waits for the name of the list.
pub proof fn lemma_waiter(links: Entries<Link>, progress: Progress, blocker: Seq<char>, name: Seq<char>)
    requires
        sound(links, progress),
        waiting_on(progress.pending, blocker).contains(name),
    ensures
        has_key(progress.pending, blocker),
        lookup(progress.resolved, name) == Some(Status::BlockedOn(blocker)),
        has_key(progress.resolved, name),
        has_key(links, name),
{
    let list = waiting_on(progress.pending, blocker);
    let k = choose|k: int| 0 <= k < list.len() && list[k] == name;
    assert(list_right(links, progress, blocker));
    assert(lookup(progress.resolved, list[k]) == Some(Status::BlockedOn(blocker)));
    lemma_keys(progress.resolved, links, name);
}

/// A name that waits stands on the list of the name it waits for.
pub proof fn lemma_blocked(links: Entries<Link>, progress: Progress, name: Seq<char>, blocker: Seq<char>)
    requires
        sound(links, progress),
        lookup(progress.resolved, name) == Some(Status::BlockedOn(blocker)),
    ensures
        has_key(progress.pending, blocker),
        waiting_on(progress.pending, blocker).contains(name),
        leads(links, name, blocker),
{
    assert(known_right(links, progress, name));
}

/// The names on the list of `this` are known names.
pub proof fn lemma_waiters_known(links: Entries<Link>, progress: Progress, this: Seq<char>)
    requires
        sound(links, progress),
    ensures
        forall|k: int|
            0 <= k < waiting_on(progress.pending, this).len() ==> has_key(
                progress.resolved,
                #[trigger] waiting_on(progress.pending, this)[k],
            ),
{
    let list = waiting_on(progress.pending, this);
    assert forall|k: int| 0 <= k < list.len() implies has_key(
        progress.resolved,
        #[trigger] list[k],
    ) by {
        assert(list.contains(list[k]));
        lemma_waiter(links, progress, this, list[k]);
    }
}

/// Settling a new slot keeps the state sound.
pub proof fn lemma_settle(
    links: Entries<Link>,
    progress: Progress,
    this: Seq<char>,
    link: Link,
    color: Seq<char>,
)
    requires
        sound(links, progress),
        !has_key(links, this),
        ends_in(links.push((this, link)), this, color),
    ensures
        sound(links.push((this, link)), settle(progress, this, color)),
{
    let grown = links.push((this, link));
    let after = settle(progress, this, color);
    let waiters = waiting_on(progress.pending, this);
    let ready = Status::Ready(color);
    let filled = fill(progress.resolved, waiters, ready);
    lemma_grown(links, this, link);
    lemma_waiters_known(links, progress, this);
    lemma_fill(progress.resolved, waiters, ready);
    lemma_keys(filled, links, this);
    lemma_keys(progress.resolved, links, this);
    lemma_put(filled, this, ready);
    lemma_swap_remove(progress.pending, this);
    assert(keys(grown) =~= keys(links).push(this));
    assert(!waiters.contains(this)) by {
        if waiters.contains(this) {
            lemma_waiter(links, progress, this, this);
        }
    }
    assert forall|name: Seq<char>| #[trigger] known_right(grown, after, name) by {
        assert(known_right(links, progress, name));
        if name == this {
        } else if waiters.contains(name) {
            lemma_waiter(links, progress, this, name);
            lemma_blocked(links, progress, name, this);
            let k = choose|steps: nat| steps >= 1 && walk(links, name, steps) == Some(this);
            lemma_walk_grows(links, this, link, name, k, this);
            let m = choose|steps: nat| chase(grown, this, steps) == Some(color);
            lemma_chase_after_walk(grown, name, k, this, k + m);
            assert(chase(grown, name, k + m) == Some(color));
        } else {
            assert(lookup(after.resolved, name) == lookup(progress.resolved, name));
            match lookup(progress.resolved, name) {
                Some(Status::Ready(found)) => {
                    let n = choose|steps: nat| chase(links, name, steps) == Some(found);
                    lemma_chase_grows(links, this, link, name, n);
                    assert(chase(grown, name, n) == Some(found));
                },
                Some(Status::BlockedOn(blocker)) => {
                    lemma_blocked(links, progress, name, blocker);
                    assert(blocker != this);
                    let k = choose|steps: nat|
                        steps >= 1 && walk(links, name, steps) == Some(blocker);
                    lemma_walk_grows(links, this, link, name, k, blocker);
                    assert(waiting_on(after.pending, blocker) == waiting_on(
                        progress.pending,
                        blocker,
                    ));
                },
                None => {},
            }
        }
    }
    assert forall|blocker: Seq<char>| #[trigger] list_right(grown, after, blocker) by {
        assert(list_right(links, progress, blocker));
        if has_key(after.pending, blocker) {
            assert(blocker != this);
            let list = waiting_on(progress.pending, blocker);
            assert(waiting_on(after.pending, blocker) == list);
            assert forall|k: int| 0 <= k < list.len() implies lookup(
                after.resolved,
                #[trigger] list[k],
            ) == Some(Status::BlockedOn(blocker)) by {
                assert(lookup(progress.resolved, list[k]) == Some(Status::BlockedOn(blocker)));
                if waiters.contains(list[k]) {
                    lemma_waiter(links, progress, this, list[k]);
                }
            }
            if has_key(links, blocker) {
                assert(lookup(progress.resolved, blocker) == Some(Status::BlockedOn(blocker)));
                if waiters.contains(blocker) {
                    lemma_waiter(links, progress, this, blocker);
                }
            }
        }
    }
}

/// Making a new slot wait keeps the state sound.
pub proof fn lemma_migrate(
    links: Entries<Link>,
    progress: Progress,
    this: Seq<char>,
    link: Link,
    blocker: Seq<char>,
)
    requires
        sound(links, progress),
        !has_key(links, this),
        leads(links.push((this, link)), this, blocker),
        stuck(links, progress, blocker),
    ensures
        sound(links.push((this, link)), migrate(progress, this, blocker)),
{
    let grown = links.push((this, link));
    let after = migrate(progress, this, blocker);
    let waiters = waiting_on(progress.pending, this);
    let moved = waiters.push(this);
    let others = swap_remove(progress.pending, this);
    let blocked = Status::BlockedOn(blocker);
    let filled = fill(progress.resolved, waiters, blocked);
    let before = waiting_on(others, blocker);
    let joined = before + moved;
    lemma_grown(links, this, link);
    lemma_waiters_known(links, progress, this);
    lemma_fill(progress.resolved, waiters, blocked);
    lemma_keys(filled, links, this);
    lemma_keys(progress.resolved, links, this);
    lemma_put(filled, this, blocked);
    lemma_swap_remove(progress.pending, this);
    lemma_put(others, blocker, joined);
    assert(moved.drop_last() =~= waiters);
    assert(after.resolved == put(filled, this, blocked));
    assert(keys(grown) =~= keys(links).push(this));
    assert(!waiters.contains(this)) by {
        if waiters.contains(this) {
            lemma_waiter(links, progress, this, this);
        }
    }
    assert(blocker != this ==> before == waiting_on(progress.pending, blocker));
    assert(blocker == this ==> before =~= Seq::<Seq<char>>::empty());
    let onward = choose|steps: nat| steps >= 1 && walk(grown, this, steps) == Some(blocker);
    assert forall|name: Seq<char>| #[trigger] known_right(grown, after, name) by {
        assert(known_right(links, progress, name));
        if name == this {
            assert(joined[(before.len() + waiters.len()) as int] == this);
        } else if waiters.contains(name) {
            lemma_waiter(links, progress, this, name);
            lemma_blocked(links, progress, name, this);
            let k = choose|steps: nat| steps >= 1 && walk(links, name, steps) == Some(this);
            lemma_walk_grows(links, this, link, name, k, this);
            lemma_walk_on(grown, name, k, this, onward, blocker);
            assert(walk(grown, name, k + onward) == Some(blocker));
            let at = choose|at: int| 0 <= at < waiters.len() && waiters[at] == name;
            assert(joined[before.len() + at] == name);
        } else {
            assert(lookup(after.resolved, name) == lookup(progress.resolved, name));
            match lookup(progress.resolved, name) {
                Some(Status::Ready(found)) => {
                    let n = choose|steps: nat| chase(links, name, steps) == Some(found);
                    lemma_chase_grows(links, this, link, name, n);
                    assert(chase(grown, name, n) == Some(found));
                },
                Some(Status::BlockedOn(other)) => {
                    lemma_blocked(links, progress, name, other);
                    assert(other != this);
                    let k = choose|steps: nat|
                        steps >= 1 && walk(links, name, steps) == Some(other);
                    lemma_walk_grows(links, this, link, name, k, other);
                    let list = waiting_on(progress.pending, other);
                    let at = choose|at: int| 0 <= at < list.len() && list[at] == name;
                    if other == blocker {
                        assert(joined[at] == name);
                    } else {
                        assert(waiting_on(after.pending, other) == list);
                    }
                },
                None => {},
            }
        }
    }
    assert forall|other: Seq<char>| #[trigger] list_right(grown, after, other) by {
        assert(list_right(links, progress, other));
        if has_key(after.pending, other) {
            if other == blocker {
                assert(waiting_on(after.pending, other) == joined);
                assert forall|k: int| 0 <= k < joined.len() implies lookup(
                    after.resolved,
                    #[trigger] joined[k],
                ) == Some(blocked) by {
                    if k < before.len() {
                        assert(joined[k] == before[k]);
                        assert(before.contains(before[k]));
                        lemma_waiter(links, progress, blocker, before[k]);
                        if waiters.contains(before[k]) {
                            lemma_waiter(links, progress, this, before[k]);
                        }
                    } else {
                        assert(joined[k] == moved[k - before.len()]);
                        if k - before.len() < waiters.len() {
                            assert(waiters.contains(waiters[k - before.len()]));
                        }
                    }
                }
                if blocker != this && has_key(links, blocker) {
                    assert(lookup(progress.resolved, blocker) == Some(blocked));
                    if waiters.contains(blocker) {
                        lemma_waiter(links, progress, this, blocker);
                    }
                }
            } else {
                assert(other != this);
                let list = waiting_on(progress.pending, other);
                assert(waiting_on(after.pending, other) == list);
                assert forall|k: int| 0 <= k < list.len() implies lookup(
                    after.resolved,
                    #[trigger] list[k],
                ) == Some(Status::BlockedOn(other)) by {
                    assert(lookup(progress.resolved, list[k]) == Some(Status::BlockedOn(other)));
                    if waiters.contains(list[k]) {
                        lemma_waiter(links, progress, this, list[k]);
                    }
                }
                if has_key(links, other) {
                    assert(lookup(progress.resolved, other) == Some(Status::BlockedOn(other)));
                    if waiters.contains(other) {
                        lemma_waiter(links, progress, this, other);
                    }
                }
            }
        }
    }
}

/// Every step keeps the state sound.
pub proof fn lemma_step(links: Entries<Link>, progress: Progress, this: Seq<char>, link: Link)
    requires
        sound(links, progress),
        !has_key(links, this),
    ensures
        sound(links.push((this, link)), step(progress, this, link)),
{
    let grown = links.push((this, link));
    lemma_grown(links, this, link);
    match link {
        Link::Contains(color) => {
            assert(chase(grown, this, 1) == Some(color));
            lemma_settle(links, progress, this, link, color);
        },
        Link::LinkedTo(target) => {
            assert(known_right(links, progress, target));
            match lookup(progress.resolved, target) {
                Some(Status::Ready(color)) => {
                    let n = choose|steps: nat| chase(links, target, steps) == Some(color);
                    lemma_chase_grows(links, this, link, target, n);
                    assert(chase(grown, this, n + 1) == Some(color));
                    lemma_settle(links, progress, this, link, color);
                },
                Some(Status::BlockedOn(blocker)) => {
                    let k = choose|steps: nat|
                        steps >= 1 && walk(links, target, steps) == Some(blocker);
                    lemma_walk_grows(links, this, link, target, k, blocker);
                    assert(walk(grown, this, k + 1) == Some(blocker));
                    assert(list_right(links, progress, blocker));
                    lemma_migrate(links, progress, this, link, blocker);
                    let moved = migrate(progress, this, blocker);
                    let noted = note_loop(moved, this, target);
                    assert(noted.resolved == moved.resolved && noted.pending == moved.pending);
                    lemma_errors_apart(grown, moved, noted);
                },
                None => {
                    lemma_keys(progress.resolved, links, target);
                    assert(walk(grown, target, 0) == Some(target));
                    assert(walk(grown, this, 1) == Some(target));
                    lemma_migrate(links, progress, this, link, target);
                },
            }
        },
    }
}

/// The loops that were noticed have no part in what makes a state sound.
pub proof fn lemma_errors_apart(links: Entries<Link>, progress: Progress, other: Progress)
    requires
        sound(links, progress),
        other.resolved == progress.resolved,
        other.pending == progress.pending,
    ensures
        sound(links, other),
{
    assert forall|name: Seq<char>| #[trigger] known_right(links, other, name) by {
        assert(known_right(links, progress, name));
    }
    assert forall|blocker: Seq<char>| #[trigger] list_right(links, other, blocker) by {
        assert(list_right(links, progress, blocker));
    }
}

/// The state after all the slots of a scheme were taken in is sound.
pub proof fn lemma_run(links: Entries<Link>)
    requires
        distinct_keys(links),
    ensures
        sound(links, run(links)),
    decreases links.len(),
{
    if links.len() == 0 {
        assert(keys(start().resolved) =~= keys(links));
        assert forall|name: Seq<char>| #[trigger] known_right(links, start(), name) by {}
        assert forall|blocker: Seq<char>| #[trigger] list_right(links, start(), blocker) by {}
    } else {
        let shorter = links.drop_last();
        let last = links.last();
        assert(distinct_keys(shorter));
        lemma_run(shorter);
        assert(!has_key(shorter, last.0)) by {
            if has_key(shorter, last.0) {
                lemma_has_key(shorter, last.0);
                let p = index_of(shorter, last.0);
                assert(links[p].0 != links[links.len() - 1].0);
            }
        }
        lemma_step(shorter, run(shorter), last.0, last.1);
        assert(shorter.push((last.0, last.1)) =~= links);
    }
}

/// After a whole scheme was taken in, every name that waits is waited for.
pub proof fn lemma_anchored(links: Entries<Link>)
    requires
        distinct_keys(links),
    ensures
        anchored(run(links)),
{
    let progress = run(links);
    lemma_run(links);
    assert forall|i: int|
        0 <= i < progress.resolved.len() && (#[trigger] progress.resolved[i]).1 is BlockedOn implies has_key(
        progress.pending,
        progress.resolved[i].1->BlockedOn_0,
    ) by {
        lemma_index_of(progress.resolved, i);
        assert(known_right(links, progress, progress.resolved[i].0));
    }
}

/// What waits is in order at every moment. A name that others wait for has no
/// colour, and no name stands on the lists of two names. This is stated of the
/// state after a whole scheme; the slots taken in up to any moment are a
/// scheme themselves, so it holds of the state at that moment too.
pub proof fn waiting_is_in_order(
    links: Entries<Link>,
    name: Seq<char>,
    first: Seq<char>,
    second: Seq<char>,
)
    requires
        distinct_keys(links),
    ensures
        has_key(run(links).pending, name) ==> !(lookup(run(links).resolved, name) matches Some(
            Status::Ready(_),
        )),
        waiting_on(run(links).pending, first).contains(name) && waiting_on(
            run(links).pending,
            second,
        ).contains(name) ==> first == second,
{
    let progress = run(links);
    lemma_run(links);
    assert(list_right(links, progress, name));
    if has_key(progress.pending, name) {
        lemma_keys(progress.resolved, links, name);
    }
    if waiting_on(progress.pending, first).contains(name) && waiting_on(
        progress.pending,
        second,
    ).contains(name) {
        lemma_waiter(links, progress, first, name);
        lemma_waiter(links, progress, second, name);
    }
}

/// Resolution follows the chains of links. It succeeds exactly on the schemes
/// in which the chain of every slot ends in a colour; the result then names
/// the slots in the order of the scheme, and gives each slot the colour that
/// its chain ends in.
pub proof fn resolution_follows_chains(links: Entries<Link>)
    requires
        distinct_keys(links),
    ensures
        resolution(links) is Ok <==> forall|i: int|
            0 <= i < links.len() ==> resolvable(links, (#[trigger] links[i]).0),
        resolution(links) is Ok ==> keys(resolution(links)->Ok_0) == keys(links),
        resolution(links) is Ok ==> forall|i: int|
            0 <= i < links.len() ==> ends_in(
                links,
                links[i].0,
                (#[trigger] resolution(links)->Ok_0[i]).1,
            ),
{
    let progress = run(links);
    lemma_run(links);
    assert(keys(progress.resolved).len() == progress.resolved.len());
    assert(keys(links).len() == links.len());
    if progress.pending.len() == 0 {
        let found = colors(progress.resolved);
        assert(resolution(links) == Ok::<Entries<Seq<char>>, Seq<crate::model::Failure>>(found));
        assert(keys(found) =~= keys(progress.resolved));
        assert forall|i: int| 0 <= i < links.len() implies ends_in(
            links,
            (#[trigger] links[i]).0,
            found[i].1,
        ) && resolvable(links, links[i].0) by {
            assert(keys(progress.resolved)[i] == keys(links)[i]);
            lemma_index_of(progress.resolved, i);
            assert(known_right(links, progress, links[i].0));
            match progress.resolved[i].1 {
                Status::Ready(color) => {
                    let steps = choose|steps: nat| chase(links, links[i].0, steps) == Some(color);
                    assert(chase(links, links[i].0, steps) is Some);
                },
                Status::BlockedOn(blocker) => {
                    lemma_has_key(progress.pending, blocker);
                },
            }
        }
        assert forall|i: int| 0 <= i < links.len() implies ends_in(
            links,
            links[i].0,
            (#[trigger] found[i]).1,
        ) by {
            let link = links[i];
            assert(ends_in(links, link.0, found[i].1));
        }
    } else {
        let blocker = progress.pending[0].0;
        lemma_index_of(progress.pending, 0);
        assert(list_right(links, progress, blocker));
        let list = waiting_on(progress.pending, blocker);
        let name = list[0];
        assert(lookup(progress.resolved, name) == Some(Status::BlockedOn(blocker)));
        assert(known_right(links, progress, name));
        lemma_keys(progress.resolved, links, name);
        if has_key(links, blocker) {
            assert(known_right(links, progress, blocker));
        }
        lemma_dead_end(links, name, blocker);
        lemma_has_key(links, name);
        let at = index_of(links, name);
        assert(!resolvable(links, links[at].0));
    }
}

/// A scheme of colours only resolves to itself: every slot keeps its colour,
/// and nothing is reported.
pub proof fn colours_resolve_to_themselves(links: Entries<Link>)
    requires
        distinct_keys(links),
        forall|i: int| 0 <= i < links.len() ==> (#[trigger] links[i]).1 is Contains,
    ensures
        resolution(links) is Ok,
        resolution(links)->Ok_0 == Seq::new(
            links.len(),
            |i: int| (links[i].0, links[i].1->Contains_0),
        ),
{
    assert forall|i: int| 0 <= i < links.len() implies chase(links, (#[trigger] links[i]).0, 1)
        == Some(links[i].1->Contains_0) by {
        lemma_index_of(links, i);
    }
    assert forall|i: int| 0 <= i < links.len() implies resolvable(
        links,
        (#[trigger] links[i]).0,
    ) by {
        assert(chase(links, links[i].0, 1) is Some);
    }
    resolution_follows_chains(links);
    let found = resolution(links)->Ok_0;
    let same = Seq::new(links.len(), |i: int| (links[i].0, links[i].1->Contains_0));
    assert(keys(found).len() == found.len());
    assert(keys(links).len() == links.len());
    assert forall|i: int| 0 <= i < found.len() implies found[i] == same[i] by {
        assert(keys(found)[i] == keys(links)[i]);
        assert(ends_in(links, links[i].0, found[i].1));
        assert(chase(links, links[i].0, 1) == Some(links[i].1->Contains_0));
        lemma_one_colour(links, links[i].0, found[i].1, links[i].1->Contains_0);
    }
    assert(found =~= same);
}

/// Schemes that hold the same slots look the same to a chase.
pub proof fn lemma_chase_same(
    first: Entries<Link>,
    second: Entries<Link>,
    name: Seq<char>,
    steps: nat,
)
    requires
        forall|name: Seq<char>| #[trigger] lookup(first, name) == lookup(second, name),
    ensures
        chase(first, name, steps) == chase(second, name, steps),
    decreases steps,
{
    if steps > 0 {
        assert(lookup(first, name) == lookup(second, name));
        match lookup(first, name) {
            Some(Link::LinkedTo(target)) => {
                lemma_chase_same(first, second, target, (steps - 1) as nat);
            },
            _ => {},
        }
    }
}

/// Of two schemes that hold the same slots, the first is resolvable wherever
/// the second is.
pub proof fn lemma_resolvable_same(first: Entries<Link>, second: Entries<Link>)
    requires
        distinct_keys(first),
        distinct_keys(second),
        forall|name: Seq<char>| #[trigger] lookup(first, name) == lookup(second, name),
        forall|i: int| 0 <= i < second.len() ==> resolvable(second, (#[trigger] second[i]).0),
    ensures
        forall|i: int| 0 <= i < first.len() ==> resolvable(first, (#[trigger] first[i]).0),
{
    assert forall|i: int| 0 <= i < first.len() implies resolvable(
        first,
        (#[trigger] first[i]).0,
    ) by {
        let name = first[i].0;
        lemma_index_of(first, i);
        assert(lookup(first, name) == lookup(second, name));
        lemma_has_key(second, name);
        let at = index_of(second, name);
        assert(resolvable(second, second[at].0));
        let steps = choose|steps: nat| chase(second, name, steps) is Some;
        lemma_chase_same(first, second, name, steps);
    }
}

/// The colour that a successful resolution gives to a slot is the colour that
/// the chain of the slot ends in.
pub proof fn lemma_colour_found(links: Entries<Link>, name: Seq<char>)
    requires
        distinct_keys(links),
        resolution(links) is Ok,
    ensures
        has_key(resolution(links)->Ok_0, name) == has_key(links, name),
        has_key(links, name) ==> ends_in(
            links,
            name,
            lookup(resolution(links)->Ok_0, name)->Some_0,
        ),
{
    resolution_follows_chains(links);
    let found = resolution(links)->Ok_0;
    lemma_keys(found, links, name);
    assert(keys(found).len() == found.len());
    assert(keys(links).len() == links.len());
    assert(distinct_keys(found)) by {
        assert forall|i: int, j: int| 0 <= i < j < found.len() implies (#[trigger] found[i]).0 != (
        #[trigger] found[j]).0 by {
            assert(keys(found)[i] == keys(links)[i]);
            assert(keys(found)[j] == keys(links)[j]);
            assert(links[i].0 != links[j].0);
        }
    }
    if has_key(links, name) {
        lemma_has_key(links, name);
        let at = index_of(links, name);
        assert(keys(found)[at] == keys(links)[at]);
        lemma_index_of(found, at);
        assert(ends_in(links, links[at].0, found[at].1));
    }
}

/// The order of the slots does not matter. Two schemes that hold the same
/// slots, in whatever order, are resolved or not together, and a resolution
/// gives each slot the same colour in both.
pub proof fn order_does_not_matter(first: Entries<Link>, second: Entries<Link>)
    requires
        distinct_keys(first),
        distinct_keys(second),
        forall|name: Seq<char>| #[trigger] lookup(first, name) == lookup(second, name),
    ensures
        resolution(first) is Ok <==> resolution(second) is Ok,
        resolution(first) is Ok ==> forall|name: Seq<char>| #[trigger]
            lookup(resolution(first)->Ok_0, name) == lookup(resolution(second)->Ok_0, name),
{
    resolution_follows_chains(first);
    resolution_follows_chains(second);
    if resolution(second) is Ok {
        lemma_resolvable_same(first, second);
    }
    if resolution(first) is Ok {
        lemma_resolvable_same(second, first);
        assert forall|name: Seq<char>| #[trigger]
            lookup(resolution(first)->Ok_0, name) == lookup(
                resolution(second)->Ok_0,
                name,
            ) by {
            lemma_colour_found(first, name);
            lemma_colour_found(second, name);
            assert(lookup(first, name) == lookup(second, name));
            if has_key(first, name) {
                let one = lookup(resolution(first)->Ok_0, name)->Some_0;
                let other = lookup(resolution(second)->Ok_0, name)->Some_0;
                let steps = choose|steps: nat| chase(second, name, steps) == Some(other);
                lemma_chase_same(first, second, name, steps);
                assert(ends_in(first, name, other));
                lemma_one_colour(first, name, one, other);
            }
        }
    }
}

/// Every slot that links to a slot with a colour gets that colour, wherever
/// in the scheme the slots stand: if `hub` holds `color` and all the other
/// slots link to `hub`, all the slots are resolved to `color`.
pub proof fn links_share_the_colour(links: Entries<Link>, hub: Seq<char>, color: Seq<char>)
    requires
        distinct_keys(links),
        lookup(links, hub) == Some(Link::Contains(color)),
        forall|i: int|
            0 <= i < links.len() && (#[trigger] links[i]).0 != hub ==> links[i].1
                == Link::LinkedTo(hub),
    ensures
        resolution(links) is Ok,
        resolution(links)->Ok_0 == Seq::new(links.len(), |i: int| (links[i].0, color)),
{
    assert(chase(links, hub, 1) == Some(color));
    assert forall|i: int| 0 <= i < links.len() implies chase(links, (#[trigger] links[i]).0, 2)
        == Some(color) by {
        lemma_index_of(links, i);
        if links[i].0 != hub {
            assert(chase(links, links[i].0, 2) == chase(links, hub, 1));
        }
    }
    assert forall|i: int| 0 <= i < links.len() implies resolvable(
        links,
        (#[trigger] links[i]).0,
    ) by {
        assert(chase(links, links[i].0, 2) is Some);
    }
    resolution_follows_chains(links);
    let found = resolution(links)->Ok_0;
    let same = Seq::new(links.len(), |i: int| (links[i].0, color));
    assert(keys(found).len() == found.len());
    assert(keys(links).len() == links.len());
    assert forall|i: int| 0 <= i < found.len() implies found[i] == same[i] by {
        assert(keys(found)[i] == keys(links)[i]);
        assert(ends_in(links, links[i].0, found[i].1));
        assert(chase(links, links[i].0, 2) == Some(color));
        lemma_one_colour(links, links[i].0, found[i].1, color);
    }
    assert(found =~= same);
}

} // verus!
