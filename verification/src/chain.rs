//! Chains of links: what it means for a slot to end in a colour.
//!
//! This is the plain meaning of a scheme, with no word of how a resolution
//! goes about it: a slot that holds a colour has that colour, and a slot that
//! links to another has whatever colour that one has.

use crate::assoc::{distinct_keys, has_key, lemma_put, lookup, put, Entries};
use crate::Link;
use vstd::prelude::*;

verus! {

/// The colour that is found from `name` within `steps` lookups, following
/// links.
pub open spec fn chase(links: Entries<Link>, name: Seq<char>, steps: nat) -> Option<Seq<char>>
    decreases steps,
{
    if steps == 0 {
        None
    } else {
        match lookup(links, name) {
            Some(Link::Contains(color)) => Some(color),
            Some(Link::LinkedTo(target)) => chase(links, target, (steps - 1) as nat),
            None => None,
        }
    }
}

/// The name that is reached from `name` by following exactly `steps` links.
pub open spec fn walk(links: Entries<Link>, name: Seq<char>, steps: nat) -> Option<Seq<char>>
    decreases steps,
{
    if steps == 0 {
        Some(name)
    } else {
        match lookup(links, name) {
            Some(Link::LinkedTo(target)) => walk(links, target, (steps - 1) as nat),
            _ => None,
        }
    }
}

/// The chain of links that starts at `name` ends in the colour `color`.
pub open spec fn ends_in(links: Entries<Link>, name: Seq<char>, color: Seq<char>) -> bool {
    exists|steps: nat| chase(links, name, steps) == Some(color)
}

/// The chain of links that starts at `name` ends in some colour: it neither
/// runs into a name that is no slot nor goes round in a circle.
pub open spec fn resolvable(links: Entries<Link>, name: Seq<char>) -> bool {
    exists|steps: nat| chase(links, name, steps) is Some
}

/// One or more links lead from `name` to `goal`.
pub open spec fn leads(links: Entries<Link>, name: Seq<char>, goal: Seq<char>) -> bool {
    exists|steps: nat| steps >= 1 && walk(links, name, steps) == Some(goal)
}

/// More steps find the same colour.
pub proof fn lemma_chase_longer(links: Entries<Link>, name: Seq<char>, steps: nat, more: nat)
    requires
        chase(links, name, steps) is Some,
        steps <= more,
    ensures
        chase(links, name, more) == chase(links, name, steps),
    decreases steps,
{
    if steps > 0 {
        match lookup(links, name) {
            Some(Link::LinkedTo(target)) => {
                lemma_chase_longer(links, target, (steps - 1) as nat, (more - 1) as nat);
            },
            _ => {},
        }
    }
}

/// A chain ends in one colour at most.
pub proof fn lemma_one_colour(
    links: Entries<Link>,
    name: Seq<char>,
    first: Seq<char>,
    second: Seq<char>,
)
    requires
        ends_in(links, name, first),
        ends_in(links, name, second),
    ensures
        first == second,
{
    let m = choose|steps: nat| chase(links, name, steps) == Some(first);
    let n = choose|steps: nat| chase(links, name, steps) == Some(second);
    if m <= n {
        lemma_chase_longer(links, name, m, n);
    } else {
        lemma_chase_longer(links, name, n, m);
    }
}

/// What is found from the start of a walk is what is found from its end, in
/// as many steps fewer.
pub proof fn lemma_chase_after_walk(
    links: Entries<Link>,
    name: Seq<char>,
    steps: nat,
    goal: Seq<char>,
    budget: nat,
)
    requires
        walk(links, name, steps) == Some(goal),
    ensures
        chase(links, name, budget) == (if budget > steps {
            chase(links, goal, (budget - steps) as nat)
        } else {
            None
        }),
    decreases steps,
{
    if steps > 0 {
        match lookup(links, name) {
            Some(Link::LinkedTo(target)) => {
                if budget > 0 {
                    lemma_chase_after_walk(
                        links,
                        target,
                        (steps - 1) as nat,
                        goal,
                        (budget - 1) as nat,
                    );
                }
            },
            _ => {},
        }
    }
}

/// Two walks, one after the other, make one walk.
pub proof fn lemma_walk_on(
    links: Entries<Link>,
    name: Seq<char>,
    steps: nat,
    middle: Seq<char>,
    more: nat,
    goal: Seq<char>,
)
    requires
        walk(links, name, steps) == Some(middle),
        walk(links, middle, more) == Some(goal),
    ensures
        walk(links, name, steps + more) == Some(goal),
    decreases steps,
{
    if steps > 0 {
        match lookup(links, name) {
            Some(Link::LinkedTo(target)) => {
                lemma_walk_on(links, target, (steps - 1) as nat, middle, more, goal);
            },
            _ => {},
        }
    }
}

/// A walk is the walk of its first steps followed by the walk of the rest.
pub proof fn lemma_walk_split(links: Entries<Link>, name: Seq<char>, first: nat, rest: nat)
    ensures
        walk(links, name, first + rest) == (match walk(links, name, first) {
            Some(middle) => walk(links, middle, rest),
            None => None,
        }),
    decreases first,
{
    if first > 0 {
        match lookup(links, name) {
            Some(Link::LinkedTo(target)) => {
                lemma_walk_split(links, target, (first - 1) as nat, rest);
                assert((first - 1) as nat + rest == (first + rest - 1) as nat);
            },
            _ => {},
        }
    }
}

/// Every name on a circle is a slot.
pub proof fn lemma_circle_stays(
    links: Entries<Link>,
    name: Seq<char>,
    round: nat,
    steps: nat,
    goal: Seq<char>,
)
    requires
        round >= 1,
        walk(links, name, round) == Some(name),
        walk(links, name, steps) == Some(goal),
    ensures
        has_key(links, goal),
    decreases steps,
{
    if steps < round {
        lemma_walk_split(links, name, steps, (round - steps) as nat);
        assert(walk(links, goal, (round - steps) as nat) == Some(name));
    } else {
        lemma_walk_split(links, name, round, (steps - round) as nat);
        lemma_circle_stays(links, name, round, (steps - round) as nat, goal);
    }
}

/// From every name on a circle the walk comes back to where the circle was
/// entered.
pub proof fn lemma_circle_back(
    links: Entries<Link>,
    name: Seq<char>,
    round: nat,
    steps: nat,
    goal: Seq<char>,
)
    requires
        round >= 1,
        walk(links, name, round) == Some(name),
        walk(links, name, steps) == Some(goal),
    ensures
        leads(links, goal, name),
    decreases steps,
{
    if steps < round {
        lemma_walk_split(links, name, steps, (round - steps) as nat);
        assert(walk(links, goal, (round - steps) as nat) == Some(name));
    } else if steps == round {
        assert(walk(links, goal, round) == Some(name));
    } else {
        lemma_walk_split(links, name, round, (steps - round) as nat);
        lemma_circle_back(links, name, round, (steps - round) as nat, goal);
    }
}

/// From a name that is led back to itself no colour is ever found.
pub proof fn lemma_circle(links: Entries<Link>, name: Seq<char>, round: nat, budget: nat)
    requires
        round >= 1,
        walk(links, name, round) == Some(name),
    ensures
        chase(links, name, budget) is None,
    decreases budget,
{
    lemma_chase_after_walk(links, name, round, name, budget);
    if budget > round {
        lemma_circle(links, name, round, (budget - round) as nat);
    }
}

/// A slot whose links lead to a name that is no slot, or to a name that is led
/// back to itself, is not resolvable.
pub proof fn lemma_dead_end(links: Entries<Link>, name: Seq<char>, goal: Seq<char>)
    requires
        name == goal || leads(links, name, goal),
        !has_key(links, goal) || leads(links, goal, goal),
    ensures
        !resolvable(links, name),
{
    assert forall|budget: nat| chase(links, goal, budget) is None by {
        if has_key(links, goal) {
            let round = choose|steps: nat| steps >= 1 && walk(links, goal, steps) == Some(goal);
            lemma_circle(links, goal, round, budget);
        }
    }
    if name != goal {
        let steps = choose|steps: nat| steps >= 1 && walk(links, name, steps) == Some(goal);
        assert forall|budget: nat| chase(links, name, budget) is None by {
            lemma_chase_after_walk(links, name, steps, goal, budget);
        }
    }
}

/// A new slot at the end of a scheme changes nothing for what was found
/// without it.
pub proof fn lemma_chase_grows(
    links: Entries<Link>,
    this: Seq<char>,
    link: Link,
    name: Seq<char>,
    steps: nat,
)
    requires
        distinct_keys(links),
        !has_key(links, this),
        chase(links, name, steps) is Some,
    ensures
        chase(links.push((this, link)), name, steps) == chase(links, name, steps),
    decreases steps,
{
    lemma_grown(links, this, link);
    if steps > 0 {
        match lookup(links, name) {
            Some(Link::LinkedTo(target)) => {
                lemma_chase_grows(links, this, link, target, (steps - 1) as nat);
            },
            _ => {},
        }
    }
}

/// A new slot at the end of a scheme changes no walk that was there without
/// it.
pub proof fn lemma_walk_grows(
    links: Entries<Link>,
    this: Seq<char>,
    link: Link,
    name: Seq<char>,
    steps: nat,
    goal: Seq<char>,
)
    requires
        distinct_keys(links),
        !has_key(links, this),
        walk(links, name, steps) == Some(goal),
    ensures
        walk(links.push((this, link)), name, steps) == Some(goal),
    decreases steps,
{
    lemma_grown(links, this, link);
    if steps > 0 {
        match lookup(links, name) {
            Some(Link::LinkedTo(target)) => {
                lemma_walk_grows(links, this, link, target, (steps - 1) as nat, goal);
            },
            _ => {},
        }
    }
}

/// A scheme with one more slot at its end: the new slot is found, the others
/// are found as before.
pub proof fn lemma_grown(links: Entries<Link>, this: Seq<char>, link: Link)
    requires
        distinct_keys(links),
        !has_key(links, this),
    ensures
        links.push((this, link)) == put(links, this, link),
        distinct_keys(links.push((this, link))),
        lookup(links.push((this, link)), this) == Some(link),
        forall|other: Seq<char>|
            other != this ==> lookup(links.push((this, link)), other) == lookup(links, other),
        forall|other: Seq<char>|
            other != this ==> has_key(links.push((this, link)), other) == has_key(links, other),
{
    lemma_put(links, this, link);
}

} // verus!
