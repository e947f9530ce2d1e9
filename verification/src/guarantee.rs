//! What the builder can rely on: the events of a parser form values, so
//! that a document without an error yields values without an error, under
//! any reference path.

use vstd::prelude::*;
use crate::builder::{
    build, build_array, build_map, build_next, filter, orderly, path_after, path_at,
    starts_with, values, Outcome,
};
use crate::errors::Error;
use crate::laws::{clean, kept_open, lemma_parse_transition};
use crate::parser::{
    events, lemma_parse_progress, lemma_parse_wf, parse, Container, EventView, Item, Machine,
    State,
};
use crate::source::Stream;
use crate::value::{distinct, insert, lemma_insert_distinct, Tree};

verus! {

/// Whether an event starts a value: it is a scalar or opens a container.
pub open spec fn value_start(event: EventView) -> bool {
    !(event is Key) && !(event is EndArray) && !(event is EndMap)
}

/// Whether the machine stands between the elements of an array: at its
/// start or after an element.
pub open spec fn in_array(m: Machine) -> bool {
    &&& m.state == State::ArrayOpen || m.state == State::Comma
    &&& m.stack.len() > 0
    &&& m.stack.last() == Container::Array
}

/// Whether the machine stands between the members of a map: at its start
/// or after a member.
pub open spec fn in_map(m: Machine) -> bool {
    &&& m.state == State::ObjectOpen || m.state == State::Comma
    &&& m.stack.len() > 0
    &&& m.stack.last() == Container::Object
}

/// Building never yields more items than it was given.
pub proof fn lemma_build_rest(first: EventView, rest: Seq<Item>)
    ensures
        build(first, rest).rest.len() <= rest.len(),
    decreases rest.len(), 1int,
{
    match first {
        EventView::StartArray => {
            lemma_build_array_rest(rest, Seq::empty());
        },
        EventView::StartMap => {
            lemma_build_map_rest(rest, Seq::empty());
        },
        _ => {},
    }
}

/// Building an array never yields more items than it was given.
pub proof fn lemma_build_array_rest(items: Seq<Item>, acc: Seq<Tree>)
    ensures
        build_array(items, acc).rest.len() <= items.len(),
    decreases items.len(), 0int,
{
    if items.len() > 0 {
        match items[0] {
            Ok(EventView::EndArray) => {},
            Ok(first) => {
                lemma_build_rest(first, items.skip(1));
                let element = build(first, items.skip(1));
                if element.value is Value && element.rest.len() < items.len() {
                    lemma_build_array_rest(element.rest, acc.push(element.value->Value_0));
                }
            },
            Err(_) => {},
        }
    }
}

/// Building a map never yields more items than it was given.
pub proof fn lemma_build_map_rest(items: Seq<Item>, acc: Seq<(Seq<char>, Tree)>)
    ensures
        build_map(items, acc).rest.len() <= items.len(),
    decreases items.len(), 0int,
{
    if items.len() > 1 {
        match (items[0], items[1]) {
            (Ok(EventView::Key(name)), Ok(first)) => {
                lemma_build_rest(first, items.skip(2));
                let member = build(first, items.skip(2));
                if member.value is Value && member.rest.len() < items.len() {
                    lemma_build_map_rest(
                        member.rest,
                        insert(acc, name, member.value->Value_0),
                    );
                }
            },
            _ => {},
        }
    }
}

/// What the builder makes is in order: no map names a member twice.
pub proof fn lemma_build_wf(first: EventView, rest: Seq<Item>)
    ensures
        build(first, rest).value matches Outcome::Value(t) ==> t.wf(),
    decreases rest.len(), 1int,
{
    match first {
        EventView::StartArray => {
            lemma_build_array_wf(rest, Seq::empty());
        },
        EventView::StartMap => {
            lemma_build_map_wf(rest, Seq::empty());
        },
        _ => {},
    }
}

/// An array that the builder makes of elements that are in order is in
/// order.
pub proof fn lemma_build_array_wf(items: Seq<Item>, acc: Seq<Tree>)
    requires
        forall|i: int| 0 <= i < acc.len() ==> (#[trigger] acc[i]).wf(),
    ensures
        build_array(items, acc).value matches Outcome::Value(t) ==> t.wf(),
    decreases items.len(), 0int,
{
    if items.len() > 0 {
        match items[0] {
            Ok(EventView::EndArray) => {},
            Ok(first) => {
                lemma_build_wf(first, items.skip(1));
                let element = build(first, items.skip(1));
                if element.value is Value && element.rest.len() < items.len() {
                    lemma_build_array_wf(element.rest, acc.push(element.value->Value_0));
                }
            },
            Err(_) => {},
        }
    }
}

/// A map that the builder makes of members that are in order and have
/// distinct names is in order.
pub proof fn lemma_build_map_wf(items: Seq<Item>, acc: Seq<(Seq<char>, Tree)>)
    requires
        distinct(acc),
        forall|i: int| 0 <= i < acc.len() ==> (#[trigger] acc[i]).1.wf(),
    ensures
        build_map(items, acc).value matches Outcome::Value(t) ==> t.wf(),
    decreases items.len(), 0int,
{
    if items.len() > 1 {
        match (items[0], items[1]) {
            (Ok(EventView::Key(name)), Ok(first)) => {
                lemma_build_wf(first, items.skip(2));
                let member = build(first, items.skip(2));
                if member.value is Value && member.rest.len() < items.len() {
                    let value = member.value->Value_0;
                    lemma_insert_distinct(acc, name, value);
                    crate::value::lemma_position(acc, name);
                    lemma_build_map_wf(member.rest, insert(acc, name, value));
                }
            },
            _ => {},
        }
    }
}

/// What a step of the parser yields in each state: a value starts where one
/// is expected; between the elements of an array an element starts or the
/// array ends; between the members of a map, and nowhere else, a key stands
/// or the map ends. After a scalar or the end of a container the machine is
/// settled on the stack that is left; a key leads to the colon, where a
/// value must start.
pub proof fn lemma_parse_shape(m: Machine, s: Stream)
    requires
        m.wf(),
    ensures
        parse(m, s) matches Some(Ok(step)) ==> {
            &&& m.state == State::Value || m.state == State::Colon ==> value_start(step.event)
            &&& in_array(m) ==> value_start(step.event) || step.event is EndArray
            &&& in_map(m) ==> step.event is Key || step.event is EndMap
            &&& step.event is Key ==> in_map(m)
            &&& m.state != State::Closed
            &&& match step.event {
                EventView::StartArray => step.machine == (Machine {
                    state: State::ArrayOpen,
                    stack: m.stack.push(Container::Array),
                }),
                EventView::StartMap => step.machine == (Machine {
                    state: State::ObjectOpen,
                    stack: m.stack.push(Container::Object),
                }),
                EventView::EndArray | EventView::EndMap => step.machine == Machine::settle(
                    m.stack.drop_last(),
                ),
                EventView::Key(_) => step.machine == (Machine {
                    state: State::Colon,
                    stack: m.stack,
                }),
                _ => step.machine == Machine::settle(m.stack),
            }
        },
{
}

/// The events of a stream start with what its first step yields: an event
/// and then the events of what follows, or the error alone. Where the stream
/// has no error, what follows has none either.
pub proof fn lemma_events_step(m: Machine, s: Stream)
    ensures
        parse(m, s) matches Some(Err(e)) ==> events(m, s) == seq![Err::<EventView, Error>(e)]
            && !clean(events(m, s)),
        parse(m, s) matches Some(Ok(step)) ==> {
            &&& 0 < step.end <= s.bytes.len()
            &&& events(m, s) == seq![Ok::<EventView, Error>(step.event)] + events(
                step.machine,
                s.skip(step.end),
            )
            &&& clean(events(m, s)) ==> clean(events(step.machine, s.skip(step.end)))
        },
        parse(m, s) is None ==> m.state == State::Closed && events(m, s).len() == 0,
{
    lemma_parse_progress(m, s);
    match parse(m, s) {
        Some(Err(e)) => {
            assert(events(m, s)[0] is Err);
        },
        Some(Ok(step)) => {
            let next = events(step.machine, s.skip(step.end));
            if clean(events(m, s)) {
                assert forall|i: int| 0 <= i < next.len() implies (#[trigger] next[i]) is Ok by {
                    assert(next[i] == events(m, s)[i + 1]);
                }
            }
        },
        None => {},
    }
}

/// What the filter makes of the events of a stream, by its first step: an
/// error passes; an event passes or not, and the filter goes on from the
/// path after it.
pub proof fn lemma_filter_step(
    m: Machine,
    s: Stream,
    path: Seq<Seq<char>>,
    reference: Seq<Seq<char>>,
)
    ensures
        parse(m, s) matches Some(Err(e)) ==> filter(events(m, s), path, reference) == seq![
            Err::<EventView, Error>(e),
        ],
        parse(m, s) matches Some(Ok(step)) ==> filter(events(m, s), path, reference) == if
            starts_with(path_at(path, step.event), reference) {
            seq![Ok::<EventView, Error>(step.event)] + filter(
                events(step.machine, s.skip(step.end)),
                path_after(path, step.event),
                reference,
            )
        } else {
            filter(events(step.machine, s.skip(step.end)), path_after(path, step.event), reference)
        },
        parse(m, s) is None ==> filter(events(m, s), path, reference).len() == 0,
{
    lemma_events_step(m, s);
    match parse(m, s) {
        Some(Err(e)) => {
            let rest = events(m, s).skip(1);
            assert(rest.len() == 0);
            assert(filter(rest, path, reference).len() == 0);
            assert(filter(events(m, s), path, reference) =~= seq![Err::<EventView, Error>(e)]);
        },
        Some(Ok(step)) => {
            assert(events(m, s).skip(1) =~= events(step.machine, s.skip(step.end)));
        },
        None => {},
    }
}

/// Where a value starts at or below the reference path, the builder makes a
/// value of what the filter lets through, and leaves what the filter lets
/// through of the events after the value; or it meets the error that ends
/// the stream, and nothing is left. Returns the machine and the stream after
/// the value.
pub proof fn lemma_kept_value(
    m: Machine,
    s: Stream,
    path: Seq<Seq<char>>,
    reference: Seq<Seq<char>>,
) -> (after: (Machine, Stream))
    requires
        m.wf(),
        path.len() == m.stack.len(),
        starts_with(path, reference),
        parse(m, s) matches Some(Ok(step)) && value_start(step.event),
    ensures
        ({
            let step = parse(m, s).unwrap().unwrap();
            let built = build(
                step.event,
                filter(
                    events(step.machine, s.skip(step.end)),
                    path_after(path, step.event),
                    reference,
                ),
            );
            &&& !(built.value is Misplaced)
            &&& built.value is Failed ==> built.rest.len() == 0 && !clean(events(m, s))
            &&& built.value is Value ==> {
                &&& built.rest == filter(events(after.0, after.1), path, reference)
                &&& after.0 == Machine::settle(m.stack)
                &&& after.1.bytes.len() < s.bytes.len()
                &&& clean(events(m, s)) ==> clean(events(after.0, after.1))
            }
        }),
    decreases s.bytes.len(), 0int,
{
    lemma_events_step(m, s);
    lemma_parse_wf(m, s);
    lemma_parse_shape(m, s);
    let step = parse(m, s).unwrap().unwrap();
    let next = s.skip(step.end);
    match step.event {
        EventView::StartArray => {
            let inside = path.push("item"@);
            assert(inside.drop_last() =~= path);
            assert(m.stack.push(Container::Array).drop_last() =~= m.stack);
            lemma_kept_array(step.machine, next, inside, reference, Seq::empty())
        },
        EventView::StartMap => {
            let inside = path.push(""@);
            assert(inside.drop_last() =~= path);
            assert(m.stack.push(Container::Object).drop_last() =~= m.stack);
            lemma_kept_map(step.machine, next, inside, reference, Seq::empty())
        },
        _ => (step.machine, next),
    }
}

/// Between the elements of an array that started at or below the reference
/// path, the builder makes the array of what the filter lets through, or
/// meets the error that ends the stream. Returns the machine and the stream
/// after the array.
pub proof fn lemma_kept_array(
    m: Machine,
    s: Stream,
    path: Seq<Seq<char>>,
    reference: Seq<Seq<char>>,
    acc: Seq<Tree>,
) -> (after: (Machine, Stream))
    requires
        m.wf(),
        in_array(m),
        path.len() == m.stack.len(),
        path.last() == "item"@,
        starts_with(path.drop_last(), reference),
    ensures
        ({
            let built = build_array(filter(events(m, s), path, reference), acc);
            &&& !(built.value is Misplaced)
            &&& built.value is Failed ==> built.rest.len() == 0 && !clean(events(m, s))
            &&& built.value is Value ==> {
                &&& built.rest == filter(events(after.0, after.1), path.drop_last(), reference)
                &&& after.0 == Machine::settle(m.stack.drop_last())
                &&& after.1.bytes.len() <= s.bytes.len()
                &&& clean(events(m, s)) ==> clean(events(after.0, after.1))
            }
        }),
    decreases s.bytes.len(), 1int,
{
    lemma_events_step(m, s);
    lemma_parse_wf(m, s);
    lemma_parse_shape(m, s);
    lemma_filter_step(m, s, path, reference);
    let kept = filter(events(m, s), path, reference);
    match parse(m, s) {
        Some(Ok(step)) => {
            let next = s.skip(step.end);
            let rest = filter(events(step.machine, next), path_after(path, step.event), reference);
            assert(kept.skip(1) =~= rest);
            if step.event is EndArray {
                (step.machine, next)
            } else {
                let mid = lemma_kept_value(m, s, path, reference);
                let element = build(step.event, rest);
                lemma_build_rest(step.event, rest);
                if element.value is Value {
                    lemma_kept_array(
                        mid.0,
                        mid.1,
                        path,
                        reference,
                        acc.push(element.value->Value_0),
                    )
                } else {
                    (m, s)
                }
            }
        },
        Some(Err(e)) => {
            assert(kept.skip(1) =~= Seq::<Item>::empty());
            (m, s)
        },
        None => (m, s),
    }
}

/// Between the members of a map that started at or below the reference
/// path, the builder makes the map of what the filter lets through, or
/// meets the error that ends the stream. Returns the machine and the stream
/// after the map.
pub proof fn lemma_kept_map(
    m: Machine,
    s: Stream,
    path: Seq<Seq<char>>,
    reference: Seq<Seq<char>>,
    acc: Seq<(Seq<char>, Tree)>,
) -> (after: (Machine, Stream))
    requires
        m.wf(),
        in_map(m),
        path.len() == m.stack.len(),
        starts_with(path.drop_last(), reference),
    ensures
        ({
            let built = build_map(filter(events(m, s), path, reference), acc);
            &&& !(built.value is Misplaced)
            &&& built.value is Failed ==> built.rest.len() == 0 && !clean(events(m, s))
            &&& built.value is Value ==> {
                &&& built.rest == filter(events(after.0, after.1), path.drop_last(), reference)
                &&& after.0 == Machine::settle(m.stack.drop_last())
                &&& after.1.bytes.len() <= s.bytes.len()
                &&& clean(events(m, s)) ==> clean(events(after.0, after.1))
            }
        }),
    decreases s.bytes.len(), 1int,
{
    lemma_events_step(m, s);
    lemma_parse_wf(m, s);
    lemma_parse_shape(m, s);
    lemma_filter_step(m, s, path, reference);
    let kept = filter(events(m, s), path, reference);
    match parse(m, s) {
        Some(Ok(step)) => {
            let next = s.skip(step.end);
            let named = path_after(path, step.event);
            let rest = filter(events(step.machine, next), named, reference);
            assert(kept.skip(1) =~= rest);
            match step.event {
                EventView::Key(name) => {
                    assert(named.drop_last() =~= path.drop_last());
                    lemma_events_step(step.machine, next);
                    lemma_parse_shape(step.machine, next);
                    lemma_filter_step(step.machine, next, named, reference);
                    match parse(step.machine, next) {
                        Some(Ok(value)) => {
                            let tail = filter(
                                events(value.machine, next.skip(value.end)),
                                path_after(named, value.event),
                                reference,
                            );
                            assert(kept.skip(2) =~= tail);
                            let mid = lemma_kept_value(step.machine, next, named, reference);
                            let member = build(value.event, tail);
                            lemma_build_rest(value.event, tail);
                            if member.value is Value {
                                lemma_kept_map(
                                    mid.0,
                                    mid.1,
                                    named,
                                    reference,
                                    insert(acc, name, member.value->Value_0),
                                )
                            } else {
                                (m, s)
                            }
                        },
                        Some(Err(e)) => {
                            assert(kept.skip(2) =~= Seq::<Item>::empty());
                            (m, s)
                        },
                        None => (m, s),
                    }
                },
                _ => (step.machine, next),
            }
        },
        Some(Err(e)) => {
            assert(kept.skip(1) =~= Seq::<Item>::empty());
            (m, s)
        },
        None => (m, s),
    }
}

/// Of no events nothing is built, and that is orderly.
pub proof fn lemma_nothing_left(items: Seq<Item>)
    requires
        items.len() == 0,
    ensures
        orderly(items),
        values(items).len() == 0,
{
}

/// Outside every container that the filter let through, what the filter
/// lets through of a parser's events is orderly; where the stream has no
/// error, the builder makes values and only values of it.
pub proof fn lemma_kept_values(
    m: Machine,
    s: Stream,
    path: Seq<Seq<char>>,
    reference: Seq<Seq<char>>,
)
    requires
        m.wf(),
        path.len() == m.stack.len(),
        kept_open(m.stack, path, reference).len() == 0,
    ensures
        orderly(filter(events(m, s), path, reference)),
        clean(events(m, s)) ==> forall|i: int|
            0 <= i < values(filter(events(m, s), path, reference)).len() ==> (#[trigger] values(
                filter(events(m, s), path, reference),
            )[i]) is Value,
    decreases s.bytes.len(),
{
    lemma_events_step(m, s);
    lemma_parse_wf(m, s);
    lemma_parse_shape(m, s);
    lemma_parse_transition(m, s);
    lemma_filter_step(m, s, path, reference);
    let kept = filter(events(m, s), path, reference);
    match parse(m, s) {
        Some(Ok(step)) => {
            let next = s.skip(step.end);
            let after = path_after(path, step.event);
            let rest = filter(events(step.machine, next), after, reference);
            if starts_with(path_at(path, step.event), reference) {
                assert(kept.skip(1) =~= rest);
                let mid = lemma_kept_value(m, s, path, reference);
                lemma_build_rest(step.event, rest);
                let built = build(step.event, rest);
                assert(build_next(kept) == Some(built));
                if built.value is Value {
                    lemma_kept_values(mid.0, mid.1, path, reference);
                } else {
                    lemma_nothing_left(built.rest);
                }
            } else {
                lemma_kept_values(step.machine, next, after, reference);
            }
        },
        Some(Err(e)) => {
            lemma_nothing_left(kept.skip(1));
        },
        None => {
            lemma_nothing_left(kept);
        },
    }
}

/// What the builder asks of its stream, a parser gives: under any reference
/// path, what the filter lets through of the events of a document is
/// orderly.
pub proof fn lemma_parser_is_orderly(s: Stream, reference: Seq<Seq<char>>)
    ensures
        orderly(filter(events(Machine::start(), s), Seq::empty(), reference)),
{
    lemma_kept_values(Machine::start(), s, Seq::empty(), reference);
}

/// A document without an error yields values without an error: whatever
/// the reference path, the builder makes values and only values of what the
/// filter lets through.
pub proof fn lemma_values_of_clean_document(s: Stream, reference: Seq<Seq<char>>)
    requires
        clean(events(Machine::start(), s)),
    ensures
        forall|i: int|
            0 <= i < values(filter(events(Machine::start(), s), Seq::empty(), reference)).len()
                ==> (#[trigger] values(
                filter(events(Machine::start(), s), Seq::empty(), reference),
            )[i]) is Value,
{
    lemma_kept_values(Machine::start(), s, Seq::empty(), reference);
}

} // verus!
