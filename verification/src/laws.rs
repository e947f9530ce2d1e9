//! What holds of the lexer, the parser, the filter and the builder together.

use vstd::prelude::*;
use crate::builder::{
    build, build_array, build_map, build_next, filter, path_after, path_at, segments, starts_with,
    Built, EventIterator, Outcome, Prefix,
};
use crate::errors::Error;
use crate::parser::{
    events, lemma_parse_progress, lemma_parse_wf, parse, Container, EventView, Item, Machine,
    Parser,
};
use crate::source::{Source, Stream};
use crate::value::{distinct, insert, lemma_position, position, Tree};

verus! {

/// A filter without reference segments lets every item through.
pub proof fn lemma_filter_all(items: Seq<Item>, path: Seq<Seq<char>>)
    ensures
        filter(items, path, Seq::empty()) == items,
    decreases items.len(),
{
    if items.len() > 0 {
        match items[0] {
            Err(_) => {
                lemma_filter_all(items.skip(1), path);
            },
            Ok(event) => {
                lemma_filter_all(items.skip(1), path_after(path, event));
            },
        }
        assert(filter(items, path, Seq::empty()) =~= items);
    } else {
        assert(filter(items, path, Seq::empty()) =~= items);
    }
}

/// The empty text has no segments.
pub proof fn lemma_no_segments()
    ensures
        segments(""@) == Seq::<Seq<char>>::empty(),
{
    reveal_strlit("");
}

/// Identity: a stream filtered with the empty prefix yields exactly what
/// the stream underneath yields, wherever the filter stands.
pub proof fn lemma_empty_prefix_is_identity<E: EventIterator>(filtered: Prefix<E>)
    requires
        filtered.reference() == segments(""@),
    ensures
        filtered.upcoming() == filtered.source(),
{
    lemma_no_segments();
    lemma_filter_all(filtered.source(), filtered.path());
}

/// Buffer-size invariance: two parsers in the same state with the same
/// input ahead of them yield the same events, whatever sources they read
/// from and whatever the sizes of their read buffers are.
pub proof fn lemma_buffer_size_invariance<T: Source, U: Source>(a: Parser<T>, b: Parser<U>)
    requires
        a.done() == b.done(),
        a.machine() == b.machine(),
        a.input() == b.input(),
    ensures
        a.upcoming() == b.upcoming(),
{
}

/// The event with which a value starts.
pub open spec fn head(t: Tree) -> EventView {
    match t {
        Tree::Null => EventView::Null,
        Tree::Boolean(b) => EventView::Boolean(b),
        Tree::String(s) => EventView::String(s),
        Tree::Number(n) => EventView::Number(n),
        Tree::Object(_) => EventView::StartMap,
        Tree::Array(_) => EventView::StartArray,
    }
}

/// The events of a value after its first: none for a scalar, the elements
/// or members and the closing event for a container.
pub open spec fn body(t: Tree) -> Seq<Item>
    decreases t,
{
    match t {
        Tree::Object(entries) => body_members(entries, 0) + seq![Ok(EventView::EndMap)],
        Tree::Array(items) => body_elements(items, 0) + seq![Ok(EventView::EndArray)],
        _ => Seq::empty(),
    }
}

/// The events of the elements of an array from the element `k` on.
pub open spec fn body_elements(items: Seq<Tree>, k: int) -> Seq<Item>
    decreases items, items.len() - k,
{
    if k < 0 || k >= items.len() {
        Seq::empty()
    } else {
        seq![Ok(head(items[k]))] + body(items[k]) + body_elements(items, k + 1)
    }
}

/// The events of the members of a map from the member `k` on.
pub open spec fn body_members(entries: Seq<(Seq<char>, Tree)>, k: int) -> Seq<Item>
    decreases entries, entries.len() - k,
{
    if k < 0 || k >= entries.len() {
        Seq::empty()
    } else {
        seq![Ok(EventView::Key(entries[k].0)), Ok(head(entries[k].1))] + body(entries[k].1)
            + body_members(entries, k + 1)
    }
}

/// The events of a value, in document order.
pub open spec fn flatten(t: Tree) -> Seq<Item> {
    seq![Ok(head(t))] + body(t)
}

/// Building from the events of a value, with anything after them, gives
/// the value back and leaves what came after.
pub proof fn lemma_build_flattened(t: Tree, tail: Seq<Item>)
    requires
        t.wf(),
    ensures
        build(head(t), body(t) + tail) == (Built { value: Outcome::Value(t), rest: tail }),
    decreases t,
{
    match t {
        Tree::Object(entries) => {
            lemma_build_members(entries, 0, tail);
            assert(entries.take(0) =~= Seq::empty());
            assert(body(t) + tail =~= body_members(entries, 0) + seq![Ok(EventView::EndMap)]
                + tail);
        },
        Tree::Array(items) => {
            lemma_build_elements(items, 0, tail);
            assert(items.take(0) =~= Seq::empty());
            assert(body(t) + tail =~= body_elements(items, 0) + seq![Ok(EventView::EndArray)]
                + tail);
        },
        _ => {
            assert(body(t) + tail =~= tail);
        },
    }
}

/// Building an array from the events of its elements from `k` on, when
/// the elements before `k` have been built, gives the array.
pub proof fn lemma_build_elements(items: Seq<Tree>, k: int, tail: Seq<Item>)
    requires
        0 <= k <= items.len(),
        forall|i: int| 0 <= i < items.len() ==> (#[trigger] items[i]).wf(),
    ensures
        build_array(
            body_elements(items, k) + seq![Ok(EventView::EndArray)] + tail,
            items.take(k),
        ) == (Built { value: Outcome::Value(Tree::Array(items)), rest: tail }),
    decreases items, items.len() - k,
{
    let all = body_elements(items, k) + seq![Ok(EventView::EndArray)] + tail;
    if k == items.len() {
        assert(items.take(k) =~= items);
        assert(all.skip(1) =~= tail);
    } else {
        let after = body_elements(items, k + 1) + seq![Ok(EventView::EndArray)] + tail;
        assert(all[0] == Ok::<EventView, Error>(head(items[k])));
        assert(all.skip(1) =~= body(items[k]) + after);
        lemma_build_flattened(items[k], after);
        assert(items.take(k).push(items[k]) =~= items.take(k + 1));
        lemma_build_elements(items, k + 1, tail);
    }
}

/// Building a map from the events of its members from `k` on, when the
/// members before `k` have been built, gives the map.
pub proof fn lemma_build_members(entries: Seq<(Seq<char>, Tree)>, k: int, tail: Seq<Item>)
    requires
        0 <= k <= entries.len(),
        distinct(entries),
        forall|i: int| 0 <= i < entries.len() ==> (#[trigger] entries[i]).1.wf(),
    ensures
        build_map(
            body_members(entries, k) + seq![Ok(EventView::EndMap)] + tail,
            entries.take(k),
        ) == (Built { value: Outcome::Value(Tree::Object(entries)), rest: tail }),
    decreases entries, entries.len() - k,
{
    let all = body_members(entries, k) + seq![Ok(EventView::EndMap)] + tail;
    if k == entries.len() {
        assert(entries.take(k) =~= entries);
        assert(all.skip(1) =~= tail);
    } else {
        let after = body_members(entries, k + 1) + seq![Ok(EventView::EndMap)] + tail;
        let name = entries[k].0;
        let value = entries[k].1;
        assert(all[0] == Ok::<EventView, Error>(EventView::Key(name)));
        assert(all[1] == Ok::<EventView, Error>(head(value)));
        assert(all.skip(2) =~= body(value) + after);
        lemma_build_flattened(value, after);
        assert forall|i: int| 0 <= i < entries.take(k).len() implies (#[trigger] entries.take(
            k,
        )[i]).0 != name by {
            assert(entries.take(k)[i] == entries[i]);
        }
        lemma_position(entries.take(k), name);
        if position(entries.take(k), name) < k {
            assert(entries.take(k)[position(entries.take(k), name)].0 == name);
        }
        assert(insert(entries.take(k), name, value) =~= entries.take(k + 1));
        lemma_build_members(entries, k + 1, tail);
    }
}

/// Round trip: the builder makes of the events of a value, whatever
/// follows them, the value itself, and consumes exactly those events.
pub proof fn lemma_round_trip(t: Tree, tail: Seq<Item>)
    requires
        t.wf(),
    ensures
        build_next(flatten(t) + tail) == Some(Built { value: Outcome::Value(t), rest: tail }),
{
    lemma_build_flattened(t, tail);
    assert((flatten(t) + tail).skip(1) =~= body(t) + tail);
}

/// Whether `a` can be had from `b` by leaving items out.
pub open spec fn subsequence(a: Seq<Item>, b: Seq<Item>) -> bool
    decreases b.len(),
{
    if a.len() == 0 {
        true
    } else if b.len() == 0 {
        false
    } else {
        (a[0] == b[0] && subsequence(a.skip(1), b.skip(1))) || subsequence(a, b.skip(1))
    }
}

/// What the filter lets through is what the stream underneath yields, with
/// items left out and the order kept.
pub proof fn lemma_filter_subsequence(
    items: Seq<Item>,
    path: Seq<Seq<char>>,
    reference: Seq<Seq<char>>,
)
    ensures
        subsequence(filter(items, path, reference), items),
    decreases items.len(),
{
    if items.len() > 0 {
        let kept = filter(items, path, reference);
        match items[0] {
            Err(e) => {
                lemma_filter_subsequence(items.skip(1), path, reference);
                assert(kept.skip(1) =~= filter(items.skip(1), path, reference));
            },
            Ok(event) => {
                let rest = filter(items.skip(1), path_after(path, event), reference);
                lemma_filter_subsequence(items.skip(1), path_after(path, event), reference);
                if starts_with(path_at(path, event), reference) {
                    assert(kept.skip(1) =~= rest);
                }
            },
        }
    }
}

/// The containers that are open after the events of a stream, when those
/// in `open` were open before it; `None` where an event closes what is not
/// the innermost open container. An error ends the stream.
pub open spec fn residue(items: Seq<Item>, open: Seq<Container>) -> Option<Seq<Container>>
    decreases items.len(),
{
    if items.len() == 0 {
        Some(open)
    } else {
        match items[0] {
            Err(_) => Some(open),
            Ok(EventView::StartArray) => residue(items.skip(1), open.push(Container::Array)),
            Ok(EventView::StartMap) => residue(items.skip(1), open.push(Container::Object)),
            Ok(EventView::EndArray) => if open.len() > 0 && open.last() == Container::Array {
                residue(items.skip(1), open.drop_last())
            } else {
                None
            },
            Ok(EventView::EndMap) => if open.len() > 0 && open.last() == Container::Object {
                residue(items.skip(1), open.drop_last())
            } else {
                None
            },
            Ok(_) => residue(items.skip(1), open),
        }
    }
}

/// No item of the stream is an error.
pub open spec fn clean(items: Seq<Item>) -> bool {
    forall|i: int| 0 <= i < items.len() ==> (#[trigger] items[i]) is Ok
}

/// Every event that the parser yields treats the stack of open containers
/// as its kind says: a start pushes, an end pops a container of its kind, a
/// key stands in an open container, and nothing else touches the stack.
pub proof fn lemma_parse_transition(m: Machine, s: Stream)
    requires
        m.wf(),
    ensures
        parse(m, s) matches Some(Ok(step)) ==> match step.event {
            EventView::StartArray => step.machine.stack == m.stack.push(Container::Array),
            EventView::StartMap => step.machine.stack == m.stack.push(Container::Object),
            EventView::EndArray => m.stack.len() > 0 && m.stack.last() == Container::Array
                && step.machine.stack == m.stack.drop_last(),
            EventView::EndMap => m.stack.len() > 0 && m.stack.last() == Container::Object
                && step.machine.stack == m.stack.drop_last(),
            EventView::Key(_) => m.stack.len() > 0 && step.machine.stack == m.stack,
            _ => step.machine.stack == m.stack,
        },
{
}

/// The path has one segment for each open container: an event that opens
/// or closes a container moves both alike, a key replaces the last segment,
/// and nothing else touches either.
pub proof fn lemma_path_follows_stack(m: Machine, s: Stream, path: Seq<Seq<char>>)
    requires
        m.wf(),
        path.len() == m.stack.len(),
    ensures
        parse(m, s) matches Some(Ok(step)) ==> path_at(path, step.event).len() <= path.len()
            && path_after(path, step.event).len() == step.machine.stack.len(),
{
    lemma_parse_transition(m, s);
}

/// The open containers whose start the filter let through, when the filter
/// stands at `path`: those opened at or below the reference path.
pub open spec fn kept_open(
    stack: Seq<Container>,
    path: Seq<Seq<char>>,
    reference: Seq<Seq<char>>,
) -> Seq<Container> {
    if starts_with(path, reference) && reference.len() <= stack.len() {
        stack.skip(reference.len() as int)
    } else {
        Seq::empty()
    }
}

/// What the filter lets through of a parser's events is nested as the
/// containers are: each end that passes closes the innermost container
/// whose start passed. A stream without an error leaves none of them open.
pub proof fn lemma_filtered_nesting(
    m: Machine,
    s: Stream,
    path: Seq<Seq<char>>,
    reference: Seq<Seq<char>>,
)
    requires
        m.wf(),
        path.len() == m.stack.len(),
    ensures
        residue(filter(events(m, s), path, reference), kept_open(m.stack, path, reference))
            is Some,
        clean(events(m, s)) ==> residue(
            filter(events(m, s), path, reference),
            kept_open(m.stack, path, reference),
        ) == Some(Seq::<Container>::empty()),
    decreases s.bytes.len(),
{
    let all = events(m, s);
    let kept = filter(all, path, reference);
    let open = kept_open(m.stack, path, reference);
    match parse(m, s) {
        None => {},
        Some(Err(e)) => {
            assert(all[0] is Err);
        },
        Some(Ok(step)) => {
            lemma_parse_progress(m, s);
            lemma_parse_wf(m, s);
            lemma_parse_transition(m, s);
            let event = step.event;
            let next = events(step.machine, s.skip(step.end));
            let after = path_after(path, event);
            assert(all.skip(1) =~= next);
            lemma_filtered_nesting(step.machine, s.skip(step.end), after, reference);
            let rest = filter(next, after, reference);
            let open_after = kept_open(step.machine.stack, after, reference);
            if starts_with(path_at(path, event), reference) {
                assert(kept.skip(1) =~= rest);
                match event {
                    EventView::StartArray => {
                        assert(open.push(Container::Array) =~= open_after);
                    },
                    EventView::StartMap => {
                        assert(open.push(Container::Object) =~= open_after);
                    },
                    EventView::EndArray | EventView::EndMap => {
                        assert(open.drop_last() =~= open_after);
                    },
                    _ => {
                        assert(open =~= open_after);
                    },
                }
            } else {
                assert(open =~= open_after);
            }
            if clean(all) {
                assert forall|i: int| 0 <= i < next.len() implies (#[trigger] next[i]) is Ok by {
                    assert(next[i] == all[i + 1]);
                }
            }
        },
    }
}

/// Inside a container whose start the filter let through every event
/// passes: what the filter yields of one match is a contiguous run of the
/// stream underneath.
pub proof fn lemma_match_is_contiguous(
    m: Machine,
    s: Stream,
    path: Seq<Seq<char>>,
    reference: Seq<Seq<char>>,
)
    requires
        m.wf(),
        path.len() == m.stack.len(),
        kept_open(m.stack, path, reference).len() > 0,
    ensures
        parse(m, s) matches Some(Ok(step)) ==> starts_with(path_at(path, step.event), reference),
{
    lemma_parse_transition(m, s);
}

/// What the filter lets through of the events of a document, for any
/// reference path, is a sub-sequence of those events in which starts and
/// ends match; where the document has no error it is balanced.
pub proof fn lemma_filtered_is_balanced(s: Stream, reference: Seq<Seq<char>>)
    ensures
        subsequence(
            filter(events(Machine::start(), s), Seq::empty(), reference),
            events(Machine::start(), s),
        ),
        residue(filter(events(Machine::start(), s), Seq::empty(), reference), Seq::empty())
            is Some,
        clean(events(Machine::start(), s)) ==> residue(
            filter(events(Machine::start(), s), Seq::empty(), reference),
            Seq::empty(),
        ) == Some(Seq::<Container>::empty()),
{
    lemma_filter_subsequence(events(Machine::start(), s), Seq::empty(), reference);
    lemma_filtered_nesting(Machine::start(), s, Seq::empty(), reference);
    assert(kept_open(Seq::empty(), Seq::empty(), reference) =~= Seq::<Container>::empty());
}

} // verus!
