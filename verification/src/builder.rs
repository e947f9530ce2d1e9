//! What stands on top of the event stream: the prefix filter, which selects
//! the events under a path, and the builder, which makes values of events.

use vstd::pervasive::unreached;
use vstd::prelude::*;
use vstd::string::StrSliceExecFns;
use crate::errors::Error;
use crate::guarantee::lemma_build_wf;
use crate::parser::{item_view, Event, EventView, Item};
use crate::value::{
    elements, insert, lemma_array_view, lemma_object_view, members, position, Tree, Value,
};

verus! {

/// A stream of events that is pulled item by item.
pub trait EventIterator {
    /// The iterator's internal state is in order.
    spec fn wf(&self) -> bool;

    /// All that the iterator has yet to yield, in order.
    spec fn upcoming(&self) -> Seq<Item>;

    /// Hands out the first of the upcoming items, or `None` when none is
    /// left.
    fn next(&mut self) -> (r: Option<Result<Event, Error>>)
        requires
            old(self).wf(),
        ensures
            final(self).wf(),
            match r {
                None => old(self).upcoming().len() == 0 && final(self).upcoming().len() == 0,
                Some(item) => {
                    &&& old(self).upcoming().len() > 0
                    &&& item_view(item) == old(self).upcoming()[0]
                    &&& final(self).upcoming() == old(self).upcoming().skip(1)
                },
            },
    ;
}

/// The views of a sequence of handed-out items.
pub open spec fn item_views(v: Seq<Result<Event, Error>>) -> Seq<Item> {
    Seq::new(v.len(), |i: int| item_view(v[i]))
}

/// Pulls a stream to its end and returns all that it yielded.
pub fn collect<E: EventIterator>(events: &mut E) -> (r: Vec<Result<Event, Error>>)
    requires
        old(events).wf(),
    ensures
        final(events).wf(),
        final(events).upcoming().len() == 0,
        item_views(r@) == old(events).upcoming(),
{
    let mut out: Vec<Result<Event, Error>> = Vec::new();
    loop
        invariant
            events.wf(),
            old(events).upcoming() == item_views(out@) + events.upcoming(),
        decreases events.upcoming().len(),
    {
        let ghost before = item_views(out@);
        match events.next() {
            None => {
                assert(item_views(out@) =~= old(events).upcoming());
                return out;
            },
            Some(item) => {
                out.push(item);
                assert(item_views(out@) =~= before.push(item_view(item)));
            },
        }
    }
}

/// The views of a sequence of strings.
pub open spec fn texts(v: Seq<String>) -> Seq<Seq<char>> {
    Seq::new(v.len(), |i: int| v[i]@)
}

/// Whether a path begins with the segments of `reference`.
pub open spec fn starts_with(path: Seq<Seq<char>>, reference: Seq<Seq<char>>) -> bool {
    &&& reference.len() <= path.len()
    &&& forall|i: int| 0 <= i < reference.len() ==> path[i] == reference[i]
}

/// The path at which an event is matched: a key and the end of a container
/// first leave the segment of what came before them.
pub open spec fn path_at(path: Seq<Seq<char>>, event: EventView) -> Seq<Seq<char>> {
    match event {
        EventView::Key(_) | EventView::EndMap | EventView::EndArray => if path.len() > 0 {
            path.drop_last()
        } else {
            path
        },
        _ => path,
    }
}

/// The path after an event that was matched at the path `at`: a key enters
/// its own segment, a map an empty one that its first key replaces, an array
/// the segment `item`.
pub open spec fn path_entered(at: Seq<Seq<char>>, event: EventView) -> Seq<Seq<char>> {
    match event {
        EventView::Key(name) => at.push(name),
        EventView::StartMap => at.push(""@),
        EventView::StartArray => at.push("item"@),
        _ => at,
    }
}

/// The path after an event.
pub open spec fn path_after(path: Seq<Seq<char>>, event: EventView) -> Seq<Seq<char>> {
    path_entered(path_at(path, event), event)
}

/// The path at which an item is matched: an error leaves the path alone.
pub open spec fn item_path_at(path: Seq<Seq<char>>, item: Item) -> Seq<Seq<char>> {
    match item {
        Ok(event) => path_at(path, event),
        Err(_) => path,
    }
}

/// The path after an item.
pub open spec fn item_path_after(path: Seq<Seq<char>>, item: Item) -> Seq<Seq<char>> {
    match item {
        Ok(event) => path_after(path, event),
        Err(_) => path,
    }
}

/// The items of a stream that the filter lets through, when it stands at
/// `path`: every error, and each event whose path begins with `reference`.
pub open spec fn filter(items: Seq<Item>, path: Seq<Seq<char>>, reference: Seq<Seq<char>>) -> Seq<
    Item,
>
    decreases items.len(),
{
    if items.len() == 0 {
        Seq::empty()
    } else {
        match items[0] {
            Err(e) => seq![Err(e)] + filter(items.skip(1), path, reference),
            Ok(event) => {
                let rest = filter(items.skip(1), path_after(path, event), reference);
                if starts_with(path_at(path, event), reference) {
                    seq![Ok(event)] + rest
                } else {
                    rest
                }
            },
        }
    }
}

/// What is left of the stream underneath once the filter has handed out one
/// item: what follows the first item that passes.
pub open spec fn filter_rest(
    items: Seq<Item>,
    path: Seq<Seq<char>>,
    reference: Seq<Seq<char>>,
) -> Seq<Item>
    decreases items.len(),
{
    if items.len() == 0 {
        items
    } else {
        match items[0] {
            Err(_) => items.skip(1),
            Ok(event) => if starts_with(path_at(path, event), reference) {
                items.skip(1)
            } else {
                filter_rest(items.skip(1), path_after(path, event), reference)
            },
        }
    }
}

/// The path once the filter has handed out one item: the path after every
/// event that it took from the stream underneath, the one that passes
/// included.
pub open spec fn filter_path(
    items: Seq<Item>,
    path: Seq<Seq<char>>,
    reference: Seq<Seq<char>>,
) -> Seq<Seq<char>>
    decreases items.len(),
{
    if items.len() == 0 {
        path
    } else {
        match items[0] {
            Err(_) => path,
            Ok(event) => if starts_with(path_at(path, event), reference) {
                path_after(path, event)
            } else {
                filter_path(items.skip(1), path_after(path, event), reference)
            },
        }
    }
}

/// Whether `path` begins with the segments of `reference`.
fn path_starts_with(path: &Vec<String>, reference: &Vec<String>) -> (r: bool)
    ensures
        r == starts_with(texts(path@), texts(reference@)),
{
    if reference.len() > path.len() {
        return false;
    }
    let mut i: usize = 0;
    while i < reference.len()
        invariant
            i <= reference.len() <= path.len(),
            forall|k: int| 0 <= k < i ==> texts(path@)[k] == texts(reference@)[k],
        decreases reference.len() - i,
    {
        if path[i] != reference[i] {
            assert(texts(path@)[i as int] != texts(reference@)[i as int]);
            return false;
        }
        i += 1;
    }
    true
}

/// A copy of a path.
fn clone_path(path: &Vec<String>) -> (r: Vec<String>)
    ensures
        texts(r@) == texts(path@),
{
    let mut out: Vec<String> = Vec::new();
    let mut i: usize = 0;
    while i < path.len()
        invariant
            i <= path.len(),
            out.len() == i,
            forall|k: int| 0 <= k < i ==> out@[k]@ == path@[k]@,
        decreases path.len() - i,
    {
        out.push(path[i].clone());
        i += 1;
    }
    assert(texts(out@) =~= texts(path@));
    out
}

/// An event stream that follows the path of its events, narrowed to those
/// under a reference path.
pub struct Prefix<E: EventIterator> {
    reference: Vec<String>,
    path: Vec<String>,
    parser: E,
}

impl<E: EventIterator> Prefix<E> {
    /// The segments of the reference path.
    pub closed spec fn reference(&self) -> Seq<Seq<char>> {
        texts(self.reference@)
    }

    /// The path of the position at which the filter stands.
    pub closed spec fn path(&self) -> Seq<Seq<char>> {
        texts(self.path@)
    }

    /// What the stream underneath has yet to yield.
    pub closed spec fn source(&self) -> Seq<Item> {
        self.parser.upcoming()
    }

    /// The stream underneath is in order.
    pub closed spec fn inner_wf(&self) -> bool {
        self.parser.wf()
    }
}

impl<E: EventIterator> Prefix<E> {
    /// Moves the path to where `event` is matched.
    fn leave(&mut self, event: &Event)
        ensures
            final(self).parser == old(self).parser,
            final(self).reference == old(self).reference,
            texts(final(self).path@) == path_at(texts(old(self).path@), event@),
    {
        match event {
            Event::Key(_) | Event::EndMap | Event::EndArray => {
                self.path.pop();
            },
            _ => {},
        }
        assert(texts(self.path@) =~= path_at(texts(old(self).path@), event@));
    }

    /// Moves the path from where `event` was matched to where the next
    /// event starts.
    fn enter(&mut self, event: &Event)
        ensures
            final(self).parser == old(self).parser,
            final(self).reference == old(self).reference,
            texts(final(self).path@) == path_entered(texts(old(self).path@), event@),
    {
        match event {
            Event::Key(value) => {
                self.path.push(value.clone());
            },
            Event::StartMap => {
                self.path.push("".to_owned());
            },
            Event::StartArray => {
                self.path.push("item".to_owned());
            },
            _ => {},
        }
        assert(texts(self.path@) =~= path_entered(texts(old(self).path@), event@));
    }

    /// Unfiltered: the next item of the stream underneath, whether or not
    /// it passes the filter, with the path at which it is matched.
    pub fn annotated(&mut self) -> (r: Option<(Vec<String>, Result<Event, Error>)>)
        requires
            old(self).wf(),
        ensures
            final(self).wf(),
            final(self).reference() == old(self).reference(),
            match r {
                None => {
                    &&& old(self).source().len() == 0
                    &&& final(self).source().len() == 0
                    &&& final(self).path() == old(self).path()
                },
                Some((path, item)) => {
                    &&& old(self).source().len() > 0
                    &&& item_view(item) == old(self).source()[0]
                    &&& texts(path@) == item_path_at(old(self).path(), item_view(item))
                    &&& final(self).source() == old(self).source().skip(1)
                    &&& final(self).path() == item_path_after(old(self).path(), item_view(item))
                },
            },
    {
        match self.parser.next() {
            None => None,
            Some(Err(e)) => Some((clone_path(&self.path), Err(e))),
            Some(Ok(event)) => {
                self.leave(&event);
                let path = clone_path(&self.path);
                self.enter(&event);
                Some((path, Ok(event)))
            },
        }
    }
}

impl<E: EventIterator> EventIterator for Prefix<E> {
    open spec fn wf(&self) -> bool {
        self.inner_wf()
    }

    open spec fn upcoming(&self) -> Seq<Item> {
        filter(self.source(), self.path(), self.reference())
    }

    fn next(&mut self) -> (r: Option<Result<Event, Error>>)
        ensures
            final(self).reference() == old(self).reference(),
            final(self).source() == filter_rest(
                old(self).source(),
                old(self).path(),
                old(self).reference(),
            ),
            final(self).path() == filter_path(
                old(self).source(),
                old(self).path(),
                old(self).reference(),
            ),
    {
        loop
            invariant
                self.parser.wf(),
                self.reference == old(self).reference,
                self.upcoming() == old(self).upcoming(),
                filter_rest(self.source(), self.path(), self.reference()) == filter_rest(
                    old(self).source(),
                    old(self).path(),
                    old(self).reference(),
                ),
                filter_path(self.source(), self.path(), self.reference()) == filter_path(
                    old(self).source(),
                    old(self).path(),
                    old(self).reference(),
                ),
            decreases self.parser.upcoming().len(),
        {
            let event = match self.parser.next() {
                None => {
                    return None;
                },
                Some(Err(e)) => {
                    return Some(Err(e));
                },
                Some(Ok(event)) => event,
            };
            self.leave(&event);
            let found = path_starts_with(&self.path, &self.reference);
            self.enter(&event);
            if found {
                return Some(Ok(event));
            }
        }
    }
}

/// The segments of a dotted path, read from position `i` on when the
/// segment that is being read began at `start`: a point ends a segment, and
/// so does the end of the text unless a point stood just before it.
pub open spec fn split(s: Seq<char>, start: int, i: int) -> Seq<Seq<char>>
    decreases s.len() - i,
{
    if i < 0 || i >= s.len() {
        if start < s.len() {
            seq![s.subrange(start, s.len() as int)]
        } else {
            Seq::empty()
        }
    } else if s[i] == '.' {
        seq![s.subrange(start, i)] + split(s, i + 1, i + 1)
    } else {
        split(s, start, i + 1)
    }
}

/// The segments of a dotted path; the empty text has none.
pub open spec fn segments(s: Seq<char>) -> Seq<Seq<char>> {
    split(s, 0, 0)
}

/// Splits a dotted path into its segments.
pub fn split_path(prefix: &str) -> (r: Vec<String>)
    ensures
        texts(r@) == segments(prefix@),
{
    let n = prefix.unicode_len();
    let mut out: Vec<String> = Vec::new();
    let mut start: usize = 0;
    let mut i: usize = 0;
    while i < n
        invariant
            n == prefix@.len(),
            start <= i <= n,
            segments(prefix@) == texts(out@) + split(prefix@, start as int, i as int),
        decreases n - i,
    {
        let ghost before = texts(out@);
        if prefix.get_char(i) == '.' {
            out.push(prefix.substring_char(start, i).to_owned());
            assert(texts(out@) =~= before + seq![prefix@.subrange(start as int, i as int)]);
            start = i + 1;
        }
        i += 1;
        assert(segments(prefix@) =~= texts(out@) + split(prefix@, start as int, i as int));
    }
    let ghost before = texts(out@);
    if start < n {
        out.push(prefix.substring_char(start, n).to_owned());
        assert(texts(out@) =~= before + seq![prefix@.subrange(start as int, n as int)]);
    }
    assert(texts(out@) =~= segments(prefix@));
    out
}

/// What the builder makes of the events at the head of a stream.
pub enum Outcome {
    /// The value that the events form.
    Value(Tree),
    /// The error of the stream underneath that stands among the events.
    Failed(Error),
    /// Nothing: the events form no value. A key or the end of a container
    /// stands where a value must start, something other than a key stands
    /// between the members of a map, a container is closed as one of the
    /// other kind, or the stream stops inside a value.
    Misplaced,
}

/// What building one value makes of a stream, and the items that are left
/// after it.
pub struct Built {
    pub value: Outcome,
    pub rest: Seq<Item>,
}

/// The value whose first event is `first`, built from the items that follow
/// it.
pub open spec fn build(first: EventView, rest: Seq<Item>) -> Built
    decreases rest.len(), 1int,
{
    match first {
        EventView::Null => Built { value: Outcome::Value(Tree::Null), rest },
        EventView::Boolean(b) => Built { value: Outcome::Value(Tree::Boolean(b)), rest },
        EventView::String(s) => Built { value: Outcome::Value(Tree::String(s)), rest },
        EventView::Number(n) => Built { value: Outcome::Value(Tree::Number(n)), rest },
        EventView::StartArray => build_array(rest, Seq::empty()),
        EventView::StartMap => build_map(rest, Seq::empty()),
        _ => Built { value: Outcome::Misplaced, rest },
    }
}

/// The array whose elements so far are `acc`, built from the items up to
/// its end.
pub open spec fn build_array(items: Seq<Item>, acc: Seq<Tree>) -> Built
    decreases items.len(), 0int,
{
    if items.len() == 0 {
        Built { value: Outcome::Misplaced, rest: items }
    } else {
        match items[0] {
            Err(e) => Built { value: Outcome::Failed(e), rest: items.skip(1) },
            Ok(EventView::EndArray) => Built {
                value: Outcome::Value(Tree::Array(acc)),
                rest: items.skip(1),
            },
            Ok(first) => {
                let element = build(first, items.skip(1));
                match element.value {
                    Outcome::Value(v) => if element.rest.len() < items.len() {
                        build_array(element.rest, acc.push(v))
                    } else {
                        Built { value: Outcome::Misplaced, rest: element.rest }
                    },
                    _ => element,
                }
            },
        }
    }
}

/// The map whose members so far are `acc`, built from the items up to its
/// end. Each member is a key and the value after it; a later member
/// replaces an earlier one of the same name.
pub open spec fn build_map(items: Seq<Item>, acc: Seq<(Seq<char>, Tree)>) -> Built
    decreases items.len(), 0int,
{
    if items.len() == 0 {
        Built { value: Outcome::Misplaced, rest: items }
    } else {
        match items[0] {
            Err(e) => Built { value: Outcome::Failed(e), rest: items.skip(1) },
            Ok(EventView::EndMap) => Built {
                value: Outcome::Value(Tree::Object(acc)),
                rest: items.skip(1),
            },
            Ok(EventView::Key(name)) => if items.len() == 1 {
                Built { value: Outcome::Misplaced, rest: items.skip(1) }
            } else {
                match items[1] {
                    Err(e) => Built { value: Outcome::Failed(e), rest: items.skip(2) },
                    Ok(first) => {
                        let member = build(first, items.skip(2));
                        match member.value {
                            Outcome::Value(v) => if member.rest.len() < items.len() {
                                build_map(member.rest, insert(acc, name, v))
                            } else {
                                Built { value: Outcome::Misplaced, rest: member.rest }
                            },
                            _ => member,
                        }
                    },
                }
            },
            Ok(_) => Built { value: Outcome::Misplaced, rest: items.skip(1) },
        }
    }
}

/// What the builder makes of the head of a stream: nothing where the stream
/// is empty, else the first error or the first value.
pub open spec fn build_next(items: Seq<Item>) -> Option<Built> {
    if items.len() == 0 {
        None
    } else {
        Some(
            match items[0] {
                Err(e) => Built { value: Outcome::Failed(e), rest: items.skip(1) },
                Ok(first) => build(first, items.skip(1)),
            },
        )
    }
}

/// All that the builder makes of a stream.
pub open spec fn values(items: Seq<Item>) -> Seq<Outcome>
    decreases items.len(),
{
    match build_next(items) {
        None => Seq::empty(),
        Some(built) => if built.rest.len() < items.len() {
            seq![built.value] + values(built.rest)
        } else {
            seq![built.value]
        },
    }
}

/// Whether the events of a stream form values throughout: building from it,
/// again and again, never meets an event out of place or the end of the
/// stream inside a value. This is what the builder asks of its stream.
pub open spec fn orderly(items: Seq<Item>) -> bool
    decreases items.len(),
{
    match build_next(items) {
        None => true,
        Some(built) => !(built.value is Misplaced) && (built.rest.len() < items.len() ==> orderly(
            built.rest,
        )),
    }
}

/// The mathematical value of what the builder hands out.
pub open spec fn value_view(r: Result<Value, Error>) -> Outcome {
    match r {
        Ok(value) => Outcome::Value(value@),
        Err(e) => Outcome::Failed(e),
    }
}

/// Sets the member named `key` to `value`: in place where the name occurs,
/// else at the end.
fn insert_member(entries: &mut Vec<(String, Value)>, key: String, value: Value)
    ensures
        members(final(entries)@) == insert(members(old(entries)@), key@, value@),
{
    let ghost before = members(entries@);
    let mut i: usize = 0;
    assert(before.skip(0) =~= before);
    while i < entries.len()
        invariant
            i <= entries.len(),
            entries@ == old(entries)@,
            before == members(entries@),
            position(before, key@) == i + position(before.skip(i as int), key@),
        decreases entries.len() - i,
    {
        if entries[i].0 == key {
            assert(before.skip(i as int)[0] == before[i as int]);
            entries[i] = (key, value);
            assert(members(entries@) =~= insert(before, key@, value@));
            return ;
        }
        assert(before.skip(i as int)[0] == before[i as int]);
        assert(before.skip(i as int).skip(1) =~= before.skip(i + 1));
        i += 1;
    }
    assert(before.skip(i as int).len() == 0);
    entries.push((key, value));
    assert(members(entries@) =~= insert(before, key@, value@));
}

/// Values built of an event stream, one at a time. The events must form
/// values, as those of a parser do under any reference path.
pub struct Items<E: EventIterator> {
    events: E,
}

impl<E: EventIterator> Items<E> {
    /// The stream underneath is in order.
    pub closed spec fn wf(&self) -> bool {
        self.events.wf()
    }

    /// What the stream underneath has yet to yield.
    pub closed spec fn source(&self) -> Seq<Item> {
        self.events.upcoming()
    }

    /// All the values and errors that are yet to come.
    pub open spec fn upcoming(&self) -> Seq<Outcome> {
        values(self.source())
    }

    /// Builds the value whose first event, `first`, has been taken from the
    /// stream.
    fn build(&mut self, first: Event) -> (r: Result<Value, Error>)
        requires
            old(self).wf(),
            !(build(first@, old(self).source()).value is Misplaced),
        ensures
            final(self).wf(),
            value_view(r) == build(first@, old(self).source()).value,
            final(self).source() == build(first@, old(self).source()).rest,
            final(self).source().len() <= old(self).source().len(),
        decreases old(self).source().len(),
    {
        let ghost goal = build(first@, self.source());
        match first {
            Event::Null => Ok(Value::Null),
            Event::Boolean(v) => Ok(Value::Boolean(v)),
            Event::String(v) => Ok(Value::String(v)),
            Event::Number(v) => Ok(Value::Number(v)),
            Event::StartArray => {
                let ghost origin = self.source();
                let mut array: Vec<Value> = Vec::new();
                assert(elements(array@) =~= Seq::empty());
                loop
                    invariant
                        self.wf(),
                        origin == old(self).source(),
                        self.source().len() <= origin.len(),
                        goal == build(first@, old(self).source()),
                        goal == build_array(self.source(), elements(array@)),
                        !(goal.value is Misplaced),
                    decreases self.source().len(),
                {
                    let ghost before = elements(array@);
                    match self.events.next() {
                        None => {
                            return unreached();
                        },
                        Some(Err(e)) => {
                            return Err(e);
                        },
                        Some(Ok(Event::EndArray)) => {
                            proof {
                                lemma_array_view(array);
                            }
                            return Ok(Value::Array(array));
                        },
                        Some(Ok(event)) => {
                            let element = self.build(event)?;
                            array.push(element);
                            assert(elements(array@) =~= before.push(element@));
                        },
                    }
                }
            },
            Event::StartMap => {
                let ghost origin = self.source();
                let mut object: Vec<(String, Value)> = Vec::new();
                assert(members(object@) =~= Seq::empty());
                loop
                    invariant
                        self.wf(),
                        origin == old(self).source(),
                        self.source().len() <= origin.len(),
                        goal == build(first@, old(self).source()),
                        goal == build_map(self.source(), members(object@)),
                        !(goal.value is Misplaced),
                    decreases self.source().len(),
                {
                    let ghost before = members(object@);
                    let ghost cur = self.source();
                    match self.events.next() {
                        None => {
                            return unreached();
                        },
                        Some(Err(e)) => {
                            return Err(e);
                        },
                        Some(Ok(Event::EndMap)) => {
                            proof {
                                lemma_object_view(object);
                            }
                            return Ok(Value::Object(object));
                        },
                        Some(Ok(Event::Key(name))) => {
                            let ghost here = self.source();
                            let head = match self.events.next() {
                                None => {
                                    return unreached();
                                },
                                Some(Err(e)) => {
                                    return Err(e);
                                },
                                Some(Ok(event)) => event,
                            };
                            assert(self.source() =~= cur.skip(2));
                            assert(cur[1] == here[0]);
                            let member = self.build(head)?;
                            insert_member(&mut object, name, member);
                        },
                        Some(Ok(_)) => {
                            return unreached();
                        },
                    }
                }
            },
            _ => unreached(),
        }
    }

    /// The next value of the stream, `None` when the stream is exhausted. An
    /// error of the stream underneath is handed on. The events of the stream
    /// must form values: a key where a value must start, or nothing after a
    /// key, is the caller's fault and is left out here.
    pub fn next(&mut self) -> (r: Option<Result<Value, Error>>)
        requires
            old(self).wf(),
            orderly(old(self).source()),
        ensures
            final(self).wf(),
            orderly(final(self).source()),
            match build_next(old(self).source()) {
                None => r is None && final(self).source() == old(self).source(),
                Some(built) => {
                    &&& r matches Some(x)
                    &&& value_view(x) == built.value
                    &&& final(self).source() == built.rest
                    &&& built.rest.len() < old(self).source().len()
                },
            },
            r matches Some(Ok(value)) ==> value@.wf(),
    {
        match self.events.next() {
            None => {
                assert(self.source() =~= old(self).source());
                None
            },
            Some(Err(e)) => Some(Err(e)),
            Some(Ok(first)) => {
                proof {
                    lemma_build_wf(first@, self.source());
                }
                Some(self.build(first))
            },
        }
    }
}

/// The combinators of an event stream.
pub trait Builder: Sized + EventIterator {
    /// The stream narrowed to the events under the dotted path `prefix`.
    fn prefix(self, prefix: &str) -> (r: Prefix<Self>)
        requires
            self.wf(),
        ensures
            r.wf(),
            r.reference() == segments(prefix@),
            r.path() == Seq::<Seq<char>>::empty(),
            r.source() == self.upcoming(),
    {
        let r = Prefix { reference: split_path(prefix), path: Vec::new(), parser: self };
        assert(r.path() =~= Seq::<Seq<char>>::empty());
        r
    }

    /// The values under the dotted path `prefix`. To take them out, the
    /// events under the path must form values.
    fn items(self, prefix: &str) -> (r: Items<Prefix<Self>>)
        requires
            self.wf(),
        ensures
            r.wf(),
            r.source() == filter(self.upcoming(), Seq::empty(), segments(prefix@)),
    {
        Items { events: self.prefix(prefix) }
    }
}

impl<T: EventIterator> Builder for T {

}

} // verus!
