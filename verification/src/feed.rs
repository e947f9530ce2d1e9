//! Parsing input that arrives chunk by chunk: the caller hands each chunk
//! over as it comes and gets the events that the chunk completes.

use vstd::prelude::*;
use crate::builder::{collect, item_views};
use crate::errors::Error;
use crate::grammar::extends;
use crate::parser::{
    events, lemma_parse_progress, lemma_parse_stable, lemma_parse_wf, parse, Event, Item, Machine,
    Parser, ParserState,
};
use crate::source::{lemma_skip, SliceSource, Stream};

verus! {

/// The failure with which a stream stops where more input may follow.
pub const STARVED: i32 = i32::MIN;

/// What is settled of a stream that may go on: the events that no
/// continuation can change, the machine after them, how many bytes they took,
/// and whether the stream is still open, that is, no error has ended it.
pub struct Settled {
    pub items: Seq<Item>,
    pub machine: Machine,
    pub end: int,
    pub open: bool,
}

/// What is settled of the stream `s`, which stops with the failure `code`
/// where more input may follow, for a parser with the machine `m`.
pub open spec fn settle(m: Machine, s: Stream, code: i32) -> Settled
    decreases s.bytes.len(),
{
    match parse(m, s) {
        None => Settled { items: Seq::empty(), machine: m, end: 0, open: false },
        Some(Err(e)) => if e == Error::IO(code) {
            Settled { items: Seq::empty(), machine: m, end: 0, open: true }
        } else {
            Settled { items: seq![Err(e)], machine: m, end: 0, open: false }
        },
        Some(Ok(step)) => if 0 < step.end <= s.bytes.len() {
            let rest = settle(step.machine, s.skip(step.end), code);
            Settled {
                items: seq![Ok(step.event)] + rest.items,
                machine: rest.machine,
                end: step.end + rest.end,
                open: rest.open,
            }
        } else {
            Settled { items: seq![Ok(step.event)], machine: step.machine, end: 0, open: false }
        },
    }
}

/// What is settled after `items`, which took `used` bytes, when `rest` is
/// settled of what follows them.
pub open spec fn resumed(items: Seq<Item>, used: int, rest: Settled) -> Settled {
    Settled {
        items: items + rest.items,
        machine: rest.machine,
        end: used + rest.end,
        open: rest.open,
    }
}

/// Settling goes step by step: after one event it goes on from the machine
/// and the position after that event.
pub proof fn lemma_settle_step(
    start: Machine,
    whole: Stream,
    items: Seq<Item>,
    used: int,
    m: Machine,
    code: i32,
)
    requires
        0 <= used <= whole.bytes.len(),
        settle(start, whole, code) == resumed(items, used, settle(m, whole.skip(used), code)),
        parse(m, whole.skip(used)) matches Some(Ok(_)),
    ensures
        ({
            let step = parse(m, whole.skip(used)).unwrap().unwrap();
            &&& 0 < step.end
            &&& used + step.end <= whole.bytes.len()
            &&& whole.skip(used).skip(step.end) == whole.skip(used + step.end)
            &&& settle(start, whole, code) == resumed(
                items.push(Ok(step.event)),
                used + step.end,
                settle(step.machine, whole.skip(used + step.end), code),
            )
        }),
{
    let here = whole.skip(used);
    let step = parse(m, here).unwrap().unwrap();
    lemma_parse_progress(m, here);
    lemma_skip(whole, used, step.end);
    let rest = settle(step.machine, here.skip(step.end), code);
    assert(items + (seq![Ok(step.event)] + rest.items) =~= items.push(Ok(step.event))
        + rest.items);
}

/// Settling stops at the first error: one that says that the stream has
/// stopped leaves it open, any other ends it.
pub proof fn lemma_settle_stop(
    start: Machine,
    whole: Stream,
    items: Seq<Item>,
    used: int,
    m: Machine,
    code: i32,
)
    requires
        0 <= used <= whole.bytes.len(),
        settle(start, whole, code) == resumed(items, used, settle(m, whole.skip(used), code)),
        parse(m, whole.skip(used)) matches Some(Err(_)),
    ensures
        ({
            let e = parse(m, whole.skip(used)).unwrap()->Err_0;
            let all = settle(start, whole, code);
            if e == Error::IO(code) {
                all == (Settled { items, machine: m, end: used, open: true })
            } else {
                all.items == items.push(Err(e)) && !all.open
            }
        }),
{
    let e = parse(m, whole.skip(used)).unwrap()->Err_0;
    if e == Error::IO(code) {
        assert(items + Seq::<Item>::empty() =~= items);
    } else {
        assert(items + seq![Err::<crate::parser::EventView, Error>(e)] =~= items.push(Err(e)));
    }
}

/// What is settled lies within the stream, and leaves the machine in order.
pub proof fn lemma_settle_end(m: Machine, s: Stream, code: i32)
    requires
        m.wf(),
    ensures
        0 <= settle(m, s, code).end <= s.bytes.len(),
        settle(m, s, code).machine.wf(),
    decreases s.bytes.len(),
{
    lemma_parse_wf(m, s);
    match parse(m, s) {
        Some(Ok(step)) => {
            if 0 < step.end <= s.bytes.len() {
                lemma_settle_end(step.machine, s.skip(step.end), code);
            }
        },
        _ => {},
    }
}

/// The events of a stream are those that were settled when only a part of
/// it had come, followed by the events of what was left and what came
/// after.
pub proof fn lemma_settle_events(m: Machine, short: Stream, long: Stream, code: i32)
    requires
        m.wf(),
        extends(short, long, code),
    ensures
        events(m, long) == if settle(m, short, code).open {
            settle(m, short, code).items + events(
                settle(m, short, code).machine,
                long.skip(settle(m, short, code).end),
            )
        } else {
            settle(m, short, code).items
        },
    decreases short.bytes.len(),
{
    lemma_parse_stable(m, short, long, code);
    lemma_parse_progress(m, short);
    lemma_parse_wf(m, short);
    lemma_skip(long, 0, 0);
    match parse(m, short) {
        Some(Ok(step)) => {
            let next = short.skip(step.end);
            assert(extends(next, long.skip(step.end), code));
            lemma_settle_events(step.machine, next, long.skip(step.end), code);
            lemma_settle_end(step.machine, next, code);
            let rest = settle(step.machine, next, code);
            lemma_skip(long, step.end, rest.end);
            if rest.open {
                assert(events(m, long) =~= settle(m, short, code).items + events(
                    rest.machine,
                    long.skip(step.end + rest.end),
                ));
            } else {
                assert(events(m, long) =~= settle(m, short, code).items);
            }
        },
        Some(Err(e)) => {
            if e == Error::IO(code) {
                assert(settle(m, short, code).items + events(m, long) =~= events(m, long));
            }
        },
        None => {},
    }
}

/// All the bytes of a sequence of chunks.
pub open spec fn joined(chunks: Seq<Seq<u8>>) -> Seq<u8>
    decreases chunks.len(),
{
    if chunks.len() == 0 {
        Seq::empty()
    } else {
        chunks[0] + joined(chunks.skip(1))
    }
}

/// The events that a parser with the machine `m` and the unread bytes
/// `pending` yields when it is fed `chunks` one after another and then told
/// that the input has ended.
pub open spec fn fed(m: Machine, pending: Seq<u8>, chunks: Seq<Seq<u8>>, code: i32) -> Seq<Item>
    decreases chunks.len(),
{
    if chunks.len() == 0 {
        events(m, Stream { bytes: pending, fault: None })
    } else {
        let all = pending + chunks[0];
        let now = settle(m, Stream { bytes: all, fault: Some(code) }, code);
        if now.open {
            now.items + fed(now.machine, all.skip(now.end), chunks.skip(1), code)
        } else {
            now.items
        }
    }
}

/// Chunk invariance: however the input is cut into chunks, feeding them one
/// after another yields the events of the whole input.
pub proof fn lemma_chunk_invariance(
    m: Machine,
    pending: Seq<u8>,
    chunks: Seq<Seq<u8>>,
    code: i32,
)
    requires
        m.wf(),
    ensures
        fed(m, pending, chunks, code) == events(
            m,
            Stream { bytes: pending + joined(chunks), fault: None },
        ),
    decreases chunks.len(),
{
    if chunks.len() == 0 {
        assert(pending + joined(chunks) =~= pending);
    } else {
        let all = pending + chunks[0];
        let short = Stream { bytes: all, fault: Some(code) };
        let long = Stream { bytes: pending + joined(chunks), fault: None };
        assert(pending + joined(chunks) =~= all + joined(chunks.skip(1)));
        let now = settle(m, short, code);
        lemma_settle_events(m, short, long, code);
        lemma_settle_end(m, short, code);
        if now.open {
            lemma_chunk_invariance(now.machine, all.skip(now.end), chunks.skip(1), code);
            assert(long.skip(now.end).bytes =~= all.skip(now.end) + joined(chunks.skip(1)));
        }
    }
}

/// Appends the bytes of `chunk` to `bytes`.
fn append(bytes: &mut Vec<u8>, chunk: &[u8])
    ensures
        final(bytes)@ == old(bytes)@ + chunk@,
{
    let mut i: usize = 0;
    while i < chunk.len()
        invariant
            i <= chunk.len(),
            bytes@ == old(bytes)@ + chunk@.take(i as int),
        decreases chunk.len() - i,
    {
        bytes.push(chunk[i]);
        i += 1;
        assert(bytes@ =~= old(bytes)@ + chunk@.take(i as int));
    }
    assert(chunk@.take(i as int) =~= chunk@);
}

/// A copy of `bytes`.
fn copy(bytes: &Vec<u8>) -> (r: Vec<u8>)
    ensures
        r@ == bytes@,
{
    let mut out: Vec<u8> = Vec::new();
    append(&mut out, bytes.as_slice());
    assert(out@ =~= bytes@);
    out
}

/// A parser that is fed its input chunk by chunk. It keeps the state of the
/// grammar and the bytes of the chunks that no event has used up yet.
pub struct Feeder {
    state: ParserState,
    pending: Vec<u8>,
    done: bool,
}

impl Feeder {
    /// Until an error has ended the stream, the state fits its stack.
    pub closed spec fn wf(&self) -> bool {
        !self.done ==> self.state@.wf()
    }

    /// The state machine.
    pub closed spec fn machine(&self) -> Machine {
        self.state@
    }

    /// The bytes that were fed and that no event has used up.
    pub closed spec fn pending(&self) -> Seq<u8> {
        self.pending@
    }

    /// Whether an error has ended the stream.
    pub closed spec fn done(&self) -> bool {
        self.done
    }

    /// A parser that has been fed nothing.
    pub fn new() -> (r: Feeder)
        ensures
            r.wf(),
            !r.done(),
            r.machine() == Machine::start(),
            r.pending() == Seq::<u8>::empty(),
    {
        Feeder { state: ParserState::new(), pending: Vec::new(), done: false }
    }

    /// Takes the next chunk of the input and returns the events that are
    /// settled with it: those that no further input can change. Bytes that
    /// may belong to an event that further input completes are kept. After
    /// an error nothing more is returned.
    pub fn feed(&mut self, chunk: &[u8]) -> (out: Vec<Result<Event, Error>>)
        requires
            old(self).wf(),
        ensures
            final(self).wf(),
            old(self).done() ==> final(self).done() && out@.len() == 0,
            !old(self).done() ==> ({
                let all = old(self).pending() + chunk@;
                let now = settle(
                    old(self).machine(),
                    Stream { bytes: all, fault: Some(STARVED) },
                    STARVED,
                );
                &&& item_views(out@) == now.items
                &&& final(self).done() == !now.open
                &&& now.open ==> final(self).machine() == now.machine && final(self).pending()
                    == all.skip(now.end)
            }),
    {
        let mut out: Vec<Result<Event, Error>> = Vec::new();
        if self.done {
            return out;
        }
        append(&mut self.pending, chunk);
        let total = self.pending.len();
        let ghost all = self.pending@;
        let ghost whole = Stream { bytes: all, fault: Some(STARVED) };
        let ghost start = self.state@;
        let mut state = ParserState::new();
        std::mem::swap(&mut self.state, &mut state);
        let mut parser = Parser::resume(SliceSource::broken(copy(&self.pending), STARVED), state);
        let mut settled: usize = 0;
        proof {
            lemma_skip(whole, 0, 0);
            assert(item_views(out@) =~= Seq::<Item>::empty());
            assert(item_views(out@) + settle(start, whole, STARVED).items =~= settle(
                start,
                whole,
                STARVED,
            ).items);
        }
        loop
            invariant_except_break
                !self.done,
                !parser.done(),
                parser.input() == whole.skip(settled as int),
                settle(start, whole, STARVED) == resumed(
                    item_views(out@),
                    settled as int,
                    settle(parser.machine(), whole.skip(settled as int), STARVED),
                ),
            invariant
                parser.wf(),
                self.pending@ == all,
                whole == (Stream { bytes: all, fault: Some(STARVED) }),
                total == all.len(),
                settled <= total,
            ensures
                item_views(out@) == settle(start, whole, STARVED).items,
                self.done == !settle(start, whole, STARVED).open,
                !self.done ==> parser.machine() == settle(start, whole, STARVED).machine
                    && settled == settle(start, whole, STARVED).end && parser.machine().wf(),
            decreases total - settled,
        {
            let ghost before = item_views(out@);
            let ghost here = whole.skip(settled as int);
            let ghost machine = parser.machine();
            proof {
                parser.lemma_shape();
                lemma_parse_stable(machine, here, here, STARVED);
            }
            match parser.next() {
                Some(Ok(event)) => {
                    proof {
                        lemma_settle_step(start, whole, before, settled as int, machine, STARVED);
                    }
                    out.push(Ok(event));
                    let unread = match parser.unread() {
                        Some(n) => n,
                        None => 0,
                    };
                    settled = total - unread;
                    proof {
                        assert(item_views(out@) =~= before.push(Ok(event@)));
                    }
                },
                Some(Err(e)) => {
                    proof {
                        lemma_settle_stop(start, whole, before, settled as int, machine, STARVED);
                    }
                    if e != Error::IO(STARVED) {
                        out.push(Err(e));
                        self.done = true;
                        proof {
                            assert(item_views(out@) =~= before.push(Err(e)));
                        }
                    }
                    break ;
                },
                None => {
                    self.done = true;
                    break ;
                },
            }
        }
        self.state = parser.into_state();
        let rest = self.pending.split_off(settled);
        self.pending = rest;
        proof {
            assert(self.pending@ =~= all.skip(settled as int));
        }
        out
    }

    /// Takes the end of the input and returns the events that were still to
    /// come: those of the bytes that were kept, with nothing after them.
    pub fn finish(self) -> (out: Vec<Result<Event, Error>>)
        requires
            self.wf(),
        ensures
            self.done() ==> out@.len() == 0,
            !self.done() ==> item_views(out@) == events(
                self.machine(),
                Stream { bytes: self.pending(), fault: None },
            ),
    {
        if self.done {
            return Vec::new();
        }
        let mut parser = Parser::resume(SliceSource::new(self.pending), self.state);
        collect(&mut parser)
    }
}

} // verus!
