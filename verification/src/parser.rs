//! The parser: from lexemes to structural events, by a state machine with a
//! stack of open containers.

use vstd::prelude::*;
use crate::builder::EventIterator;
use crate::errors::Error;
use crate::grammar::{
    extends, lemma_extends_skip, lemma_lex_progress, lemma_lex_stable, lex, starved, Scan,
};
use crate::lexer::{Lexeme, Lexer, Number, Token};
use crate::source::{lemma_skip, SliceSource, Source, Stream};

verus! {

/// One step of the grammar, in document order.
#[derive(Debug, Clone, PartialEq)]
pub enum Event {
    /// `null`.
    Null,
    /// `true` or `false`.
    Boolean(bool),
    /// A string value.
    String(String),
    /// The name of a member of a map; the member's value follows.
    Key(String),
    /// A number value.
    Number(Number),
    /// `[`
    StartArray,
    /// `]`
    EndArray,
    /// `{`
    StartMap,
    /// `}`
    EndMap,
}

/// The mathematical value of an `Event`.
pub enum EventView {
    Null,
    Boolean(bool),
    String(Seq<char>),
    Key(Seq<char>),
    Number(Number),
    StartArray,
    EndArray,
    StartMap,
    EndMap,
}

impl View for Event {
    type V = EventView;

    open spec fn view(&self) -> EventView {
        match self {
            Event::Null => EventView::Null,
            Event::Boolean(b) => EventView::Boolean(*b),
            Event::String(s) => EventView::String(s@),
            Event::Key(s) => EventView::Key(s@),
            Event::Number(n) => EventView::Number(*n),
            Event::StartArray => EventView::StartArray,
            Event::EndArray => EventView::EndArray,
            Event::StartMap => EventView::StartMap,
            Event::EndMap => EventView::EndMap,
        }
    }
}

/// What an event iterator yields: an event or the error that ends the
/// stream.
pub type Item = Result<EventView, Error>;

/// The mathematical value of what an event iterator hands out.
pub open spec fn item_view(r: Result<Event, Error>) -> Item {
    match r {
        Ok(event) => Ok(event@),
        Err(e) => Err(e),
    }
}

/// What the parser expects next.
#[derive(Debug, Clone, Copy, PartialEq, Eq, Structural)]
pub enum State {
    /// Nothing: the top-level value is complete.
    Closed,
    /// The top-level value.
    Value,
    /// The first element of an array, or its end.
    ArrayOpen,
    /// The first key of a map, or its end.
    ObjectOpen,
    /// The colon after a key.
    Colon,
    /// A comma, or the end of the innermost container.
    Comma,
}

/// The kind of an open container.
#[derive(Debug, Clone, Copy, PartialEq, Eq, Structural)]
pub enum Container {
    Object,
    Array,
}

/// The state machine as a value: what is expected next, and the open
/// containers from the outermost to the innermost.
pub struct Machine {
    pub state: State,
    pub stack: Seq<Container>,
}

impl Machine {
    /// The machine before the first lexeme.
    pub open spec fn start() -> Machine {
        Machine { state: State::Value, stack: Seq::empty() }
    }

    /// The state fits the stack: the stack is empty before and after the
    /// top-level value and nowhere else, an open container is of the kind
    /// that the state speaks of, and a colon is expected only in a map.
    pub open spec fn wf(self) -> bool {
        match self.state {
            State::Closed | State::Value => self.stack.len() == 0,
            State::ArrayOpen => self.stack.len() > 0 && self.stack.last() == Container::Array,
            State::ObjectOpen | State::Colon => self.stack.len() > 0 && self.stack.last()
                == Container::Object,
            State::Comma => self.stack.len() > 0,
        }
    }

    /// The state after a value: closed at the top level, else waiting for a
    /// comma or the container's end.
    pub open spec fn settle(stack: Seq<Container>) -> Machine {
        Machine { state: if stack.len() == 0 { State::Closed } else { State::Comma }, stack }
    }

    /// Takes a lexeme where a value must start.
    pub open spec fn process_value(self, token: Token) -> Result<(EventView, Machine), Error> {
        match token {
            Token::OBracket => Ok(
                (
                    EventView::StartArray,
                    Machine { state: State::ArrayOpen, stack: self.stack.push(Container::Array) },
                ),
            ),
            Token::OBrace => Ok(
                (
                    EventView::StartMap,
                    Machine { state: State::ObjectOpen, stack: self.stack.push(Container::Object) },
                ),
            ),
            Token::String(s) => Ok((EventView::String(s), Machine::settle(self.stack))),
            Token::Number(n) => Ok((EventView::Number(n), Machine::settle(self.stack))),
            Token::Null => Ok((EventView::Null, Machine::settle(self.stack))),
            Token::Boolean(b) => Ok((EventView::Boolean(b), Machine::settle(self.stack))),
            _ => Err(Error::Unexpected),
        }
    }

    /// Takes the closing lexeme of a container of the kind `expected`.
    pub open spec fn process_closing(self, expected: Container) -> Result<
        (EventView, Machine),
        Error,
    > {
        if self.stack.len() > 0 && self.stack.last() == expected {
            Ok(
                (
                    match expected {
                        Container::Array => EventView::EndArray,
                        Container::Object => EventView::EndMap,
                    },
                    Machine::settle(self.stack.drop_last()),
                ),
            )
        } else {
            Err(Error::Unmatched)
        }
    }

    /// Takes a lexeme where a key must stand.
    pub open spec fn process_key(self, token: Token) -> Result<(EventView, Machine), Error> {
        match token {
            Token::String(s) => Ok(
                (EventView::Key(s), Machine { state: State::Colon, stack: self.stack }),
            ),
            _ => Err(Error::Unexpected),
        }
    }

    /// Takes the lexeme that follows a comma: a value in an array, a key in
    /// a map.
    pub open spec fn process_next(self, token: Token) -> Result<(EventView, Machine), Error> {
        if self.stack.len() > 0 && self.stack.last() == Container::Array {
            self.process_value(token)
        } else if self.stack.len() > 0 {
            self.process_key(token)
        } else {
            Err(Error::Unexpected)
        }
    }
}

/// One step of the parser: the event, the machine after it, and how many
/// bytes were read.
pub struct Step {
    pub event: EventView,
    pub machine: Machine,
    pub end: int,
}

/// The lexeme that the grammar requires next: the end of the input is an
/// error here.
pub open spec fn required(s: Stream) -> Scan<Token> {
    match lex(s) {
        None => Err(Error::MoreLexemes),
        Some(r) => r,
    }
}

/// A step from what the grammar made of a lexeme that ended at `end`.
pub open spec fn step_of(r: Result<(EventView, Machine), Error>, end: int) -> Result<Step, Error> {
    match r {
        Ok((event, machine)) => Ok(Step { event, machine, end }),
        Err(e) => Err(e),
    }
}

/// What the parser yields next, with the machine `m` and the input `s`:
/// `None` at the clean end of the stream, an error that ends it, or an
/// event with the machine and the position after it.
pub open spec fn parse(m: Machine, s: Stream) -> Option<Result<Step, Error>> {
    match m.state {
        State::Closed => match lex(s) {
            None => None,
            Some(Err(Error::IO(code))) => Some(Err(Error::IO(code))),
            Some(_) => Some(Err(Error::AdditionalData)),
        },
        State::Value => Some(
            match required(s) {
                Err(e) => Err(e),
                Ok((token, end)) => step_of(m.process_value(token), end),
            },
        ),
        State::ArrayOpen => Some(
            match required(s) {
                Err(e) => Err(e),
                Ok((token, end)) => match token {
                    Token::CBracket => step_of(m.process_closing(Container::Array), end),
                    _ => step_of(m.process_value(token), end),
                },
            },
        ),
        State::ObjectOpen => Some(
            match required(s) {
                Err(e) => Err(e),
                Ok((token, end)) => match token {
                    Token::CBrace => step_of(m.process_closing(Container::Object), end),
                    _ => step_of(m.process_key(token), end),
                },
            },
        ),
        State::Colon => Some(
            match required(s) {
                Err(e) => Err(e),
                Ok((token, mid)) => match token {
                    Token::Colon => match required(s.skip(mid)) {
                        Err(e) => Err(e),
                        Ok((value, end)) => step_of(m.process_value(value), mid + end),
                    },
                    _ => Err(Error::Unexpected),
                },
            },
        ),
        State::Comma => Some(
            match required(s) {
                Err(e) => Err(e),
                Ok((token, mid)) => match token {
                    Token::Comma => match required(s.skip(mid)) {
                        Err(e) => Err(e),
                        Ok((next, end)) => step_of(m.process_next(next), mid + end),
                    },
                    Token::CBracket => step_of(m.process_closing(Container::Array), mid),
                    Token::CBrace => step_of(m.process_closing(Container::Object), mid),
                    _ => Err(Error::Unexpected),
                },
            },
        ),
    }
}

/// Every step reads at least one byte and stays within the input.
pub proof fn lemma_parse_progress(m: Machine, s: Stream)
    ensures
        parse(m, s) matches Some(Ok(step)) ==> 0 < step.end <= s.bytes.len(),
{
    lemma_lex_progress(s);
    match lex(s) {
        Some(Ok((_, mid))) => {
            lemma_lex_progress(s.skip(mid));
        },
        _ => {},
    }
}

/// Every step keeps the state fitted to the stack.
pub proof fn lemma_parse_wf(m: Machine, s: Stream)
    requires
        m.wf(),
    ensures
        parse(m, s) matches Some(Ok(step)) ==> step.machine.wf(),
{
}

/// A step that is taken or refused before the stream stops is so in any
/// continuation of the stream.
pub proof fn lemma_parse_stable(m: Machine, short: Stream, long: Stream, code: i32)
    requires
        extends(short, long, code),
    ensures
        parse(m, short) is Some,
        starved(parse(m, short).unwrap(), code) || parse(m, long) == parse(m, short),
{
    lemma_lex_stable(short, long, code);
    lemma_lex_progress(short);
    match lex(short) {
        Some(Ok((_, mid))) => {
            lemma_extends_skip(short, long, code, mid);
            lemma_lex_stable(short.skip(mid), long.skip(mid), code);
        },
        _ => {},
    }
}

/// All that the parser yields from the machine `m` and the input `s`, up to
/// the end of the stream: the events in document order, and last the error,
/// if one ends the stream.
pub open spec fn events(m: Machine, s: Stream) -> Seq<Item>
    decreases s.bytes.len(),
{
    match parse(m, s) {
        None => Seq::empty(),
        Some(Err(e)) => seq![Err(e)],
        Some(Ok(step)) => if 0 < step.end <= s.bytes.len() {
            seq![Ok(step.event)] + events(step.machine, s.skip(step.end))
        } else {
            seq![Ok(step.event)]
        },
    }
}

/// What a parser yields next: nothing once it is done, else one step.
pub open spec fn parse_step(done: bool, m: Machine, s: Stream) -> Option<Result<Step, Error>> {
    if done {
        None
    } else {
        parse(m, s)
    }
}

/// The state machine of a parser: what is expected next, and the stack of
/// open containers.
pub struct ParserState {
    state: State,
    stack: Vec<Container>,
}

impl View for ParserState {
    type V = Machine;

    closed spec fn view(&self) -> Machine {
        Machine { state: self.state, stack: self.stack@ }
    }
}

impl ParserState {
    /// The machine before the first lexeme.
    pub fn new() -> (r: ParserState)
        ensures
            r@ == Machine::start(),
    {
        ParserState { state: State::Value, stack: Vec::new() }
    }

    /// The state after a value.
    fn settle(&mut self)
        ensures
            final(self)@ == Machine::settle(old(self)@.stack),
    {
        self.state = if self.stack.len() == 0 {
            State::Closed
        } else {
            State::Comma
        };
    }

    /// Takes a lexeme where a value must start: opens a container or hands
    /// on a scalar.
    fn process_value(&mut self, lexeme: Lexeme) -> (r: Result<Event, Error>)
        ensures
            match old(self)@.process_value(lexeme@) {
                Ok((event, machine)) => r matches Ok(e) && e@ == event && final(self)@ == machine,
                Err(e) => r matches Err(x) && x == e && final(self)@ == old(self)@,
            },
    {
        match lexeme {
            Lexeme::OBracket => {
                self.stack.push(Container::Array);
                self.state = State::ArrayOpen;
                Ok(Event::StartArray)
            },
            Lexeme::OBrace => {
                self.stack.push(Container::Object);
                self.state = State::ObjectOpen;
                Ok(Event::StartMap)
            },
            Lexeme::String(s) => {
                self.settle();
                Ok(Event::String(s))
            },
            Lexeme::Number(n) => {
                self.settle();
                Ok(Event::Number(n))
            },
            Lexeme::Null => {
                self.settle();
                Ok(Event::Null)
            },
            Lexeme::Boolean(b) => {
                self.settle();
                Ok(Event::Boolean(b))
            },
            _ => Err(Error::Unexpected),
        }
    }

    /// Takes the closing lexeme of a container: it must match the innermost
    /// open one, which leaves the stack either way.
    fn process_closing(&mut self, expected: Container) -> (r: Result<Event, Error>)
        ensures
            match old(self)@.process_closing(expected) {
                Ok((event, machine)) => r matches Ok(e) && e@ == event && final(self)@ == machine,
                Err(e) => {
                    &&& r matches Err(x) && x == e
                    &&& final(self)@.state == old(self)@.state
                    &&& final(self)@.stack == if old(self)@.stack.len() > 0 {
                        old(self)@.stack.drop_last()
                    } else {
                        old(self)@.stack
                    }
                },
            },
    {
        match self.stack.pop() {
            Some(value) => {
                if value == expected {
                    self.settle();
                    Ok(
                        match expected {
                            Container::Array => Event::EndArray,
                            Container::Object => Event::EndMap,
                        },
                    )
                } else {
                    Err(Error::Unmatched)
                }
            },
            None => Err(Error::Unmatched),
        }
    }

    /// Takes a lexeme where a key must stand. The colon is expected next
    /// and the stack is left alone, whatever the lexeme is.
    fn process_key(&mut self, lexeme: Lexeme) -> (r: Result<Event, Error>)
        ensures
            final(self)@ == (Machine { state: State::Colon, stack: old(self)@.stack }),
            match old(self)@.process_key(lexeme@) {
                Ok((event, machine)) => r matches Ok(e) && e@ == event && final(self)@ == machine,
                Err(e) => r matches Err(x) && x == e,
            },
    {
        self.state = State::Colon;
        match lexeme {
            Lexeme::String(s) => Ok(Event::Key(s)),
            _ => Err(Error::Unexpected),
        }
    }

    /// Takes the lexeme that follows a comma.
    fn process_next(&mut self, lexeme: Lexeme) -> (r: Result<Event, Error>)
        ensures
            match old(self)@.process_next(lexeme@) {
                Ok((event, machine)) => r matches Ok(e) && e@ == event && final(self)@ == machine,
                Err(e) => r matches Err(x) && x == e,
            },
    {
        let depth = self.stack.len();
        if depth == 0 {
            Err(Error::Unexpected)
        } else {
            match self.stack[depth - 1] {
                Container::Array => self.process_value(lexeme),
                Container::Object => self.process_key(lexeme),
            }
        }
    }
}

/// Turns the bytes of a source into events.
pub struct Parser<T: Source> {
    lexer: Lexer<T>,
    state: ParserState,
    done: bool,
}

impl<T: Source> Parser<T> {
    /// The parser is in order: its lexer is, and until it is done its lexer
    /// is not done either and its state fits its stack.
    pub closed spec fn wf(&self) -> bool {
        &&& self.lexer.wf()
        &&& !self.done ==> self.state@.wf() && !self.lexer.done()
    }

    /// The state machine.
    pub closed spec fn machine(&self) -> Machine {
        self.state@
    }

    /// The input not yet read.
    pub closed spec fn input(&self) -> Stream {
        self.lexer.input()
    }

    /// Whether the parser has reported the end of the stream or an error.
    pub closed spec fn done(&self) -> bool {
        self.done
    }

    /// Until it is done, the state of a parser fits its stack.
    pub proof fn lemma_shape(&self)
        requires
            self.wf(),
            !self.done(),
        ensures
            self.machine().wf(),
    {
    }

    /// A parser over `f` that reads through a buffer of the default size.
    pub fn new(f: T) -> (parser: Parser<T>)
        ensures
            parser.wf(),
            !parser.done(),
            parser.machine() == Machine::start(),
            parser.input() == f.stream(),
    {
        Parser { lexer: Lexer::new(f), state: ParserState::new(), done: false }
    }

    /// A parser over `f` that reads through a buffer of `capacity` bytes.
    /// What it yields does not depend on `capacity`.
    pub fn with_capacity(f: T, capacity: usize) -> (parser: Parser<T>)
        ensures
            parser.wf(),
            !parser.done(),
            parser.machine() == Machine::start(),
            parser.input() == f.stream(),
    {
        Parser { lexer: Lexer::with_capacity(f, capacity), state: ParserState::new(), done: false }
    }

    /// A parser over `f` that goes on from `state`.
    pub fn resume(f: T, state: ParserState) -> (parser: Parser<T>)
        requires
            state@.wf(),
        ensures
            parser.wf(),
            !parser.done(),
            parser.machine() == state@,
            parser.input() == f.stream(),
    {
        Parser { lexer: Lexer::new(f), state, done: false }
    }

    /// The state machine of the parser, to go on from later.
    pub fn into_state(self) -> (state: ParserState)
        ensures
            state@ == self.machine(),
    {
        self.state
    }

    /// One step of the grammar, without the bookkeeping of `done`.
    fn advance(&mut self) -> (r: Option<Result<Event, Error>>)
        requires
            old(self).wf(),
            !old(self).done(),
        ensures
            final(self).lexer.wf(),
            final(self).done == old(self).done,
            r matches Some(Err(Error::IO(_))) ==> final(self).machine() == old(self).machine(),
            match parse(old(self).machine(), old(self).input()) {
                None => r is None,
                Some(Err(e)) => r matches Some(Err(x)) && x == e,
                Some(Ok(step)) => {
                    &&& r matches Some(Ok(event))
                    &&& event@ == step.event
                    &&& !final(self).lexer.done()
                    &&& final(self).machine() == step.machine
                    &&& final(self).input() == old(self).input().skip(step.end)
                },
            },
    {
        let ghost origin = self.lexer.input();
        proof {
            lemma_lex_progress(origin);
        }
        match self.state.state {
            State::Closed => match self.lexer.next() {
                None => None,
                Some(Err(Error::IO(code))) => Some(Err(Error::IO(code))),
                Some(_) => Some(Err(Error::AdditionalData)),
            },
            State::Value => Some(
                match self.lexer.consume() {
                    Err(e) => Err(e),
                    Ok(lexeme) => self.state.process_value(lexeme),
                },
            ),
            State::ArrayOpen => Some(
                match self.lexer.consume() {
                    Err(e) => Err(e),
                    Ok(Lexeme::CBracket) => self.state.process_closing(Container::Array),
                    Ok(lexeme) => self.state.process_value(lexeme),
                },
            ),
            State::ObjectOpen => Some(
                match self.lexer.consume() {
                    Err(e) => Err(e),
                    Ok(Lexeme::CBrace) => self.state.process_closing(Container::Object),
                    Ok(lexeme) => self.state.process_key(lexeme),
                },
            ),
            State::Colon => Some(
                match self.lexer.consume() {
                    Err(e) => Err(e),
                    Ok(Lexeme::Colon) => {
                        let ghost mid = required(origin).unwrap().1;
                        proof {
                            lemma_lex_progress(origin.skip(mid));
                        }
                        match self.lexer.consume() {
                            Err(e) => Err(e),
                            Ok(lexeme) => {
                                proof {
                                    lemma_skip(origin, mid, required(origin.skip(mid)).unwrap().1);
                                }
                                self.state.process_value(lexeme)
                            },
                        }
                    },
                    Ok(_) => Err(Error::Unexpected),
                },
            ),
            State::Comma => Some(
                match self.lexer.consume() {
                    Err(e) => Err(e),
                    Ok(Lexeme::Comma) => {
                        let ghost mid = required(origin).unwrap().1;
                        proof {
                            lemma_lex_progress(origin.skip(mid));
                        }
                        match self.lexer.consume() {
                            Err(e) => Err(e),
                            Ok(lexeme) => {
                                proof {
                                    lemma_skip(origin, mid, required(origin.skip(mid)).unwrap().1);
                                }
                                self.state.process_next(lexeme)
                            },
                        }
                    },
                    Ok(Lexeme::CBracket) => self.state.process_closing(Container::Array),
                    Ok(Lexeme::CBrace) => self.state.process_closing(Container::Object),
                    Ok(_) => Err(Error::Unexpected),
                },
            ),
        }
    }

    /// The next event, `None` at the clean end of the stream. The first
    /// error is the last item: after it, and after the end, every further
    /// call returns `None`.
    pub fn next(&mut self) -> (r: Option<Result<Event, Error>>)
        requires
            old(self).wf(),
        ensures
            final(self).wf(),
            r matches Some(Err(Error::IO(_))) ==> final(self).machine() == old(self).machine(),
            match parse_step(old(self).done(), old(self).machine(), old(self).input()) {
                None => r is None && final(self).done(),
                Some(Err(e)) => r matches Some(Err(x)) && x == e && final(self).done(),
                Some(Ok(step)) => {
                    &&& r matches Some(Ok(event))
                    &&& event@ == step.event
                    &&& !final(self).done()
                    &&& final(self).machine() == step.machine
                    &&& final(self).input() == old(self).input().skip(step.end)
                },
            },
    {
        if self.done {
            return None;
        }
        proof {
            lemma_parse_wf(self.machine(), self.input());
        }
        let r = self.advance();
        match &r {
            Some(Ok(_)) => {},
            _ => {
                self.done = true;
            },
        }
        r
    }
}

impl Parser<SliceSource> {
    /// How many bytes of the input are unread, if the count fits `usize`.
    pub fn unread(&self) -> (n: Option<usize>)
        requires
            self.wf(),
        ensures
            n == if self.input().bytes.len() <= usize::MAX {
                Some(self.input().bytes.len() as usize)
            } else {
                None
            },
    {
        self.lexer.unread()
    }
}

impl<T: Source> EventIterator for Parser<T> {
    open spec fn wf(&self) -> bool {
        Parser::wf(self)
    }

    open spec fn upcoming(&self) -> Seq<Item> {
        if self.done() {
            Seq::empty()
        } else {
            events(self.machine(), self.input())
        }
    }

    fn next(&mut self) -> (r: Option<Result<Event, Error>>) {
        proof {
            lemma_parse_progress(self.machine(), self.input());
        }
        let r = Parser::next(self);
        proof {
            if r is Some {
                assert(self.upcoming() =~= old(self).upcoming().skip(1));
            }
        }
        r
    }
}

} // verus!
