//! The lexer: from a stream of bytes to lexemes.

use vstd::prelude::*;
use vstd::utf8::*;
use crate::ascii::{
    BACKSLASH, BACKSPACE, CARRIAGE_RETURN, CLOSE_BRACE, CLOSE_BRACKET, COLON, COMMA, FORM_FEED,
    LINE_FEED, LOWER_A, LOWER_E, LOWER_F, LOWER_L, LOWER_B, LOWER_N, LOWER_R, LOWER_S, LOWER_T,
    LOWER_U, MINUS, NINE, OPEN_BRACE, OPEN_BRACKET, PLUS, POINT, QUOTE, SLASH, SPACE, TAB,
    UPPER_A, UPPER_E, UPPER_F, ZERO,
};
use crate::errors::Error;
use crate::grammar::{
    blank, blank_end, digit, escape_end, hex_value, lemma_lex_progress, lemma_scan_digits_skip,
    lemma_scan_escape_skip, lemma_scan_exponent_skip, lemma_scan_hex_skip, lemma_scan_lexeme_skip,
    lemma_scan_mantissa_skip, lemma_scan_sign_skip, lex, lex_step, no_digits, scan_digits,
    scan_escape, take_digit,
    scan_exponent, scan_hex, scan_lexeme, scan_mantissa, scan_number, scan_sign, scan_string,
    scan_text, scan_unicode, scan_word, surrogate, word_false, word_null, word_true, Digits,
};
use crate::source::{lemma_skip, Peek, SliceSource, Source, Stream};

verus! {

/// The size of the read buffer that `Lexer::new` allocates.
pub const BUFSIZE: usize = 4096;

/// A number as it is read: `mantissa` times ten to the power `exponent`.
/// Up to eighteen digits are held exactly. Of a longer literal the leading
/// digits that fit `i64` are held and the rest is cut off, which changes the
/// value by less than one part in 10^17.
#[derive(Debug, Clone, Copy, PartialEq, Eq, Structural)]
pub struct Number {
    /// The digits of the integer and fraction parts that are held, with the
    /// sign.
    pub mantissa: i64,
    /// The written exponent, plus the integer digits that are cut off, less
    /// the fraction digits that are held; beyond `i64` it stops at the
    /// nearest end.
    pub exponent: i64,
}

/// The smallest unit of JSON text.
#[derive(Debug, Clone, PartialEq)]
pub enum Lexeme {
    /// A string literal, unescaped and validated.
    String(String),
    /// A number literal.
    Number(Number),
    /// `true` or `false`.
    Boolean(bool),
    /// `null`.
    Null,
    /// `{`
    OBrace,
    /// `}`
    CBrace,
    /// `[`
    OBracket,
    /// `]`
    CBracket,
    /// `,`
    Comma,
    /// `:`
    Colon,
}

/// The mathematical value of a `Lexeme`.
pub enum Token {
    String(Seq<char>),
    Number(Number),
    Boolean(bool),
    Null,
    OBrace,
    CBrace,
    OBracket,
    CBracket,
    Comma,
    Colon,
}

impl View for Lexeme {
    type V = Token;

    open spec fn view(&self) -> Token {
        match self {
            Lexeme::String(s) => Token::String(s@),
            Lexeme::Number(n) => Token::Number(*n),
            Lexeme::Boolean(b) => Token::Boolean(*b),
            Lexeme::Null => Token::Null,
            Lexeme::OBrace => Token::OBrace,
            Lexeme::CBrace => Token::CBrace,
            Lexeme::OBracket => Token::OBracket,
            Lexeme::CBracket => Token::CBracket,
            Lexeme::Comma => Token::Comma,
            Lexeme::Colon => Token::Colon,
        }
    }
}

/// Whether a byte is a blank.
pub fn is_whitespace(value: u8) -> (r: bool)
    ensures
        r == blank(value),
{
    value == TAB || value == LINE_FEED || value == CARRIAGE_RETURN || value == SPACE
}

/// How `ensure_buffer` found the read buffer.
enum Buffer {
    /// Unread bytes were buffered already.
    Within,
    /// The buffer was empty and has been refilled.
    Reset,
    /// The buffer is empty and the source has ended.
    Empty,
}

/// Turns the bytes of a source into lexemes, reading through a buffer of
/// fixed size.
pub struct Lexer<T: Source> {
    buf: Vec<u8>,
    len: usize,
    pos: usize,
    f: T,
    done: bool,
}

impl<T: Source> Lexer<T> {
    /// The read buffer is in order: it has room, and the cursor lies within
    /// what was read.
    pub closed spec fn wf(&self) -> bool {
        &&& self.buf.len() > 0
        &&& self.pos <= self.len <= self.buf.len()
    }

    /// The input not yet consumed: what is buffered, then what the source
    /// still holds.
    pub closed spec fn input(&self) -> Stream {
        Stream {
            bytes: self.buf@.subrange(self.pos as int, self.len as int) + self.f.stream().bytes,
            fault: self.f.stream().fault,
        }
    }

    /// Whether the lexer has reported the end of its input or an error.
    pub closed spec fn done(&self) -> bool {
        self.done
    }

    /// The size of the read buffer, which never changes.
    pub closed spec fn capacity(&self) -> nat {
        self.buf.len() as nat
    }

    /// The unread bytes that the lexer holds in its buffer.
    pub closed spec fn buffered(&self) -> Seq<u8> {
        self.buf@.subrange(self.pos as int, self.len as int)
    }

    /// The source that the lexer reads from.
    pub closed spec fn source(&self) -> T {
        self.f
    }

    /// The lexer never holds more of its input than its buffer takes: what
    /// is unread beyond that is still with the source.
    pub proof fn lemma_buffered(&self)
        requires
            self.wf(),
        ensures
            self.buffered().len() <= self.capacity(),
            self.input().bytes == self.buffered() + self.source().stream().bytes,
            self.input().fault == self.source().stream().fault,
    {
    }

    /// Whether a byte is buffered.
    spec fn ready(&self) -> bool {
        self.pos < self.len
    }

    /// A lexer over `f` with a read buffer of `BUFSIZE` bytes.
    pub fn new(f: T) -> (lexer: Lexer<T>)
        ensures
            lexer.wf(),
            lexer.input() == f.stream(),
            lexer.capacity() == BUFSIZE,
            !lexer.done(),
    {
        Lexer::with_capacity(f, BUFSIZE)
    }

    /// A lexer over `f` with a read buffer of `capacity` bytes, or of one
    /// byte if `capacity` is zero.
    pub fn with_capacity(f: T, capacity: usize) -> (lexer: Lexer<T>)
        ensures
            lexer.wf(),
            lexer.input() == f.stream(),
            lexer.capacity() == if capacity == 0 { 1 } else { capacity as nat },
            !lexer.done(),
    {
        let size: usize = if capacity == 0 { 1 } else { capacity };
        let mut buf: Vec<u8> = Vec::new();
        let mut i: usize = 0;
        while i < size
            invariant
                i <= size,
                buf.len() == i,
            decreases size - i,
        {
            buf.push(0);
            i += 1;
        }
        let lexer = Lexer { buf, len: 0, pos: 0, f, done: false };
        assert(lexer.input().bytes =~= f.stream().bytes);
        lexer
    }

    /// Makes sure that a byte is buffered. While one is, nothing is read and
    /// nothing changes; else the source is asked once, and what it delivers
    /// becomes the whole of the buffer.
    fn ensure_buffer(&mut self) -> (r: Result<Buffer, Error>)
        requires
            old(self).wf(),
        ensures
            final(self).wf(),
            final(self).input() == old(self).input(),
            final(self).done() == old(self).done(),
            final(self).capacity() == old(self).capacity(),
            r is Ok && !(r matches Ok(Buffer::Empty)) ==> final(self).ready(),
            old(self).ready() ==> (r matches Ok(Buffer::Within)) && *final(self) == *old(self),
            !old(self).ready() ==> match r {
                Ok(Buffer::Within) => false,
                Ok(Buffer::Reset) => {
                    &&& final(self).pos == 0
                    &&& final(self).len > 0
                    &&& final(self).buffered() == old(self).f.stream().bytes.take(
                        final(self).len as int,
                    )
                    &&& final(self).f.stream() == old(self).f.stream().skip(final(self).len as int)
                },
                Ok(Buffer::Empty) => {
                    &&& final(self).pos == 0
                    &&& final(self).len == 0
                    &&& final(self).f.stream() == old(self).f.stream()
                    &&& old(self).input().at(0) == Peek::End
                },
                Err(e) => {
                    &&& final(self).pos == old(self).pos
                    &&& final(self).len == old(self).len
                    &&& final(self).f.stream() == old(self).f.stream()
                    &&& exists|code: i32|
                        e == Error::IO(code) && old(self).input().at(0) == Peek::Fault(code)
                },
            },
    {
        if self.pos < self.len {
            Ok(Buffer::Within)
        } else {
            let ghost before = self.f.stream();
            assert(self.input().bytes =~= before.bytes);
            match self.f.fill(&mut self.buf) {
                Ok(size) => {
                    self.pos = 0;
                    self.len = size;
                    assert(self.input().bytes =~= before.bytes) by {
                        assert(self.buf@.subrange(0, size as int) =~= self.buf@.take(size as int));
                        assert(before.bytes =~= before.bytes.take(size as int) + before.bytes.skip(
                            size as int,
                        ));
                    }
                    Ok(if size > 0 { Buffer::Reset } else { Buffer::Empty })
                },
                Err(code) => {
                    assert(self.input().bytes =~= before.bytes);
                    Err(Error::IO(code))
                },
            }
        }
    }

    /// Looks at the next byte of the input without consuming it.
    fn peek(&mut self) -> (r: Result<Option<u8>, Error>)
        requires
            old(self).wf(),
        ensures
            final(self).wf(),
            final(self).input() == old(self).input(),
            final(self).done() == old(self).done(),
            final(self).capacity() == old(self).capacity(),
            match old(self).input().at(0) {
                Peek::Byte(b) => r == Ok::<Option<u8>, Error>(Some(b)) && final(self).ready(),
                Peek::End => r == Ok::<Option<u8>, Error>(None),
                Peek::Fault(code) => r == Err::<Option<u8>, Error>(Error::IO(code)),
            },
    {
        match self.ensure_buffer()? {
            Buffer::Empty => Ok(None),
            _ => Ok(Some(self.buf[self.pos])),
        }
    }

    /// Consumes the byte that `peek` has shown.
    fn advance(&mut self)
        requires
            old(self).wf(),
            old(self).ready(),
        ensures
            final(self).wf(),
            final(self).input() == old(self).input().skip(1),
            final(self).done() == old(self).done(),
            final(self).capacity() == old(self).capacity(),
    {
        self.pos += 1;
        assert(self.input().bytes =~= old(self).input().bytes.skip(1));
    }

    /// Reads the four hexadecimal digits of a `\u` escape.
    pub fn hexdecode(&mut self) -> (r: Result<u32, Error>)
        requires
            old(self).wf(),
        ensures
            final(self).wf(),
            final(self).done() == old(self).done(),
            final(self).capacity() == old(self).capacity(),
            match scan_unicode(old(self).input(), 0) {
                Ok(v) => {
                    &&& r == Ok::<u32, Error>(v)
                    &&& v <= 0xFFFF
                    &&& !surrogate(v as int)
                    &&& 4 <= old(self).input().bytes.len()
                    &&& final(self).input() == old(self).input().skip(4)
                },
                Err(e) => r == Err::<u32, Error>(e),
            },
    {
        let ghost origin = self.input();
        let mut value: u32 = 0;
        let mut k: usize = 0;
        proof {
            lemma_skip(origin, 0, 0);
        }
        while k < 4
            invariant
                self.wf(),
                self.done() == old(self).done(),
                self.capacity() == old(self).capacity(),
                origin == old(self).input(),
                k <= 4,
                k <= origin.bytes.len(),
                self.input() == origin.skip(k as int),
                k == 0 ==> value == 0,
                k == 1 ==> value <= 0xF,
                k == 2 ==> value <= 0xFF,
                k == 3 ==> value <= 0xFFF,
                value <= 0xFFFF,
                scan_hex(origin, 0, 4, 0) == scan_hex(
                    origin,
                    k as int,
                    (4 - k) as nat,
                    value as int,
                ),
            decreases 4 - k,
        {
            proof {
                lemma_skip(origin, k as int, 0);
            }
            match self.peek()? {
                None => {
                    return Err(Error::Escape(None));
                },
                Some(b) => match hex_digit(b) {
                    None => {
                        return Err(Error::Escape(None));
                    },
                    Some(d) => {
                        value = value * 16 + d;
                        self.advance();
                        proof {
                            lemma_skip(origin, k as int, 1);
                        }
                        k += 1;
                    },
                },
            }
        }
        if 0xD800 <= value && value <= 0xDFFF {
            Err(Error::Escape(None))
        } else {
            Ok(value)
        }
    }

    /// Reads an escape sequence, from its backslash on, and returns the
    /// scalar value that it denotes.
    fn parse_escape(&mut self) -> (r: Result<u32, Error>)
        requires
            old(self).wf(),
            old(self).ready(),
        ensures
            final(self).wf(),
            final(self).done() == old(self).done(),
            final(self).capacity() == old(self).capacity(),
            match scan_escape(old(self).input(), 1) {
                Ok(v) => {
                    &&& r == Ok::<u32, Error>(v)
                    &&& v <= 0xFFFF
                    &&& !surrogate(v as int)
                    &&& 1 < escape_end(old(self).input(), 1) <= old(self).input().bytes.len()
                    &&& final(self).input() == old(self).input().skip(
                        escape_end(old(self).input(), 1),
                    )
                },
                Err(e) => r == Err::<u32, Error>(e),
            },
    {
        let ghost origin = self.input();
        self.advance();
        proof {
            lemma_skip(origin, 0, 1);
            lemma_skip(origin, 1, 0);
        }
        let escape: u8 = match self.peek()? {
            None => {
                return Err(Error::Escape(None));
            },
            Some(b) => b,
        };
        self.advance();
        proof {
            lemma_skip(origin, 1, 1);
            lemma_skip(origin, 2, 0);
        }
        if escape == LOWER_U {
            proof {
                lemma_scan_hex_skip(origin, 2, 0, 4, 0);
            }
            let value = self.hexdecode()?;
            proof {
                lemma_skip(origin, 2, 4);
            }
            Ok(value)
        } else if escape == LOWER_B {
            Ok(BACKSPACE as u32)
        } else if escape == LOWER_F {
            Ok(FORM_FEED as u32)
        } else if escape == LOWER_N {
            Ok(LINE_FEED as u32)
        } else if escape == LOWER_R {
            Ok(CARRIAGE_RETURN as u32)
        } else if escape == LOWER_T {
            Ok(TAB as u32)
        } else if escape == QUOTE || escape == BACKSLASH || escape == SLASH {
            Ok(escape as u32)
        } else {
            Err(Error::Escape(Some(escape)))
        }
    }

    /// Reads a string literal, from its opening quote on, and returns its
    /// text. The text is always copied out of the read buffer.
    fn consume_string(&mut self) -> (r: Result<String, Error>)
        requires
            old(self).wf(),
            old(self).ready(),
        ensures
            final(self).wf(),
            final(self).done() == old(self).done(),
            final(self).capacity() == old(self).capacity(),
            match scan_text(old(self).input(), 1) {
                Ok((text, end)) => {
                    &&& r matches Ok(s)
                    &&& s@ == text
                    &&& 0 <= end <= old(self).input().bytes.len()
                    &&& final(self).input() == old(self).input().skip(end)
                },
                Err(e) => r matches Err(x) && x == e,
            },
    {
        let ghost origin = self.input();
        let ghost mut i: int = 1;
        let mut tmp: Vec<u8> = Vec::new();
        self.advance();
        proof {
            lemma_skip(origin, 0, 1);
        }
        loop
            invariant_except_break
                scan_string(origin, 1, Seq::empty()) == scan_string(origin, i, tmp@),
            invariant
                self.wf(),
                self.done() == old(self).done(),
                self.capacity() == old(self).capacity(),
                origin == old(self).input(),
                1 <= i <= origin.bytes.len(),
                self.input() == origin.skip(i),
            ensures
                self.wf(),
                self.done() == old(self).done(),
                self.capacity() == old(self).capacity(),
                1 <= i <= origin.bytes.len(),
                self.input() == origin.skip(i),
                scan_string(origin, 1, Seq::empty()) == Ok::<(Seq<u8>, int), Error>((tmp@, i)),
            decreases origin.bytes.len() - i,
        {
            proof {
                lemma_skip(origin, i, 0);
            }
            match self.peek()? {
                None => {
                    return Err(Error::Unterminated);
                },
                Some(b) => {
                    if b == QUOTE {
                        self.advance();
                        proof {
                            lemma_skip(origin, i, 1);
                            i = i + 1;
                        }
                        break ;
                    } else if b == BACKSLASH {
                        let ghost here = self.input();
                        proof {
                            lemma_scan_escape_skip(origin, i, 1);
                        }
                        let scalar = self.parse_escape()?;
                        proof {
                            lemma_skip(origin, i, escape_end(here, 1));
                            i = i + escape_end(here, 1);
                        }
                        push_scalar(&mut tmp, scalar);
                    } else {
                        self.advance();
                        tmp.push(b);
                        proof {
                            lemma_skip(origin, i, 1);
                            i = i + 1;
                        }
                    }
                },
            }
        }
        match String::from_utf8(tmp) {
            Ok(text) => Ok(text),
            Err(_) => Err(Error::Utf8),
        }
    }

    /// Matches the bytes of a keyword against the input.
    pub fn check_word(&mut self, expected: &[u8]) -> (r: Result<(), Error>)
        requires
            old(self).wf(),
        ensures
            final(self).wf(),
            final(self).done() == old(self).done(),
            final(self).capacity() == old(self).capacity(),
            match scan_word(old(self).input(), 0, expected@, 0) {
                Ok(end) => {
                    &&& r is Ok
                    &&& 0 <= end <= old(self).input().bytes.len()
                    &&& final(self).input() == old(self).input().skip(end)
                },
                Err(e) => r == Err::<(), Error>(e),
            },
    {
        let ghost origin = self.input();
        let mut k: usize = 0;
        proof {
            lemma_skip(origin, 0, 0);
        }
        while k < expected.len()
            invariant
                self.wf(),
                self.done() == old(self).done(),
                self.capacity() == old(self).capacity(),
                origin == old(self).input(),
                k <= expected.len(),
                k <= origin.bytes.len(),
                self.input() == origin.skip(k as int),
                scan_word(origin, 0, expected@, 0) == scan_word(
                    origin,
                    k as int,
                    expected@,
                    k as int,
                ),
            decreases expected.len() - k,
        {
            proof {
                lemma_skip(origin, k as int, 0);
            }
            match self.peek()? {
                None => {
                    return Err(Error::Unknown(None));
                },
                Some(b) => {
                    if b != expected[k] {
                        return Err(Error::Unknown(Some(b)));
                    }
                    self.advance();
                    proof {
                        lemma_skip(origin, k as int, 1);
                    }
                    k += 1;
                },
            }
        }
        Ok(())
    }

    /// Reads an optional sign and says whether the number is positive.
    fn consume_sign(&mut self) -> (r: Result<bool, Error>)
        requires
            old(self).wf(),
        ensures
            final(self).wf(),
            final(self).done() == old(self).done(),
            final(self).capacity() == old(self).capacity(),
            match scan_sign(old(self).input(), 0) {
                Ok((negative, end)) => {
                    &&& r == Ok::<bool, Error>(!negative)
                    &&& 0 <= end <= old(self).input().bytes.len()
                    &&& final(self).input() == old(self).input().skip(end)
                },
                Err(e) => r == Err::<bool, Error>(e),
            },
    {
        proof {
            lemma_skip(self.input(), 0, 0);
        }
        match self.peek()? {
            Some(MINUS) => {
                self.advance();
                Ok(false)
            },
            Some(PLUS) => {
                self.advance();
                Ok(true)
            },
            _ => Ok(true),
        }
    }

    /// Reads a run of digits and appends them to `acc`. Digits are kept while
    /// the value fits; from the first that does not fit on they are left
    /// out and counted in `dropped`, which comes in with what was left out
    /// before. Returns how many digits were kept.
    fn consume_int(&mut self, acc: &mut i64, dropped: &mut i64, Ghost(d): Ghost<Digits>) -> (r:
        Result<i64, Error>)
        requires
            old(self).wf(),
            0 <= *old(acc) == d.value,
            0 <= *old(dropped) == d.dropped,
            d.kept == 0,
        ensures
            final(self).wf(),
            final(self).done() == old(self).done(),
            final(self).capacity() == old(self).capacity(),
            match scan_digits(old(self).input(), 0, d) {
                Ok(run) => {
                    &&& r == Ok::<i64, Error>(run.kept as i64)
                    &&& 0 <= run.kept <= i64::MAX
                    &&& *final(acc) == run.value
                    &&& *final(dropped) == run.dropped
                    &&& 0 <= run.value
                    &&& 0 <= run.dropped
                    &&& 0 <= run.end <= old(self).input().bytes.len()
                    &&& !(old(self).input().at(run.end) is Fault)
                    &&& final(self).input() == old(self).input().skip(run.end)
                },
                Err(e) => r == Err::<i64, Error>(e),
            },
    {
        let ghost origin = self.input();
        let ghost mut i: int = 0;
        let ghost mut run = d;
        let mut kept: i64 = 0;
        proof {
            lemma_skip(origin, 0, 0);
        }
        loop
            invariant_except_break
                scan_digits(origin, 0, d) == scan_digits(origin, i, run),
            invariant
                self.wf(),
                self.done() == old(self).done(),
                self.capacity() == old(self).capacity(),
                origin == old(self).input(),
                0 <= i <= origin.bytes.len(),
                self.input() == origin.skip(i),
                0 <= *acc == run.value,
                0 <= kept == run.kept,
                0 <= *dropped == run.dropped,
            ensures
                scan_digits(origin, 0, d) == Ok::<Digits, Error>(Digits { end: i, ..run }),
                !(origin.at(i) is Fault),
            decreases origin.bytes.len() - i,
        {
            proof {
                lemma_skip(origin, i, 0);
            }
            match self.peek()? {
                None => {
                    break ;
                },
                Some(byte) => {
                    if !(ZERO <= byte && byte <= NINE) {
                        break ;
                    }
                    let mut fits = false;
                    if *dropped == 0 {
                        match acc.checked_mul(10) {
                            None => {},
                            Some(tens) => match tens.checked_add((byte - ZERO) as i64) {
                                None => {},
                                Some(v) => {
                                    *acc = v;
                                    fits = true;
                                },
                            },
                        }
                    }
                    if fits {
                        if kept < i64::MAX {
                            kept += 1;
                        }
                    } else if *dropped < i64::MAX {
                        *dropped += 1;
                    }
                    self.advance();
                    proof {
                        lemma_skip(origin, i, 1);
                        i = i + 1;
                        run = take_digit(run, byte);
                    }
                },
            }
        }
        Ok(kept)
    }

    /// Reads the digits of a number: integer digits, then an optional point
    /// with fraction digits. Returns the value that is kept of the digits
    /// and by how many places it is shifted: the integer digits left out less
    /// the fraction digits kept.
    fn consume_mantissa(&mut self) -> (r: Result<(i64, i64), Error>)
        requires
            old(self).wf(),
        ensures
            final(self).wf(),
            final(self).done() == old(self).done(),
            final(self).capacity() == old(self).capacity(),
            match scan_mantissa(old(self).input(), 0) {
                Ok(m) => {
                    &&& r == Ok::<(i64, i64), Error>((m.value as i64, m.shift as i64))
                    &&& 0 <= m.value <= i64::MAX
                    &&& -i64::MAX <= m.shift <= i64::MAX
                    &&& 0 <= m.end <= old(self).input().bytes.len()
                    &&& !(old(self).input().at(m.end) is Fault)
                    &&& final(self).input() == old(self).input().skip(m.end)
                },
                Err(e) => r == Err::<(i64, i64), Error>(e),
            },
    {
        let ghost origin = self.input();
        let mut value: i64 = 0;
        let mut dropped: i64 = 0;
        let whole = self.consume_int(&mut value, &mut dropped, Ghost(no_digits(0)))?;
        let ghost first = scan_digits(origin, 0, no_digits(0)).unwrap();
        let ghost mid = first.end;
        proof {
            lemma_skip(origin, mid, 0);
        }
        match self.peek()? {
            Some(POINT) => {
                self.advance();
                let ghost from = Digits { kept: 0, end: -1, ..first };
                proof {
                    lemma_skip(origin, mid, 1);
                    lemma_scan_digits_skip(origin, mid + 1, 0, from, Digits { kept: 0, ..first });
                }
                let before = dropped;
                let fraction = self.consume_int(&mut value, &mut dropped, Ghost(from))?;
                proof {
                    let all = scan_digits(origin, mid + 1, Digits { kept: 0, ..first }).unwrap();
                    lemma_skip(origin, mid + 1, all.end - mid - 1);
                }
                Ok((value, before - fraction))
            },
            _ => {
                if whole == 0 && dropped == 0 {
                    Err(Error::Unknown(None))
                } else {
                    Ok((value, dropped))
                }
            },
        }
    }

    /// Reads a number literal. No literal is too long: digits that do not
    /// fit are left out and counted into the exponent, and an exponent
    /// beyond `i64` is taken as the nearest end of it.
    pub fn consume_number(&mut self) -> (r: Result<Number, Error>)
        requires
            old(self).wf(),
        ensures
            final(self).wf(),
            final(self).done() == old(self).done(),
            final(self).capacity() == old(self).capacity(),
            match scan_number(old(self).input(), 0) {
                Ok((n, end)) => {
                    &&& r == Ok::<Number, Error>(n)
                    &&& 0 <= end <= old(self).input().bytes.len()
                    &&& final(self).input() == old(self).input().skip(end)
                },
                Err(e) => r == Err::<Number, Error>(e),
            },
    {
        let ghost origin = self.input();
        let sign = self.consume_sign()?;
        let ghost start = scan_sign(origin, 0).unwrap().1;
        proof {
            lemma_scan_mantissa_skip(origin, start, 0);
        }
        let (mantissa, shift) = self.consume_mantissa()?;
        let ghost mid = scan_mantissa(origin, start).unwrap().end;
        proof {
            lemma_skip(origin, start, mid - start);
            lemma_scan_exponent_skip(origin, mid, 0);
        }
        let power = self.consume_exponent()?;
        proof {
            let end = scan_exponent(origin, mid).unwrap().1;
            lemma_skip(origin, mid, end - mid);
        }
        let exponent = match power.checked_add(shift) {
            Some(v) => v,
            None => if power > 0 {
                i64::MAX
            } else {
                i64::MIN
            },
        };
        Ok(Number { mantissa: if sign { mantissa } else { -mantissa }, exponent })
    }

    /// Reads an optional exponent part and returns the power of ten that it
    /// names.
    fn consume_exponent(&mut self) -> (r: Result<i64, Error>)
        requires
            old(self).wf(),
            !(old(self).input().at(0) is Fault),
        ensures
            final(self).wf(),
            final(self).done() == old(self).done(),
            final(self).capacity() == old(self).capacity(),
            match scan_exponent(old(self).input(), 0) {
                Ok((power, end)) => {
                    &&& r == Ok::<i64, Error>(power as i64)
                    &&& -i64::MAX <= power <= i64::MAX
                    &&& 0 <= end <= old(self).input().bytes.len()
                    &&& final(self).input() == old(self).input().skip(end)
                },
                Err(e) => r == Err::<i64, Error>(e),
            },
    {
        let ghost origin = self.input();
        proof {
            lemma_skip(origin, 0, 0);
        }
        match self.peek()? {
            Some(LOWER_E) | Some(UPPER_E) => {
                self.advance();
                proof {
                    lemma_scan_sign_skip(origin, 1, 0);
                }
                let sign = self.consume_sign()?;
                let ghost start = scan_sign(origin, 1).unwrap().1;
                proof {
                    lemma_skip(origin, 1, start - 1);
                    lemma_scan_digits_skip(origin, start, 0, no_digits(0), no_digits(start));
                }
                let mut offset: i64 = 0;
                let mut dropped: i64 = 0;
                let kept = self.consume_int(&mut offset, &mut dropped, Ghost(no_digits(0)))?;
                if kept == 0 && dropped == 0 {
                    return Err(Error::Unknown(None));
                }
                proof {
                    let end = scan_digits(origin, start, no_digits(start)).unwrap().end;
                    lemma_skip(origin, start, end - start);
                }
                let power = if dropped > 0 {
                    i64::MAX
                } else {
                    offset
                };
                Ok(if sign { power } else { -power })
            },
            _ => Ok(0),
        }
    }

    /// Reads the keyword `word`, which stands for `lexeme`.
    fn consume_word(&mut self, word: &[u8], lexeme: Lexeme) -> (r: Result<Lexeme, Error>)
        requires
            old(self).wf(),
        ensures
            final(self).wf(),
            final(self).done() == old(self).done(),
            final(self).capacity() == old(self).capacity(),
            match scan_word(old(self).input(), 0, word@, 0) {
                Ok(end) => {
                    &&& r == Ok::<Lexeme, Error>(lexeme)
                    &&& 0 <= end <= old(self).input().bytes.len()
                    &&& final(self).input() == old(self).input().skip(end)
                },
                Err(e) => r matches Err(x) && x == e,
            },
    {
        match self.check_word(word) {
            Ok(()) => Ok(lexeme),
            Err(e) => Err(e),
        }
    }

    /// Skips blanks and reads one lexeme.
    fn scan(&mut self) -> (r: Option<Result<Lexeme, Error>>)
        requires
            old(self).wf(),
        ensures
            final(self).wf(),
            final(self).done() == old(self).done(),
            final(self).capacity() == old(self).capacity(),
            match lex(old(self).input()) {
                None => r is None,
                Some(Err(e)) => r matches Some(Err(x)) && x == e,
                Some(Ok((token, end))) => {
                    &&& r matches Some(Ok(l))
                    &&& l@ == token
                    &&& 0 < end <= old(self).input().bytes.len()
                    &&& final(self).input() == old(self).input().skip(end)
                },
            },
    {
        let ghost origin = self.input();
        let ghost mut i: int = 0;
        let mut first: u8 = 0;
        proof {
            lemma_skip(origin, 0, 0);
        }
        loop
            invariant_except_break
                blank_end(origin.bytes, 0) == blank_end(origin.bytes, i),
            invariant
                self.wf(),
                self.done() == old(self).done(),
                self.capacity() == old(self).capacity(),
                origin == old(self).input(),
                0 <= i <= origin.bytes.len(),
                self.input() == origin.skip(i),
            ensures
                i == blank_end(origin.bytes, 0),
                i < origin.bytes.len(),
                first == origin.bytes[i],
                self.ready(),
            decreases origin.bytes.len() - i,
        {
            proof {
                lemma_skip(origin, i, 0);
            }
            match self.peek() {
                Err(e) => {
                    return Some(Err(e));
                },
                Ok(None) => {
                    return None;
                },
                Ok(Some(b)) => {
                    if !is_whitespace(b) {
                        first = b;
                        break ;
                    }
                    self.advance();
                    proof {
                        lemma_skip(origin, i, 1);
                        i = i + 1;
                    }
                },
            }
        }
        let ghost here = self.input();
        proof {
            lemma_scan_lexeme_skip(origin, i, 0, first);
        }
        let lexeme = if first == QUOTE {
            match self.consume_string() {
                Ok(text) => Ok(Lexeme::String(text)),
                Err(e) => Err(e),
            }
        } else if first == LOWER_T {
            let word: [u8; 4] = [LOWER_T, LOWER_R, LOWER_U, LOWER_E];
            assert(word@ =~= word_true());
            self.consume_word(word.as_slice(), Lexeme::Boolean(true))
        } else if first == LOWER_F {
            let word: [u8; 5] = [LOWER_F, LOWER_A, LOWER_L, LOWER_S, LOWER_E];
            assert(word@ =~= word_false());
            self.consume_word(word.as_slice(), Lexeme::Boolean(false))
        } else if first == LOWER_N {
            let word: [u8; 4] = [LOWER_N, LOWER_U, LOWER_L, LOWER_L];
            assert(word@ =~= word_null());
            self.consume_word(word.as_slice(), Lexeme::Null)
        } else if first == PLUS || first == MINUS || first == POINT || (ZERO <= first && first
            <= NINE) {
            match self.consume_number() {
                Ok(n) => Ok(Lexeme::Number(n)),
                Err(e) => Err(e),
            }
        } else {
            self.advance();
            if first == OPEN_BRACE {
                Ok(Lexeme::OBrace)
            } else if first == CLOSE_BRACE {
                Ok(Lexeme::CBrace)
            } else if first == OPEN_BRACKET {
                Ok(Lexeme::OBracket)
            } else if first == CLOSE_BRACKET {
                Ok(Lexeme::CBracket)
            } else if first == COMMA {
                Ok(Lexeme::Comma)
            } else if first == COLON {
                Ok(Lexeme::Colon)
            } else {
                Err(Error::Unknown(Some(first)))
            }
        };
        proof {
            lemma_lex_progress(origin);
            if scan_lexeme(here, 0, first) is Ok {
                let end = scan_lexeme(here, 0, first).unwrap().1;
                lemma_skip(origin, i, end);
            }
        }
        Some(lexeme)
    }

    /// The next lexeme of the input, `None` at its clean end. After the end
    /// or an error every further call returns `None`.
    pub fn next(&mut self) -> (r: Option<Result<Lexeme, Error>>)
        requires
            old(self).wf(),
        ensures
            final(self).wf(),
            final(self).capacity() == old(self).capacity(),
            match lex_step(old(self).done(), old(self).input()) {
                None => r is None && final(self).done(),
                Some(Err(e)) => r matches Some(Err(x)) && x == e && final(self).done(),
                Some(Ok((token, end))) => {
                    &&& r matches Some(Ok(l))
                    &&& l@ == token
                    &&& !final(self).done()
                    &&& 0 < end <= old(self).input().bytes.len()
                    &&& final(self).input() == old(self).input().skip(end)
                },
            },
    {
        if self.done {
            return None;
        }
        let r = self.scan();
        match &r {
            Some(Ok(_)) => {},
            _ => {
                self.done = true;
            },
        }
        r
    }

    /// The next lexeme of the input, where the grammar requires one: at the
    /// end of the input it is an error.
    pub fn consume(&mut self) -> (r: Result<Lexeme, Error>)
        requires
            old(self).wf(),
        ensures
            final(self).wf(),
            final(self).capacity() == old(self).capacity(),
            match lex_step(old(self).done(), old(self).input()) {
                None => r matches Err(x) && x == Error::MoreLexemes && final(self).done(),
                Some(Err(e)) => r matches Err(x) && x == e && final(self).done(),
                Some(Ok((token, end))) => {
                    &&& r matches Ok(l)
                    &&& l@ == token
                    &&& !final(self).done()
                    &&& 0 < end <= old(self).input().bytes.len()
                    &&& final(self).input() == old(self).input().skip(end)
                },
            },
    {
        match self.next() {
            Some(r) => r,
            None => Err(Error::MoreLexemes),
        }
    }
}

impl Lexer<SliceSource> {
    /// How many bytes of the input are unread, if the count fits `usize`.
    pub fn unread(&self) -> (n: Option<usize>)
        requires
            self.wf(),
        ensures
            n == if self.input().bytes.len() <= usize::MAX {
                Some(self.input().bytes.len() as usize)
            } else {
                None
            },
    {
        (self.len - self.pos).checked_add(self.f.left())
    }
}

/// The value of a hexadecimal digit, in either case.
fn hex_digit(b: u8) -> (r: Option<u32>)
    ensures
        r == hex_value(b),
        r matches Some(d) ==> d <= 15,
{
    if ZERO <= b && b <= NINE {
        Some((b - ZERO) as u32)
    } else if LOWER_A <= b && b <= LOWER_F {
        Some((b - LOWER_A + 10) as u32)
    } else if UPPER_A <= b && b <= UPPER_F {
        Some((b - UPPER_A + 10) as u32)
    } else {
        None
    }
}

/// Appends the UTF-8 encoding of a scalar value to `out`.
fn push_scalar(out: &mut Vec<u8>, scalar: u32)
    requires
        is_scalar(scalar),
    ensures
        final(out)@ == old(out)@ + encode_scalar(scalar),
{
    if scalar < 0x80 {
        out.push((scalar & 0x7F) as u8);
    } else if scalar < 0x800 {
        out.push(0xC0 | ((scalar >> 6) & 0x1F) as u8);
        out.push(0x80 | (scalar & 0x3F) as u8);
    } else if scalar < 0x10000 {
        out.push(0xE0 | ((scalar >> 12) & 0x0F) as u8);
        out.push(0x80 | ((scalar >> 6) & 0x3F) as u8);
        out.push(0x80 | (scalar & 0x3F) as u8);
    } else {
        out.push(0xF0 | ((scalar >> 18) & 0x7) as u8);
        out.push(0x80 | ((scalar >> 12) & 0x3F) as u8);
        out.push(0x80 | ((scalar >> 6) & 0x3F) as u8);
        out.push(0x80 | (scalar & 0x3F) as u8);
    }
    assert(out@ =~= old(out)@ + encode_scalar(scalar));
}

/// `String::from_utf8` makes a string of the bytes exactly when they are
/// valid UTF-8, and the string then holds the characters that they encode.
pub assume_specification[ std::string::String::from_utf8 ](vec: std::vec::Vec<u8>) -> (r: Result<std::string::String, std::string::FromUtf8Error>)
    ensures
        r is Ok <==> valid_utf8(vec@),
        r matches Ok(s) ==> s@ == decode_utf8(vec@),
;

/// The error of `String::from_utf8`; the lexer only tells it from success.
#[verifier::external_type_specification]
#[verifier::external_body]
pub struct ExFromUtf8Error(std::string::FromUtf8Error);

} // verus!
