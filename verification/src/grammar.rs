//! The lexical grammar: which lexeme a stream of bytes starts with.
//!
//! Every function here reads a `Stream` from a position and says what stands
//! there. A failure of the source surfaces at the first position where the
//! scan needs a byte that the source cannot deliver.

use vstd::prelude::*;
use vstd::utf8::*;
use crate::ascii::{
    BACKSLASH, BACKSPACE, CARRIAGE_RETURN, CLOSE_BRACE, CLOSE_BRACKET, COLON, COMMA, FORM_FEED,
    LINE_FEED, LOWER_A, LOWER_B, LOWER_E, LOWER_F, LOWER_L, LOWER_N, LOWER_R, LOWER_S, LOWER_T,
    LOWER_U, MINUS, NINE, OPEN_BRACE, OPEN_BRACKET, PLUS, POINT, QUOTE, SLASH, SPACE, TAB,
    UPPER_A, UPPER_E, UPPER_F, ZERO,
};
use crate::errors::Error;
use crate::lexer::{Number, Token};
use crate::source::{lemma_skip, Peek, Stream};

verus! {

/// What a scan that starts at some position yields: a value and the position
/// after it, or the error that ends the lexing.
pub type Scan<T> = Result<(T, int), Error>;

/// Space, tab, line feed and carriage return.
pub open spec fn blank(b: u8) -> bool {
    b == TAB || b == LINE_FEED || b == CARRIAGE_RETURN || b == SPACE
}

/// The ASCII digits.
pub open spec fn digit(b: u8) -> bool {
    ZERO <= b <= NINE
}

/// The value of a hexadecimal digit, in either case.
pub open spec fn hex_value(b: u8) -> Option<u32> {
    if ZERO <= b <= NINE {
        Some((b - ZERO) as u32)
    } else if LOWER_A <= b <= LOWER_F {
        Some((b - LOWER_A + 10) as u32)
    } else if UPPER_A <= b <= UPPER_F {
        Some((b - UPPER_A + 10) as u32)
    } else {
        None
    }
}

/// The character that a one-letter escape stands for.
pub open spec fn simple_escape(b: u8) -> Option<u8> {
    if b == LOWER_B {
        Some(BACKSPACE)
    } else if b == LOWER_F {
        Some(FORM_FEED)
    } else if b == LOWER_N {
        Some(LINE_FEED)
    } else if b == LOWER_R {
        Some(CARRIAGE_RETURN)
    } else if b == LOWER_T {
        Some(TAB)
    } else if b == QUOTE || b == BACKSLASH || b == SLASH {
        Some(b)
    } else {
        None
    }
}

/// The lexeme that a single punctuation byte forms.
pub open spec fn punctuation(b: u8) -> Option<Token> {
    if b == OPEN_BRACE {
        Some(Token::OBrace)
    } else if b == CLOSE_BRACE {
        Some(Token::CBrace)
    } else if b == OPEN_BRACKET {
        Some(Token::OBracket)
    } else if b == CLOSE_BRACKET {
        Some(Token::CBracket)
    } else if b == COMMA {
        Some(Token::Comma)
    } else if b == COLON {
        Some(Token::Colon)
    } else {
        None
    }
}

/// The bytes of `true`.
pub open spec fn word_true() -> Seq<u8> {
    seq![LOWER_T, LOWER_R, LOWER_U, LOWER_E]
}

/// The bytes of `false`.
pub open spec fn word_false() -> Seq<u8> {
    seq![LOWER_F, LOWER_A, LOWER_L, LOWER_S, LOWER_E]
}

/// The bytes of `null`.
pub open spec fn word_null() -> Seq<u8> {
    seq![LOWER_N, LOWER_U, LOWER_L, LOWER_L]
}

/// The first position at or after `i` that holds no blank.
pub open spec fn blank_end(bytes: Seq<u8>, i: int) -> int
    decreases bytes.len() - i,
{
    if 0 <= i < bytes.len() && blank(bytes[i]) {
        blank_end(bytes, i + 1)
    } else {
        i
    }
}

/// Matches `word` from its byte `k` on against the stream at `i`, and yields
/// the position after the word.
pub open spec fn scan_word(s: Stream, i: int, word: Seq<u8>, k: int) -> Result<int, Error>
    decreases word.len() - k,
{
    if k < 0 || k >= word.len() {
        Ok(i)
    } else {
        match s.at(i) {
            Peek::Fault(code) => Err(Error::IO(code)),
            Peek::End => Err(Error::Unknown(None)),
            Peek::Byte(b) => if b == word[k] {
                scan_word(s, i + 1, word, k + 1)
            } else {
                Err(Error::Unknown(Some(b)))
            },
        }
    }
}

/// Reads `left` hexadecimal digits at `i` and appends them to `value`.
pub open spec fn scan_hex(s: Stream, i: int, left: nat, value: int) -> Result<int, Error>
    decreases left,
{
    if left == 0 {
        Ok(value)
    } else {
        match s.at(i) {
            Peek::Fault(code) => Err(Error::IO(code)),
            Peek::End => Err(Error::Escape(None)),
            Peek::Byte(b) => match hex_value(b) {
                None => Err(Error::Escape(None)),
                Some(d) => scan_hex(s, i + 1, (left - 1) as nat, value * 16 + d),
            },
        }
    }
}

/// Whether a code point lies in the surrogate range, which no escape may
/// name.
pub open spec fn surrogate(v: int) -> bool {
    0xD800 <= v <= 0xDFFF
}

/// The scalar value that the four hexadecimal digits at `i` name.
pub open spec fn scan_unicode(s: Stream, i: int) -> Result<u32, Error> {
    match scan_hex(s, i, 4, 0) {
        Err(e) => Err(e),
        Ok(v) => if surrogate(v) {
            Err(Error::Escape(None))
        } else {
            Ok(v as u32)
        },
    }
}

/// The scalar value that the escape sequence whose letter stands at `i`
/// denotes.
pub open spec fn scan_escape(s: Stream, i: int) -> Result<u32, Error> {
    match s.at(i) {
        Peek::Fault(code) => Err(Error::IO(code)),
        Peek::End => Err(Error::Escape(None)),
        Peek::Byte(b) => if b == LOWER_U {
            scan_unicode(s, i + 1)
        } else {
            match simple_escape(b) {
                Some(c) => Ok(c as u32),
                None => Err(Error::Escape(Some(b))),
            }
        },
    }
}

/// The position after the escape sequence whose letter stands at `i`.
pub open spec fn escape_end(s: Stream, i: int) -> int {
    if s.at(i) == Peek::Byte(LOWER_U) {
        i + 5
    } else {
        i + 1
    }
}

/// Reads the body of a string literal from `i` up to its closing quote,
/// appending the unescaped bytes to `acc`.
pub open spec fn scan_string(s: Stream, i: int, acc: Seq<u8>) -> Scan<Seq<u8>>
    decreases
            if i < s.bytes.len() {
                s.bytes.len() - i
            } else {
                0
            },
{
    match s.at(i) {
        Peek::Fault(code) => Err(Error::IO(code)),
        Peek::End => Err(Error::Unterminated),
        Peek::Byte(b) => if b == QUOTE {
            Ok((acc, i + 1))
        } else if b == BACKSLASH {
            match scan_escape(s, i + 1) {
                Err(e) => Err(e),
                Ok(scalar) => scan_string(s, escape_end(s, i + 1), acc + encode_scalar(scalar)),
            }
        } else {
            scan_string(s, i + 1, acc.push(b))
        },
    }
}

/// The text of the string literal whose opening quote stands before `i`.
pub open spec fn scan_text(s: Stream, i: int) -> Scan<Seq<char>> {
    match scan_string(s, i, Seq::empty()) {
        Err(e) => Err(e),
        Ok((bytes, end)) => if valid_utf8(bytes) {
            Ok((decode_utf8(bytes), end))
        } else {
            Err(Error::Utf8)
        },
    }
}

/// An optional sign at `i`: whether the number is negative, and where its
/// digits start.
pub open spec fn scan_sign(s: Stream, i: int) -> Scan<bool> {
    match s.at(i) {
        Peek::Fault(code) => Err(Error::IO(code)),
        Peek::End => Ok((false, i)),
        Peek::Byte(b) => if b == MINUS {
            Ok((true, i + 1))
        } else if b == PLUS {
            Ok((false, i + 1))
        } else {
            Ok((false, i))
        },
    }
}

/// A run of digits as it is read into 64 bits. Digits are kept while the
/// value fits `i64`; from the first that does not fit on, all are left out
/// and only counted.
pub struct Digits {
    /// The value of the digits that are kept.
    pub value: int,
    /// How many digits are kept, at most `i64::MAX`.
    pub kept: int,
    /// How many digits are left out, at most `i64::MAX`.
    pub dropped: int,
    /// The value of all the digits, kept or not.
    pub exact: int,
    /// Where the run ends.
    pub end: int,
}

/// No digit read yet, at position `i`.
pub open spec fn no_digits(i: int) -> Digits {
    Digits { value: 0, kept: 0, dropped: 0, exact: 0, end: i }
}

/// A count that goes up by one and stops at `i64::MAX`.
pub open spec fn bump(n: int) -> int {
    if n < i64::MAX {
        n + 1
    } else {
        n
    }
}

/// The run `d` with the digit `b` after it: kept if none was left out
/// before and the value still fits, left out otherwise.
pub open spec fn take_digit(d: Digits, b: u8) -> Digits {
    if d.dropped == 0 && d.value * 10 + (b - ZERO) <= i64::MAX {
        Digits {
            value: d.value * 10 + (b - ZERO),
            kept: bump(d.kept),
            dropped: 0,
            exact: d.exact * 10 + (b - ZERO),
            end: d.end,
        }
    } else {
        Digits {
            value: d.value,
            kept: d.kept,
            dropped: bump(d.dropped),
            exact: d.exact * 10 + (b - ZERO),
            end: d.end,
        }
    }
}

/// Reads the longest run of digits at `i` and appends them to the run `d`.
/// No run is too long: only the source can fail.
pub open spec fn scan_digits(s: Stream, i: int, d: Digits) -> Result<Digits, Error>
    decreases s.bytes.len() - i,
{
    match s.at(i) {
        Peek::Fault(code) => Err(Error::IO(code)),
        Peek::End => Ok(Digits { end: i, ..d }),
        Peek::Byte(b) => if digit(b) {
            scan_digits(s, i + 1, take_digit(d, b))
        } else {
            Ok(Digits { end: i, ..d })
        },
    }
}

/// Ten to the power `n`.
pub open spec fn pow10(n: nat) -> nat
    decreases n,
{
    if n == 0 {
        1
    } else {
        10 * pow10((n - 1) as nat)
    }
}

/// What is lost where digits are left out: the kept value, with a zero for
/// each digit left out, is the exact value rounded down, and it is off by
/// less than one unit of the last kept digit. While nothing is left out the
/// kept value is exact; where something is, the kept value is so large that
/// one more digit could pass `i64::MAX`, so it has at least eighteen digits.
pub open spec fn faithful(d: Digits) -> bool {
    &&& 0 <= d.value <= i64::MAX
    &&& 0 <= d.kept <= i64::MAX
    &&& 0 <= d.dropped <= i64::MAX
    &&& d.dropped == 0 ==> d.exact == d.value
    &&& d.dropped > 0 ==> d.value * 10 + 9 > i64::MAX
    &&& d.dropped < i64::MAX ==> d.value * pow10(d.dropped as nat) <= d.exact < (d.value + 1)
        * pow10(d.dropped as nat)
}

/// Taking a digit keeps a run faithful.
pub proof fn lemma_take_digit(d: Digits, b: u8)
    requires
        faithful(d),
        digit(b),
    ensures
        faithful(take_digit(d, b)),
{
    let t = take_digit(d, b);
    let x = (b - ZERO) as int;
    if d.dropped == 0 && d.value * 10 + x <= i64::MAX {
        assert(pow10(0) == 1);
    } else if d.dropped < i64::MAX - 1 {
        let p = pow10(d.dropped as nat) as int;
        assert(pow10((d.dropped + 1) as nat) == 10 * p);
        if d.dropped == 0 {
            assert(p == 1);
        }
        assert(d.value * (10 * p) == 10 * (d.value * p)) by (nonlinear_arith);
        assert((d.value + 1) * (10 * p) == 10 * ((d.value + 1) * p)) by (nonlinear_arith);
    }
}

/// Every run that is read is faithful and ends within the stream, before a
/// byte that is no digit or at the end, where the source has not failed.
pub proof fn lemma_scan_digits_end(s: Stream, i: int, d: Digits)
    requires
        0 <= i <= s.bytes.len(),
        faithful(d),
    ensures
        scan_digits(s, i, d) matches Ok(r) ==> {
            &&& faithful(r)
            &&& i <= r.end <= s.bytes.len()
            &&& !(s.at(r.end) is Fault)
            &&& (s.at(r.end) matches Peek::Byte(b) ==> !digit(b))
            &&& r.kept >= d.kept
            &&& r.dropped >= d.dropped
            &&& (r.kept > d.kept || r.dropped > d.dropped ==> r.end > i)
            &&& (d.dropped > 0 ==> r.kept == d.kept && r.value == d.value)
        },
    decreases s.bytes.len() - i,
{
    match s.at(i) {
        Peek::Byte(b) => {
            if digit(b) {
                lemma_take_digit(d, b);
                lemma_scan_digits_end(s, i + 1, take_digit(d, b));
            }
        },
        _ => {},
    }
}

/// An optional exponent part at `i`: the power of ten it names, zero where
/// there is none. A power beyond `i64` is taken as the largest `i64`.
pub open spec fn scan_exponent(s: Stream, i: int) -> Scan<int> {
    if s.at(i) == Peek::Byte(LOWER_E) || s.at(i) == Peek::Byte(UPPER_E) {
        match scan_sign(s, i + 1) {
            Err(e) => Err(e),
            Ok((negative, start)) => match scan_digits(s, start, no_digits(start)) {
                Err(e) => Err(e),
                Ok(d) => if d.kept == 0 && d.dropped == 0 {
                    Err(Error::Unknown(None))
                } else {
                    let power = if d.dropped > 0 {
                        i64::MAX as int
                    } else {
                        d.value
                    };
                    Ok((if negative { -power } else { power }, d.end))
                },
            },
        }
    } else {
        Ok((0, i))
    }
}

/// The digits of a number: the value that is kept of them, and by how many
/// places it is shifted against the written digits.
pub struct Mantissa {
    /// The value of the digits that are kept.
    pub value: int,
    /// The integer digits that are left out less the fraction digits that
    /// are kept.
    pub shift: int,
    /// Where the digits end.
    pub end: int,
}

/// The digits of a number at `i`: integer digits, then an optional point
/// with fraction digits. With no integer digit and no point it is an
/// unknown lexeme.
pub open spec fn scan_mantissa(s: Stream, i: int) -> Result<Mantissa, Error> {
    match scan_digits(s, i, no_digits(i)) {
        Err(e) => Err(e),
        Ok(whole) => if s.at(whole.end) == Peek::Byte(POINT) {
            match scan_digits(s, whole.end + 1, Digits { kept: 0, ..whole }) {
                Err(e) => Err(e),
                Ok(all) => Ok(
                    Mantissa { value: all.value, shift: whole.dropped - all.kept, end: all.end },
                ),
            }
        } else if whole.kept == 0 && whole.dropped == 0 {
            Err(Error::Unknown(None))
        } else {
            Ok(Mantissa { value: whole.value, shift: whole.dropped, end: whole.end })
        },
    }
}

/// A power of ten within `i64`: one beyond it is taken as the nearest end.
pub open spec fn clamp(n: int) -> int {
    if n < i64::MIN {
        i64::MIN as int
    } else if n > i64::MAX {
        i64::MAX as int
    } else {
        n
    }
}

/// The number with the given sign, digits and written exponent.
pub open spec fn number_of(negative: bool, digits: Mantissa, power: int) -> Number {
    Number {
        mantissa: (if negative {
            -digits.value
        } else {
            digits.value
        }) as i64,
        exponent: clamp(power + digits.shift) as i64,
    }
}

/// The number literal at `i`: an optional sign, the digits, an optional
/// exponent. Every literal of this form is a number, however long.
pub open spec fn scan_number(s: Stream, i: int) -> Scan<Number> {
    match scan_sign(s, i) {
        Err(e) => Err(e),
        Ok((negative, start)) => match scan_mantissa(s, start) {
            Err(e) => Err(e),
            Ok(digits) => match scan_exponent(s, digits.end) {
                Err(e) => Err(e),
                Ok((power, end)) => Ok((number_of(negative, digits, power), end)),
            },
        },
    }
}

/// The lexeme that starts at `i` with the byte `b`.
pub open spec fn scan_lexeme(s: Stream, i: int, b: u8) -> Scan<Token> {
    if b == QUOTE {
        match scan_text(s, i + 1) {
            Err(e) => Err(e),
            Ok((text, end)) => Ok((Token::String(text), end)),
        }
    } else if b == LOWER_T {
        match scan_word(s, i, word_true(), 0) {
            Err(e) => Err(e),
            Ok(end) => Ok((Token::Boolean(true), end)),
        }
    } else if b == LOWER_F {
        match scan_word(s, i, word_false(), 0) {
            Err(e) => Err(e),
            Ok(end) => Ok((Token::Boolean(false), end)),
        }
    } else if b == LOWER_N {
        match scan_word(s, i, word_null(), 0) {
            Err(e) => Err(e),
            Ok(end) => Ok((Token::Null, end)),
        }
    } else if b == PLUS || b == MINUS || b == POINT || digit(b) {
        match scan_number(s, i) {
            Err(e) => Err(e),
            Ok((n, end)) => Ok((Token::Number(n), end)),
        }
    } else {
        match punctuation(b) {
            Some(token) => Ok((token, i + 1)),
            None => Err(Error::Unknown(Some(b))),
        }
    }
}

/// The first lexeme of a stream, after any blanks, with the position after
/// it; `None` where only blanks are left before a clean end.
pub open spec fn lex(s: Stream) -> Option<Scan<Token>> {
    let start = blank_end(s.bytes, 0);
    match s.at(start) {
        Peek::End => None,
        Peek::Fault(code) => Some(Err(Error::IO(code))),
        Peek::Byte(b) => Some(scan_lexeme(s, start, b)),
    }
}

/// What a lexer yields next: nothing once it is done, else the first lexeme
/// of its input.
pub open spec fn lex_step(done: bool, s: Stream) -> Option<Scan<Token>> {
    if done {
        None
    } else {
        lex(s)
    }
}

/// A scan result whose end position is moved on by `i`.
pub open spec fn shift<T>(r: Scan<T>, i: int) -> Scan<T> {
    match r {
        Ok((v, end)) => Ok((v, end + i)),
        Err(e) => Err(e),
    }
}

/// Skipping blanks of a stream from `i + k` is skipping them from `k` after
/// dropping `i` bytes; the blanks end within the stream.
pub proof fn lemma_blank_end(bytes: Seq<u8>, i: int)
    requires
        0 <= i <= bytes.len(),
    ensures
        i <= blank_end(bytes, i) <= bytes.len(),
        forall|k: int| i <= k < blank_end(bytes, i) ==> blank(bytes[k]),
        blank_end(bytes, i) < bytes.len() ==> !blank(bytes[blank_end(bytes, i)]),
    decreases bytes.len() - i,
{
    if i < bytes.len() && blank(bytes[i]) {
        lemma_blank_end(bytes, i + 1);
    }
}

/// Reading hexadecimal digits of a stream from `i + k` is reading them from
/// `k` after skipping `i` bytes.
pub proof fn lemma_scan_hex_skip(s: Stream, i: int, k: int, left: nat, value: int)
    requires
        0 <= i <= s.bytes.len(),
        0 <= k,
    ensures
        scan_hex(s.skip(i), k, left, value) == scan_hex(s, i + k, left, value),
    decreases left,
{
    if left > 0 {
        if i + k <= s.bytes.len() {
            lemma_skip(s, i, k);
        }
        match s.at(i + k) {
            Peek::Byte(b) => match hex_value(b) {
                Some(d) => {
                    lemma_scan_hex_skip(s, i, k + 1, (left - 1) as nat, value * 16 + d);
                },
                None => {},
            },
            _ => {},
        }
    }
}

/// Reading an escape sequence of a stream at `i + k` is reading it at `k`
/// after skipping `i` bytes.
pub proof fn lemma_scan_escape_skip(s: Stream, i: int, k: int)
    requires
        0 <= i <= s.bytes.len(),
        0 <= k,
    ensures
        scan_escape(s.skip(i), k) == scan_escape(s, i + k),
        escape_end(s.skip(i), k) == escape_end(s, i + k) - i,
{
    if i + k <= s.bytes.len() {
        lemma_skip(s, i, k);
    }
    lemma_scan_hex_skip(s, i, k + 1, 4, 0);
}

/// Matching a word against a stream at `i + k` is matching it at `k` after
/// skipping `i` bytes.
pub proof fn lemma_scan_word_skip(s: Stream, i: int, k: int, word: Seq<u8>, j: int)
    requires
        0 <= i <= s.bytes.len(),
        0 <= k,
    ensures
        scan_word(s, i + k, word, j) == match scan_word(s.skip(i), k, word, j) {
            Ok(end) => Ok::<int, Error>(end + i),
            Err(e) => Err(e),
        },
    decreases word.len() - j,
{
    if 0 <= j < word.len() {
        if i + k <= s.bytes.len() {
            lemma_skip(s, i, k);
        }
        lemma_scan_word_skip(s, i, k + 1, word, j + 1);
    }
}

/// Reading a sign of a stream at `i + k` is reading it at `k` after skipping
/// `i` bytes.
pub proof fn lemma_scan_sign_skip(s: Stream, i: int, k: int)
    requires
        0 <= i <= s.bytes.len(),
        0 <= k,
    ensures
        scan_sign(s, i + k) == shift(scan_sign(s.skip(i), k), i),
{
    if i + k <= s.bytes.len() {
        lemma_skip(s, i, k);
    }
}

/// A scan result for digits whose positions are moved on by `i`.
pub open spec fn shift_digits(r: Result<Digits, Error>, i: int) -> Result<Digits, Error> {
    match r {
        Ok(d) => Ok(Digits { end: d.end + i, ..d }),
        Err(e) => Err(e),
    }
}

/// Reading digits of a stream at `i + k` is reading them at `k` after
/// skipping `i` bytes.
pub proof fn lemma_scan_digits_skip(s: Stream, i: int, k: int, d: Digits, e: Digits)
    requires
        0 <= i <= s.bytes.len(),
        0 <= k,
        e == (Digits { end: d.end + i, ..d }),
    ensures
        scan_digits(s, i + k, e) == shift_digits(scan_digits(s.skip(i), k, d), i),
    decreases s.bytes.len() - (i + k),
{
    if i + k <= s.bytes.len() {
        lemma_skip(s, i, k);
    }
    match s.at(i + k) {
        Peek::Byte(b) => {
            if digit(b) {
                lemma_scan_digits_skip(s, i, k + 1, take_digit(d, b), take_digit(e, b));
            }
        },
        _ => {},
    }
}

/// Reading an exponent of a stream at `i + k` is reading it at `k` after
/// skipping `i` bytes.
pub proof fn lemma_scan_exponent_skip(s: Stream, i: int, k: int)
    requires
        0 <= i <= s.bytes.len(),
        0 <= k,
    ensures
        scan_exponent(s, i + k) == shift(scan_exponent(s.skip(i), k), i),
{
    if i + k <= s.bytes.len() {
        lemma_skip(s, i, k);
    }
    lemma_scan_sign_skip(s, i, k + 1);
    match scan_sign(s.skip(i), k + 1) {
        Ok((_, start)) => {
            lemma_scan_digits_skip(s, i, start, no_digits(start), no_digits(start + i));
        },
        Err(_) => {},
    }
}

/// A scan result for the digits of a number whose end is moved on by `i`.
pub open spec fn shift_mantissa(r: Result<Mantissa, Error>, i: int) -> Result<Mantissa, Error> {
    match r {
        Ok(d) => Ok(Mantissa { end: d.end + i, ..d }),
        Err(e) => Err(e),
    }
}

/// Reading the digits of a number at `i + k` is reading them at `k` after
/// skipping `i` bytes.
pub proof fn lemma_scan_mantissa_skip(s: Stream, i: int, k: int)
    requires
        0 <= i <= s.bytes.len(),
        0 <= k,
    ensures
        scan_mantissa(s, i + k) == shift_mantissa(scan_mantissa(s.skip(i), k), i),
{
    let t = s.skip(i);
    lemma_scan_digits_skip(s, i, k, no_digits(k), no_digits(i + k));
    match scan_digits(t, k, no_digits(k)) {
        Ok(whole) => {
            if k <= t.bytes.len() {
                lemma_scan_digits_end(t, k, no_digits(k));
                lemma_skip(s, i, whole.end);
            } else {
                assert(whole.end == k);
                assert(t.at(k) == s.at(i + k));
            }
            let d = Digits { kept: 0, ..whole };
            lemma_scan_digits_skip(s, i, whole.end + 1, d, Digits { end: d.end + i, ..d });
        },
        Err(_) => {},
    }
}

/// The digits of a number end within the stream, where the source has not
/// failed, after at least one byte; what is kept of them fits `i64`.
pub proof fn lemma_scan_mantissa_end(s: Stream, i: int)
    requires
        0 <= i <= s.bytes.len(),
    ensures
        scan_mantissa(s, i) matches Ok(d) ==> {
            &&& i < d.end <= s.bytes.len()
            &&& !(s.at(d.end) is Fault)
            &&& 0 <= d.value <= i64::MAX
            &&& -i64::MAX <= d.shift <= i64::MAX
        },
{
    lemma_scan_digits_end(s, i, no_digits(i));
    match scan_digits(s, i, no_digits(i)) {
        Ok(whole) => {
            if s.at(whole.end) == Peek::Byte(POINT) {
                lemma_scan_digits_end(s, whole.end + 1, Digits { kept: 0, ..whole });
            }
        },
        Err(_) => {},
    }
}

/// Reading a number of a stream at `i + k` is reading it at `k` after
/// skipping `i` bytes.
pub proof fn lemma_scan_number_skip(s: Stream, i: int, k: int)
    requires
        0 <= i <= s.bytes.len(),
        0 <= k,
    ensures
        scan_number(s, i + k) == shift(scan_number(s.skip(i), k), i),
{
    let t = s.skip(i);
    lemma_scan_sign_skip(s, i, k);
    match scan_sign(t, k) {
        Ok((_, start)) => {
            lemma_scan_mantissa_skip(s, i, start);
            match scan_mantissa(t, start) {
                Ok(digits) => {
                    if start <= t.bytes.len() {
                        lemma_scan_mantissa_end(t, start);
                    } else {
                        assert(scan_digits(t, start, no_digits(start)).unwrap().end == start);
                    }
                    lemma_scan_exponent_skip(s, i, digits.end);
                },
                Err(_) => {},
            }
        },
        Err(_) => {},
    }
}

/// Reading a string body of a stream at `i + k` is reading it at `k` after
/// skipping `i` bytes.
pub proof fn lemma_scan_string_skip(s: Stream, i: int, k: int, acc: Seq<u8>)
    requires
        0 <= i <= s.bytes.len(),
        0 <= k,
    ensures
        scan_string(s, i + k, acc) == shift(scan_string(s.skip(i), k, acc), i),
    decreases
            if i + k < s.bytes.len() {
                s.bytes.len() - (i + k)
            } else {
                0
            },
{
    if i + k <= s.bytes.len() {
        lemma_skip(s, i, k);
    }
    match s.at(i + k) {
        Peek::Byte(b) => {
            if b == QUOTE {
            } else if b == BACKSLASH {
                lemma_scan_escape_skip(s, i, k + 1);
                if scan_escape(s, i + k + 1) is Ok {
                    let scalar = scan_escape(s, i + k + 1).unwrap();
                    lemma_scan_string_skip(
                        s,
                        i,
                        escape_end(s, i + k + 1) - i,
                        acc + encode_scalar(scalar),
                    );
                }
            } else {
                lemma_scan_string_skip(s, i, k + 1, acc.push(b));
            }
        },
        _ => {},
    }
}

/// Reading a lexeme of a stream at `i + k` is reading it at `k` after
/// skipping `i` bytes.
pub proof fn lemma_scan_lexeme_skip(s: Stream, i: int, k: int, b: u8)
    requires
        0 <= i <= s.bytes.len(),
        0 <= k,
    ensures
        scan_lexeme(s, i + k, b) == shift(scan_lexeme(s.skip(i), k, b), i),
{
    lemma_scan_string_skip(s, i, k + 1, Seq::empty());
    lemma_scan_word_skip(s, i, k, word_true(), 0);
    lemma_scan_word_skip(s, i, k, word_false(), 0);
    lemma_scan_word_skip(s, i, k, word_null(), 0);
    lemma_scan_number_skip(s, i, k);
}

/// A matched word ends within the stream, after the bytes it was matched
/// against.
pub proof fn lemma_scan_word_end(s: Stream, i: int, word: Seq<u8>, k: int)
    requires
        0 <= i <= s.bytes.len(),
        0 <= k <= word.len(),
    ensures
        scan_word(s, i, word, k) matches Ok(end) ==> end == i + word.len() - k && end
            <= s.bytes.len(),
    decreases word.len() - k,
{
    if k < word.len() {
        match s.at(i) {
            Peek::Byte(b) => {
                if b == word[k] {
                    lemma_scan_word_end(s, i + 1, word, k + 1);
                }
            },
            _ => {},
        }
    }
}

/// Four hexadecimal digits that were read lie within the stream.
pub proof fn lemma_scan_hex_end(s: Stream, i: int, left: nat, value: int)
    requires
        0 <= i <= s.bytes.len(),
    ensures
        scan_hex(s, i, left, value) is Ok ==> i + left <= s.bytes.len(),
    decreases left,
{
    if left > 0 {
        match s.at(i) {
            Peek::Byte(b) => match hex_value(b) {
                Some(d) => {
                    lemma_scan_hex_end(s, i + 1, (left - 1) as nat, value * 16 + d);
                },
                None => {},
            },
            _ => {},
        }
    }
}

/// A string body that was read ends within the stream, after its closing
/// quote.
pub proof fn lemma_scan_string_end(s: Stream, i: int, acc: Seq<u8>)
    requires
        0 <= i,
    ensures
        scan_string(s, i, acc) matches Ok((_, end)) ==> i < end <= s.bytes.len(),
    decreases
            if i < s.bytes.len() {
                s.bytes.len() - i
            } else {
                0
            },
{
    match s.at(i) {
        Peek::Byte(b) => {
            if b == QUOTE {
            } else if b == BACKSLASH {
                if scan_escape(s, i + 1) is Ok {
                    lemma_scan_hex_end(s, i + 2, 4, 0);
                    lemma_scan_string_end(
                        s,
                        escape_end(s, i + 1),
                        acc + encode_scalar(scan_escape(s, i + 1).unwrap()),
                    );
                }
            } else {
                lemma_scan_string_end(s, i + 1, acc.push(b));
            }
        },
        _ => {},
    }
}

/// A number that was read ends within the stream, after at least one byte.
pub proof fn lemma_scan_number_end(s: Stream, i: int)
    requires
        0 <= i <= s.bytes.len(),
    ensures
        scan_number(s, i) matches Ok((_, end)) ==> i < end <= s.bytes.len(),
{
    match scan_sign(s, i) {
        Ok((_, start)) => {
            lemma_scan_mantissa_end(s, start);
            match scan_mantissa(s, start) {
                Ok(digits) => {
                    let marked = s.at(digits.end) == Peek::Byte(LOWER_E) || s.at(digits.end)
                        == Peek::Byte(UPPER_E);
                    if scan_exponent(s, digits.end) is Ok && marked {
                        let from = scan_sign(s, digits.end + 1).unwrap().1;
                        lemma_scan_digits_end(s, from, no_digits(from));
                    }
                },
                Err(_) => {},
            }
        },
        Err(_) => {},
    }
}

/// A lexeme takes at least one byte and ends within the stream.
pub proof fn lemma_lex_progress(s: Stream)
    ensures
        lex(s) matches Some(Ok((_, end))) ==> 0 < end <= s.bytes.len(),
{
    lemma_blank_end(s.bytes, 0);
    let start = blank_end(s.bytes, 0);
    match s.at(start) {
        Peek::Byte(b) => {
            lemma_scan_string_end(s, start + 1, Seq::empty());
            lemma_scan_word_end(s, start, word_true(), 0);
            lemma_scan_word_end(s, start, word_false(), 0);
            lemma_scan_word_end(s, start, word_null(), 0);
            lemma_scan_number_end(s, start);
        },
        _ => {},
    }
}

/// Whether `long` continues `short`: it starts with the bytes of `short`,
/// and `short` stops with the failure `code` where more may follow.
pub open spec fn extends(short: Stream, long: Stream, code: i32) -> bool {
    &&& short.fault == Some(code)
    &&& short.bytes.len() <= long.bytes.len()
    &&& forall|i: int| 0 <= i < short.bytes.len() ==> short.bytes[i] == long.bytes[i]
}

/// Whether a scan stopped because its stream did, with the failure `code`.
pub open spec fn starved<T>(r: Result<T, Error>, code: i32) -> bool {
    r == Err::<T, Error>(Error::IO(code))
}

/// A stream that continues another stays a continuation when both skip the
/// same bytes.
pub proof fn lemma_extends_skip(short: Stream, long: Stream, code: i32, n: int)
    requires
        extends(short, long, code),
        0 <= n <= short.bytes.len(),
    ensures
        extends(short.skip(n), long.skip(n), code),
{
}

/// Blanks that end before the stream does end at the same place in any
/// continuation.
pub proof fn lemma_blank_end_stable(short: Seq<u8>, long: Seq<u8>, i: int)
    requires
        0 <= i <= short.len() <= long.len(),
        forall|k: int| 0 <= k < short.len() ==> short[k] == long[k],
    ensures
        i <= blank_end(short, i) <= short.len(),
        blank_end(short, i) < short.len() ==> blank_end(long, i) == blank_end(short, i),
    decreases short.len() - i,
{
    if i < short.len() && blank(short[i]) {
        lemma_blank_end_stable(short, long, i + 1);
    }
}

/// A word that is matched or refused before the stream stops is so in any
/// continuation.
pub proof fn lemma_scan_word_stable(
    short: Stream,
    long: Stream,
    code: i32,
    i: int,
    word: Seq<u8>,
    k: int,
)
    requires
        extends(short, long, code),
        0 <= i,
    ensures
        starved(scan_word(short, i, word, k), code) || scan_word(long, i, word, k) == scan_word(
            short,
            i,
            word,
            k,
        ),
    decreases word.len() - k,
{
    if 0 <= k < word.len() {
        lemma_scan_word_stable(short, long, code, i + 1, word, k + 1);
    }
}

/// Hexadecimal digits that are read or refused before the stream stops are
/// so in any continuation.
pub proof fn lemma_scan_hex_stable(
    short: Stream,
    long: Stream,
    code: i32,
    i: int,
    left: nat,
    value: int,
)
    requires
        extends(short, long, code),
        0 <= i,
    ensures
        starved(scan_hex(short, i, left, value), code) || scan_hex(long, i, left, value)
            == scan_hex(short, i, left, value),
    decreases left,
{
    if left > 0 {
        match short.at(i) {
            Peek::Byte(b) => match hex_value(b) {
                Some(d) => {
                    lemma_scan_hex_stable(
                        short,
                        long,
                        code,
                        i + 1,
                        (left - 1) as nat,
                        value * 16 + d,
                    );
                },
                None => {},
            },
            _ => {},
        }
    }
}

/// An escape sequence that is read or refused before the stream stops is so
/// in any continuation.
pub proof fn lemma_scan_escape_stable(short: Stream, long: Stream, code: i32, i: int)
    requires
        extends(short, long, code),
        0 <= i,
    ensures
        starved(scan_escape(short, i), code) || (scan_escape(long, i) == scan_escape(short, i)
            && escape_end(long, i) == escape_end(short, i)),
{
    lemma_scan_hex_stable(short, long, code, i + 1, 4, 0);
}

/// A string body that is read or refused before the stream stops is so in
/// any continuation.
pub proof fn lemma_scan_string_stable(
    short: Stream,
    long: Stream,
    code: i32,
    i: int,
    acc: Seq<u8>,
)
    requires
        extends(short, long, code),
        0 <= i,
    ensures
        starved(scan_string(short, i, acc), code) || scan_string(long, i, acc) == scan_string(
            short,
            i,
            acc,
        ),
    decreases
            if i < short.bytes.len() {
                short.bytes.len() - i
            } else {
                0
            },
{
    match short.at(i) {
        Peek::Byte(b) => {
            if b == QUOTE {
            } else if b == BACKSLASH {
                lemma_scan_escape_stable(short, long, code, i + 1);
                if scan_escape(short, i + 1) is Ok {
                    lemma_scan_string_stable(
                        short,
                        long,
                        code,
                        escape_end(short, i + 1),
                        acc + encode_scalar(scan_escape(short, i + 1).unwrap()),
                    );
                }
            } else {
                lemma_scan_string_stable(short, long, code, i + 1, acc.push(b));
            }
        },
        _ => {},
    }
}

/// Digits that are read before the stream stops are so in any
/// continuation, and they end before the stream stops.
pub proof fn lemma_scan_digits_stable(short: Stream, long: Stream, code: i32, i: int, d: Digits)
    requires
        extends(short, long, code),
        0 <= i,
    ensures
        starved(scan_digits(short, i, d), code) || scan_digits(long, i, d) == scan_digits(
            short,
            i,
            d,
        ),
        scan_digits(short, i, d) matches Ok(r) ==> i <= r.end < short.bytes.len(),
    decreases short.bytes.len() - i,
{
    match short.at(i) {
        Peek::Byte(b) => {
            if digit(b) {
                lemma_scan_digits_stable(short, long, code, i + 1, take_digit(d, b));
            }
        },
        _ => {},
    }
}

/// An exponent that is read or refused before the stream stops is so in
/// any continuation.
pub proof fn lemma_scan_exponent_stable(short: Stream, long: Stream, code: i32, i: int)
    requires
        extends(short, long, code),
        0 <= i < short.bytes.len(),
    ensures
        starved(scan_exponent(short, i), code) || scan_exponent(long, i) == scan_exponent(
            short,
            i,
        ),
{
    match scan_sign(short, i + 1) {
        Ok((_, start)) => {
            lemma_scan_digits_stable(short, long, code, start, no_digits(start));
        },
        Err(_) => {},
    }
}

/// A number that is read or refused before the stream stops is so in any
/// continuation.
pub proof fn lemma_scan_number_stable(short: Stream, long: Stream, code: i32, i: int)
    requires
        extends(short, long, code),
        0 <= i,
    ensures
        starved(scan_number(short, i), code) || scan_number(long, i) == scan_number(short, i),
{
    match scan_sign(short, i) {
        Ok((_, start)) => {
            lemma_scan_digits_stable(short, long, code, start, no_digits(start));
            match scan_digits(short, start, no_digits(start)) {
                Ok(whole) => {
                    lemma_scan_digits_stable(
                        short,
                        long,
                        code,
                        whole.end + 1,
                        Digits { kept: 0, ..whole },
                    );
                    match scan_mantissa(short, start) {
                        Ok(digits) => {
                            lemma_scan_exponent_stable(short, long, code, digits.end);
                        },
                        Err(_) => {},
                    }
                },
                Err(_) => {},
            }
        },
        Err(_) => {},
    }
}

/// A lexeme that is read or refused before the stream stops is so in any
/// continuation: what is lexed of a stream does not depend on where the
/// stream was cut, as long as the cut comes after the lexeme is decided.
pub proof fn lemma_lex_stable(short: Stream, long: Stream, code: i32)
    requires
        extends(short, long, code),
    ensures
        lex(short) is Some,
        starved(lex(short).unwrap(), code) || lex(long) == lex(short),
{
    lemma_blank_end_stable(short.bytes, long.bytes, 0);
    let start = blank_end(short.bytes, 0);
    if start < short.bytes.len() {
        lemma_scan_string_stable(short, long, code, start + 1, Seq::empty());
        lemma_scan_word_stable(short, long, code, start, word_true(), 0);
        lemma_scan_word_stable(short, long, code, start, word_false(), 0);
        lemma_scan_word_stable(short, long, code, start, word_null(), 0);
        lemma_scan_number_stable(short, long, code, start);
    }
}

} // verus!
