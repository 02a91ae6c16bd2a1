//! The RESP wire format as mathematics: what a byte sequence decodes to, and
//! what bytes a value encodes to.
use crate::parser::RESPError;
use vstd::prelude::*;

verus! {

pub const CR: u8 = 13;

pub const LF: u8 = 10;

pub const PLUS: u8 = 43;

pub const MINUS: u8 = 45;

pub const COLON: u8 = 58;

pub const DOLLAR: u8 = 36;

pub const STAR: u8 = 42;

/// How deeply arrays may nest inside a frame.
pub const MAX_DEPTH: usize = 32;

/// The largest element count an array may declare.
pub const MAX_ELEMENTS: i64 = 1048576;

/// A protocol value, as the contracts speak of it.
pub enum Val {
    Simple(Seq<u8>),
    Error(Seq<u8>),
    Int(int),
    Bulk(Seq<u8>),
    Array(Seq<Val>),
    NullBulk,
    NullArray,
}

/// The outcome of reading something at a position: what was read and the
/// position just after it, a need for more bytes, or a defect.
pub enum Step<T> {
    Done(T, int),
    Incomplete,
    Malformed(RESPError),
}

pub open spec fn crlf() -> Seq<u8> {
    seq![CR, LF]
}

/// No byte equal to `b` among `s[lo..hi]`.
pub open spec fn no_byte(s: Seq<u8>, lo: int, hi: int, b: u8) -> bool {
    forall|j: int| lo <= j < hi ==> s[j] != b
}

pub open spec fn is_digit(b: u8) -> bool {
    48 <= b <= 57
}

pub open spec fn all_digits(w: Seq<u8>) -> bool {
    forall|i: int| 0 <= i < w.len() ==> is_digit(#[trigger] w[i])
}

/// The number that a run of decimal digits spells, most significant first.
pub open spec fn digits_value(w: Seq<u8>) -> nat
    decreases w.len(),
{
    if w.len() == 0 {
        0
    } else {
        digits_value(w.subrange(0, w.len() - 1)) * 10 + (w[w.len() - 1] - 48) as nat
    }
}

/// The integer that a line of text spells: an optional minus sign, then at
/// least one digit, within the range of `i64`.
pub open spec fn int_of_text(w: Seq<u8>) -> Option<int> {
    if w.len() > 0 && w[0] == MINUS {
        let d = w.subrange(1, w.len() as int);
        if d.len() > 0 && all_digits(d) && digits_value(d) <= 0x8000_0000_0000_0000 {
            Some(-digits_value(d))
        } else {
            None
        }
    } else if w.len() > 0 && all_digits(w) && digits_value(w) <= i64::MAX {
        Some(digits_value(w) as int)
    } else {
        None
    }
}

/// The line that starts at `pos`: the bytes before the first carriage
/// return, which a line feed must follow; the line may hold no line feed.
pub open spec fn line(s: Seq<u8>, pos: int) -> Step<Seq<u8>> {
    if exists|i: int| pos <= i < s.len() && s[i] == CR && no_byte(s, pos, i, CR) {
        let i = choose|i: int| pos <= i < s.len() && s[i] == CR && no_byte(s, pos, i, CR);
        if i + 1 >= s.len() {
            Step::Incomplete
        } else if s[i + 1] != LF || !no_byte(s, pos, i, LF) {
            Step::Malformed(RESPError::BadLineEnding)
        } else {
            Step::Done(s.subrange(pos, i), i + 2)
        }
    } else {
        Step::Incomplete
    }
}

/// A line that holds an integer.
pub open spec fn int_line(s: Seq<u8>, pos: int) -> Step<int> {
    match line(s, pos) {
        Step::Done(w, e) => match int_of_text(w) {
            Some(n) => Step::Done(n, e),
            None => Step::Malformed(RESPError::IntParseFailure),
        },
        Step::Incomplete => Step::Incomplete,
        Step::Malformed(x) => Step::Malformed(x),
    }
}

/// A simple string (or, with `is_error`, an error) whose text starts at `pos`.
pub open spec fn text_value(s: Seq<u8>, pos: int, is_error: bool) -> Step<Val> {
    match line(s, pos) {
        Step::Done(w, e) => Step::Done(if is_error { Val::Error(w) } else { Val::Simple(w) }, e),
        Step::Incomplete => Step::Incomplete,
        Step::Malformed(x) => Step::Malformed(x),
    }
}

/// An integer whose digits start at `pos`.
pub open spec fn int_value(s: Seq<u8>, pos: int) -> Step<Val> {
    match int_line(s, pos) {
        Step::Done(n, e) => Step::Done(Val::Int(n), e),
        Step::Incomplete => Step::Incomplete,
        Step::Malformed(x) => Step::Malformed(x),
    }
}

/// A bulk string whose length line starts at `pos`.
pub open spec fn bulk_value(s: Seq<u8>, pos: int) -> Step<Val> {
    match int_line(s, pos) {
        Step::Done(n, q) => if n == -1 {
            Step::Done(Val::NullBulk, q)
        } else if n < 0 {
            Step::Malformed(RESPError::BadBulkStringSize(n as i64))
        } else if s.len() < q + n + 2 {
            Step::Incomplete
        } else if s[q + n] != CR || s[q + n + 1] != LF {
            Step::Malformed(RESPError::BadLineEnding)
        } else {
            Step::Done(Val::Bulk(s.subrange(q, q + n)), q + n + 2)
        },
        Step::Incomplete => Step::Incomplete,
        Step::Malformed(x) => Step::Malformed(x),
    }
}

/// The value whose type byte stands at `pos`, with arrays nested at most
/// `depth` deep.
pub open spec fn value(s: Seq<u8>, pos: int, depth: nat) -> Step<Val>
    decreases depth, 0nat, 1nat,
{
    if pos < 0 || pos >= s.len() {
        Step::Incomplete
    } else if s[pos] == PLUS {
        text_value(s, pos + 1, false)
    } else if s[pos] == MINUS {
        text_value(s, pos + 1, true)
    } else if s[pos] == COLON {
        int_value(s, pos + 1)
    } else if s[pos] == DOLLAR {
        bulk_value(s, pos + 1)
    } else if s[pos] == STAR {
        array_value(s, pos + 1, depth)
    } else {
        Step::Malformed(RESPError::UnknownStartingByte)
    }
}

/// An array whose count line starts at `pos`.
pub open spec fn array_value(s: Seq<u8>, pos: int, depth: nat) -> Step<Val>
    decreases depth, 0nat, 0nat,
{
    match int_line(s, pos) {
        Step::Done(n, q) => if n == -1 {
            Step::Done(Val::NullArray, q)
        } else if n < 0 || n > MAX_ELEMENTS {
            Step::Malformed(RESPError::BadArraySize(n as i64))
        } else if depth == 0 {
            Step::Malformed(RESPError::NestingTooDeep)
        } else {
            match elements(s, q, (depth - 1) as nat, n as nat) {
                Step::Done(vs, e) => Step::Done(Val::Array(vs), e),
                Step::Incomplete => Step::Incomplete,
                Step::Malformed(x) => Step::Malformed(x),
            }
        },
        Step::Incomplete => Step::Incomplete,
        Step::Malformed(x) => Step::Malformed(x),
    }
}

/// `n` values one after another from `pos`.
pub open spec fn elements(s: Seq<u8>, pos: int, depth: nat, n: nat) -> Step<Seq<Val>>
    decreases depth, n + 1, 0nat,
{
    if n == 0 {
        Step::Done(Seq::empty(), pos)
    } else {
        match elements(s, pos, depth, (n - 1) as nat) {
            Step::Done(vs, p) => match value(s, p, depth) {
                Step::Done(v, e) => Step::Done(vs.push(v), e),
                Step::Incomplete => Step::Incomplete,
                Step::Malformed(x) => Step::Malformed(x),
            },
            Step::Incomplete => Step::Incomplete,
            Step::Malformed(x) => Step::Malformed(x),
        }
    }
}

/// What the decoder makes of the front of a buffer.
pub open spec fn frame(s: Seq<u8>) -> Step<Val> {
    value(s, 0, MAX_DEPTH as nat)
}

/// The decimal digits of `n`, without leading zeros.
pub open spec fn decimal(n: nat) -> Seq<u8>
    decreases n,
{
    if n < 10 {
        seq![(48 + n) as u8]
    } else {
        decimal(n / 10) + seq![(48 + n % 10) as u8]
    }
}

/// An integer in decimal, with a minus sign when negative.
pub open spec fn int_text(i: int) -> Seq<u8> {
    if i < 0 {
        seq![MINUS] + decimal((-i) as nat)
    } else {
        decimal(i as nat)
    }
}

/// The wire form of a value.
pub open spec fn encode_val(v: Val) -> Seq<u8>
    decreases v,
{
    match v {
        Val::Simple(t) => seq![PLUS] + t + crlf(),
        Val::Error(t) => seq![MINUS] + t + crlf(),
        Val::Int(i) => seq![COLON] + int_text(i) + crlf(),
        Val::Bulk(b) => seq![DOLLAR] + int_text(b.len() as int) + crlf() + b + crlf(),
        Val::NullBulk => seq![DOLLAR] + int_text(-1) + crlf(),
        Val::Array(items) => seq![STAR] + int_text(items.len() as int) + crlf() + encode_all(items),
        Val::NullArray => seq![STAR] + int_text(-1) + crlf(),
    }
}

/// The wire forms of several values, one after another.
pub open spec fn encode_all(items: Seq<Val>) -> Seq<u8>
    decreases items,
{
    if items.len() == 0 {
        Seq::empty()
    } else {
        encode_all(items.subrange(0, items.len() - 1)) + encode_val(items[items.len() - 1])
    }
}

/// Text that may stand in a simple string or an error: no line breaks.
pub open spec fn is_line_text(t: Seq<u8>) -> bool {
    no_byte(t, 0, t.len() as int, CR) && no_byte(t, 0, t.len() as int, LF)
}

/// A value that the decoder can read back from its wire form when arrays
/// may nest `depth` deep.
pub open spec fn representable_at(v: Val, depth: nat) -> bool
    decreases v,
{
    match v {
        Val::Simple(t) => is_line_text(t),
        Val::Error(t) => is_line_text(t),
        Val::Int(i) => i64::MIN <= i <= i64::MAX,
        Val::Bulk(b) => b.len() <= i64::MAX,
        Val::Array(items) => {
            &&& depth > 0
            &&& items.len() <= MAX_ELEMENTS
            &&& forall|k: int|
                0 <= k < items.len() ==> representable_at(#[trigger] items[k], (depth - 1) as nat)
        },
        Val::NullBulk => true,
        Val::NullArray => true,
    }
}

/// A value that can travel as one frame.
pub open spec fn representable(v: Val) -> bool {
    representable_at(v, MAX_DEPTH as nat)
}

} // verus!
