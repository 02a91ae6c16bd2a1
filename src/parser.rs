//! Decoding and encoding of RESP frames.
use crate::buf::{
    buf_as_slice, buf_extend, buf_freeze, buf_split_to, bytes_as_slice, bytes_mut_view,
    bytes_slice, bytes_view, find_byte,
};
use crate::wire::{
    all_digits, array_value, bulk_value, crlf, decimal, digits_value, elements, encode_all,
    encode_val, frame, int_line, int_of_text, int_text, int_value, is_digit, line, no_byte,
    text_value, value, Step, Val, COLON, CR, DOLLAR, LF, MAX_DEPTH, MAX_ELEMENTS, MINUS, PLUS, STAR,
};
use bytes::{Bytes, BytesMut};
use vstd::prelude::*;

verus! {

/// Why a frame could not be decoded.
#[derive(Debug, Clone, Copy, PartialEq, Eq, Structural)]
pub enum RESPError {
    UnknownStartingByte,
    IntParseFailure,
    BadBulkStringSize(i64),
    BadArraySize(i64),
    BadLineEnding,
    NestingTooDeep,
}

/// A decoded protocol value.
#[derive(PartialEq, Debug)]
pub enum RedisValueRef {
    SimpleString(Bytes),
    String(Bytes),
    Error(Bytes),
    Int(i64),
    Array(Vec<RedisValueRef>),
    NullArray,
    NullBulkString,
}

/// What a value means: `String` is a bulk string.
pub open spec fn value_of(v: RedisValueRef) -> Val
    decreases v,
{
    match v {
        RedisValueRef::SimpleString(b) => Val::Simple(bytes_view(b)),
        RedisValueRef::String(b) => Val::Bulk(bytes_view(b)),
        RedisValueRef::Error(b) => Val::Error(bytes_view(b)),
        RedisValueRef::Int(i) => Val::Int(i as int),
        RedisValueRef::Array(a) => Val::Array(
            Seq::new(
                a.len() as nat,
                |k: int|
                    if 0 <= k < a.len() {
                        value_of(a[k])
                    } else {
                        Val::NullArray
                    },
            ),
        ),
        RedisValueRef::NullArray => Val::NullArray,
        RedisValueRef::NullBulkString => Val::NullBulk,
    }
}

/// What the elements of an array mean.
pub open spec fn value_of_all(a: Vec<RedisValueRef>) -> Seq<Val> {
    value_of(RedisValueRef::Array(a))->Array_0
}

impl View for RedisValueRef {
    type V = Val;

    open spec fn view(&self) -> Val {
        value_of(*self)
    }
}

/// A span `start..end` of the buffer being decoded.
#[derive(Debug)]
struct BufSplit(usize, usize);

impl BufSplit {
    spec fn within(&self, len: int) -> bool {
        self.0 <= self.1 <= len
    }

    spec fn bytes_in(&self, s: Seq<u8>) -> Seq<u8> {
        s.subrange(self.0 as int, self.1 as int)
    }

    fn as_slice<'a>(&self, buf: &'a [u8]) -> (r: &'a [u8])
        requires
            self.within(buf@.len() as int),
        ensures
            r@ == self.bytes_in(buf@),
    {
        &buf[self.0..self.1]
    }

    fn as_bytes(&self, buf: &Bytes) -> (r: Bytes)
        requires
            self.within(bytes_view(*buf).len() as int),
        ensures
            bytes_view(r) == self.bytes_in(bytes_view(*buf)),
    {
        bytes_slice(buf, self.0, self.1)
    }
}

/// A decoded value whose strings are still spans of the buffer.
#[derive(Debug)]
enum RedisBufSplit {
    SimpleString(BufSplit),
    String(BufSplit),
    Error(BufSplit),
    Int(i64),
    Array(Vec<RedisBufSplit>),
    NullArray,
    NullBulkString,
}

impl RedisBufSplit {
    /// Every span lies within a buffer of length `len`.
    spec fn within(self, len: int) -> bool
        decreases self,
    {
        match self {
            RedisBufSplit::SimpleString(b) => b.within(len),
            RedisBufSplit::String(b) => b.within(len),
            RedisBufSplit::Error(b) => b.within(len),
            RedisBufSplit::Array(a) => forall|k: int|
                0 <= k < a.len() ==> (#[trigger] a[k]).within(len),
            _ => true,
        }
    }

    /// The value, its spans read from `s`.
    spec fn to_val(self, s: Seq<u8>) -> Val
        decreases self,
    {
        match self {
            RedisBufSplit::SimpleString(b) => Val::Simple(b.bytes_in(s)),
            RedisBufSplit::String(b) => Val::Bulk(b.bytes_in(s)),
            RedisBufSplit::Error(b) => Val::Error(b.bytes_in(s)),
            RedisBufSplit::Int(i) => Val::Int(i as int),
            RedisBufSplit::Array(a) => Val::Array(
                Seq::new(
                    a.len() as nat,
                    |k: int|
                        if 0 <= k < a.len() {
                            a[k].to_val(s)
                        } else {
                            Val::NullArray
                        },
                ),
            ),
            RedisBufSplit::NullArray => Val::NullArray,
            RedisBufSplit::NullBulkString => Val::NullBulk,
        }
    }

    fn redis_value(&self, buf: &Bytes) -> (r: RedisValueRef)
        requires
            self.within(bytes_view(*buf).len() as int),
        ensures
            r@ == self.to_val(bytes_view(*buf)),
        decreases self,
    {
        match self {
            RedisBufSplit::SimpleString(bfs) => RedisValueRef::SimpleString(bfs.as_bytes(buf)),
            RedisBufSplit::String(bfs) => RedisValueRef::String(bfs.as_bytes(buf)),
            RedisBufSplit::Error(bfs) => RedisValueRef::Error(bfs.as_bytes(buf)),
            RedisBufSplit::Int(i) => RedisValueRef::Int(*i),
            RedisBufSplit::NullArray => RedisValueRef::NullArray,
            RedisBufSplit::NullBulkString => RedisValueRef::NullBulkString,
            RedisBufSplit::Array(arr) => {
                let ghost s = bytes_view(*buf);
                let mut out: Vec<RedisValueRef> = Vec::new();
                let mut k: usize = 0;
                while k < arr.len()
                    invariant
                        k <= arr@.len(),
                        *self == RedisBufSplit::Array(*arr),
                        out@.len() == k,
                        s == bytes_view(*buf),
                        forall|j: int| 0 <= j < arr@.len() ==> (#[trigger] arr@[j]).within(s.len() as int),
                        forall|j: int| 0 <= j < k ==> (#[trigger] out@[j])@ == arr@[j].to_val(s),
                    decreases arr@.len() - k,
                {
                    proof {
                        assert(decreases_to!(*self => self->Array_0));
                        assert(decreases_to!(self->Array_0 => self->Array_0[k as int]));
                    }
                    let v = arr[k].redis_value(buf);
                    out.push(v);
                    k = k + 1;
                }
                let r = RedisValueRef::Array(out);
                proof {
                    assert(r@->Array_0 =~= self.to_val(s)->Array_0);
                }
                r
            },
        }
    }
}

proof fn lemma_within_grows(v: RedisBufSplit, a: int, b: int)
    requires
        v.within(a),
        a <= b,
    ensures
        v.within(b),
    decreases v,
{
    if let RedisBufSplit::Array(items) = v {
        assert forall|k: int| 0 <= k < items.len() implies (#[trigger] items[k]).within(b) by {
            lemma_within_grows(items[k], a, b);
        }
    }
}

/// A value whose spans end by `e` reads the same from any buffer that
/// begins with the same `e` bytes.
proof fn lemma_to_val_prefix(v: RedisBufSplit, s: Seq<u8>, e: int)
    requires
        v.within(e),
        0 <= e <= s.len(),
    ensures
        v.to_val(s) == v.to_val(s.subrange(0, e)),
    decreases v,
{
    let t = s.subrange(0, e);
    match v {
        RedisBufSplit::SimpleString(b) => {
            assert(b.bytes_in(s) =~= b.bytes_in(t));
        },
        RedisBufSplit::String(b) => {
            assert(b.bytes_in(s) =~= b.bytes_in(t));
        },
        RedisBufSplit::Error(b) => {
            assert(b.bytes_in(s) =~= b.bytes_in(t));
        },
        RedisBufSplit::Array(items) => {
            assert forall|k: int| 0 <= k < items.len() implies (#[trigger] items[k]).to_val(s)
                == items[k].to_val(t) by {
                lemma_to_val_prefix(items[k], s, e);
            }
            assert(v.to_val(s)->Array_0 =~= v.to_val(t)->Array_0);
        },
        _ => {},
    }
}

/// Whether an exec result of decoding at a position agrees with a `Step`.
spec fn agrees(
    r: Result<Option<(usize, RedisBufSplit)>, RESPError>,
    s: Seq<u8>,
    pos: int,
    step: Step<Val>,
) -> bool {
    match r {
        Ok(Some((e, v))) => pos < e <= s.len() && v.within(e as int) && step == Step::Done(
            v.to_val(s),
            e as int,
        ),
        Ok(None) => step == Step::<Val>::Incomplete,
        Err(x) => step == Step::<Val>::Malformed(x),
    }
}

/// Whether an exec result of reading at a position agrees with a `Step`,
/// spans read from `s` being compared by their bytes.
spec fn word_agrees(
    r: Result<Option<(usize, BufSplit)>, RESPError>,
    s: Seq<u8>,
    pos: int,
    step: Step<Seq<u8>>,
) -> bool {
    match r {
        Ok(Some((e, w))) => pos < e <= s.len() && w.within(e as int) && step == Step::Done(
            w.bytes_in(s),
            e as int,
        ),
        Ok(None) => step == Step::<Seq<u8>>::Incomplete,
        Err(x) => step == Step::<Seq<u8>>::Malformed(x),
    }
}

proof fn lemma_digits_step(w: Seq<u8>, start: int, k: int)
    requires
        0 <= start <= k < w.len(),
    ensures
        digits_value(w.subrange(start, k + 1)) == digits_value(w.subrange(start, k)) * 10 + (w[k]
            - 48) as nat,
{
    assert(w.subrange(start, k + 1).subrange(0, k - start) =~= w.subrange(start, k));
}

/// Appending digits never makes the number smaller.
proof fn lemma_digits_prefix_le(d: Seq<u8>, k: int)
    requires
        0 <= k <= d.len(),
        all_digits(d),
    ensures
        digits_value(d.subrange(0, k)) <= digits_value(d),
    decreases d.len(),
{
    if k < d.len() {
        let init = d.subrange(0, d.len() - 1);
        assert(all_digits(init)) by {
            assert forall|i: int| 0 <= i < init.len() implies is_digit(#[trigger] init[i]) by {
                assert(init[i] == d[i]);
            }
        }
        lemma_digits_prefix_le(init, k);
        assert(init.subrange(0, k) =~= d.subrange(0, k));
    } else {
        assert(d.subrange(0, k) =~= d);
    }
}

/// The integer that the line `w` spells.
pub(crate) fn int_of_word(w: &[u8]) -> (r: Option<i64>)
    ensures
        match r {
            Some(n) => int_of_text(w@) == Some(n as int),
            None => int_of_text(w@) is None,
        },
{
    let neg = w.len() > 0 && w[0] == MINUS;
    let start: usize = if neg { 1 } else { 0 };
    if start >= w.len() {
        return None;
    }
    let limit: u64 = if neg { 0x8000_0000_0000_0000 } else { 0x7fff_ffff_ffff_ffff };
    let ghost d = w@.subrange(start as int, w@.len() as int);
    proof {
        if !neg {
            assert(d =~= w@);
        }
    }
    let mut acc: u64 = 0;
    let mut k: usize = start;
    while k < w.len()
        invariant
            start <= k <= w@.len(),
            neg == (w@.len() > 0 && w@[0] == MINUS),
            start == (if neg { 1int } else { 0int }),
            limit == (if neg { 0x8000_0000_0000_0000u64 } else { 0x7fff_ffff_ffff_ffffu64 }),
            d == w@.subrange(start as int, w@.len() as int),
            !neg ==> d == w@,
            all_digits(w@.subrange(start as int, k as int)),
            acc == digits_value(w@.subrange(start as int, k as int)),
            acc <= limit,
        decreases w@.len() - k,
    {
        let b = w[k];
        if b < 48 || b > 57 {
            proof {
                assert(d[k - start] == b);
            }
            return None;
        }
        proof {
            lemma_digits_step(w@, start as int, k as int);
            assert(all_digits(w@.subrange(start as int, k + 1))) by {
                let p = w@.subrange(start as int, k + 1);
                assert forall|i: int| 0 <= i < p.len() implies is_digit(#[trigger] p[i]) by {
                    if i < k - start {
                        assert(p[i] == w@.subrange(start as int, k as int)[i]);
                    }
                }
            }
        }
        let next = match acc.checked_mul(10) {
            Some(m) => m.checked_add((b - 48) as u64),
            None => None,
        };
        match next {
            Some(x) if x <= limit => {
                acc = x;
            },
            _ => {
                proof {
                    if all_digits(d) {
                        lemma_digits_prefix_le(d, k + 1 - start);
                        assert(d.subrange(0, k + 1 - start) =~= w@.subrange(start as int, k + 1));
                    }
                }
                return None;
            },
        }
        k = k + 1;
    }
    proof {
        assert(w@.subrange(start as int, k as int) =~= d);
    }
    if neg {
        if acc == 0x8000_0000_0000_0000 {
            Some(i64::MIN)
        } else {
            Some(-(acc as i64))
        }
    } else {
        Some(acc as i64)
    }
}

/// The line that starts at `pos`.
fn word(buf: &[u8], pos: usize) -> (r: Result<Option<(usize, BufSplit)>, RESPError>)
    requires
        pos <= buf@.len(),
    ensures
        word_agrees(r, buf@, pos as int, line(buf@, pos as int)),
{
    let ghost s = buf@;
    let rest = &buf[pos..buf.len()];
    match find_byte(CR, rest) {
        None => {
            proof {
                assert forall|i: int| pos <= i < s.len() implies s[i] != CR by {
                    assert(rest@[i - pos] == s[i]);
                }
            }
            Ok(None)
        },
        Some(end) => {
            let i = pos + end;
            proof {
                assert(rest@[end as int] == s[i as int]);
                assert forall|j: int| pos <= j < i implies s[j] != CR by {
                    assert(rest@[j - pos] == s[j]);
                }
                let c = choose|c: int| pos <= c < s.len() && s[c] == CR && no_byte(s, pos as int, c, CR);
                assert(c == i);
            }
            if i + 1 >= buf.len() {
                Ok(None)
            } else if buf[i + 1] != LF {
                Err(RESPError::BadLineEnding)
            } else {
                let text = &buf[pos..i];
                match find_byte(LF, text) {
                    Some(at) => {
                        proof {
                            assert(text@[at as int] == s[pos + at]);
                        }
                        Err(RESPError::BadLineEnding)
                    },
                    None => {
                        proof {
                            assert forall|j: int| pos <= j < i implies s[j] != LF by {
                                assert(text@[j - pos] == s[j]);
                            }
                            assert(text@ =~= s.subrange(pos as int, i as int));
                        }
                        Ok(Some((i + 2, BufSplit(pos, i))))
                    },
                }
            }
        },
    }
}

type RedisResult = Result<Option<(usize, RedisBufSplit)>, RESPError>;

/// The integer on the line that starts at `pos`.
fn integer(buf: &[u8], pos: usize) -> (r: Result<Option<(usize, i64)>, RESPError>)
    requires
        pos <= buf@.len(),
    ensures
        match r {
            Ok(Some((e, n))) => pos < e <= buf@.len() && int_line(buf@, pos as int) == Step::Done(
                n as int,
                e as int,
            ),
            Ok(None) => int_line(buf@, pos as int) == Step::<int>::Incomplete,
            Err(x) => int_line(buf@, pos as int) == Step::<int>::Malformed(x),
        },
{
    match word(buf, pos) {
        Ok(Some((end, w))) => match int_of_word(w.as_slice(buf)) {
            Some(i) => Ok(Some((end, i))),
            None => Err(RESPError::IntParseFailure),
        },
        Ok(None) => Ok(None),
        Err(x) => Err(x),
    }
}

fn simple_string(buf: &[u8], pos: usize) -> (r: RedisResult)
    requires
        pos <= buf@.len(),
    ensures
        agrees(r, buf@, pos as int, text_value(buf@, pos as int, false)),
{
    match word(buf, pos) {
        Ok(Some((end, w))) => Ok(Some((end, RedisBufSplit::SimpleString(w)))),
        Ok(None) => Ok(None),
        Err(x) => Err(x),
    }
}

fn simple_error(buf: &[u8], pos: usize) -> (r: RedisResult)
    requires
        pos <= buf@.len(),
    ensures
        agrees(r, buf@, pos as int, text_value(buf@, pos as int, true)),
{
    match word(buf, pos) {
        Ok(Some((end, w))) => Ok(Some((end, RedisBufSplit::Error(w)))),
        Ok(None) => Ok(None),
        Err(x) => Err(x),
    }
}

fn resp_int(buf: &[u8], pos: usize) -> (r: RedisResult)
    requires
        pos <= buf@.len(),
    ensures
        agrees(r, buf@, pos as int, int_value(buf@, pos as int)),
{
    match integer(buf, pos) {
        Ok(Some((end, i))) => Ok(Some((end, RedisBufSplit::Int(i)))),
        Ok(None) => Ok(None),
        Err(x) => Err(x),
    }
}

fn bulk_string(buf: &[u8], pos: usize) -> (r: RedisResult)
    requires
        pos <= buf@.len(),
    ensures
        agrees(r, buf@, pos as int, bulk_value(buf@, pos as int)),
{
    match integer(buf, pos) {
        Ok(Some((pos, size))) => {
            if size == -1 {
                Ok(Some((pos, RedisBufSplit::NullBulkString)))
            } else if size < 0 {
                Err(RESPError::BadBulkStringSize(size))
            } else {
                let avail = buf.len() - pos;
                if (avail as u64) < 2 || ((avail - 2) as u64) < (size as u64) {
                    Ok(None)
                } else {
                    let total_size = pos + size as usize;
                    if buf[total_size] != CR || buf[total_size + 1] != LF {
                        Err(RESPError::BadLineEnding)
                    } else {
                        Ok(Some((total_size + 2, RedisBufSplit::String(BufSplit(pos, total_size)))))
                    }
                }
            }
        },
        Ok(None) => Ok(None),
        Err(x) => Err(x),
    }
}

/// Once reading the elements stops short, reading more of them stops at
/// the same place.
proof fn lemma_elements_stop(s: Seq<u8>, pos: int, depth: nat, m: nat, n: nat)
    requires
        m <= n,
        !(elements(s, pos, depth, m) is Done),
    ensures
        elements(s, pos, depth, n) == elements(s, pos, depth, m),
    decreases n,
{
    if m < n {
        lemma_elements_stop(s, pos, depth, m, (n - 1) as nat);
    }
}

fn array(buf: &[u8], pos: usize, depth: usize) -> (r: RedisResult)
    requires
        pos <= buf@.len(),
    ensures
        agrees(r, buf@, pos as int, array_value(buf@, pos as int, depth as nat)),
    decreases depth, 0nat,
{
    match integer(buf, pos) {
        Ok(None) => Ok(None),
        Err(x) => Err(x),
        Ok(Some((start, size))) => {
            if size == -1 {
                return Ok(Some((start, RedisBufSplit::NullArray)));
            }
            if size < 0 || size > MAX_ELEMENTS {
                return Err(RESPError::BadArraySize(size));
            }
            if depth == 0 {
                return Err(RESPError::NestingTooDeep);
            }
            let ghost s = buf@;
            let ghost inner = (depth - 1) as nat;
            let count = size as usize;
            let mut items: Vec<RedisBufSplit> = Vec::new();
            let mut curr = start;
            proof {
                assert(Seq::new(0, |j: int| items@[j].to_val(s)) =~= Seq::<Val>::empty());
            }
            let mut i: usize = 0;
            while i < count
                invariant
                    i <= count,
                    s == buf@,
                    count == size,
                    0 <= size <= MAX_ELEMENTS,
                    int_line(s, pos as int) == Step::Done(size as int, start as int),
                    inner == depth - 1,
                    depth > 0,
                    start <= curr <= s.len(),
                    pos < start,
                    items@.len() == i,
                    forall|j: int| 0 <= j < i ==> (#[trigger] items@[j]).within(curr as int),
                    elements(s, start as int, inner, i as nat) == Step::Done(
                        Seq::new(i as nat, |j: int| items@[j].to_val(s)),
                        curr as int,
                    ),
                decreases count - i,
            {
                match parse(buf, curr, depth - 1) {
                    Ok(Some((new_pos, value))) => {
                        let ghost old_vals = Seq::new(i as nat, |j: int| items@[j].to_val(s));
                        proof {
                            assert(elements(s, start as int, inner, (i + 1) as nat) == Step::Done(
                                old_vals.push(value.to_val(s)),
                                new_pos as int,
                            ));
                        }
                        proof {
                            assert forall|j: int| 0 <= j < i implies (#[trigger] items@[j]).within(
                                new_pos as int,
                            ) by {
                                lemma_within_grows(items@[j], curr as int, new_pos as int);
                            }
                        }
                        items.push(value);
                        curr = new_pos;
                        proof {
                            assert(Seq::new((i + 1) as nat, |j: int| items@[j].to_val(s))
                                =~= old_vals.push(items@[i as int].to_val(s)));
                        }
                    },
                    Ok(None) => {
                        proof {
                            lemma_elements_stop(s, start as int, inner, (i + 1) as nat, count as nat);
                        }
                        return Ok(None);
                    },
                    Err(x) => {
                        proof {
                            lemma_elements_stop(s, start as int, inner, (i + 1) as nat, count as nat);
                        }
                        return Err(x);
                    },
                }
                i = i + 1;
            }
            let r = RedisBufSplit::Array(items);
            proof {
                assert(r.to_val(s)->Array_0 =~= Seq::new(
                    count as nat,
                    |j: int| items@[j].to_val(s),
                ));
            }
            Ok(Some((curr, r)))
        },
    }
}

fn parse(buf: &[u8], pos: usize, depth: usize) -> (r: RedisResult)
    requires
        pos <= buf@.len(),
    ensures
        agrees(r, buf@, pos as int, value(buf@, pos as int, depth as nat)),
    decreases depth, 1nat,
{
    if pos >= buf.len() {
        return Ok(None);
    }
    let b = buf[pos];
    if b == PLUS {
        simple_string(buf, pos + 1)
    } else if b == MINUS {
        simple_error(buf, pos + 1)
    } else if b == COLON {
        resp_int(buf, pos + 1)
    } else if b == DOLLAR {
        bulk_string(buf, pos + 1)
    } else if b == STAR {
        array(buf, pos + 1, depth)
    } else {
        Err(RESPError::UnknownStartingByte)
    }
}

/// Decodes frames from the front of a growing buffer.
#[derive(Default)]
pub struct RespParser;

impl RespParser {
    /// Decodes the frame at the front of `buf`. On success its bytes leave
    /// the buffer and whatever follows stays; when the frame is not complete
    /// yet or is malformed, the buffer is left as it was.
    pub fn decode(&mut self, buf: &mut BytesMut) -> (r: Result<Option<RedisValueRef>, RESPError>)
        ensures
            match frame(bytes_mut_view(*old(buf))) {
                Step::Done(v, n) => {
                    &&& r matches Ok(Some(x)) && x@ == v
                    &&& bytes_mut_view(*final(buf)) == bytes_mut_view(*old(buf)).subrange(
                        n,
                        bytes_mut_view(*old(buf)).len() as int,
                    )
                },
                Step::Incomplete => {
                    &&& r matches Ok(None)
                    &&& bytes_mut_view(*final(buf)) == bytes_mut_view(*old(buf))
                },
                Step::Malformed(e) => {
                    &&& r matches Err(x) && x == e
                    &&& bytes_mut_view(*final(buf)) == bytes_mut_view(*old(buf))
                },
            },
    {
        let ghost s = bytes_mut_view(*buf);
        let data = buf_as_slice(buf);
        if data.len() == 0 {
            return Ok(None);
        }
        match parse(data, 0, MAX_DEPTH) {
            Ok(Some((pos, value))) => {
                let our_data = buf_split_to(buf, pos);
                let frozen = buf_freeze(our_data);
                proof {
                    lemma_to_val_prefix(value, s, pos as int);
                }
                Ok(Some(value.redis_value(&frozen)))
            },
            Ok(None) => Ok(None),
            Err(e) => Err(e),
        }
    }
}

/// Appends one byte.
fn put_byte(dst: &mut BytesMut, b: u8)
    requires
        bytes_mut_view(*old(dst)).len() + 1 <= isize::MAX,
    ensures
        bytes_mut_view(*final(dst)) == bytes_mut_view(*old(dst)).push(b),
{
    let one = vec![b];
    buf_extend(dst, one.as_slice());
    proof {
        assert(one@ =~= seq![b]);
    }
}

/// Appends a carriage return and a line feed.
fn put_crlf(dst: &mut BytesMut)
    requires
        bytes_mut_view(*old(dst)).len() + 2 <= isize::MAX,
    ensures
        bytes_mut_view(*final(dst)) == bytes_mut_view(*old(dst)) + crlf(),
{
    let ghost start = bytes_mut_view(*dst);
    put_byte(dst, CR);
    put_byte(dst, LF);
    proof {
        assert(bytes_mut_view(*dst) =~= start + crlf());
    }
}

/// The decimal digits of `n`.
fn decimal_digits(n: u64) -> (r: Vec<u8>)
    ensures
        r@ == decimal(n as nat),
    decreases n,
{
    if n < 10 {
        let r = vec![(48 + n) as u8];
        proof {
            assert(r@ =~= decimal(n as nat));
        }
        r
    } else {
        let mut r = decimal_digits(n / 10);
        r.push((48 + n % 10) as u8);
        proof {
            assert(r@ =~= decimal(n as nat));
        }
        r
    }
}

/// Appends `i` in decimal.
fn put_int(dst: &mut BytesMut, i: i64)
    requires
        bytes_mut_view(*old(dst)).len() + int_text(i as int).len() <= isize::MAX,
    ensures
        bytes_mut_view(*final(dst)) == bytes_mut_view(*old(dst)) + int_text(i as int),
{
    let ghost start = bytes_mut_view(*dst);
    if i < 0 {
        let magnitude: u64 = if i == i64::MIN {
            0x8000_0000_0000_0000
        } else {
            (-i) as u64
        };
        put_byte(dst, MINUS);
        let digits = decimal_digits(magnitude);
        buf_extend(dst, digits.as_slice());
        proof {
            assert(bytes_mut_view(*dst) =~= start + int_text(i as int));
        }
    } else {
        let digits = decimal_digits(i as u64);
        buf_extend(dst, digits.as_slice());
    }
}

/// Appends a length in decimal.
fn put_len(dst: &mut BytesMut, n: usize)
    requires
        bytes_mut_view(*old(dst)).len() + int_text(n as int).len() <= isize::MAX,
    ensures
        bytes_mut_view(*final(dst)) == bytes_mut_view(*old(dst)) + int_text(n as int),
{
    let digits = decimal_digits(n as u64);
    buf_extend(dst, digits.as_slice());
}

proof fn lemma_encode_all_step(items: Seq<Val>, k: int)
    requires
        0 <= k < items.len(),
    ensures
        encode_all(items.subrange(0, k + 1)) == encode_all(items.subrange(0, k)) + encode_val(
            items[k],
        ),
{
    assert(items.subrange(0, k + 1).subrange(0, k) =~= items.subrange(0, k));
}

proof fn lemma_encode_all_prefix_len(items: Seq<Val>, k: int)
    requires
        0 <= k <= items.len(),
    ensures
        encode_all(items.subrange(0, k)).len() <= encode_all(items).len(),
    decreases items.len() - k,
{
    if k < items.len() {
        lemma_encode_all_step(items, k);
        lemma_encode_all_prefix_len(items, k + 1);
    } else {
        assert(items.subrange(0, k) =~= items);
    }
}

fn write_redis_value(item: &RedisValueRef, dst: &mut BytesMut)
    requires
        bytes_mut_view(*old(dst)).len() + encode_val(item@).len() <= isize::MAX,
    ensures
        bytes_mut_view(*final(dst)) == bytes_mut_view(*old(dst)) + encode_val(item@),
    decreases item,
{
    let ghost start = bytes_mut_view(*dst);
    match item {
        RedisValueRef::SimpleString(s) => {
            put_byte(dst, PLUS);
            buf_extend(dst, bytes_as_slice(s));
            put_crlf(dst);
        },
        RedisValueRef::Error(e) => {
            put_byte(dst, MINUS);
            buf_extend(dst, bytes_as_slice(e));
            put_crlf(dst);
        },
        RedisValueRef::Int(i) => {
            put_byte(dst, COLON);
            put_int(dst, *i);
            put_crlf(dst);
        },
        RedisValueRef::String(s) => {
            let data = bytes_as_slice(s);
            put_byte(dst, DOLLAR);
            put_len(dst, data.len());
            put_crlf(dst);
            buf_extend(dst, data);
            put_crlf(dst);
        },
        RedisValueRef::NullBulkString => {
            put_byte(dst, DOLLAR);
            put_int(dst, -1);
            put_crlf(dst);
        },
        RedisValueRef::NullArray => {
            put_byte(dst, STAR);
            put_int(dst, -1);
            put_crlf(dst);
        },
        RedisValueRef::Array(array) => {
            let ghost items = value_of_all(*array);
            put_byte(dst, STAR);
            put_len(dst, array.len());
            put_crlf(dst);
            let ghost head = bytes_mut_view(*dst);
            proof {
                assert(items.subrange(0, 0) =~= Seq::<Val>::empty());
            }
            let mut k: usize = 0;
            while k < array.len()
                invariant
                    k <= array@.len(),
                    *item == RedisValueRef::Array(*array),
                    items == value_of_all(*array),
                    items.len() == array@.len(),
                    head.len() + encode_all(items).len() <= isize::MAX,
                    bytes_mut_view(*dst) == head + encode_all(items.subrange(0, k as int)),
                decreases array@.len() - k,
            {
                proof {
                    assert(decreases_to!(*item => item->Array_0));
                    assert(decreases_to!(item->Array_0 => item->Array_0[k as int]));
                    lemma_encode_all_step(items, k as int);
                    lemma_encode_all_prefix_len(items, k + 1);
                    assert(items[k as int] == array[k as int]@);
                }
                write_redis_value(&array[k], dst);
                k = k + 1;
            }
            proof {
                assert(items.subrange(0, k as int) =~= items);
                assert(bytes_mut_view(*dst) =~= start + encode_val(item@));
            }
        },
    }
    proof {
        assert(bytes_mut_view(*dst) =~= start + encode_val(item@));
    }
}

/// Encodes values onto the end of a buffer.
#[derive(Default)]
pub struct RedisEncoder;

impl RedisEncoder {
    /// Appends the wire form of `item` to `dst`.
    pub fn encode(&mut self, item: RedisValueRef, dst: &mut BytesMut)
        requires
            bytes_mut_view(*old(dst)).len() + encode_val(item@).len() <= isize::MAX,
        ensures
            bytes_mut_view(*final(dst)) == bytes_mut_view(*old(dst)) + encode_val(item@),
    {
        write_redis_value(&item, dst);
    }
}

} // verus!
