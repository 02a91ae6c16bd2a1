//! What decoding makes of encoded values: the wire format reads back
//! exactly, a frame cut short asks for more bytes, and frames that follow
//! one another are read one at a time.
use crate::wire::{
    all_digits, array_value, crlf, decimal, digits_value, elements, encode_all, encode_val, frame,
    int_line, int_of_text, int_text, is_digit, is_line_text, line, no_byte, representable,
    representable_at, value, Step, Val, COLON, CR, DOLLAR, LF, MAX_DEPTH, MINUS, PLUS, STAR,
};
use vstd::prelude::*;

verus! {

proof fn lemma_decimal(n: nat)
    ensures
        decimal(n).len() >= 1,
        all_digits(decimal(n)),
        digits_value(decimal(n)) == n,
    decreases n,
{
    let w = decimal(n);
    if n >= 10 {
        lemma_decimal(n / 10);
        let h = decimal(n / 10);
        assert(w.subrange(0, w.len() - 1) =~= h);
        assert forall|i: int| 0 <= i < w.len() implies is_digit(#[trigger] w[i]) by {
            if i < h.len() {
                assert(w[i] == h[i]);
            }
        }
        assert(n == (n / 10) * 10 + n % 10) by (nonlinear_arith);
        assert(w[w.len() - 1] == (48 + n % 10) as u8);
        assert(digits_value(w) == digits_value(h) * 10 + (n % 10));
    } else {
        assert(w.subrange(0, 0) =~= Seq::<u8>::empty());
        assert(w[0] == (48 + n) as u8);
        assert(digits_value(w) == digits_value(w.subrange(0, 0)) * 10 + n);
    }
}

/// Decimal text holds neither line break nor minus sign.
proof fn lemma_digits_plain(w: Seq<u8>)
    requires
        all_digits(w),
    ensures
        is_line_text(w),
        forall|i: int| 0 <= i < w.len() ==> w[i] != MINUS,
{
    assert forall|i: int| 0 <= i < w.len() implies w[i] != CR && w[i] != LF && w[i] != MINUS by {
        assert(is_digit(w[i]));
    }
}

/// The text of an integer reads back as that integer.
proof fn lemma_int_text(i: int)
    requires
        i64::MIN <= i <= i64::MAX,
    ensures
        int_of_text(int_text(i)) == Some(i),
        is_line_text(int_text(i)),
{
    let w = int_text(i);
    if i < 0 {
        let d = decimal((-i) as nat);
        lemma_decimal((-i) as nat);
        lemma_digits_plain(d);
        assert(w.subrange(1, w.len() as int) =~= d);
        assert forall|k: int| 0 <= k < w.len() implies w[k] != CR && w[k] != LF by {
            if k > 0 {
                assert(w[k] == d[k - 1]);
            }
        }
    } else {
        lemma_decimal(i as nat);
        lemma_digits_plain(w);
    }
}

/// A line of text followed by its line ending reads back as that text.
proof fn lemma_line_whole(s: Seq<u8>, pos: int, t: Seq<u8>)
    requires
        is_line_text(t),
        0 <= pos,
        pos + t.len() + 2 <= s.len(),
        s.subrange(pos, pos + t.len() + 2) == t + crlf(),
    ensures
        line(s, pos) == Step::Done(t, pos + t.len() + 2),
{
    let i = pos + t.len();
    let u = t + crlf();
    assert(s[i] == u[t.len() as int]);
    assert(s[i + 1] == u[t.len() as int + 1]);
    assert forall|j: int| pos <= j < i implies s[j] != CR && s[j] != LF by {
        assert(s[j] == u[j - pos]);
        assert(u[j - pos] == t[j - pos]);
    }
    let c = choose|c: int| pos <= c < s.len() && s[c] == CR && no_byte(s, pos, c, CR);
    assert(c == i);
    assert(s.subrange(pos, i) =~= t) by {
        assert forall|j: int| 0 <= j < t.len() implies s.subrange(pos, i)[j] == t[j] by {
            assert(s[pos + j] == u[j]);
        }
    }
}

/// A line of text cut short before its line ending is complete asks for more bytes.
proof fn lemma_line_cut(s: Seq<u8>, pos: int, t: Seq<u8>)
    requires
        is_line_text(t),
        0 <= pos <= s.len(),
        s.len() < pos + t.len() + 2,
        s.subrange(pos, s.len() as int) == (t + crlf()).subrange(0, s.len() - pos),
    ensures
        line(s, pos) == Step::<Seq<u8>>::Incomplete,
{
    let u = t + crlf();
    assert forall|j: int| pos <= j < s.len() && j < pos + t.len() implies s[j] != CR by {
        assert(s[j] == s.subrange(pos, s.len() as int)[j - pos]);
        assert(u[j - pos] == t[j - pos]);
    }
    if s.len() == pos + t.len() + 1 {
        let i = pos + t.len();
        assert(s[i] == s.subrange(pos, s.len() as int)[t.len() as int]);
        let c = choose|c: int| pos <= c < s.len() && s[c] == CR && no_byte(s, pos, c, CR);
        assert(c == i);
    }
}

/// The bytes at `pos` of `s` are `w`.
pub open spec fn holds_at(s: Seq<u8>, pos: int, w: Seq<u8>) -> bool {
    &&& 0 <= pos
    &&& pos + w.len() <= s.len()
    &&& s.subrange(pos, pos + w.len()) == w
}

/// The bytes of `s` from `pos` on begin `w`, which runs past the end of `s`.
pub open spec fn cut_at(s: Seq<u8>, pos: int, w: Seq<u8>) -> bool {
    &&& 0 <= pos <= s.len()
    &&& s.len() < pos + w.len()
    &&& s.subrange(pos, s.len() as int) == w.subrange(0, s.len() - pos)
}

/// Where `w = a + b` stands at `pos`, `b` stands just after `a`.
proof fn lemma_holds_split(s: Seq<u8>, pos: int, a: Seq<u8>, b: Seq<u8>)
    requires
        holds_at(s, pos, a + b),
    ensures
        holds_at(s, pos, a),
        holds_at(s, pos + a.len(), b),
{
    assert(s.subrange(pos, pos + a.len()) =~= (a + b).subrange(0, a.len() as int));
    assert((a + b).subrange(0, a.len() as int) =~= a);
    assert(s.subrange(pos + a.len(), pos + a.len() + b.len()) =~= (a + b).subrange(
        a.len() as int,
        (a + b).len() as int,
    ));
    assert((a + b).subrange(a.len() as int, (a + b).len() as int) =~= b);
}

/// Where `a + b` is cut short at `pos`: either `a` is cut short, or `a`
/// stands whole and `b` is cut short after it.
proof fn lemma_cut_split(s: Seq<u8>, pos: int, a: Seq<u8>, b: Seq<u8>)
    requires
        cut_at(s, pos, a + b),
    ensures
        s.len() < pos + a.len() ==> cut_at(s, pos, a),
        s.len() >= pos + a.len() ==> holds_at(s, pos, a) && cut_at(s, pos + a.len(), b),
{
    let w = a + b;
    let m = s.len() - pos;
    if s.len() < pos + a.len() {
        assert(w.subrange(0, m) =~= a.subrange(0, m));
    } else {
        assert(s.subrange(pos, pos + a.len()) =~= s.subrange(pos, s.len() as int).subrange(
            0,
            a.len() as int,
        ));
        assert(w.subrange(0, m).subrange(0, a.len() as int) =~= a);
        assert(s.subrange(pos + a.len(), s.len() as int) =~= s.subrange(
            pos,
            s.len() as int,
        ).subrange(a.len() as int, m));
        assert(w.subrange(0, m).subrange(a.len() as int, m) =~= b.subrange(0, m - a.len()));
    }
}

/// A line whose text is that of the integer `i` reads back as `i`.
proof fn lemma_int_line_whole(s: Seq<u8>, pos: int, i: int)
    requires
        i64::MIN <= i <= i64::MAX,
        holds_at(s, pos, int_text(i) + crlf()),
    ensures
        int_line(s, pos) == Step::Done(i, pos + int_text(i).len() + 2),
{
    lemma_int_text(i);
    lemma_line_whole(s, pos, int_text(i));
}

proof fn lemma_int_line_cut(s: Seq<u8>, pos: int, i: int)
    requires
        i64::MIN <= i <= i64::MAX,
        cut_at(s, pos, int_text(i) + crlf()),
    ensures
        int_line(s, pos) == Step::<int>::Incomplete,
{
    lemma_int_text(i);
    lemma_line_cut(s, pos, int_text(i));
}

/// The header of a value: its type byte, then a line.
proof fn lemma_header(v: Val, tag: u8, t: Seq<u8>, body: Seq<u8>)
    requires
        encode_val(v) == seq![tag] + t + crlf() + body,
    ensures
        encode_val(v) == seq![tag] + ((t + crlf()) + body),
{
    assert(seq![tag] + t + crlf() + body =~= seq![tag] + ((t + crlf()) + body));
}

/// An encoded value reads back as itself, whatever follows it.
proof fn lemma_value_whole(v: Val, s: Seq<u8>, pos: int, depth: nat)
    requires
        representable_at(v, depth),
        holds_at(s, pos, encode_val(v)),
    ensures
        value(s, pos, depth) == Step::Done(v, pos + encode_val(v).len()),
    decreases v, 0nat,
{
    let w = encode_val(v);
    assert(s[pos] == w[0]);
    match v {
        Val::Simple(t) => {
            lemma_header(v, PLUS, t, Seq::empty());
            lemma_holds_split(s, pos, seq![PLUS], (t + crlf()) + Seq::<u8>::empty());
            assert((t + crlf()) + Seq::<u8>::empty() =~= t + crlf());
            lemma_line_whole(s, pos + 1, t);
        },
        Val::Error(t) => {
            lemma_header(v, MINUS, t, Seq::empty());
            lemma_holds_split(s, pos, seq![MINUS], (t + crlf()) + Seq::<u8>::empty());
            assert((t + crlf()) + Seq::<u8>::empty() =~= t + crlf());
            lemma_line_whole(s, pos + 1, t);
        },
        Val::Int(i) => {
            lemma_header(v, COLON, int_text(i), Seq::empty());
            lemma_holds_split(s, pos, seq![COLON], (int_text(i) + crlf()) + Seq::<u8>::empty());
            assert((int_text(i) + crlf()) + Seq::<u8>::empty() =~= int_text(i) + crlf());
            lemma_int_line_whole(s, pos + 1, i);
        },
        Val::NullBulk => {
            lemma_header(v, DOLLAR, int_text(-1), Seq::empty());
            lemma_holds_split(s, pos, seq![DOLLAR], (int_text(-1) + crlf()) + Seq::<u8>::empty());
            assert((int_text(-1) + crlf()) + Seq::<u8>::empty() =~= int_text(-1) + crlf());
            lemma_int_line_whole(s, pos + 1, -1);
        },
        Val::NullArray => {
            lemma_header(v, STAR, int_text(-1), Seq::empty());
            lemma_holds_split(s, pos, seq![STAR], (int_text(-1) + crlf()) + Seq::<u8>::empty());
            assert((int_text(-1) + crlf()) + Seq::<u8>::empty() =~= int_text(-1) + crlf());
            lemma_int_line_whole(s, pos + 1, -1);
        },
        Val::Bulk(b) => {
            let n = b.len() as int;
            let h = int_text(n);
            assert(encode_val(v) =~= seq![DOLLAR] + h + crlf() + (b + crlf()));
            lemma_header(v, DOLLAR, h, b + crlf());
            lemma_holds_split(s, pos, seq![DOLLAR], (h + crlf()) + (b + crlf()));
            lemma_holds_split(s, pos + 1, h + crlf(), b + crlf());
            lemma_int_line_whole(s, pos + 1, n);
            let q = pos + 1 + h.len() + 2;
            lemma_holds_split(s, q, b, crlf());
            assert(s[q + n] == s.subrange(q + n, q + n + 2)[0]);
            assert(s[q + n + 1] == s.subrange(q + n, q + n + 2)[1]);
        },
        Val::Array(items) => {
            let n = items.len() as int;
            let h = int_text(n);
            lemma_header(v, STAR, h, encode_all(items));
            lemma_holds_split(s, pos, seq![STAR], (h + crlf()) + encode_all(items));
            lemma_holds_split(s, pos + 1, h + crlf(), encode_all(items));
            lemma_int_line_whole(s, pos + 1, n);
            let q = pos + 1 + h.len() + 2;
            assert(items.subrange(0, n) =~= items);
            lemma_elements_whole(items, s, q, (depth - 1) as nat, n as nat);
        },
    }
}

/// The encodings of the first `k` items, one after another, read back as
/// those items.
proof fn lemma_elements_whole(items: Seq<Val>, s: Seq<u8>, pos: int, depth: nat, k: nat)
    requires
        k <= items.len(),
        forall|j: int| 0 <= j < items.len() ==> representable_at(#[trigger] items[j], depth),
        holds_at(s, pos, encode_all(items.subrange(0, k as int))),
    ensures
        elements(s, pos, depth, k) == Step::Done(
            items.subrange(0, k as int),
            pos + encode_all(items.subrange(0, k as int)).len(),
        ),
    decreases items, k,
{
    if k == 0 {
        assert(items.subrange(0, 0) =~= Seq::<Val>::empty());
    } else {
        let init = items.subrange(0, k - 1);
        let part = items.subrange(0, k as int);
        assert(part.subrange(0, k - 1) =~= init);
        assert(part[k - 1] == items[k - 1]);
        lemma_holds_split(s, pos, encode_all(init), encode_val(items[k - 1]));
        lemma_elements_whole(items, s, pos, depth, (k - 1) as nat);
        lemma_value_whole(items[k - 1], s, pos + encode_all(init).len(), depth);
        assert(init.push(items[k - 1]) =~= part);
    }
}

/// A value cut short asks for more bytes.
proof fn lemma_value_cut(v: Val, s: Seq<u8>, pos: int, depth: nat)
    requires
        representable_at(v, depth),
        cut_at(s, pos, encode_val(v)),
    ensures
        value(s, pos, depth) == Step::<Val>::Incomplete,
    decreases v, 0nat,
{
    let w = encode_val(v);
    if pos < s.len() {
        assert(s[pos] == s.subrange(pos, s.len() as int)[0]);
        assert(s[pos] == w[0]);
        match v {
            Val::Simple(t) => {
                lemma_header(v, PLUS, t, Seq::empty());
                lemma_cut_split(s, pos, seq![PLUS], (t + crlf()) + Seq::<u8>::empty());
                assert((t + crlf()) + Seq::<u8>::empty() =~= t + crlf());
                lemma_line_cut(s, pos + 1, t);
            },
            Val::Error(t) => {
                lemma_header(v, MINUS, t, Seq::empty());
                lemma_cut_split(s, pos, seq![MINUS], (t + crlf()) + Seq::<u8>::empty());
                assert((t + crlf()) + Seq::<u8>::empty() =~= t + crlf());
                lemma_line_cut(s, pos + 1, t);
            },
            Val::Int(i) => {
                lemma_header(v, COLON, int_text(i), Seq::empty());
                lemma_cut_split(s, pos, seq![COLON], (int_text(i) + crlf()) + Seq::<u8>::empty());
                assert((int_text(i) + crlf()) + Seq::<u8>::empty() =~= int_text(i) + crlf());
                lemma_int_line_cut(s, pos + 1, i);
            },
            Val::NullBulk => {
                lemma_header(v, DOLLAR, int_text(-1), Seq::empty());
                lemma_cut_split(s, pos, seq![DOLLAR], (int_text(-1) + crlf()) + Seq::<u8>::empty());
                assert((int_text(-1) + crlf()) + Seq::<u8>::empty() =~= int_text(-1) + crlf());
                lemma_int_line_cut(s, pos + 1, -1);
            },
            Val::NullArray => {
                lemma_header(v, STAR, int_text(-1), Seq::empty());
                lemma_cut_split(s, pos, seq![STAR], (int_text(-1) + crlf()) + Seq::<u8>::empty());
                assert((int_text(-1) + crlf()) + Seq::<u8>::empty() =~= int_text(-1) + crlf());
                lemma_int_line_cut(s, pos + 1, -1);
            },
            Val::Bulk(b) => {
                let n = b.len() as int;
                let h = int_text(n);
                assert(encode_val(v) =~= seq![DOLLAR] + h + crlf() + (b + crlf()));
            lemma_header(v, DOLLAR, h, b + crlf());
                lemma_cut_split(s, pos, seq![DOLLAR], (h + crlf()) + (b + crlf()));
                lemma_cut_split(s, pos + 1, h + crlf(), b + crlf());
                if s.len() < pos + 1 + (h + crlf()).len() {
                    lemma_int_line_cut(s, pos + 1, n);
                } else {
                    lemma_int_line_whole(s, pos + 1, n);
                }
            },
            Val::Array(items) => {
                let n = items.len() as int;
                let h = int_text(n);
                lemma_header(v, STAR, h, encode_all(items));
                lemma_cut_split(s, pos, seq![STAR], (h + crlf()) + encode_all(items));
                lemma_cut_split(s, pos + 1, h + crlf(), encode_all(items));
                if s.len() < pos + 1 + (h + crlf()).len() {
                    lemma_int_line_cut(s, pos + 1, n);
                } else {
                    lemma_int_line_whole(s, pos + 1, n);
                    let q = pos + 1 + h.len() + 2;
                    assert(items.subrange(0, n) =~= items);
                    lemma_elements_cut(items, s, q, (depth - 1) as nat, n as nat);
                }
            },
        }
    }
}

/// The encodings of the first `k` items cut short ask for more bytes.
proof fn lemma_elements_cut(items: Seq<Val>, s: Seq<u8>, pos: int, depth: nat, k: nat)
    requires
        k <= items.len(),
        forall|j: int| 0 <= j < items.len() ==> representable_at(#[trigger] items[j], depth),
        cut_at(s, pos, encode_all(items.subrange(0, k as int))),
    ensures
        elements(s, pos, depth, k) == Step::<Seq<Val>>::Incomplete,
    decreases items, k,
{
    if k == 0 {
        assert(items.subrange(0, 0) =~= Seq::<Val>::empty());
    } else {
        let init = items.subrange(0, k - 1);
        let part = items.subrange(0, k as int);
        assert(part.subrange(0, k - 1) =~= init);
        assert(part[k - 1] == items[k - 1]);
        lemma_cut_split(s, pos, encode_all(init), encode_val(items[k - 1]));
        if s.len() < pos + encode_all(init).len() {
            lemma_elements_cut(items, s, pos, depth, (k - 1) as nat);
        } else {
            lemma_elements_whole(items, s, pos, depth, (k - 1) as nat);
            lemma_value_cut(items[k - 1], s, pos + encode_all(init).len(), depth);
        }
    }
}

/// A line read from a buffer holds no line break.
proof fn lemma_line_text(s: Seq<u8>, pos: int)
    requires
        0 <= pos,
        line(s, pos) is Done,
    ensures
        is_line_text(line(s, pos)->Done_0),
{
    assert(exists|i: int| pos <= i < s.len() && s[i] == CR && no_byte(s, pos, i, CR));
    let i = choose|i: int| pos <= i < s.len() && s[i] == CR && no_byte(s, pos, i, CR);
    let t = s.subrange(pos, i);
    assert(line(s, pos)->Done_0 == t);
    assert(no_byte(s, pos, i, LF));
    assert forall|j: int| 0 <= j < t.len() implies t[j] != CR && t[j] != LF by {
        assert(t[j] == s[pos + j]);
    }
}

proof fn lemma_int_line_range(s: Seq<u8>, pos: int)
    requires
        int_line(s, pos) is Done,
    ensures
        i64::MIN <= int_line(s, pos)->Done_0 <= i64::MAX,
{
}

proof fn lemma_decoded_value(s: Seq<u8>, pos: int, depth: nat)
    requires
        value(s, pos, depth) is Done,
    ensures
        representable_at(value(s, pos, depth)->Done_0, depth),
    decreases depth, 0nat, 1nat,
{
    if s[pos] == PLUS || s[pos] == MINUS {
        lemma_line_text(s, pos + 1);
    } else if s[pos] == COLON {
        lemma_int_line_range(s, pos + 1);
    } else if s[pos] == DOLLAR {
        lemma_int_line_range(s, pos + 1);
    } else if s[pos] == STAR {
        lemma_decoded_array(s, pos + 1, depth);
    }
}

proof fn lemma_decoded_array(s: Seq<u8>, pos: int, depth: nat)
    requires
        array_value(s, pos, depth) is Done,
    ensures
        representable_at(array_value(s, pos, depth)->Done_0, depth),
    decreases depth, 0nat, 0nat,
{
    let n = int_line(s, pos)->Done_0;
    let q = int_line(s, pos)->Done_1;
    if n != -1 {
        lemma_decoded_elements(s, q, (depth - 1) as nat, n as nat);
    }
}

proof fn lemma_decoded_elements(s: Seq<u8>, pos: int, depth: nat, n: nat)
    requires
        elements(s, pos, depth, n) is Done,
    ensures
        elements(s, pos, depth, n)->Done_0.len() == n,
        forall|k: int|
            0 <= k < n ==> representable_at(
                #[trigger] elements(s, pos, depth, n)->Done_0[k],
                depth,
            ),
    decreases depth, n + 1, 0nat,
{
    if n > 0 {
        lemma_decoded_elements(s, pos, depth, (n - 1) as nat);
        let p = elements(s, pos, depth, (n - 1) as nat)->Done_1;
        lemma_decoded_value(s, p, depth);
    }
}

/// Decoding yields only representable values: text without line breaks,
/// integers within `i64`, and arrays within the limits on length and
/// nesting. Such a value therefore encodes to a frame that decodes back to
/// it.
pub proof fn decoded_values_are_representable(s: Seq<u8>)
    requires
        frame(s) is Done,
    ensures
        representable(frame(s)->Done_0),
        frame(encode_val(frame(s)->Done_0)) == Step::Done(
            frame(s)->Done_0,
            encode_val(frame(s)->Done_0).len() as int,
        ),
{
    lemma_decoded_value(s, 0, MAX_DEPTH as nat);
    round_trip(frame(s)->Done_0, Seq::empty());
}

/// Round trip: a representable value, encoded and then decoded, comes back
/// unchanged, and decoding consumes exactly its encoding, whatever bytes
/// follow it in the buffer.
pub proof fn round_trip(v: Val, rest: Seq<u8>)
    requires
        representable(v),
    ensures
        frame(encode_val(v) + rest) == Step::Done(v, encode_val(v).len() as int),
        frame(encode_val(v)) == Step::Done(v, encode_val(v).len() as int),
{
    let w = encode_val(v);
    assert((w + rest).subrange(0, w.len() as int) =~= w);
    lemma_value_whole(v, w + rest, 0, MAX_DEPTH as nat);
    assert(w.subrange(0, w.len() as int) =~= w);
    lemma_value_whole(v, w, 0, MAX_DEPTH as nat);
}

/// Incremental feed: a frame split at any offset before its end is
/// incomplete after the first part, and once the second part is appended
/// it decodes to the same value as the whole frame.
pub proof fn incremental_feed(v: Val, k: int)
    requires
        representable(v),
        0 <= k < encode_val(v).len(),
    ensures
        frame(encode_val(v).subrange(0, k)) == Step::<Val>::Incomplete,
        frame(
            encode_val(v).subrange(0, k) + encode_val(v).subrange(k, encode_val(v).len() as int),
        ) == Step::Done(v, encode_val(v).len() as int),
{
    let w = encode_val(v);
    let first = w.subrange(0, k);
    assert(first.subrange(0, k) =~= w.subrange(0, k - 0));
    lemma_value_cut(v, first, 0, MAX_DEPTH as nat);
    assert(first + w.subrange(k, w.len() as int) =~= w);
    round_trip(v, Seq::empty());
}

/// Pipelining: two frames one after another decode in order; after the
/// first decode removes its bytes, exactly the second frame remains, and it
/// decodes with its own length.
pub proof fn pipelining(a: Val, b: Val)
    requires
        representable(a),
        representable(b),
    ensures
        frame(encode_val(a) + encode_val(b)) == Step::Done(a, encode_val(a).len() as int),
        (encode_val(a) + encode_val(b)).subrange(
            encode_val(a).len() as int,
            (encode_val(a) + encode_val(b)).len() as int,
        ) == encode_val(b),
        frame(encode_val(b)) == Step::Done(b, encode_val(b).len() as int),
{
    round_trip(a, encode_val(b));
    round_trip(b, Seq::empty());
    let w = encode_val(a) + encode_val(b);
    assert(w.subrange(encode_val(a).len() as int, w.len() as int) =~= encode_val(b));
}

} // verus!
