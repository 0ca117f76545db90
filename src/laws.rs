use vstd::prelude::*;
use vstd::utf8::*;

use crate::parser::{
    crlf_at, crlf_from, decimal_of, err, first_crlf, is_digit, is_sign, scan_digits, split_line_of,
    ParseErrorKind, COLON, DOLLAR, MAX_OVER_BASE, MINUS, PLUS, STAR, ZERO,
};
use crate::types::{
    decimal_text, decode_bulk, decode_int, decode_items, decode_value, digits_of,
    encode, encode_all, int_tags, lemma_encode_all_concat, model_of, tagged_line, text_tags, RespModel, RespValue,
};
use crate::writer::crlf;

verus! {

broadcast use {encode_utf8_valid_utf8, encode_utf8_decode_utf8};

/// Integers whose decimal text decodes back: the conservative overflow guard
/// rejects magnitudes from `MAX_OVER_BASE * 10` up.
pub open spec fn int_in_reach(i: int) -> bool {
    -(MAX_OVER_BASE * 10) < i < MAX_OVER_BASE * 10
}

pub open spec fn has_no_crlf(b: Seq<u8>) -> bool {
    forall|j: int| !crlf_at(b, j)
}

/// Values that decoding gives back from their own encoding: no null marker,
/// no `\r\n` inside text, integers and lengths within `int_in_reach`.
pub open spec fn round_trips(m: RespModel) -> bool
    decreases m,
{
    match m {
        RespModel::Null => false,
        RespModel::Simple(t) => has_no_crlf(encode_utf8(t)),
        RespModel::Error(t) => has_no_crlf(encode_utf8(t)),
        RespModel::Integer(i) => int_in_reach(i),
        RespModel::Bulk(t) => has_no_crlf(encode_utf8(t)) && int_in_reach(encode_utf8(t).len() as int),
        RespModel::Array(items) => int_in_reach(items.len() as int) && all_round_trip(items),
    }
}

pub open spec fn all_round_trip(items: Seq<RespModel>) -> bool
    decreases items,
{
    if items.len() == 0 {
        true
    } else {
        round_trips(items[0]) && all_round_trip(items.drop_first())
    }
}

// ---------------------------------------------------------------
// Decimal text
// ---------------------------------------------------------------

proof fn lemma_scan_push(s: Seq<u8>, d: u8, acc: int)
    requires
        scan_digits(s, acc) is Ok,
    ensures
        scan_digits(s.push(d), acc) == ({
            let v = scan_digits(s, acc)->Ok_0;
            if !is_digit(d) {
                err::<int>(ParseErrorKind::InvalidIntegerData { data: d })
            } else if v >= MAX_OVER_BASE {
                err::<int>(ParseErrorKind::IntegerOverflow)
            } else {
                Ok(v * 10 + (d - ZERO))
            }
        }),
    decreases s.len(),
{
    reveal_with_fuel(scan_digits, 2);
    if s.len() == 0 {
        assert(seq![d].drop_first() =~= Seq::<u8>::empty());
        assert(s.push(d) =~= seq![d]);
    } else {
        assert(s.push(d)[0] == s[0]);
        assert(s.push(d).drop_first() =~= s.drop_first().push(d));
        lemma_scan_push(s.drop_first(), d, acc * 10 + (s[0] - ZERO));
    }
}

proof fn lemma_digits_shape(n: nat)
    ensures
        digits_of(n).len() >= 1,
        forall|j: int| 0 <= j < digits_of(n).len() ==> is_digit(#[trigger] digits_of(n)[j]),
        n < 10000000000000000000 ==> digits_of(n).len() <= 19,
        n < 1000000000000000000 ==> digits_of(n).len() <= 18,
    decreases n,
{
    if n >= 10 {
        lemma_digits_shape(n / 10);
        lemma_digits_len(n / 10);
    }
    lemma_digits_len(n);
}

spec fn pow10(k: nat) -> nat
    decreases k,
{
    if k == 0 {
        1
    } else {
        10 * pow10((k - 1) as nat)
    }
}

proof fn lemma_digits_len_k(n: nat, k: nat)
    requires
        k >= 1,
        n < pow10(k),
    ensures
        digits_of(n).len() <= k,
    decreases n,
{
    if n >= 10 {
        assert(k >= 2) by {
            if k == 1 {
                assert(pow10(1) == 10) by {
                    reveal_with_fuel(pow10, 2);
                }
            }
        }
        assert(n / 10 < pow10((k - 1) as nat)) by (nonlinear_arith)
            requires
                n < pow10(k),
                pow10(k) == 10 * pow10((k - 1) as nat),
        ;
        lemma_digits_len_k(n / 10, (k - 1) as nat);
    }
}

proof fn lemma_digits_len(n: nat)
    ensures
        n < 10000000000000000000 ==> digits_of(n).len() <= 19,
        n < 1000000000000000000 ==> digits_of(n).len() <= 18,
{
    assert(pow10(19) == 10000000000000000000) by {
        reveal_with_fuel(pow10, 20);
    }
    assert(pow10(18) == 1000000000000000000) by {
        reveal_with_fuel(pow10, 19);
    }
    if n < 10000000000000000000 {
        lemma_digits_len_k(n, 19);
    }
    if n < 1000000000000000000 {
        lemma_digits_len_k(n, 18);
    }
}

proof fn lemma_scan_digits_of(n: nat)
    requires
        n < MAX_OVER_BASE * 10,
    ensures
        scan_digits(digits_of(n), 0) == Ok::<int, crate::parser::ParseError>(n as int),
    decreases n,
{
    reveal_with_fuel(scan_digits, 2);
    if n < 10 {
        assert(digits_of(n).drop_first() =~= Seq::<u8>::empty());
    } else {
        let d = (ZERO + n % 10) as u8;
        assert(n / 10 < MAX_OVER_BASE);
        assert((n / 10) * 10 + n % 10 == n);
        lemma_scan_digits_of(n / 10);
        lemma_digits_shape(n);
        assert(digits_of(n) == digits_of(n / 10).push(d));
        lemma_scan_push(digits_of(n / 10), d, 0);
    }
}

/// Decimal text decodes back to its integer for every integer within
/// `int_in_reach`, whether written with `-`, with `+` or without a sign.
pub proof fn lemma_decimal_round_trip(i: int)
    requires
        int_in_reach(i),
    ensures
        decimal_of(decimal_text(i)) == Ok::<i64, crate::parser::ParseError>(i as i64),
        i >= 0 ==> decimal_of(seq![PLUS] + decimal_text(i)) == Ok::<
            i64,
            crate::parser::ParseError,
        >(i as i64),
{
    let n: nat = if i < 0 {
        (-i) as nat
    } else {
        i as nat
    };
    lemma_digits_shape(n);
    lemma_scan_digits_of(n);
    let d = digits_of(n);
    assert(!is_sign(d[0]));
    if i < 0 {
        assert((seq![MINUS] + d).drop_first() =~= d);
    } else {
        assert((seq![PLUS] + d).drop_first() =~= d);
    }
}

/// A payload with twenty digits, after an optional sign, overflows.
pub proof fn lemma_twenty_digits_overflow(data: Seq<u8>)
    requires
        data.len() == 20 && is_digit(data[0]) || data.len() == 21 && is_sign(data[0]),
    ensures
        decimal_of(data) == err::<i64>(ParseErrorKind::IntegerOverflow),
{
}

// ---------------------------------------------------------------
// Lines
// ---------------------------------------------------------------

proof fn lemma_crlf_from_before(text: Seq<u8>, tail: Seq<u8>, j: int)
    requires
        has_no_crlf(text),
        0 <= j <= text.len(),
    ensures
        crlf_from(text + crlf() + tail, j) == Some(text.len() as int),
    decreases text.len() - j,
{
    let s = text + crlf() + tail;
    if j < text.len() {
        assert(!crlf_at(s, j)) by {
            if j + 1 < text.len() {
                assert(!crlf_at(text, j));
            }
        }
        lemma_crlf_from_before(text, tail, j + 1);
    } else {
        assert(crlf_at(s, j));
    }
}

/// In `text + \r\n + tail`, with no `\r\n` inside `text`, the first
/// terminator is the one right after `text`.
pub proof fn lemma_first_crlf_after(text: Seq<u8>, tail: Seq<u8>)
    requires
        has_no_crlf(text),
    ensures
        first_crlf(text + crlf() + tail) == Some(text.len() as int),
        split_line_of(text + crlf() + tail) == Ok::<
            (Seq<u8>, Seq<u8>),
            crate::parser::ParseError,
        >((text, tail)),
{
    let s = text + crlf() + tail;
    lemma_crlf_from_before(text, tail, 0);
    assert(s.take(text.len() as int) =~= text);
    assert(s.skip(text.len() as int + 2) =~= tail);
}

proof fn lemma_decimal_no_crlf(i: int)
    ensures
        has_no_crlf(decimal_text(i)),
{
    let n: nat = if i < 0 {
        (-i) as nat
    } else {
        i as nat
    };
    lemma_digits_shape(n);
    let t = decimal_text(i);
    assert forall|j: int| !crlf_at(t, j) by {
        if 0 <= j < t.len() && i >= 0 {
            assert(is_digit(t[j]));
        }
        if 0 <= j < t.len() && i < 0 && j > 0 {
            assert(t[j] == digits_of(n)[j - 1]);
        }
    }
}

/// Input holding no `\r\n` after a simple-string, error, integer or
/// bulk-string tag fails with `MissingCRLF`.
pub proof fn lemma_missing_terminator(s: Seq<u8>)
    requires
        s.len() > 0,
        s[0] == PLUS || s[0] == MINUS || s[0] == COLON || s[0] == DOLLAR,
        has_no_crlf(s.drop_first()),
    ensures
        decode_value(s) == err::<(RespModel, Seq<u8>)>(ParseErrorKind::MissingCRLF),
{
    crate::parser::lemma_crlf_from_bounds(s.drop_first(), 0);
}

/// A bulk string whose length line is complete but whose payload holds no
/// `\r\n` fails with `MissingCRLF`.
pub proof fn lemma_bulk_missing_terminator(n: int, payload: Seq<u8>)
    requires
        0 <= n,
        int_in_reach(n),
        has_no_crlf(payload),
    ensures
        decode_value(seq![DOLLAR] + decimal_text(n) + crlf() + payload) == err::<
            (RespModel, Seq<u8>),
        >(ParseErrorKind::MissingCRLF),
{
    let s = seq![DOLLAR] + decimal_text(n) + crlf() + payload;
    lemma_decimal_no_crlf(n);
    lemma_decimal_round_trip(n);
    assert(s.drop_first() =~= decimal_text(n) + crlf() + payload);
    lemma_first_crlf_after(decimal_text(n), payload);
    crate::parser::lemma_crlf_from_bounds(payload, 0);
}

/// A negative bulk length or array count is rejected, carrying that number.
pub proof fn lemma_negative_length(tag: u8, n: int, tail: Seq<u8>)
    requires
        tag == DOLLAR || tag == STAR,
        n < 0,
        int_in_reach(n),
    ensures
        decode_value(seq![tag] + decimal_text(n) + crlf() + tail) == err::<(RespModel, Seq<u8>)>(
            ParseErrorKind::InvalidLength { len: n as i64 },
        ),
{
    lemma_decimal_no_crlf(n);
    lemma_decimal_round_trip(n);
    lemma_tagged_line(tag, int_tags(), decimal_text(n), tail);
}

// ---------------------------------------------------------------
// Round trip
// ---------------------------------------------------------------

proof fn lemma_encode_all_front(items: Seq<RespModel>)
    requires
        items.len() > 0,
    ensures
        encode_all(items) == encode(items[0]) + encode_all(items.drop_first()),
{
    assert(items =~= seq![items[0]] + items.drop_first());
    lemma_encode_all_concat(seq![items[0]], items.drop_first());
    assert(seq![items[0]].drop_last() =~= Seq::<RespModel>::empty());
    assert(seq![items[0]].last() == items[0]);
    assert(encode_all(Seq::<RespModel>::empty()) + encode(items[0]) =~= encode(items[0]));
    assert(encode_all(seq![items[0]]) =~= encode(items[0]));
}

/// A line written as `tag + text + \r\n` in front of `tail` reads back as
/// `text`, leaving `tail`.
proof fn lemma_tagged_line(tag: u8, tags: Set<u8>, text: Seq<u8>, tail: Seq<u8>)
    requires
        tags.contains(tag),
        has_no_crlf(text),
    ensures
        tagged_line(seq![tag] + text + crlf() + tail, tags) == Ok::<
            (Seq<u8>, Seq<u8>),
            crate::parser::ParseError,
        >((text, tail)),
{
    let s = seq![tag] + text + crlf() + tail;
    assert(s.drop_first() =~= text + crlf() + tail);
    lemma_first_crlf_after(text, tail);
}

/// Decoding what a value is written as, followed by any bytes, gives the
/// value back and leaves those bytes.
pub proof fn lemma_round_trip(m: RespModel, tail: Seq<u8>)
    requires
        round_trips(m),
    ensures
        decode_value(encode(m) + tail) == Ok::<
            (RespModel, Seq<u8>),
            crate::parser::ParseError,
        >((m, tail)),
    decreases m,
{
    let s = encode(m) + tail;
    match m {
        RespModel::Null => {},
        RespModel::Simple(t) => {
            assert(s =~= seq![PLUS] + encode_utf8(t) + crlf() + tail);
            lemma_tagged_line(PLUS, text_tags(), encode_utf8(t), tail);
        },
        RespModel::Error(t) => {
            assert(s =~= seq![MINUS] + encode_utf8(t) + crlf() + tail);
            lemma_tagged_line(MINUS, text_tags(), encode_utf8(t), tail);
        },
        RespModel::Integer(i) => {
            assert(s =~= seq![COLON] + decimal_text(i) + crlf() + tail);
            lemma_decimal_no_crlf(i);
            lemma_decimal_round_trip(i);
            lemma_tagged_line(COLON, int_tags(), decimal_text(i), tail);
        },
        RespModel::Bulk(t) => {
            let bytes = encode_utf8(t);
            let n = bytes.len() as int;
            let after = bytes + crlf() + tail;
            assert(s =~= seq![DOLLAR] + decimal_text(n) + crlf() + after);
            lemma_decimal_no_crlf(n);
            lemma_decimal_round_trip(n);
            lemma_tagged_line(DOLLAR, int_tags(), decimal_text(n), after);
            lemma_first_crlf_after(bytes, tail);
            assert(bytes.take(n) =~= bytes);
            assert(decode_int(s) == Ok::<(i64, Seq<u8>), crate::parser::ParseError>(
                (n as i64, after),
            ));
            assert(decode_bulk(s) == Ok::<(Seq<char>, Seq<u8>), crate::parser::ParseError>(
                (t, tail),
            ));
        },
        RespModel::Array(items) => {
            let n = items.len() as int;
            let after = encode_all(items) + tail;
            assert(s =~= seq![STAR] + decimal_text(n) + crlf() + after);
            lemma_decimal_no_crlf(n);
            lemma_decimal_round_trip(n);
            lemma_tagged_line(STAR, int_tags(), decimal_text(n), after);
            lemma_round_trip_all(items, tail);
            assert(decode_int(s) == Ok::<(i64, Seq<u8>), crate::parser::ParseError>(
                (n as i64, after),
            ));
        },
    }
}

/// The items of an array, written one after the other in front of `tail`,
/// read back as those items.
pub proof fn lemma_round_trip_all(items: Seq<RespModel>, tail: Seq<u8>)
    requires
        all_round_trip(items),
    ensures
        decode_items(encode_all(items) + tail, items.len()) == Ok::<
            (Seq<RespModel>, Seq<u8>),
            crate::parser::ParseError,
        >((items, tail)),
    decreases items,
{
    if items.len() == 0 {
        assert(encode_all(items) + tail =~= tail);
        assert(items =~= Seq::<RespModel>::empty());
    } else {
        let x = items[0];
        let rest = items.drop_first();
        let after = encode_all(rest) + tail;
        lemma_encode_all_front(items);
        assert(encode_all(items) + tail =~= encode(x) + after);
        lemma_round_trip(x, after);
        lemma_encode_nonempty(x);
        lemma_round_trip_all(rest, tail);
        assert(seq![x] + rest =~= items);
    }
}

proof fn lemma_encode_nonempty(m: RespModel)
    ensures
        encode(m).len() >= 1,
{
}

/// Decoding the bytes that a value is written as gives the value back, for
/// every value without a null marker, with no `\r\n` inside its text, and
/// with integers and lengths within `int_in_reach`.
pub proof fn lemma_decode_of_encode(v: RespValue)
    requires
        round_trips(model_of(v)),
    ensures
        decode_value(encode(model_of(v))) == Ok::<
            (RespModel, Seq<u8>),
            crate::parser::ParseError,
        >((model_of(v), Seq::<u8>::empty())),
{
    lemma_round_trip(model_of(v), Seq::<u8>::empty());
    assert(encode(model_of(v)) + Seq::<u8>::empty() =~= encode(model_of(v)));
}

} // verus!
