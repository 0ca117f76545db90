use vstd::prelude::*;
use vstd::slice::slice_subrange;
use vstd::utf8::*;

use crate::parser::{
    err, decimal_of, read_i64, read_str, split_line_of, text_of, ParseError, ParseErrorKind, ParseResult, RespParser,
    COLON, CR, DOLLAR, LF, MINUS, PLUS, STAR, ZERO,
};
use crate::writer::{
    appended, crlf, lemma_appended_whole, lemma_appended_within, RespWriter, WriteBuf, WriteResult,
};

verus! {

// ===========================================================
// Abstract values
// ===========================================================

/// What a `RespValue` stands for: text as characters, integers unbounded.
pub enum RespModel {
    Null,
    Simple(Seq<char>),
    Error(Seq<char>),
    Integer(int),
    Bulk(Seq<char>),
    Array(Seq<RespModel>),
}

pub open spec fn model_of(v: RespValue) -> RespModel
    decreases v,
{
    match v {
        RespValue::Null => RespModel::Null,
        RespValue::Simple(s) => RespModel::Simple(s@),
        RespValue::Error(s) => RespModel::Error(s@),
        RespValue::Integer(i) => RespModel::Integer(i as int),
        RespValue::Bulk(b) => RespModel::Bulk(b@),
        RespValue::Array(items) => RespModel::Array(models_of(items@)),
    }
}

pub open spec fn models_of(items: Seq<RespValue>) -> Seq<RespModel>
    decreases items,
{
    if items.len() == 0 {
        Seq::empty()
    } else {
        models_of(items.drop_last()).push(model_of(items.last()))
    }
}

// ===========================================================
// Decoding, stated over the input bytes
// ===========================================================

pub open spec fn text_tags() -> Set<u8> {
    set![PLUS, MINUS]
}

pub open spec fn int_tags() -> Set<u8> {
    set![COLON, STAR, DOLLAR]
}

/// One tag byte out of `tags`, then one line: the line and what follows it.
pub open spec fn tagged_line(s: Seq<u8>, tags: Set<u8>) -> ParseResult<(Seq<u8>, Seq<u8>)> {
    if s.len() == 0 {
        err(ParseErrorKind::MissingData { needed: 1 })
    } else if !tags.contains(s[0]) {
        err(ParseErrorKind::InvalidTag { tag: s[0] })
    } else {
        split_line_of(s.drop_first())
    }
}

pub open spec fn decode_text(s: Seq<u8>) -> ParseResult<(Seq<char>, Seq<u8>)> {
    match tagged_line(s, text_tags()) {
        Ok((line, rest)) => match text_of(line) {
            Ok(t) => Ok((t, rest)),
            Err(e) => Err(e),
        },
        Err(e) => Err(e),
    }
}

pub open spec fn decode_int(s: Seq<u8>) -> ParseResult<(i64, Seq<u8>)> {
    match tagged_line(s, int_tags()) {
        Ok((line, rest)) => match decimal_of(line) {
            Ok(v) => Ok((v, rest)),
            Err(e) => Err(e),
        },
        Err(e) => Err(e),
    }
}

/// `$<len>\r\n` then a line of which the first `len` bytes are kept.
pub open spec fn decode_bulk(s: Seq<u8>) -> ParseResult<(Seq<char>, Seq<u8>)> {
    if s.len() == 0 {
        err(ParseErrorKind::EmptyData)
    } else if s[0] != DOLLAR {
        err(ParseErrorKind::InvalidTag { tag: s[0] })
    } else {
        match decode_int(s) {
            Err(e) => Err(e),
            Ok((n, after)) => if n < 0 {
                err(ParseErrorKind::InvalidLength { len: n })
            } else {
                match split_line_of(after) {
                    Err(e) => Err(e),
                    Ok((line, rest)) => if line.len() < n {
                        err(ParseErrorKind::MissingData { needed: (n - line.len()) as usize })
                    } else {
                        match text_of(line.take(n as int)) {
                            Ok(t) => Ok((t, rest)),
                            Err(e) => Err(e),
                        }
                    },
                }
            },
        }
    }
}

/// `n` bulk strings in a row.
pub open spec fn decode_bulks(s: Seq<u8>, n: nat) -> ParseResult<(Seq<Seq<char>>, Seq<u8>)>
    decreases n,
{
    if n == 0 {
        Ok((Seq::empty(), s))
    } else {
        match decode_bulk(s) {
            Err(e) => Err(e),
            Ok((t, after)) => match decode_bulks(after, (n - 1) as nat) {
                Ok((ts, rest)) => Ok((seq![t] + ts, rest)),
                Err(e) => Err(e),
            },
        }
    }
}

/// A count line (any integer tag) followed by that many bulk strings.
pub open spec fn decode_bulk_array(s: Seq<u8>) -> ParseResult<(Seq<Seq<char>>, Seq<u8>)> {
    match decode_int(s) {
        Err(e) => Err(e),
        Ok((n, after)) => if n < 0 {
            err(ParseErrorKind::InvalidLength { len: n })
        } else {
            decode_bulks(after, n as nat)
        },
    }
}

/// One value, dispatched on its tag byte.
pub open spec fn decode_value(s: Seq<u8>) -> ParseResult<(RespModel, Seq<u8>)>
    decreases s.len(), 1int, 0int,
{
    if s.len() == 0 {
        err(ParseErrorKind::EmptyData)
    } else if s[0] == PLUS || s[0] == MINUS {
        match decode_text(s) {
            Ok((t, rest)) => Ok(
                (
                    if s[0] == PLUS {
                        RespModel::Simple(t)
                    } else {
                        RespModel::Error(t)
                    },
                    rest,
                ),
            ),
            Err(e) => Err(e),
        }
    } else if s[0] == COLON {
        match decode_int(s) {
            Ok((v, rest)) => Ok((RespModel::Integer(v as int), rest)),
            Err(e) => Err(e),
        }
    } else if s[0] == DOLLAR {
        match decode_bulk(s) {
            Ok((t, rest)) => Ok((RespModel::Bulk(t), rest)),
            Err(e) => Err(e),
        }
    } else if s[0] == STAR {
        match decode_array(s) {
            Ok((items, rest)) => Ok((RespModel::Array(items), rest)),
            Err(e) => Err(e),
        }
    } else {
        err(ParseErrorKind::InvalidTag { tag: s[0] })
    }
}

/// A count line (any integer tag) followed by that many values.
pub open spec fn decode_array(s: Seq<u8>) -> ParseResult<(Seq<RespModel>, Seq<u8>)>
    decreases s.len(), 0int, 0int,
{
    match decode_int(s) {
        Err(e) => Err(e),
        Ok((n, after)) => if n < 0 {
            err(ParseErrorKind::InvalidLength { len: n })
        } else if after.len() < s.len() {
            decode_items(after, n as nat)
        } else {
            // never taken: the count line takes at least three bytes
            err(ParseErrorKind::EmptyData)
        },
    }
}

/// `n` values in a row.
pub open spec fn decode_items(s: Seq<u8>, n: nat) -> ParseResult<(Seq<RespModel>, Seq<u8>)>
    decreases s.len(), 2int, n,
{
    if n == 0 {
        Ok((Seq::empty(), s))
    } else {
        match decode_value(s) {
            Err(e) => Err(e),
            Ok((v, after)) => if after.len() < s.len() {
                match decode_items(after, (n - 1) as nat) {
                    Ok((vs, rest)) => Ok((seq![v] + vs, rest)),
                    Err(e) => Err(e),
                }
            } else {
                // never taken: every value takes at least its tag byte
                err(ParseErrorKind::EmptyData)
            },
        }
    }
}

/// `done` followed by whatever `r` decoded.
pub open spec fn prepend<A>(done: Seq<A>, r: ParseResult<(Seq<A>, Seq<u8>)>) -> ParseResult<
    (Seq<A>, Seq<u8>),
> {
    match r {
        Ok((vs, rest)) => Ok((done + vs, rest)),
        Err(e) => Err(e),
    }
}

proof fn lemma_prepend_one<A>(done: Seq<A>, v: A, r: ParseResult<(Seq<A>, Seq<u8>)>)
    ensures
        prepend(done, prepend(seq![v], r)) == prepend(done.push(v), r),
{
    if let Ok((vs, rest)) = r {
        assert(done + (seq![v] + vs) =~= done.push(v) + vs);
    }
}

// ===========================================================
// RespReadable, SimpleRespReadable
// ===========================================================

/// A type that decodes itself from the front of a parser.
pub trait RespReadable: Sized {
    /// `r` is what decoding `input` gives, and `rest` what is left after a
    /// success.
    spec fn parsed(input: Seq<u8>, r: ParseResult<Self>, rest: Seq<u8>) -> bool;

    /// The tag bytes that may start an encoding of this type.
    spec fn starts_with(tag: u8) -> bool;

    fn parse(parser: &mut RespParser<'_>) -> (r: ParseResult<Self>)
        ensures
            Self::parsed(old(parser)@, r, final(parser)@),
            r is Ok ==> final(parser)@.len() < old(parser)@.len(),
    ;

    fn can_parse(tag: u8) -> (r: bool)
        ensures
            r == Self::starts_with(tag),
    ;
}

/// A type encoded as one tag byte and one line.
pub trait SimpleRespReadable: Sized {
    spec fn tags() -> Set<u8>;

    /// `r` is what the payload `data` decodes to.
    spec fn raw_parsed(data: Seq<u8>, r: ParseResult<Self>) -> bool;

    fn accepts_tag(tag: u8) -> (r: bool)
        ensures
            r == Self::tags().contains(tag),
    ;

    fn parse_raw(data: &[u8]) -> (r: ParseResult<Self>)
        ensures
            Self::raw_parsed(data@, r),
    ;
}

pub open spec fn simple_parsed<T: SimpleRespReadable>(
    input: Seq<u8>,
    r: ParseResult<T>,
    rest: Seq<u8>,
) -> bool {
    match tagged_line(input, T::tags()) {
        Ok((line, after)) => T::raw_parsed(line, r) && (r is Ok ==> rest == after),
        Err(e) => r == Err::<T, ParseError>(e),
    }
}

/// Reads a tag from `T`'s set and one line, and decodes the line as `T`.
fn parse_simple<T: SimpleRespReadable>(parser: &mut RespParser<'_>) -> (r: ParseResult<T>)
    ensures
        simple_parsed::<T>(old(parser)@, r, final(parser)@),
        r is Ok ==> final(parser)@.len() < old(parser)@.len(),
{
    let tag_bytes = parser.read_bytes(1)?;
    let tag = tag_bytes[0];
    if !T::accepts_tag(tag) {
        return Err(ParseError::new(ParseErrorKind::InvalidTag { tag }));
    }
    proof {
        assert(old(parser)@.skip(1) =~= old(parser)@.drop_first());
    }
    let data = parser.read_line()?;
    T::parse_raw(data)
}

impl SimpleRespReadable for String {
    open spec fn tags() -> Set<u8> {
        text_tags()
    }

    open spec fn raw_parsed(data: Seq<u8>, r: ParseResult<String>) -> bool {
        match text_of(data) {
            Ok(t) => (r matches Ok(s) && s@ == t),
            Err(e) => r == Err::<String, ParseError>(e),
        }
    }

    fn accepts_tag(tag: u8) -> (r: bool) {
        tag == PLUS || tag == MINUS
    }

    fn parse_raw(data: &[u8]) -> (r: ParseResult<String>) {
        read_str(data)
    }
}

impl SimpleRespReadable for i64 {
    open spec fn tags() -> Set<u8> {
        int_tags()
    }

    open spec fn raw_parsed(data: Seq<u8>, r: ParseResult<i64>) -> bool {
        r == decimal_of(data)
    }

    fn accepts_tag(tag: u8) -> (r: bool) {
        tag == COLON || tag == STAR || tag == DOLLAR
    }

    fn parse_raw(data: &[u8]) -> (r: ParseResult<i64>) {
        read_i64(data)
    }
}

/// Text read from an error line alone: only the tag `-` is accepted.
#[derive(Clone, Debug, PartialEq, Eq)]
pub struct ErrorString(pub String);

impl View for ErrorString {
    type V = Seq<char>;

    open spec fn view(&self) -> Seq<char> {
        self.0@
    }
}

impl SimpleRespReadable for ErrorString {
    open spec fn tags() -> Set<u8> {
        set![MINUS]
    }

    open spec fn raw_parsed(data: Seq<u8>, r: ParseResult<ErrorString>) -> bool {
        match text_of(data) {
            Ok(t) => (r matches Ok(e) && e@ == t),
            Err(e) => r == Err::<ErrorString, ParseError>(e),
        }
    }

    fn accepts_tag(tag: u8) -> (r: bool) {
        tag == MINUS
    }

    fn parse_raw(data: &[u8]) -> (r: ParseResult<ErrorString>) {
        match read_str(data) {
            Ok(s) => Ok(ErrorString(s)),
            Err(e) => Err(e),
        }
    }
}

impl RespReadable for ErrorString {
    open spec fn parsed(input: Seq<u8>, r: ParseResult<ErrorString>, rest: Seq<u8>) -> bool {
        match tagged_line(input, set![MINUS]) {
            Ok((line, after)) => match text_of(line) {
                Ok(t) => (r matches Ok(e) && e@ == t && rest == after),
                Err(e) => r == Err::<ErrorString, ParseError>(e),
            },
            Err(e) => r == Err::<ErrorString, ParseError>(e),
        }
    }

    open spec fn starts_with(tag: u8) -> bool {
        tag == MINUS
    }

    fn parse(parser: &mut RespParser<'_>) -> (r: ParseResult<ErrorString>) {
        parse_simple::<ErrorString>(parser)
    }

    fn can_parse(tag: u8) -> (r: bool) {
        Self::accepts_tag(tag)
    }
}

impl RespReadable for String {
    open spec fn parsed(input: Seq<u8>, r: ParseResult<String>, rest: Seq<u8>) -> bool {
        match decode_text(input) {
            Ok((t, after)) => (r matches Ok(s) && s@ == t && rest == after),
            Err(e) => r == Err::<String, ParseError>(e),
        }
    }

    open spec fn starts_with(tag: u8) -> bool {
        text_tags().contains(tag)
    }

    fn parse(parser: &mut RespParser<'_>) -> (r: ParseResult<String>) {
        parse_simple::<String>(parser)
    }

    fn can_parse(tag: u8) -> (r: bool) {
        Self::accepts_tag(tag)
    }
}

impl RespReadable for i64 {
    open spec fn parsed(input: Seq<u8>, r: ParseResult<i64>, rest: Seq<u8>) -> bool {
        match decode_int(input) {
            Ok((v, after)) => r == Ok::<i64, ParseError>(v) && rest == after,
            Err(e) => r == Err::<i64, ParseError>(e),
        }
    }

    open spec fn starts_with(tag: u8) -> bool {
        int_tags().contains(tag)
    }

    fn parse(parser: &mut RespParser<'_>) -> (r: ParseResult<i64>) {
        parse_simple::<i64>(parser)
    }

    fn can_parse(tag: u8) -> (r: bool) {
        Self::accepts_tag(tag)
    }
}

// ===========================================================
// BulkString, RespValue
// ===========================================================

/// A length-prefixed payload.
#[derive(Clone, Debug, PartialEq, Eq)]
pub struct BulkString(String);

impl BulkString {
    pub fn new(s: String) -> (r: BulkString)
        ensures
            r@ == s@,
    {
        BulkString(s)
    }

    pub fn value(&self) -> (r: &String)
        ensures
            r@ == self@,
    {
        &self.0
    }

    pub fn value_mut(&mut self) -> (r: &mut String)
        ensures
            r@ == old(self)@,
            final(r)@ == final(self)@,
    {
        &mut self.0
    }
}

impl View for BulkString {
    type V = Seq<char>;

    closed spec fn view(&self) -> Seq<char> {
        self.0@
    }
}

#[derive(Debug, PartialEq, Eq)]
pub enum RespValue {
    /// Written as `$-1\r\n`; never produced by decoding.
    Null,
    /// Simple string, tag `+`.
    Simple(String),
    /// Error string, tag `-`.
    Error(String),
    /// Signed 64-bit integer, tag `:`.
    Integer(i64),
    /// Bulk string, tag `$`.
    Bulk(BulkString),
    /// Array of values, tag `*`.
    Array(Vec<RespValue>),
}

impl RespReadable for BulkString {
    open spec fn parsed(input: Seq<u8>, r: ParseResult<BulkString>, rest: Seq<u8>) -> bool {
        match decode_bulk(input) {
            Ok((t, after)) => (r matches Ok(b) && b@ == t && rest == after),
            Err(e) => r == Err::<BulkString, ParseError>(e),
        }
    }

    open spec fn starts_with(tag: u8) -> bool {
        tag == DOLLAR
    }

    fn parse(parser: &mut RespParser<'_>) -> (r: ParseResult<BulkString>) {
        match parser.peek_first() {
            None => return Err(ParseError::new(ParseErrorKind::EmptyData)),
            Some(tag) => {
                if !Self::can_parse(*tag) {
                    return Err(ParseError::new(ParseErrorKind::InvalidTag { tag: *tag }));
                }
            },
        }
        let length = i64::parse(parser)?;
        if length < 0 {
            return Err(ParseError::new(ParseErrorKind::InvalidLength { len: length }));
        }
        let length = length as u64;
        let line = parser.read_line()?;
        let line_len = line.len() as u64;
        if line_len < length {
            return Err(
                ParseError::new(
                    ParseErrorKind::MissingData { needed: (length - line_len) as usize },
                ),
            );
        }
        // bytes past the declared length are dropped
        let s = read_str(slice_subrange(line, 0, length as usize))?;
        Ok(BulkString(s))
    }

    fn can_parse(tag: u8) -> (r: bool) {
        tag == DOLLAR
    }
}

pub open spec fn texts_of(items: Seq<BulkString>) -> Seq<Seq<char>> {
    items.map_values(|b: BulkString| b@)
}

impl RespReadable for Vec<BulkString> {
    open spec fn parsed(input: Seq<u8>, r: ParseResult<Vec<BulkString>>, rest: Seq<u8>) -> bool {
        match decode_bulk_array(input) {
            Ok((ts, after)) => (r matches Ok(v) && texts_of(v@) == ts && rest == after),
            Err(e) => r == Err::<Vec<BulkString>, ParseError>(e),
        }
    }

    open spec fn starts_with(tag: u8) -> bool {
        tag == STAR
    }

    fn parse(parser: &mut RespParser<'_>) -> (r: ParseResult<Vec<BulkString>>) {
        let len = i64::parse(parser)?;
        if len < 0 {
            return Err(ParseError::new(ParseErrorKind::InvalidLength { len }));
        }
        let ghost after = parser@;
        let mut vec: Vec<BulkString> = Vec::new();
        let mut i: i64 = 0;
        assert(prepend(texts_of(vec@), decode_bulks(after, len as nat)) =~= decode_bulks(
            after,
            len as nat,
        )) by {
            assert(texts_of(vec@) =~= Seq::<Seq<char>>::empty());
            if let Ok((ts, rest)) = decode_bulks(after, len as nat) {
                assert(Seq::<Seq<char>>::empty() + ts =~= ts);
            }
        }
        while i < len
            invariant
                0 <= i <= len,
                parser@.len() < old(parser)@.len(),
                decode_bulk_array(old(parser)@) == prepend(
                    texts_of(vec@),
                    decode_bulks(parser@, (len - i) as nat),
                ),
            decreases len - i,
        {
            let ghost cur = parser@;
            match BulkString::parse(parser) {
                Ok(b) => {
                    proof {
                        lemma_prepend_one(
                            texts_of(vec@),
                            b@,
                            decode_bulks(parser@, (len - i - 1) as nat),
                        );
                        assert(texts_of(vec@.push(b)) =~= texts_of(vec@).push(b@));
                    }
                    vec.push(b);
                },
                Err(e) => {
                    return Err(e);
                },
            }
            i = i + 1;
        }
        proof {
            assert(texts_of(vec@) + Seq::<Seq<char>>::empty() =~= texts_of(vec@));
        }
        Ok(vec)
    }

    fn can_parse(tag: u8) -> (r: bool) {
        tag == STAR
    }
}

pub open spec fn value_parsed(input: Seq<u8>, r: ParseResult<RespValue>, rest: Seq<u8>) -> bool {
    match decode_value(input) {
        Ok((m, after)) => (r matches Ok(v) && model_of(v) == m && rest == after),
        Err(e) => r == Err::<RespValue, ParseError>(e),
    }
}

pub open spec fn array_parsed(input: Seq<u8>, r: ParseResult<Vec<RespValue>>, rest: Seq<u8>) -> bool {
    match decode_array(input) {
        Ok((ms, after)) => (r matches Ok(v) && models_of(v@) == ms && rest == after),
        Err(e) => r == Err::<Vec<RespValue>, ParseError>(e),
    }
}

proof fn lemma_models_push(items: Seq<RespValue>, v: RespValue)
    ensures
        models_of(items.push(v)) == models_of(items).push(model_of(v)),
{
    assert(items.push(v).drop_last() =~= items);
}

/// Decodes one value of any kind, recursing into arrays.
fn parse_value(parser: &mut RespParser<'_>) -> (r: ParseResult<RespValue>)
    ensures
        value_parsed(old(parser)@, r, final(parser)@),
        r is Ok ==> final(parser)@.len() < old(parser)@.len(),
    decreases old(parser)@.len(), 1int, 0int,
{
    let tag = match parser.peek_first() {
        None => return Err(ParseError::new(ParseErrorKind::EmptyData)),
        Some(tag) => *tag,
    };
    if tag == PLUS {
        let s = String::parse(parser)?;
        Ok(RespValue::Simple(s))
    } else if tag == MINUS {
        let s = String::parse(parser)?;
        Ok(RespValue::Error(s))
    } else if tag == COLON {
        let i = i64::parse(parser)?;
        Ok(RespValue::Integer(i))
    } else if tag == DOLLAR {
        let b = BulkString::parse(parser)?;
        Ok(RespValue::Bulk(b))
    } else if tag == STAR {
        let items = parse_array(parser)?;
        Ok(RespValue::Array(items))
    } else {
        Err(ParseError::new(ParseErrorKind::InvalidTag { tag }))
    }
}

/// Decodes a count and then that many values.
fn parse_array(parser: &mut RespParser<'_>) -> (r: ParseResult<Vec<RespValue>>)
    ensures
        array_parsed(old(parser)@, r, final(parser)@),
        r is Ok ==> final(parser)@.len() < old(parser)@.len(),
    decreases old(parser)@.len(), 0int, 0int,
{
    let len = i64::parse(parser)?;
    if len < 0 {
        return Err(ParseError::new(ParseErrorKind::InvalidLength { len }));
    }
    let ghost after = parser@;
    let mut vec: Vec<RespValue> = Vec::new();
    let mut i: i64 = 0;
    assert(prepend(models_of(vec@), decode_items(after, len as nat)) =~= decode_items(
        after,
        len as nat,
    )) by {
        assert(models_of(vec@) =~= Seq::<RespModel>::empty());
        if let Ok((ms, rest)) = decode_items(after, len as nat) {
            assert(Seq::<RespModel>::empty() + ms =~= ms);
        }
    }
    while i < len
        invariant
            0 <= i <= len,
            parser@.len() < old(parser)@.len(),
            decode_array(old(parser)@) == prepend(
                models_of(vec@),
                decode_items(parser@, (len - i) as nat),
            ),
        decreases len - i,
    {
        match parse_value(parser) {
            Ok(v) => {
                proof {
                    lemma_prepend_one(
                        models_of(vec@),
                        model_of(v),
                        decode_items(parser@, (len - i - 1) as nat),
                    );
                    lemma_models_push(vec@, v);
                }
                vec.push(v);
            },
            Err(e) => {
                return Err(e);
            },
        }
        i = i + 1;
    }
    proof {
        assert(models_of(vec@) + Seq::<RespModel>::empty() =~= models_of(vec@));
    }
    Ok(vec)
}

impl RespReadable for Vec<RespValue> {
    open spec fn parsed(input: Seq<u8>, r: ParseResult<Vec<RespValue>>, rest: Seq<u8>) -> bool {
        array_parsed(input, r, rest)
    }

    open spec fn starts_with(tag: u8) -> bool {
        tag == STAR
    }

    fn parse(parser: &mut RespParser<'_>) -> (r: ParseResult<Vec<RespValue>>) {
        parse_array(parser)
    }

    fn can_parse(tag: u8) -> (r: bool) {
        tag == STAR
    }
}

impl RespReadable for RespValue {
    open spec fn parsed(input: Seq<u8>, r: ParseResult<RespValue>, rest: Seq<u8>) -> bool {
        value_parsed(input, r, rest)
    }

    open spec fn starts_with(tag: u8) -> bool {
        true
    }

    fn parse(parser: &mut RespParser<'_>) -> (r: ParseResult<RespValue>) {
        parse_value(parser)
    }

    fn can_parse(tag: u8) -> (r: bool) {
        true
    }
}

// ===========================================================
// Encoding, stated over abstract values
// ===========================================================

/// Decimal digits of `n`, most significant first, without leading zeros.
pub open spec fn digits_of(n: nat) -> Seq<u8>
    decreases n,
{
    if n < 10 {
        seq![(ZERO + n) as u8]
    } else {
        digits_of(n / 10).push((ZERO + n % 10) as u8)
    }
}

/// Decimal text of `i`, with a leading `-` when it is negative.
pub open spec fn decimal_text(i: int) -> Seq<u8> {
    if i < 0 {
        seq![MINUS] + digits_of((-i) as nat)
    } else {
        digits_of(i as nat)
    }
}

/// The exact bytes that a value is written as.
pub open spec fn encode(m: RespModel) -> Seq<u8>
    decreases m,
{
    match m {
        RespModel::Null => seq![DOLLAR, MINUS, (ZERO + 1) as u8] + crlf(),
        RespModel::Simple(t) => seq![PLUS] + encode_utf8(t) + crlf(),
        RespModel::Error(t) => seq![MINUS] + encode_utf8(t) + crlf(),
        RespModel::Integer(i) => seq![COLON] + decimal_text(i) + crlf(),
        RespModel::Bulk(t) => seq![DOLLAR] + decimal_text(encode_utf8(t).len() as int) + crlf()
            + encode_utf8(t) + crlf(),
        RespModel::Array(items) => seq![STAR] + decimal_text(items.len() as int) + crlf()
            + encode_all(items),
    }
}

/// The encodings of `items`, one after the other.
pub open spec fn encode_all(items: Seq<RespModel>) -> Seq<u8>
    decreases items,
{
    if items.len() == 0 {
        Seq::empty()
    } else {
        encode_all(items.drop_last()) + encode(items.last())
    }
}

pub proof fn lemma_encode_all_concat(s1: Seq<RespModel>, s2: Seq<RespModel>)
    ensures
        encode_all(s1 + s2) == encode_all(s1) + encode_all(s2),
    decreases s2.len(),
{
    if s2.len() == 0 {
        assert(s1 + s2 =~= s1);
        assert(encode_all(s1) + encode_all(s2) =~= encode_all(s1));
    } else {
        lemma_encode_all_concat(s1, s2.drop_last());
        assert((s1 + s2).drop_last() =~= s1 + s2.drop_last());
        assert(encode_all(s1) + encode_all(s2.drop_last()) + encode(s2.last()) =~= encode_all(s1)
            + (encode_all(s2.drop_last()) + encode(s2.last())));
    }
}

pub proof fn lemma_models_index(items: Seq<RespValue>)
    ensures
        models_of(items).len() == items.len(),
        forall|j: int| 0 <= j < items.len() ==> #[trigger] models_of(items)[j] == model_of(items[j]),
    decreases items.len(),
{
    if items.len() > 0 {
        lemma_models_index(items.drop_last());
    }
}

// ===========================================================
// RespWritable, SimpleRespWritable
// ===========================================================

/// A type that writes its own wire form.
pub trait RespWritable: Sized {
    /// The bytes of the wire form.
    spec fn wire(&self) -> Seq<u8>;

    fn write(&self, writer: &mut RespWriter<'_>) -> (r: WriteResult)
        ensures
            appended(old(writer).buf@, final(writer).buf@, self.wire(), r),
    ;
}

/// A type written as its raw payload alone, with no tag or terminator.
pub trait SimpleRespWritable: Sized {
    spec fn raw(&self) -> Seq<u8>;

    fn write_raw(&self, buf: &mut WriteBuf) -> (r: WriteResult)
        ensures
            appended(old(buf)@, final(buf)@, self.raw(), r),
    ;
}

/// Writes the decimal digits of `n`.
fn write_digits(buf: &mut WriteBuf, n: u64) -> (r: WriteResult)
    ensures
        appended(old(buf)@, final(buf)@, digits_of(n as nat), r),
    decreases n,
{
    let d: u8 = ZERO + (n % 10) as u8;
    let ghost a = buf@;
    let ghost empty = Seq::<u8>::empty();
    assert(a + empty =~= a);
    if n >= 10 {
        let r = write_digits(buf, n / 10);
        if r.is_err() {
            proof {
                lemma_appended_within(a, empty, buf@, digits_of((n / 10) as nat), seq![d], r);
                assert(empty + digits_of((n / 10) as nat) + seq![d] =~= digits_of(n as nat));
            }
            return r;
        }
    }
    let ghost p = if n >= 10 {
        digits_of((n / 10) as nat)
    } else {
        empty
    };
    let ghost mid = buf@;
    let r = buf.push_u8(d);
    proof {
        assert(mid.push(d) =~= mid + seq![d]);
        lemma_appended_whole(mid, buf@, seq![d], r);
        assert(mid == a + p);
        lemma_appended_within(a, p, buf@, seq![d], empty, r);
        assert(p + seq![d] + empty =~= digits_of(n as nat));
    }
    r
}

/// Writes the decimal text of `i`.
fn write_decimal(buf: &mut WriteBuf, i: i64) -> (r: WriteResult)
    ensures
        appended(old(buf)@, final(buf)@, decimal_text(i as int), r),
{
    if i < 0 {
        let ghost a = buf@;
        let ghost empty = Seq::<u8>::empty();
        let magnitude: u64 = (-(i + 1)) as u64 + 1;
        let r = buf.push_u8(MINUS);
        proof {
            assert(a.push(MINUS) =~= a + seq![MINUS]);
            lemma_appended_whole(a, buf@, seq![MINUS], r);
            assert(a + empty =~= a);
        }
        if r.is_err() {
            proof {
                lemma_appended_within(a, empty, buf@, seq![MINUS], digits_of(magnitude as nat), r);
                assert(empty + seq![MINUS] + digits_of(magnitude as nat) =~= decimal_text(i as int));
            }
            return r;
        }
        let r = write_digits(buf, magnitude);
        proof {
            lemma_appended_within(a, seq![MINUS], buf@, digits_of(magnitude as nat), empty, r);
            assert(seq![MINUS] + digits_of(magnitude as nat) + empty =~= decimal_text(i as int));
        }
        r
    } else {
        write_digits(buf, i as u64)
    }
}

impl SimpleRespWritable for String {
    open spec fn raw(&self) -> Seq<u8> {
        encode_utf8(self@)
    }

    fn write_raw(&self, buf: &mut WriteBuf) -> (r: WriteResult) {
        let r = buf.push_bytes(self.as_str().as_bytes());
        proof {
            lemma_appended_whole(old(buf)@, buf@, self.raw(), r);
        }
        r
    }
}

impl SimpleRespWritable for i64 {
    open spec fn raw(&self) -> Seq<u8> {
        decimal_text(*self as int)
    }

    fn write_raw(&self, buf: &mut WriteBuf) -> (r: WriteResult) {
        write_decimal(buf, *self)
    }
}

/// Writes `tag`, the raw payload of `value` and a terminator.
fn write_tagged<T: SimpleRespWritable>(writer: &mut RespWriter<'_>, tag: u8, value: &T) -> (r:
    WriteResult)
    ensures
        appended(old(writer).buf@, final(writer).buf@, seq![tag] + value.raw() + crlf(), r),
{
    let ghost a = writer.buf@;
    let ghost empty = Seq::<u8>::empty();
    let ghost wire = seq![tag] + value.raw() + crlf();
    assert(a + empty =~= a);
    let r = writer.write_u8(tag);
    if r.is_err() {
        proof {
            lemma_appended_within(a, empty, writer.buf@, seq![tag], value.raw() + crlf(), r);
            assert(empty + seq![tag] + (value.raw() + crlf()) =~= wire);
        }
        return r;
    }
    let r = value.write_raw(writer.buf);
    if r.is_err() {
        proof {
            lemma_appended_within(a, seq![tag], writer.buf@, value.raw(), crlf(), r);
        }
        return r;
    }
    assert(writer.buf@ =~= a + (seq![tag] + value.raw()));
    let r = writer.write_crlf();
    proof {
        lemma_appended_within(a, seq![tag] + value.raw(), writer.buf@, crlf(), empty, r);
        assert(seq![tag] + value.raw() + crlf() + empty =~= wire);
    }
    r
}

impl RespWritable for String {
    open spec fn wire(&self) -> Seq<u8> {
        encode(RespModel::Simple(self@))
    }

    fn write(&self, writer: &mut RespWriter<'_>) -> (r: WriteResult) {
        write_tagged(writer, PLUS, self)
    }
}

impl RespWritable for i64 {
    open spec fn wire(&self) -> Seq<u8> {
        encode(RespModel::Integer(*self as int))
    }

    fn write(&self, writer: &mut RespWriter<'_>) -> (r: WriteResult) {
        write_tagged(writer, COLON, self)
    }
}

impl RespWritable for BulkString {
    open spec fn wire(&self) -> Seq<u8> {
        encode(RespModel::Bulk(self@))
    }

    fn write(&self, writer: &mut RespWriter<'_>) -> (r: WriteResult) {
        let bytes = self.0.as_str().as_bytes();
        let ghost a = writer.buf@;
        let ghost empty = Seq::<u8>::empty();
        let ghost len_text = digits_of(bytes@.len());
        let ghost wire = seq![DOLLAR] + len_text + crlf() + bytes@ + crlf();
        assert(a + empty =~= a);
        assert(wire == self.wire());
        let r = writer.write_u8(DOLLAR);
        if r.is_err() {
            proof {
                lemma_appended_within(a, empty, writer.buf@, seq![DOLLAR], wire.skip(1), r);
                assert(empty + seq![DOLLAR] + wire.skip(1) =~= wire);
            }
            return r;
        }
        let ghost tag_part = seq![DOLLAR];
        let r = write_digits(writer.buf, bytes.len() as u64);
        if r.is_err() {
            proof {
                let tail = crlf() + bytes@ + crlf();
                lemma_appended_within(a, tag_part, writer.buf@, len_text, tail, r);
                assert(tag_part + len_text + tail =~= wire);
            }
            return r;
        }
        let ghost len_part = tag_part + len_text;
        assert(writer.buf@ =~= a + len_part);
        let r = writer.write_crlf();
        if r.is_err() {
            proof {
                let tail = bytes@ + crlf();
                lemma_appended_within(a, len_part, writer.buf@, crlf(), tail, r);
                assert(len_part + crlf() + tail =~= wire);
            }
            return r;
        }
        let ghost header_part = len_part + crlf();
        assert(writer.buf@ =~= a + header_part);
        let ghost mid = writer.buf@;
        let r = writer.buf.push_bytes(bytes);
        proof {
            lemma_appended_whole(mid, writer.buf@, bytes@, r);
        }
        if r.is_err() {
            proof {
                lemma_appended_within(a, header_part, writer.buf@, bytes@, crlf(), r);
                assert(header_part + bytes@ + crlf() =~= wire);
            }
            return r;
        }
        let ghost body_part = header_part + bytes@;
        assert(writer.buf@ =~= a + body_part);
        let r = writer.write_crlf();
        proof {
            lemma_appended_within(a, body_part, writer.buf@, crlf(), empty, r);
            assert(body_part + crlf() + empty =~= wire);
        }
        r
    }
}

/// Writes any value, recursing into arrays.
fn write_value_to(value: &RespValue, writer: &mut RespWriter<'_>) -> (r: WriteResult)
    ensures
        appended(old(writer).buf@, final(writer).buf@, encode(model_of(*value)), r),
    decreases value,
{
    match value {
        RespValue::Null => {
            let r = writer.buf.push_bytes(&[DOLLAR, MINUS, ZERO + 1, CR, LF]);
            proof {
                assert(seq![DOLLAR, MINUS, (ZERO + 1) as u8] + crlf() =~= seq![
                    DOLLAR,
                    MINUS,
                    (ZERO + 1) as u8,
                    CR,
                    LF,
                ]);
                lemma_appended_whole(old(writer).buf@, writer.buf@, encode(model_of(*value)), r);
            }
            r
        },
        RespValue::Simple(s) => write_tagged(writer, PLUS, s),
        RespValue::Error(e) => write_tagged(writer, MINUS, e),
        RespValue::Integer(i) => write_tagged(writer, COLON, i),
        RespValue::Bulk(b) => b.write(writer),
        RespValue::Array(items) => write_array_to(items, writer),
    }
}

/// Writes a count line and then each item in order.
fn write_array_to(items: &Vec<RespValue>, writer: &mut RespWriter<'_>) -> (r: WriteResult)
    ensures
        appended(
            old(writer).buf@,
            final(writer).buf@,
            encode(RespModel::Array(models_of(items@))),
            r,
        ),
    decreases items,
{
    let ghost ms = models_of(items@);
    proof {
        lemma_models_index(items@);
    }
    let ghost a = writer.buf@;
    let ghost empty = Seq::<u8>::empty();
    let ghost len_text = digits_of(items@.len());
    let ghost wire = encode(RespModel::Array(ms));
    assert(wire == seq![STAR] + len_text + crlf() + encode_all(ms));
    assert(a + empty =~= a);
    let r = writer.write_u8(STAR);
    if r.is_err() {
        proof {
            lemma_appended_within(a, empty, writer.buf@, seq![STAR], wire.skip(1), r);
            assert(empty + seq![STAR] + wire.skip(1) =~= wire);
        }
        return r;
    }
    let r = write_digits(writer.buf, items.len() as u64);
    if r.is_err() {
        proof {
            let tail = crlf() + encode_all(ms);
            lemma_appended_within(a, seq![STAR], writer.buf@, len_text, tail, r);
            assert(seq![STAR] + len_text + tail =~= wire);
        }
        return r;
    }
    assert(writer.buf@ =~= a + (seq![STAR] + len_text));
    let r = writer.write_crlf();
    let ghost header = seq![STAR] + len_text + crlf();
    if r.is_err() {
        proof {
            lemma_appended_within(a, seq![STAR] + len_text, writer.buf@, crlf(), encode_all(ms), r);
        }
        return r;
    }
    let mut i: usize = 0;
    proof {
        assert(ms.take(0) =~= Seq::<RespModel>::empty());
        assert(writer.buf@ =~= a + header + encode_all(ms.take(0)));
    }
    while i < items.len()
        invariant
            i <= items@.len(),
            ms == models_of(items@),
            ms.len() == items@.len(),
            forall|j: int| 0 <= j < items@.len() ==> #[trigger] ms[j] == model_of(items@[j]),
            wire == header + encode_all(ms),
            wire == encode(RespModel::Array(models_of(items@))),
            a == old(writer).buf@,
            writer.buf@ == a + header + encode_all(ms.take(i as int)),
        decreases items@.len() - i,
    {
        let ghost done = header + encode_all(ms.take(i as int));
        let r = write_value_to(&items[i], writer);
        proof {
            assert(ms.take(i + 1).drop_last() =~= ms.take(i as int));
            assert(encode_all(ms.take(i + 1)) == encode_all(ms.take(i as int)) + encode(ms[i as int]));
            assert(a + done =~= a + header + encode_all(ms.take(i as int)));
            let tail = encode_all(ms.skip(i + 1));
            assert(ms =~= ms.take(i + 1) + ms.skip(i + 1));
            lemma_encode_all_concat(ms.take(i + 1), ms.skip(i + 1));
            if r.is_err() {
                lemma_appended_within(a, done, writer.buf@, encode(ms[i as int]), tail, r);
                assert(done + encode(ms[i as int]) + tail =~= wire);
            } else {
                assert(writer.buf@ =~= a + header + encode_all(ms.take(i + 1)));
            }
        }
        if r.is_err() {
            return r;
        }
        i = i + 1;
    }
    proof {
        assert(ms.take(i as int) =~= ms);
        assert(writer.buf@ =~= a + (header + encode_all(ms)));
    }
    Ok(())
}

impl RespWritable for Vec<RespValue> {
    open spec fn wire(&self) -> Seq<u8> {
        encode(RespModel::Array(models_of(self@)))
    }

    fn write(&self, writer: &mut RespWriter<'_>) -> (r: WriteResult) {
        write_array_to(self, writer)
    }
}

impl RespWritable for RespValue {
    open spec fn wire(&self) -> Seq<u8> {
        encode(model_of(*self))
    }

    fn write(&self, writer: &mut RespWriter<'_>) -> (r: WriteResult) {
        write_value_to(self, writer)
    }
}

} // verus!
