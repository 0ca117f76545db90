use vstd::prelude::*;
use vstd::slice::slice_subrange;
use vstd::utf8::*;

verus! {

/// Byte values of the wire grammar.
pub const CR: u8 = 13;
pub const LF: u8 = 10;
pub const PLUS: u8 = 43;
pub const MINUS: u8 = 45;
pub const COLON: u8 = 58;
pub const DOLLAR: u8 = 36;
pub const STAR: u8 = 42;
pub const ZERO: u8 = 48;

/// Largest accumulated value that may still be multiplied by ten:
/// `i64::MAX / 10`.
pub const MAX_OVER_BASE: i64 = 922337203685477580;

/// Longest integer payload accepted (a sign and nineteen digits).
pub const MAX_INT_LEN: usize = 20;

#[derive(Clone, Debug, PartialEq, Eq, Structural)]
pub enum ParseErrorKind {
    InvalidTag { tag: u8 },
    EmptyData,
    MissingCRLF,
    MissingData { needed: usize },
    ExtraData { extra: usize },
    InvalidData,
    InvalidUtf8Data,
    InvalidIntegerData { data: u8 },
    IntegerOverflow,
    InvalidLength { len: i64 },
    InvalidCmd,
}

#[derive(Clone, Debug, PartialEq, Eq, Structural)]
pub struct ParseError {
    pub kind: ParseErrorKind,
}

impl ParseError {
    pub fn new(kind: ParseErrorKind) -> (r: ParseError)
        ensures
            r == (ParseError { kind }),
    {
        ParseError { kind }
    }
}

pub type ParseResult<T> = Result<T, ParseError>;

pub open spec fn err<T>(kind: ParseErrorKind) -> ParseResult<T> {
    Err(ParseError { kind })
}

// ---------------------------------------------------------------
// Integer payloads
// ---------------------------------------------------------------

pub open spec fn is_digit(b: u8) -> bool {
    ZERO <= b <= ZERO + 9
}

pub open spec fn is_sign(b: u8) -> bool {
    b == PLUS || b == MINUS
}

/// Left-to-right digit scan with the conservative overflow guard: before
/// each multiplication the accumulated value must be below `MAX_OVER_BASE`.
pub open spec fn scan_digits(s: Seq<u8>, acc: int) -> ParseResult<int>
    decreases s.len(),
{
    if s.len() == 0 {
        Ok(acc)
    } else if !is_digit(s[0]) {
        err(ParseErrorKind::InvalidIntegerData { data: s[0] })
    } else if acc >= MAX_OVER_BASE {
        err(ParseErrorKind::IntegerOverflow)
    } else {
        scan_digits(s.drop_first(), acc * 10 + (s[0] - ZERO))
    }
}

/// The value of a signed decimal payload (no tag byte, no terminator).
pub open spec fn decimal_of(data: Seq<u8>) -> ParseResult<i64> {
    if data.len() == 0 {
        Ok(0)
    } else if data.len() > MAX_INT_LEN || (data.len() == MAX_INT_LEN && !is_sign(data[0])) {
        err(ParseErrorKind::IntegerOverflow)
    } else {
        let digits = if is_sign(data[0]) {
            data.drop_first()
        } else {
            data
        };
        match scan_digits(digits, 0) {
            Ok(v) => Ok(
                (if data[0] == MINUS {
                    -v
                } else {
                    v
                }) as i64,
            ),
            Err(e) => Err(e),
        }
    }
}

proof fn lemma_scan_bounded(s: Seq<u8>, acc: int)
    requires
        0 <= acc <= 9223372036854775799,
    ensures
        scan_digits(s, acc) is Ok ==> 0 <= scan_digits(s, acc)->Ok_0 <= 9223372036854775799,
    decreases s.len(),
{
    if s.len() > 0 && is_digit(s[0]) && acc < MAX_OVER_BASE {
        lemma_scan_bounded(s.drop_first(), acc * 10 + (s[0] - ZERO));
    }
}

/// Decodes a signed decimal payload, rejecting any value whose digits would
/// bring the accumulator to `MAX_OVER_BASE` before a multiplication.
pub fn read_i64(data: &[u8]) -> (r: ParseResult<i64>)
    ensures
        r == decimal_of(data@),
{
    if data.len() == 0 {
        return Ok(0);
    }
    if data.len() > MAX_INT_LEN {
        return Err(ParseError::new(ParseErrorKind::IntegerOverflow));
    }
    if data.len() == MAX_INT_LEN && data[0] != PLUS && data[0] != MINUS {
        return Err(ParseError::new(ParseErrorKind::IntegerOverflow));
    }
    let negative = data[0] == MINUS;
    let start: usize = if data[0] == PLUS || data[0] == MINUS {
        1
    } else {
        0
    };
    let ghost digits = data@.subrange(start as int, data@.len() as int);
    assert(digits =~= if is_sign(data@[0]) {
        data@.drop_first()
    } else {
        data@
    });
    let mut value: i64 = 0;
    let mut i: usize = start;
    while i < data.len()
        invariant
            start <= i <= data@.len(),
            0 < data@.len() <= MAX_INT_LEN,
            data@.len() == MAX_INT_LEN ==> is_sign(data@[0]),
            negative == (data@[0] == MINUS),
            digits == data@.subrange(start as int, data@.len() as int),
            digits == if is_sign(data@[0]) {
                data@.drop_first()
            } else {
                data@
            },
            0 <= value <= 9223372036854775799,
            scan_digits(digits, 0) == scan_digits(
                data@.subrange(i as int, data@.len() as int),
                value as int,
            ),
        decreases data@.len() - i,
    {
        let c = data[i];
        let ghost rest = data@.subrange(i as int, data@.len() as int);
        assert(rest.drop_first() =~= data@.subrange(i + 1, data@.len() as int));
        assert(rest[0] == c);
        if c < ZERO || c > ZERO + 9 {
            return Err(ParseError::new(ParseErrorKind::InvalidIntegerData { data: c }));
        }
        if value >= MAX_OVER_BASE {
            return Err(ParseError::new(ParseErrorKind::IntegerOverflow));
        }
        value = value * 10 + (c - ZERO) as i64;
        i = i + 1;
    }
    assert(data@.subrange(i as int, data@.len() as int) =~= Seq::<u8>::empty());
    if negative {
        Ok(-value)
    } else {
        Ok(value)
    }
}

// ---------------------------------------------------------------
// Text payloads
// ---------------------------------------------------------------

/// The characters of a UTF-8 payload.
pub open spec fn text_of(line: Seq<u8>) -> ParseResult<Seq<char>> {
    if valid_utf8(line) {
        Ok(decode_utf8(line))
    } else {
        err(ParseErrorKind::InvalidUtf8Data)
    }
}

/// Relies on `String::from_utf8`: it accepts exactly the valid UTF-8 byte
/// sequences and keeps the characters that they encode.
#[verifier::external_body]
fn utf8_string(data: &[u8]) -> (r: Option<String>)
    ensures
        r is Some <==> valid_utf8(data@),
        r matches Some(s) ==> s@ == decode_utf8(data@),
{
    String::from_utf8(data.to_vec()).ok()
}

/// Turns a payload into text, rejecting bytes that are not UTF-8.
pub fn read_str(data: &[u8]) -> (r: ParseResult<String>)
    ensures
        match text_of(data@) {
            Ok(t) => (r matches Ok(s) && s@ == t),
            Err(e) => r == Err::<String, ParseError>(e),
        },
{
    match utf8_string(data) {
        Some(s) => Ok(s),
        None => Err(ParseError::new(ParseErrorKind::InvalidUtf8Data)),
    }
}

// ---------------------------------------------------------------
// Lines
// ---------------------------------------------------------------

pub open spec fn crlf_at(s: Seq<u8>, i: int) -> bool {
    0 <= i && i + 1 < s.len() && s[i] == CR && s[i + 1] == LF
}

/// Position of the first `\r\n` at or after `from`, if any.
pub open spec fn crlf_from(s: Seq<u8>, from: int) -> Option<int>
    decreases s.len() - from,
{
    if from < 0 || from + 1 >= s.len() {
        None
    } else if crlf_at(s, from) {
        Some(from)
    } else {
        crlf_from(s, from + 1)
    }
}

pub open spec fn first_crlf(s: Seq<u8>) -> Option<int> {
    crlf_from(s, 0)
}

/// The bytes before the first terminator and the bytes after it.
pub open spec fn split_line_of(s: Seq<u8>) -> ParseResult<(Seq<u8>, Seq<u8>)> {
    match first_crlf(s) {
        Some(i) => Ok((s.take(i), s.skip(i + 2))),
        None => err(ParseErrorKind::MissingCRLF),
    }
}

pub proof fn lemma_crlf_from_bounds(s: Seq<u8>, from: int)
    requires
        from >= 0,
    ensures
        crlf_from(s, from) matches Some(i) ==> from <= i && crlf_at(s, i) && forall|j: int|
            from <= j < i ==> !crlf_at(s, j),
        crlf_from(s, from) is None ==> forall|j: int| from <= j ==> !crlf_at(s, j),
    decreases s.len() - from,
{
    if from >= 0 && from + 1 < s.len() && !crlf_at(s, from) {
        lemma_crlf_from_bounds(s, from + 1);
    }
}

/// A view over the bytes that are still to be decoded; it only shrinks.
pub struct RespParser<'a> {
    data: &'a [u8],
}

impl<'a> View for RespParser<'a> {
    type V = Seq<u8>;

    closed spec fn view(&self) -> Seq<u8> {
        self.data@
    }
}

impl<'a> RespParser<'a> {
    pub fn new(data: &'a [u8]) -> (r: RespParser<'a>)
        ensures
            r@ == data@,
    {
        RespParser { data }
    }

    fn split_line(&self) -> (r: ParseResult<(&'a [u8], &'a [u8])>)
        ensures
            match split_line_of(self@) {
                Ok((line, rest)) => (r matches Ok((l, t)) && l@ == line && t@ == rest),
                Err(e) => r == Err::<(&'a [u8], &'a [u8]), ParseError>(e),
            },
    {
        let data: &'a [u8] = self.data;
        let n = data.len();
        let mut i: usize = 0;
        while i < n && n - i >= 2
            invariant
                n == data@.len(),
                data@ == self@,
                i <= n,
                crlf_from(data@, 0) == crlf_from(data@, i as int),
            decreases n - i,
        {
            if data[i] == CR && data[i + 1] == LF {
                let line = slice_subrange(data, 0, i);
                let rest = slice_subrange(data, i + 2, n);
                return Ok((line, rest));
            }
            i = i + 1;
        }
        Err(ParseError::new(ParseErrorKind::MissingCRLF))
    }

    /// The next byte, without consuming it.
    pub fn peek_first(&self) -> (r: Option<&u8>)
        ensures
            self@.len() == 0 ==> r is None,
            self@.len() > 0 ==> r == Some(&self@[0]),
    {
        self.data.first()
    }

    /// Consumes exactly `len` bytes.
    pub fn read_bytes(&mut self, len: usize) -> (r: ParseResult<&'a [u8]>)
        ensures
            len <= old(self)@.len() ==> (r matches Ok(b) && b@ == old(self)@.take(len as int)
                && final(self)@ == old(self)@.skip(len as int)),
            len > old(self)@.len() ==> r == err::<&'a [u8]>(
                ParseErrorKind::MissingData { needed: (len - old(self)@.len()) as usize },
            ) && final(self)@ == old(self)@,
    {
        let data: &'a [u8] = self.data;
        if len > data.len() {
            return Err(ParseError::new(ParseErrorKind::MissingData { needed: len - data.len() }));
        }
        let res = slice_subrange(data, 0, len);
        self.data = slice_subrange(data, len, data.len());
        Ok(res)
    }

    /// Consumes one line and its `\r\n`, handing back the line without it.
    pub fn read_line(&mut self) -> (r: ParseResult<&'a [u8]>)
        ensures
            match split_line_of(old(self)@) {
                Ok((line, rest)) => (r matches Ok(l) && l@ == line && final(self)@ == rest),
                Err(e) => r == Err::<&'a [u8], ParseError>(e) && final(self)@ == old(self)@,
            },
            r is Ok ==> final(self)@.len() + 2 <= old(self)@.len(),
    {
        proof {
            lemma_crlf_from_bounds(self@, 0);
        }
        let (line, data) = self.split_line()?;
        self.data = data;
        Ok(line)
    }
}

} // verus!
