//! RESP values, how they are read from bytes, and how they are written back.
//!
//! Reading follows a buffered reader that takes a type marker byte and then
//! whole lines: a simple string is one line, a bulk string is a length line
//! followed by that many bytes, and an array is a count line followed, for
//! each element, by two lines that are read again as a value of their own.
use vstd::prelude::*;
use vstd::utf8::decode_utf8;
use vstd::utf8::encode_utf8;
use vstd::utf8::valid_utf8;
use vstd::utf8::encode_scalar;
use vstd::utf8::char_u32_cast;
use vstd::utf8::encode_utf8_valid_utf8;
use vstd::utf8::encode_utf8_decode_utf8;
use vstd::utf8::decode_utf8_encode_utf8;
use crate::redis::wire::CR;
use crate::redis::wire::LF;
use crate::redis::wire::line_len;
use crate::redis::wire::first_line;
use crate::redis::wire::ends_with_crlf;
use crate::redis::wire::strip_byte_prefix;
use crate::redis::wire::strip_crlf;
use crate::redis::wire::parse_usize;
use crate::redis::wire::decimal;
use crate::redis::wire::lemma_line_len;
use crate::redis::wire::lemma_line_len_at_newline;
use crate::redis::wire::lemma_decimal_digits;
use crate::redis::wire::lemma_parse_decimal;
use crate::redis::wire::no_newline;
use crate::redis::wire::lemma_ascii_frame_valid;
use crate::redis::wire::is_ascii_bytes;
use crate::redis::wire::lemma_ascii_valid;
use crate::redis::wire::line_end;
use crate::redis::wire::is_utf8;
use crate::redis::wire::string_from_utf8;
use crate::redis::wire::string_bytes;
use crate::redis::wire::append_bytes;
use crate::redis::wire::copy_range;
use crate::redis::wire::parse_usize_at;
use crate::redis::wire::push_decimal;

verus! {

/// A RESP value.
#[derive(Debug)]
pub enum RESPDataTypes {
    SimpleString(String),
    SimpleError(String),
    Integer(i64),
    BulkString(String),
    Array(Vec<RESPDataTypes>),
    Null,
    Boolean(bool),
    /// A double, held as its IEEE 754 bit pattern (what `f64::to_bits` gives).
    Double(u64),
    BigNumber(i128),
    BulkError(String),
    VerbatimString { encoding: String, string: String },
    /// A map, as its key-value pairs.
    Dictionary(Vec<(RESPDataTypes, RESPDataTypes)>),
    /// A set, as its members.
    UniqueSet(Vec<RESPDataTypes>),
    Push(Vec<RESPDataTypes>),
}

/// The mathematical content of a [`RESPDataTypes`] value: text as its
/// characters, collections as sequences.
pub enum RespValue {
    SimpleString(Seq<char>),
    SimpleError(Seq<char>),
    Integer(i64),
    BulkString(Seq<char>),
    Array(Seq<RespValue>),
    Null,
    Boolean(bool),
    Double(u64),
    BigNumber(i128),
    BulkError(Seq<char>),
    VerbatimString { encoding: Seq<char>, string: Seq<char> },
    Dictionary(Seq<(RespValue, RespValue)>),
    UniqueSet(Seq<RespValue>),
    Push(Seq<RespValue>),
}

impl View for RESPDataTypes {
    type V = RespValue;

    open spec fn view(&self) -> RespValue
        decreases self,
    {
        match self {
            RESPDataTypes::SimpleString(s) => RespValue::SimpleString(s@),
            RESPDataTypes::SimpleError(s) => RespValue::SimpleError(s@),
            RESPDataTypes::Integer(n) => RespValue::Integer(*n),
            RESPDataTypes::BulkString(s) => RespValue::BulkString(s@),
            RESPDataTypes::Array(v) => RespValue::Array(
                Seq::new(
                    v.len() as nat,
                    |i: int|
                        if 0 <= i < v.len() {
                            v[i].view()
                        } else {
                            RespValue::Null
                        },
                ),
            ),
            RESPDataTypes::Null => RespValue::Null,
            RESPDataTypes::Boolean(b) => RespValue::Boolean(*b),
            RESPDataTypes::Double(bits) => RespValue::Double(*bits),
            RESPDataTypes::BigNumber(n) => RespValue::BigNumber(*n),
            RESPDataTypes::BulkError(s) => RespValue::BulkError(s@),
            RESPDataTypes::VerbatimString { encoding, string } => RespValue::VerbatimString {
                encoding: encoding@,
                string: string@,
            },
            RESPDataTypes::Dictionary(v) => RespValue::Dictionary(
                Seq::new(
                    v.len() as nat,
                    |i: int|
                        if 0 <= i < v.len() {
                            (v[i].0.view(), v[i].1.view())
                        } else {
                            (RespValue::Null, RespValue::Null)
                        },
                ),
            ),
            RESPDataTypes::UniqueSet(v) => RespValue::UniqueSet(
                Seq::new(
                    v.len() as nat,
                    |i: int|
                        if 0 <= i < v.len() {
                            v[i].view()
                        } else {
                            RespValue::Null
                        },
                ),
            ),
            RESPDataTypes::Push(v) => RespValue::Push(
                Seq::new(
                    v.len() as nat,
                    |i: int|
                        if 0 <= i < v.len() {
                            v[i].view()
                        } else {
                            RespValue::Null
                        },
                ),
            ),
        }
    }
}

/// The views of a sequence of values.
pub open spec fn views(v: Seq<RESPDataTypes>) -> Seq<RespValue> {
    Seq::new(v.len(), |i: int| v[i]@)
}

/// The view of an array is the sequence of the views of its elements.
pub proof fn lemma_array_view(a: RESPDataTypes)
    requires
        a is Array,
    ensures
        a@ == RespValue::Array(views(a->Array_0@)),
{
    reveal_with_fuel(<RESPDataTypes as View>::view, 2);
    let v = a->Array_0;
    assert(a == RESPDataTypes::Array(v));
    let seen = a@->Array_0;
    assert(seen.len() == v@.len());
    assert(seen =~= views(v@));
}

/// The view of a parse result.
pub open spec fn result_view(r: Result<RESPDataTypes, RESPDataTypes>) -> Result<
    RespValue,
    RespValue,
> {
    match r {
        Ok(v) => Ok(v@),
        Err(e) => Err(e@),
    }
}

/// What a reading step does on the bytes in front of it: `None` when the
/// reader gives up on them (bad UTF-8 in a line, a missing marker or line
/// ending, a length that is not a number, too few bytes), else the result and
/// how many bytes it took.
pub type Step = Option<(Result<RespValue, RespValue>, nat)>;

/// Reading a simple string from `rest`: one line, `+`, text, `\r\n`.
pub open spec fn spec_simple_string(rest: Seq<u8>) -> Step {
    let line = first_line(rest);
    if valid_utf8(line) && line.len() > 0 && line[0] == 43 && ends_with_crlf(line) {
        Some(
            (
                Ok(RespValue::SimpleString(decode_utf8(line.subrange(1, line.len() - 2)))),
                line.len(),
            ),
        )
    } else {
        None
    }
}

/// Reading a bulk string from `rest`: a line holding the length (an optional
/// `$` and `\r\n` around it), then exactly that many bytes. The bytes that
/// follow the text, such as its closing `\r\n`, are left unread.
pub open spec fn spec_bulk_string(rest: Seq<u8>) -> Step {
    let line = first_line(rest);
    let n = line.len();
    if !valid_utf8(line) {
        None
    } else {
        match parse_usize(strip_crlf(strip_byte_prefix(line, 36))) {
            None => None,
            Some(len) => if n + len <= rest.len() && valid_utf8(rest.subrange(n as int, (n + len) as int)) {
                Some((Ok(RespValue::BulkString(decode_utf8(rest.subrange(n as int, (n + len) as int)))), n + len))
            } else {
                None
            },
        }
    }
}

/// Reading an array from `rest`: a line holding the element count (an
/// optional `*` and `\r\n` around it), then the elements.
pub open spec fn spec_array(rest: Seq<u8>) -> Step
    decreases rest.len(), 1int, 0int,
{
    let line = first_line(rest);
    let n = line.len();
    if !valid_utf8(line) {
        None
    } else {
        match parse_usize(strip_crlf(strip_byte_prefix(line, 42))) {
            None => None,
            Some(count) => {
                proof {
                    lemma_line_len(rest);
                }
                spec_elements(rest.skip(n as int), count, seq![], n)
            },
        }
    }
}

/// Reading `k` more array elements from `buf`, after the elements `done`
/// and `used` bytes. Each element is the next two lines, read as a value of
/// its own; the first element that is an error ends the array with that
/// error.
pub open spec fn spec_elements(buf: Seq<u8>, k: nat, done: Seq<RespValue>, used: nat) -> Step
    decreases buf.len(), 3int, k,
{
    if k == 0 {
        Some((Ok(RespValue::Array(done)), used))
    } else {
        let l1 = line_len(buf);
        let line1 = buf.take(l1 as int);
        let after1 = buf.skip(l1 as int);
        let l2 = line_len(after1);
        let line2 = after1.take(l2 as int);
        proof {
            lemma_line_len(buf);
            lemma_line_len(after1);
        }
        if !valid_utf8(line1) || !valid_utf8(line2) {
            None
        } else {
            match spec_from(line1 + line2) {
                None => None,
                Some(Err(e)) => Some((Err(e), used + l1 + l2)),
                Some(Ok(v)) => spec_elements(
                    after1.skip(l2 as int),
                    (k - 1) as nat,
                    done.push(v),
                    used + l1 + l2,
                ),
            }
        }
    }
}

/// Reading one value from the bytes `b`: no bytes at all is an `Err` of
/// `Null`; otherwise the first byte picks the kind (`+`, `$`, `*`) and the
/// rest is read as that kind, and any other first byte gives `Null`.
pub open spec fn spec_from(b: Seq<u8>) -> Option<Result<RespValue, RespValue>>
    decreases b.len(), 2int, 0int,
{
    if b.len() == 0 {
        Some(Err(RespValue::Null))
    } else {
        let rest = b.drop_first();
        let step = if b[0] == 43 {
            spec_simple_string(rest)
        } else if b[0] == 36 {
            spec_bulk_string(rest)
        } else if b[0] == 42 {
            spec_array(rest)
        } else {
            Some((Ok(RespValue::Null), 0))
        };
        match step {
            None => None,
            Some((r, _)) => Some(r),
        }
    }
}

/// An executable step result agrees with the spec step taken at `pos`.
pub open spec fn same_step(
    r: Option<(Result<RESPDataTypes, RESPDataTypes>, usize)>,
    s: Step,
    pos: usize,
) -> bool {
    match (r, s) {
        (None, None) => true,
        (Some((v, end)), Some((sv, n))) => result_view(v) == sv && end == pos + n,
        _ => false,
    }
}

/// The bytes `\r\n`.
pub open spec fn crlf() -> Seq<u8> {
    seq![CR, LF]
}

/// The bytes written for a value: simple strings and errors as one line, bulk
/// strings and bulk errors as a length line and the text, and every other
/// kind as the line `-Error`.
pub open spec fn spec_serialize(v: RespValue) -> Seq<u8> {
    match v {
        RespValue::SimpleString(s) => seq![43u8] + encode_utf8(s) + crlf(),
        RespValue::SimpleError(s) => seq![45u8] + encode_utf8(s) + crlf(),
        RespValue::BulkString(s) => seq![36u8] + decimal(encode_utf8(s).len()) + crlf()
            + encode_utf8(s) + crlf(),
        RespValue::BulkError(s) => seq![33u8] + decimal(encode_utf8(s).len()) + crlf()
            + encode_utf8(s) + crlf(),
        _ => seq![45u8, 69u8, 114u8, 114u8, 111u8, 114u8, CR, LF],
    }
}

/// Reads a simple string from `bytes[pos..]`.
fn simple_string_at(bytes: &[u8], pos: usize) -> (r: Option<
    (Result<RESPDataTypes, RESPDataTypes>, usize),
>)
    requires
        pos <= bytes@.len(),
    ensures
        same_step(r, spec_simple_string(bytes@.skip(pos as int)), pos),
        r matches Some((_, end)) ==> pos <= end <= bytes@.len(),
{
    let ghost rest = bytes@.skip(pos as int);
    let end = line_end(bytes, pos);
    proof {
        lemma_line_len(rest);
    }
    let ghost line = first_line(rest);
    assert(line == bytes@.subrange(pos as int, end as int));
    if end - pos >= 3 && bytes[pos] == 43 && bytes[end - 2] == CR && bytes[end - 1] == LF {
        let ghost content = bytes@.subrange(pos + 1, end - 2);
        proof {
            assert(line =~= seq![43u8] + content + seq![CR, LF]);
            assert(content == line.subrange(1, line.len() - 2));
            lemma_ascii_frame_valid(seq![43u8], content, seq![CR, LF]);
        }
        match string_from_utf8(&bytes[pos + 1..end - 2]) {
            Some(text) => Some((Ok(RESPDataTypes::SimpleString(text)), end)),
            None => None,
        }
    } else {
        None
    }
}

/// The bounds of the text of a length line `bytes[pos..end]` once an
/// optional `marker` in front and an optional `\r\n` behind are stripped.
fn strip_length_line(bytes: &[u8], pos: usize, end: usize, marker: u8) -> (bounds: (usize, usize))
    requires
        pos <= end <= bytes@.len(),
    ensures
        pos <= bounds.0 <= bounds.1 <= end,
        bytes@.subrange(bounds.0 as int, bounds.1 as int) == strip_crlf(
            strip_byte_prefix(bytes@.subrange(pos as int, end as int), marker),
        ),
{
    let ghost line = bytes@.subrange(pos as int, end as int);
    let mut s = pos;
    if s < end && bytes[s] == marker {
        s = s + 1;
    }
    let ghost stripped = bytes@.subrange(s as int, end as int);
    assert(stripped == strip_byte_prefix(line, marker));
    let mut e = end;
    if e - s >= 2 && bytes[e - 2] == CR && bytes[e - 1] == LF {
        e = e - 2;
    }
    assert(bytes@.subrange(s as int, e as int) == strip_crlf(stripped));
    (s, e)
}

/// Reads a bulk string from `bytes[pos..]`.
fn bulk_string_at(bytes: &[u8], pos: usize) -> (r: Option<
    (Result<RESPDataTypes, RESPDataTypes>, usize),
>)
    requires
        pos <= bytes@.len(),
    ensures
        same_step(r, spec_bulk_string(bytes@.skip(pos as int)), pos),
        r matches Some((_, end)) ==> pos <= end <= bytes@.len(),
{
    let ghost rest = bytes@.skip(pos as int);
    let end = line_end(bytes, pos);
    proof {
        lemma_line_len(rest);
    }
    assert(first_line(rest) == bytes@.subrange(pos as int, end as int));
    if !is_utf8(&bytes[pos..end]) {
        return None;
    }
    let (s, e) = strip_length_line(bytes, pos, end, 36);
    match parse_usize_at(bytes, s, e) {
        None => None,
        Some(len) => {
            if len <= bytes.len() - end {
                let ghost n = end - pos;
                assert(rest.subrange(n as int, (n + len) as int) == bytes@.subrange(
                    end as int,
                    end + len,
                ));
                match string_from_utf8(&bytes[end..end + len]) {
                    Some(text) => Some((Ok(RESPDataTypes::BulkString(text)), end + len)),
                    None => None,
                }
            } else {
                None
            }
        },
    }
}

/// Reads an array from `bytes[pos..]`.
fn array_at(bytes: &[u8], pos: usize) -> (r: Option<(Result<RESPDataTypes, RESPDataTypes>, usize)>)
    requires
        pos <= bytes@.len(),
    ensures
        same_step(r, spec_array(bytes@.skip(pos as int)), pos),
        r matches Some((_, end)) ==> pos <= end <= bytes@.len(),
    decreases bytes@.len() - pos, 1int,
{
    let ghost rest = bytes@.skip(pos as int);
    let end = line_end(bytes, pos);
    proof {
        lemma_line_len(rest);
    }
    assert(first_line(rest) == bytes@.subrange(pos as int, end as int));
    if !is_utf8(&bytes[pos..end]) {
        return None;
    }
    let (s, e) = strip_length_line(bytes, pos, end, 42);
    let count = match parse_usize_at(bytes, s, e) {
        None => {
            return None;
        },
        Some(c) => c,
    };
    assert(end > pos);
    assert(rest.skip((end - pos) as int) == bytes@.skip(end as int));
    let mut items: Vec<RESPDataTypes> = Vec::new();
    assert(views(items@) =~= Seq::<RespValue>::empty());
    assert(parse_usize(strip_crlf(strip_byte_prefix(first_line(rest), 42))) == Some(count as nat));
    let mut cur = end;
    let mut i: usize = 0;
    while i < count
        invariant
            pos < end <= cur <= bytes@.len(),
            i <= count,
            spec_array(bytes@.skip(pos as int)) == spec_elements(
                bytes@.skip(cur as int),
                (count - i) as nat,
                views(items@),
                (cur - pos) as nat,
            ),
        decreases count - i,
    {
        let ghost buf = bytes@.skip(cur as int);
        let e1 = line_end(bytes, cur);
        let ghost after1 = buf.skip((e1 - cur) as int);
        assert(after1 == bytes@.skip(e1 as int));
        let e2 = line_end(bytes, e1);
        proof {
            lemma_line_len(buf);
            lemma_line_len(after1);
        }
        assert(buf.take((e1 - cur) as int) == bytes@.subrange(cur as int, e1 as int));
        assert(after1.take((e2 - e1) as int) == bytes@.subrange(e1 as int, e2 as int));
        if !is_utf8(&bytes[cur..e1]) {
            return None;
        }
        if !is_utf8(&bytes[e1..e2]) {
            return None;
        }
        let element = copy_range(bytes, cur, e2);
        assert(element@ == bytes@.subrange(cur as int, e1 as int) + bytes@.subrange(
            e1 as int,
            e2 as int,
        ));
        assert(after1.skip((e2 - e1) as int) == bytes@.skip(e2 as int));
        match decode_at(element.as_slice()) {
            None => {
                return None;
            },
            Some(Err(err)) => {
                return Some((Err(err), e2));
            },
            Some(Ok(v)) => {
                let ghost before = items@;
                items.push(v);
                assert(views(items@) =~= views(before).push(v@));
                cur = e2;
                i = i + 1;
            },
        }
    }
    let result = RESPDataTypes::Array(items);
    proof {
        lemma_array_view(result);
    }
    assert(result@ == RespValue::Array(views(items@)));
    assert(spec_elements(bytes@.skip(cur as int), 0, views(items@), (cur - pos) as nat) == Some(
        (Ok::<RespValue, RespValue>(RespValue::Array(views(items@))), (cur - pos) as nat),
    ));
    Some((Ok(result), cur))
}

/// Reads one value from `bytes`, as [`spec_from`] describes; `None` where
/// the reader gives up on the bytes.
fn decode_at(bytes: &[u8]) -> (r: Option<Result<RESPDataTypes, RESPDataTypes>>)
    ensures
        match (r, spec_from(bytes@)) {
            (None, None) => true,
            (Some(v), Some(sv)) => result_view(v) == sv,
            _ => false,
        },
    decreases bytes@.len(), 2int,
{
    if bytes.len() == 0 {
        return Some(Err(RESPDataTypes::Null));
    }
    assert(bytes@.drop_first() == bytes@.skip(1));
    let marker = bytes[0];
    let step = if marker == 43 {
        simple_string_at(bytes, 1)
    } else if marker == 36 {
        bulk_string_at(bytes, 1)
    } else if marker == 42 {
        array_at(bytes, 1)
    } else {
        Some((Ok(RESPDataTypes::Null), 1))
    };
    match step {
        None => None,
        Some((r, _)) => Some(r),
    }
}

impl RESPDataTypes {
    /// Reads one value from `bytes`, or `None` where the reader gives up on
    /// them (see [`spec_from`]).
    pub fn decode(bytes: &[u8]) -> (r: Option<Result<RESPDataTypes, RESPDataTypes>>)
        ensures
            match (r, spec_from(bytes@)) {
                (None, None) => true,
                (Some(v), Some(sv)) => result_view(v) == sv,
                _ => false,
            },
    {
        decode_at(bytes)
    }

    /// Reads one value from `value`. `Err(Null)` stands for input that has
    /// no bytes at all, and any other `Err` is an error that an array element
    /// turned out to be.
    pub fn try_from(value: &[u8]) -> (r: Result<RESPDataTypes, RESPDataTypes>)
        requires
            spec_from(value@) is Some,
        ensures
            result_view(r) == spec_from(value@)->0,
    {
        match decode_at(value) {
            Some(r) => r,
            None => Err(RESPDataTypes::Null),
        }
    }

    /// The bytes that [`RESPDataTypes::write`] writes for this value.
    pub fn serialize(&self) -> (bytes: Vec<u8>)
        ensures
            bytes@ == spec_serialize(self@),
    {
        let mut bytes: Vec<u8> = Vec::new();
        self.write(&mut bytes);
        bytes
    }

    /// Writes this value to `buffer`: simple strings and simple errors as
    /// one line, bulk strings and bulk errors as their byte length and their
    /// text, and every other kind as the line `-Error`.
    pub fn write(&self, buffer: &mut Vec<u8>)
        ensures
            final(buffer)@ == old(buffer)@ + spec_serialize(self@),
    {
        let ghost start = buffer@;
        match self {
            RESPDataTypes::SimpleString(value) => {
                buffer.push(43);
                append_bytes(buffer, string_bytes(value));
                buffer.push(CR);
                buffer.push(LF);
                assert(buffer@ =~= start + spec_serialize(self@));
            },
            RESPDataTypes::SimpleError(value) => {
                buffer.push(45);
                append_bytes(buffer, string_bytes(value));
                buffer.push(CR);
                buffer.push(LF);
                assert(buffer@ =~= start + spec_serialize(self@));
            },
            RESPDataTypes::BulkString(value) => {
                let text = string_bytes(value);
                buffer.push(36);
                push_decimal(buffer, text.len());
                buffer.push(CR);
                buffer.push(LF);
                append_bytes(buffer, text);
                buffer.push(CR);
                buffer.push(LF);
                assert(buffer@ =~= start + spec_serialize(self@));
            },
            RESPDataTypes::BulkError(value) => {
                let text = string_bytes(value);
                buffer.push(33);
                push_decimal(buffer, text.len());
                buffer.push(CR);
                buffer.push(LF);
                append_bytes(buffer, text);
                buffer.push(CR);
                buffer.push(LF);
                assert(buffer@ =~= start + spec_serialize(self@));
            },
            _ => {
                buffer.push(45);
                buffer.push(69);
                buffer.push(114);
                buffer.push(114);
                buffer.push(111);
                buffer.push(114);
                buffer.push(CR);
                buffer.push(LF);
                assert(buffer@ =~= start + spec_serialize(self@));
            },
        }
    }
}

/// A reader of RESP values over a byte buffer, with a position that the
/// reading steps move forward.
pub struct RESPParser {
    input: Vec<u8>,
    pos: usize,
}

impl RESPParser {
    #[verifier::type_invariant]
    spec fn position_in_input(&self) -> bool {
        self.pos <= self.input.len()
    }

    /// The bytes not read yet.
    pub closed spec fn remaining(&self) -> Seq<u8> {
        self.input@.skip(self.pos as int)
    }

    /// A reader positioned at the start of `input`.
    pub fn new(input: Vec<u8>) -> (parser: RESPParser)
        ensures
            parser.remaining() == input@,
    {
        let parser = RESPParser { input, pos: 0 };
        assert(parser.input@.skip(0) == parser.input@);
        parser
    }

    /// Reads a simple string: one line made of `+`, the text and `\r\n`.
    pub fn parse_simple_string(&mut self) -> (r: Result<RESPDataTypes, RESPDataTypes>)
        requires
            spec_simple_string(old(self).remaining()) is Some,
        ensures
            result_view(r) == spec_simple_string(old(self).remaining()).unwrap().0,
            final(self).remaining() == old(self).remaining().skip(
                spec_simple_string(old(self).remaining()).unwrap().1 as int,
            ),
    {
        proof {
            use_type_invariant(&*self);
        }
        match simple_string_at(self.input.as_slice(), self.pos) {
            Some((r, end)) => {
                proof {
                    self.lemma_skip_more(end);
                }
                self.pos = end;
                r
            },
            None => Err(RESPDataTypes::Null),
        }
    }

    /// Reads a bulk string: a line with the byte length, then that many
    /// bytes of text.
    pub fn parse_bulk_string(&mut self) -> (r: Result<RESPDataTypes, RESPDataTypes>)
        requires
            spec_bulk_string(old(self).remaining()) is Some,
        ensures
            result_view(r) == spec_bulk_string(old(self).remaining()).unwrap().0,
            final(self).remaining() == old(self).remaining().skip(
                spec_bulk_string(old(self).remaining()).unwrap().1 as int,
            ),
    {
        proof {
            use_type_invariant(&*self);
        }
        match bulk_string_at(self.input.as_slice(), self.pos) {
            Some((r, end)) => {
                proof {
                    self.lemma_skip_more(end);
                }
                self.pos = end;
                r
            },
            None => Err(RESPDataTypes::Null),
        }
    }

    /// Reads an array: a line with the element count, then each element as
    /// the next two lines read as a value of its own. An element that is an
    /// error ends the reading with that error.
    pub fn parse_array(&mut self) -> (r: Result<RESPDataTypes, RESPDataTypes>)
        requires
            spec_array(old(self).remaining()) is Some,
        ensures
            result_view(r) == spec_array(old(self).remaining()).unwrap().0,
            final(self).remaining() == old(self).remaining().skip(
                spec_array(old(self).remaining()).unwrap().1 as int,
            ),
    {
        proof {
            use_type_invariant(&*self);
        }
        match array_at(self.input.as_slice(), self.pos) {
            Some((r, end)) => {
                proof {
                    self.lemma_skip_more(end);
                }
                self.pos = end;
                r
            },
            None => Err(RESPDataTypes::Null),
        }
    }

    /// Skipping to `end` leaves what skipping the difference from the
    /// current position leaves.
    proof fn lemma_skip_more(&self, end: usize)
        requires
            self.pos <= end <= self.input.len(),
        ensures
            self.input@.skip(end as int) == self.remaining().skip(end - self.pos),
    {
        assert(self.input@.skip(end as int) =~= self.remaining().skip(end - self.pos));
    }
}

/// `s` holds no newline character.
pub open spec fn no_newline_char(s: Seq<char>) -> bool {
    forall|i: int| 0 <= i < s.len() ==> s[i] != '\n'
}

/// The UTF-8 encoding of text without a newline character holds no `\n`
/// byte: every byte of a multi-byte character is at least `0x80`.
pub proof fn lemma_encode_no_newline(s: Seq<char>)
    requires
        no_newline_char(s),
    ensures
        no_newline(encode_utf8(s)),
    decreases s.len(),
{
    if s.len() > 0 {
        let rest = s.drop_first();
        assert(no_newline_char(rest)) by {
            assert forall|i: int| 0 <= i < rest.len() implies rest[i] != '\n' by {
                assert(rest[i] == s[i + 1]);
            }
        }
        lemma_encode_no_newline(rest);
        let c = s[0] as u32;
        assert(s[0] != '\n');
        assert(c != 10) by {
            if c == 10 {
                char_u32_cast(s[0], c);
                assert((10u32 as char) == '\n');
            }
        }
        let head = encode_scalar(c);
        assert(no_newline(head)) by {
            if c <= 0x7f {
                assert((c & 0x7f) as u8 != 10) by (bit_vector)
                    requires
                        c <= 0x7f,
                        c != 10,
                ;
            } else {
                assert(forall|x: u8| (0x80u8 | x) != 10u8) by (bit_vector);
                assert(forall|x: u8| (0xC0u8 | x) != 10u8) by (bit_vector);
                assert(forall|x: u8| (0xE0u8 | x) != 10u8) by (bit_vector);
                assert(forall|x: u8| (0xF0u8 | x) != 10u8) by (bit_vector);
            }
        }
        let whole = encode_utf8(s);
        assert(whole == head + encode_utf8(rest));
        assert forall|i: int| 0 <= i < whole.len() implies whole[i] != LF by {
            if i >= head.len() {
                assert(whole[i] == encode_utf8(rest)[i - head.len()]);
            } else {
                assert(whole[i] == head[i]);
            }
        }
    }
}

/// A line that ends at its only `\n` is what `read_line` takes from it,
/// whatever follows.
proof fn lemma_first_line_is(line: Seq<u8>, tail: Seq<u8>)
    requires
        line.len() > 0,
        line.last() == LF,
        no_newline(line.drop_last()),
    ensures
        line_len(line + tail) == line.len(),
        first_line(line + tail) == line,
{
    let whole = line + tail;
    let k = line.len() - 1;
    assert(whole.take(k) == line.drop_last());
    lemma_line_len_at_newline(whole, k);
    assert(whole.take(line.len() as int) == line);
}

/// A line made of an ASCII prefix without `\n`, the decimal text of a
/// number and `\r\n` is ASCII and holds its only `\n` at its end.
proof fn lemma_number_line(pre: Seq<u8>, n: nat)
    requires
        is_ascii_bytes(pre),
        no_newline(pre),
    ensures
        ({
            let line = pre + decimal(n) + crlf();
            &&& is_ascii_bytes(line)
            &&& line.len() > 0
            &&& line.last() == LF
            &&& no_newline(line.drop_last())
        }),
{
    let d = decimal(n);
    let line = pre + d + crlf();
    lemma_decimal_digits(n);
    assert forall|i: int| 0 <= i < line.len() implies line[i] < 128 by {
        if i < pre.len() {
            assert(line[i] == pre[i]);
        } else if i < pre.len() + d.len() {
            assert(line[i] == d[i - pre.len()]);
        }
    }
    assert forall|i: int| 0 <= i < line.len() - 1 implies line.drop_last()[i] != LF by {
        if i < pre.len() {
            assert(line[i] == pre[i]);
        } else if i < pre.len() + d.len() {
            assert(line[i] == d[i - pre.len()]);
        }
    }
}

/// Writing a simple string whose text has no newline and reading it back
/// with [`RESPParser::parse_simple_string`] gives the same simple string and
/// takes all the written bytes.
pub proof fn law_simple_string_round_trip(s: Seq<char>)
    requires
        no_newline_char(s),
    ensures
        spec_simple_string(spec_serialize(RespValue::SimpleString(s))) == Some(
            (
                Ok::<RespValue, RespValue>(RespValue::SimpleString(s)),
                spec_serialize(RespValue::SimpleString(s)).len(),
            ),
        ),
{
    let e = encode_utf8(s);
    let bytes = spec_serialize(RespValue::SimpleString(s));
    lemma_encode_no_newline(s);
    encode_utf8_valid_utf8(s);
    encode_utf8_decode_utf8(s);
    assert(bytes == seq![43u8] + e + crlf());
    let line = bytes;
    assert(no_newline(line.drop_last())) by {
        assert forall|i: int| 0 <= i < line.len() - 1 implies line.drop_last()[i] != LF by {
            if 1 <= i < e.len() + 1 {
                assert(line[i] == e[i - 1]);
            }
        }
    }
    lemma_first_line_is(line, seq![]);
    assert(line + Seq::<u8>::empty() == line);
    lemma_ascii_frame_valid(seq![43u8], e, crlf());
    assert(line.subrange(1, line.len() - 2) == e);
}

/// The bytes written for a bulk string, behind the `$` marker.
proof fn lemma_bulk_body(s: Seq<char>)
    requires
        encode_utf8(s).len() <= usize::MAX,
    ensures
        ({
            let e = encode_utf8(s);
            let d = decimal(e.len());
            let rest = d + crlf() + e + crlf();
            spec_bulk_string(rest) == Some(
                (Ok::<RespValue, RespValue>(RespValue::BulkString(s)), (d.len() + 2 + e.len()) as nat),
            )
        }),
{
    let e = encode_utf8(s);
    let d = decimal(e.len());
    let head = d + crlf();
    let rest = d + crlf() + e + crlf();
    lemma_number_line(seq![], e.len());
    assert(Seq::<u8>::empty() + d + crlf() == head);
    lemma_decimal_digits(e.len());
    lemma_parse_decimal(e.len());
    encode_utf8_valid_utf8(s);
    encode_utf8_decode_utf8(s);
    assert(rest == head + (e + crlf()));
    lemma_first_line_is(head, e + crlf());
    lemma_ascii_valid(head);
    assert(strip_byte_prefix(head, 36) == head);
    assert(strip_crlf(head) == d);
    let n = head.len();
    assert(rest.subrange(n as int, (n + e.len()) as int) == e);
}

/// Writing a bulk string and reading the bytes back as one value gives the
/// same bulk string, whatever its text holds.
pub proof fn law_bulk_string_round_trip(s: Seq<char>)
    requires
        encode_utf8(s).len() <= usize::MAX,
    ensures
        spec_from(spec_serialize(RespValue::BulkString(s))) == Some(
            Ok::<RespValue, RespValue>(RespValue::BulkString(s)),
        ),
{
    let e = encode_utf8(s);
    let d = decimal(e.len());
    let bytes = spec_serialize(RespValue::BulkString(s));
    assert(bytes.drop_first() == d + crlf() + e + crlf());
    lemma_bulk_body(s);
}

/// Reading a written bulk string with [`RESPParser::parse_bulk_string`]
/// gives the same bulk string and leaves only its closing `\r\n` unread.
pub proof fn law_bulk_string_parser_round_trip(s: Seq<char>)
    requires
        encode_utf8(s).len() <= usize::MAX,
    ensures
        spec_bulk_string(spec_serialize(RespValue::BulkString(s))) == Some(
            (
                Ok::<RespValue, RespValue>(RespValue::BulkString(s)),
                (spec_serialize(RespValue::BulkString(s)).len() - 2) as nat,
            ),
        ),
        spec_serialize(RespValue::BulkString(s)).skip(
            spec_serialize(RespValue::BulkString(s)).len() - 2,
        ) == crlf(),
{
    let e = encode_utf8(s);
    let d = decimal(e.len());
    let head = seq![36u8] + d + crlf();
    let bytes = spec_serialize(RespValue::BulkString(s));
    lemma_number_line(seq![36u8], e.len());
    lemma_decimal_digits(e.len());
    lemma_parse_decimal(e.len());
    encode_utf8_valid_utf8(s);
    encode_utf8_decode_utf8(s);
    assert(bytes == head + (e + crlf()));
    assert(bytes.skip(bytes.len() - 2) == crlf());
    lemma_first_line_is(head, e + crlf());
    lemma_ascii_valid(head);
    assert(strip_byte_prefix(head, 36) == d + crlf());
    assert(strip_crlf(d + crlf()) == d);
    let n = head.len();
    assert(bytes.subrange(n as int, (n + e.len()) as int) == e);
}

/// The bytes written for the bulk strings `args`, one after another.
pub open spec fn encode_bulk_strings(args: Seq<Seq<char>>) -> Seq<u8>
    decreases args.len(),
{
    if args.len() == 0 {
        seq![]
    } else {
        spec_serialize(RespValue::BulkString(args[0])) + encode_bulk_strings(args.drop_first())
    }
}

/// A request as a client sends it: an array of the bulk strings `args`.
pub open spec fn encode_request(args: Seq<Seq<char>>) -> Seq<u8> {
    seq![42u8] + decimal(args.len()) + crlf() + encode_bulk_strings(args)
}

/// The bulk strings with the texts `args`.
pub open spec fn bulk_strings(args: Seq<Seq<char>>) -> Seq<RespValue> {
    Seq::new(args.len(), |i: int| RespValue::BulkString(args[i]))
}

/// Every text in `args` is free of newlines and short enough to be held in
/// memory.
pub open spec fn plain_args(args: Seq<Seq<char>>) -> bool {
    forall|i: int|
        0 <= i < args.len() ==> no_newline_char(#[trigger] args[i]) && encode_utf8(args[i]).len()
            <= usize::MAX
}

/// The elements of an array of bulk strings read back one by one.
proof fn lemma_bulk_elements(args: Seq<Seq<char>>, done: Seq<RespValue>, used: nat)
    requires
        plain_args(args),
    ensures
        spec_elements(encode_bulk_strings(args), args.len(), done, used) == Some(
            (
                Ok::<RespValue, RespValue>(RespValue::Array(done + bulk_strings(args))),
                used + encode_bulk_strings(args).len(),
            ),
        ),
    decreases args.len(),
{
    if args.len() == 0 {
        assert(done + bulk_strings(args) == done);
    } else {
        let a = args[0];
        let rest_args = args.drop_first();
        assert(plain_args(rest_args)) by {
            assert forall|i: int| 0 <= i < rest_args.len() implies no_newline_char(
                #[trigger] rest_args[i],
            ) && encode_utf8(rest_args[i]).len() <= usize::MAX by {
                assert(rest_args[i] == args[i + 1]);
            }
        }
        assert(no_newline_char(args[0]));
        let e = encode_utf8(a);
        let d = decimal(e.len());
        let line1 = seq![36u8] + d + crlf();
        let line2 = e + crlf();
        let tail = encode_bulk_strings(rest_args);
        let buf = encode_bulk_strings(args);
        assert(spec_serialize(RespValue::BulkString(a)) == line1 + line2);
        assert(buf == line1 + (line2 + tail));
        lemma_number_line(seq![36u8], e.len());
        lemma_decimal_digits(e.len());
        lemma_encode_no_newline(a);
        encode_utf8_valid_utf8(a);
        lemma_ascii_valid(line1);
        lemma_first_line_is(line1, line2 + tail);
        let after1 = buf.skip(line1.len() as int);
        assert(after1 == line2 + tail);
        lemma_first_line_is(line2, tail);
        lemma_ascii_frame_valid(seq![], e, crlf());
        assert(Seq::<u8>::empty() + e + crlf() == line2);
        law_bulk_string_round_trip(a);
        assert(after1.skip(line2.len() as int) == tail);
        lemma_bulk_elements(rest_args, done.push(RespValue::BulkString(a)), used + line1.len() + line2.len());
        assert(done.push(RespValue::BulkString(a)) + bulk_strings(rest_args) == done + bulk_strings(args));
    }
}

/// A request that a client writes as an array of bulk strings without
/// newlines reads back, through [`RESPParser::parse_array`], as the array of
/// those bulk strings, taking every byte of it.
pub proof fn law_request_parser_round_trip(args: Seq<Seq<char>>)
    requires
        plain_args(args),
        args.len() <= usize::MAX,
    ensures
        spec_array(encode_request(args)) == Some(
            (
                Ok::<RespValue, RespValue>(RespValue::Array(bulk_strings(args))),
                encode_request(args).len(),
            ),
        ),
{
    let d = decimal(args.len());
    let head = seq![42u8] + d + crlf();
    let body = encode_bulk_strings(args);
    assert(encode_request(args) == head + body);
    lemma_number_line(seq![42u8], args.len());
    lemma_decimal_digits(args.len());
    lemma_parse_decimal(args.len());
    lemma_ascii_valid(head);
    lemma_first_line_is(head, body);
    assert(strip_byte_prefix(head, 42) == d + crlf());
    assert(strip_crlf(d + crlf()) == d);
    assert((head + body).skip(head.len() as int) == body);
    lemma_bulk_elements(args, seq![], head.len());
    assert(Seq::<RespValue>::empty() + bulk_strings(args) == bulk_strings(args));
}

/// A request that a client writes as an array of bulk strings without
/// newlines reads back, as one value, as the array of those bulk strings.
pub proof fn law_request_round_trip(args: Seq<Seq<char>>)
    requires
        plain_args(args),
        args.len() <= usize::MAX,
    ensures
        spec_from(encode_request(args)) == Some(
            Ok::<RespValue, RespValue>(RespValue::Array(bulk_strings(args))),
        ),
{
    let d = decimal(args.len());
    let head = d + crlf();
    let body = encode_bulk_strings(args);
    assert(encode_request(args).drop_first() == head + body);
    lemma_number_line(seq![], args.len());
    assert(Seq::<u8>::empty() + d + crlf() == head);
    lemma_decimal_digits(args.len());
    lemma_parse_decimal(args.len());
    lemma_ascii_valid(head);
    lemma_first_line_is(head, body);
    assert(strip_byte_prefix(head, 42) == head);
    assert(strip_crlf(head) == d);
    assert((head + body).skip(head.len() as int) == body);
    lemma_bulk_elements(args, seq![], head.len());
    assert(Seq::<RespValue>::empty() + bulk_strings(args) == bulk_strings(args));
}

/// Every value is written as bytes that end with `\r\n`.
pub proof fn law_written_values_end_with_crlf(v: RespValue)
    ensures
        spec_serialize(v).len() >= 2,
        spec_serialize(v).skip(spec_serialize(v).len() - 2) == crlf(),
{
    let b = spec_serialize(v);
    assert(b.skip(b.len() - 2) =~= crlf());
}

/// Text values are written behind their own marker byte (`+`, `-`, `$`,
/// `!`), and an error is written like the string of the same text with only
/// the marker changed.
pub proof fn law_written_markers(s: Seq<char>)
    ensures
        spec_serialize(RespValue::SimpleString(s))[0] == 43,
        spec_serialize(RespValue::SimpleError(s))[0] == 45,
        spec_serialize(RespValue::BulkString(s))[0] == 36,
        spec_serialize(RespValue::BulkError(s))[0] == 33,
        spec_serialize(RespValue::SimpleError(s)).drop_first() == spec_serialize(
            RespValue::SimpleString(s),
        ).drop_first(),
        spec_serialize(RespValue::BulkError(s)).drop_first() == spec_serialize(
            RespValue::BulkString(s),
        ).drop_first(),
{
    let e = encode_utf8(s);
    let d = decimal(e.len());
    assert(spec_serialize(RespValue::SimpleError(s)).drop_first() =~= e + crlf());
    assert(spec_serialize(RespValue::SimpleString(s)).drop_first() =~= e + crlf());
    assert(spec_serialize(RespValue::BulkError(s)).drop_first() =~= d + crlf() + e + crlf());
    assert(spec_serialize(RespValue::BulkString(s)).drop_first() =~= d + crlf() + e + crlf());
}

/// A bulk string is written as a first line that holds its byte length
/// (behind `$`, ended by `\r\n`), then its UTF-8 bytes and `\r\n`.
pub proof fn law_bulk_string_layout(s: Seq<char>)
    requires
        encode_utf8(s).len() <= usize::MAX,
    ensures
        ({
            let b = spec_serialize(RespValue::BulkString(s));
            &&& ends_with_crlf(first_line(b))
            &&& parse_usize(strip_crlf(strip_byte_prefix(first_line(b), 36))) == Some(
                encode_utf8(s).len(),
            )
            &&& b.skip(line_len(b) as int) == encode_utf8(s) + crlf()
        }),
{
    let e = encode_utf8(s);
    let d = decimal(e.len());
    let head = seq![36u8] + d + crlf();
    let b = spec_serialize(RespValue::BulkString(s));
    lemma_number_line(seq![36u8], e.len());
    lemma_parse_decimal(e.len());
    assert(b == head + (e + crlf()));
    lemma_first_line_is(head, e + crlf());
    assert(strip_byte_prefix(head, 36) == d + crlf());
    assert(strip_crlf(d + crlf()) == d);
    assert(b.skip(head.len() as int) == e + crlf());
}

/// The UTF-8 encoding of text that starts with an ASCII character starts
/// with that character's code.
proof fn lemma_ascii_encoding(t: Seq<char>)
    requires
        t.len() > 0,
        (t[0] as u32) < 128,
    ensures
        encode_utf8(t) == seq![t[0] as u32 as u8] + encode_utf8(t.drop_first()),
{
    let c = t[0] as u32;
    assert((c & 0x7f) == c) by (bit_vector)
        requires
            c < 128,
    ;
}

/// Values that are neither strings nor errors are all written as the simple
/// error `Error`.
pub proof fn law_other_values_written_as_error(v: RespValue)
    requires
        !(v is SimpleString),
        !(v is SimpleError),
        !(v is BulkString),
        !(v is BulkError),
    ensures
        spec_serialize(v) == spec_serialize(RespValue::SimpleError("Error"@)),
{
    reveal_strlit("Error");
    let t = "Error"@;
    assert(t =~= seq!['E', 'r', 'r', 'o', 'r']);
    lemma_ascii_encoding(t.drop_first().drop_first().drop_first().drop_first());
    lemma_ascii_encoding(t.drop_first().drop_first().drop_first());
    lemma_ascii_encoding(t.drop_first().drop_first());
    lemma_ascii_encoding(t.drop_first());
    lemma_ascii_encoding(t);
    assert(t.drop_first().drop_first().drop_first().drop_first().drop_first().len() == 0);
    assert(encode_utf8(t) =~= seq![69u8, 114u8, 114u8, 111u8, 114u8]);
    assert(spec_serialize(v) =~= spec_serialize(RespValue::SimpleError(t)));
}

/// A simple string is read only from a line that starts with `+` and ends
/// with `\r\n`, and its text is exactly the bytes between them.
pub proof fn law_simple_string_shape(rest: Seq<u8>)
    requires
        spec_simple_string(rest) is Some,
    ensures
        ({
            let (r, n) = spec_simple_string(rest).unwrap();
            &&& n == line_len(rest)
            &&& rest[0] == 43
            &&& ends_with_crlf(rest.take(n as int))
            &&& r matches Ok(RespValue::SimpleString(t)) && encode_utf8(t) == rest.subrange(
                1,
                n - 2,
            )
        }),
{
    lemma_line_len(rest);
    let line = first_line(rest);
    let content = line.subrange(1, line.len() - 2);
    lemma_ascii_frame_valid(seq![43u8], content, crlf());
    assert(line =~= seq![43u8] + content + crlf());
    decode_utf8_encode_utf8(content);
    assert(content == rest.subrange(1, line.len() - 2));
}

/// A bulk string is read from a length line that holds the byte length of
/// its text, and its text is exactly that many bytes after the line.
pub proof fn law_bulk_string_shape(rest: Seq<u8>)
    requires
        spec_bulk_string(rest) is Some,
    ensures
        ({
            let (r, n) = spec_bulk_string(rest).unwrap();
            &&& r matches Ok(RespValue::BulkString(t)) && {
                let len = encode_utf8(t).len();
                &&& parse_usize(strip_crlf(strip_byte_prefix(first_line(rest), 36))) == Some(len)
                &&& n == line_len(rest) + len
                &&& encode_utf8(t) == rest.subrange(line_len(rest) as int, n as int)
            }
        }),
{
    lemma_line_len(rest);
    let line = first_line(rest);
    let len = parse_usize(strip_crlf(strip_byte_prefix(line, 36))).unwrap();
    let body = rest.subrange(line.len() as int, (line.len() + len) as int);
    decode_utf8_encode_utf8(body);
}

/// Reading array elements gives as many elements as it was asked for, after
/// those already read.
proof fn lemma_elements_count(buf: Seq<u8>, k: nat, done: Seq<RespValue>, used: nat)
    requires
        spec_elements(buf, k, done, used) matches Some((Ok(_), _)),
    ensures
        spec_elements(buf, k, done, used) matches Some((Ok(RespValue::Array(items)), _))
            && items.len() == done.len() + k,
    decreases buf.len(), k,
{
    if k > 0 {
        let l1 = line_len(buf);
        let after1 = buf.skip(l1 as int);
        let l2 = line_len(after1);
        lemma_line_len(buf);
        lemma_line_len(after1);
        let v = spec_from(buf.take(l1 as int) + after1.take(l2 as int)).unwrap()->Ok_0;
        lemma_elements_count(after1.skip(l2 as int), (k - 1) as nat, done.push(v), used + l1 + l2);
    }
}

/// An array read from bytes has exactly as many elements as its first line
/// announces.
pub proof fn law_array_count(rest: Seq<u8>)
    requires
        spec_array(rest) matches Some((Ok(_), _)),
    ensures
        spec_array(rest) matches Some((Ok(RespValue::Array(items)), _)) && parse_usize(
            strip_crlf(strip_byte_prefix(first_line(rest), 42)),
        ) == Some(items.len()),
{
    lemma_line_len(rest);
    let line = first_line(rest);
    let count = parse_usize(strip_crlf(strip_byte_prefix(line, 42))).unwrap();
    lemma_elements_count(rest.skip(line.len() as int), count, seq![], line.len());
}

/// Reading a value: no bytes at all read as an `Err` of `Null`, a first
/// byte that marks no kind reads as `Null`, and a marked kind reads the rest
/// of the bytes as that kind.
pub proof fn law_value_kinds(b: Seq<u8>)
    ensures
        b.len() == 0 ==> spec_from(b) == Some(Err::<RespValue, RespValue>(RespValue::Null)),
        b.len() > 0 && b[0] != 43 && b[0] != 36 && b[0] != 42 ==> spec_from(b) == Some(
            Ok::<RespValue, RespValue>(RespValue::Null),
        ),
        b.len() > 0 && b[0] == 36 && spec_bulk_string(b.drop_first()) is Some ==> spec_from(b)
            == Some(spec_bulk_string(b.drop_first()).unwrap().0),
        b.len() > 0 && b[0] == 42 && spec_array(b.drop_first()) is Some ==> spec_from(b) == Some(
            spec_array(b.drop_first()).unwrap().0,
        ),
{
}

} // verus!
