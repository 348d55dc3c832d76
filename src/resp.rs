//! The wire codec: protocol values, their byte encoding, and a parser.
use crate::text::{
    all_digits, decimal, is_digit, lemma_decimal_digits, lemma_parse_signed_decimal, parse_i64, parse_i64_bytes, push_decimal, push_signed_decimal, signed_decimal,
    string_from_utf8,
};
use vstd::prelude::*;
use vstd::utf8::*;

verus! {

broadcast use {vstd::seq::group_seq_axioms, vstd::std_specs::vec::group_vec_axioms};

pub const CR: u8 = 13;

pub const LF: u8 = 10;

pub const SIMPLE_STRING_BYTE_CODE: u8 = 43;

pub const ERROR_BYTE_CODE: u8 = 45;

pub const INTEGER_BYTE_CODE: u8 = 58;

pub const BULK_STRING_BYTE_CODE: u8 = 36;

pub const ARRAY_BYTE_CODE: u8 = 42;

pub const NULL_BYTE_CODE: u8 = 95;

/// The mathematical model of a protocol value.
pub enum Frame {
    Simple(Seq<char>),
    Error(Seq<char>),
    Integer(i64),
    Bulk(Seq<char>),
    Array(Seq<Frame>),
    Null,
}

/// A request: always an array of bulk strings.
pub enum RespIn {
    Array(Vec<String>),
}

impl View for RespIn {
    type V = Seq<Seq<char>>;

    open spec fn view(&self) -> Seq<Seq<char>> {
        match self {
            RespIn::Array(values) => values@.map_values(|s: String| s@),
        }
    }
}

/// A protocol value.
pub enum RespOut {
    SimpleString(String),
    Error(String),
    Integer(i64),
    BulkString(String),
    Array(Vec<RespOut>),
    Null,
}

impl View for RespOut {
    type V = Frame;

    open spec fn view(&self) -> Frame
        decreases self,
    {
        match self {
            RespOut::SimpleString(s) => Frame::Simple(s@),
            RespOut::Error(s) => Frame::Error(s@),
            RespOut::Integer(i) => Frame::Integer(*i),
            RespOut::BulkString(s) => Frame::Bulk(s@),
            RespOut::Array(items) => Frame::Array(frames_of(items@)),
            RespOut::Null => Frame::Null,
        }
    }
}

/// The models of a sequence of values.
pub open spec fn frames_of(items: Seq<RespOut>) -> Seq<Frame>
    decreases items,
{
    if items.len() == 0 {
        Seq::empty()
    } else {
        frames_of(items.subrange(0, items.len() - 1)).push(items[items.len() - 1]@)
    }
}

pub proof fn lemma_frames_of(items: Seq<RespOut>)
    ensures
        frames_of(items).len() == items.len(),
        forall|i: int| 0 <= i < items.len() ==> #[trigger] frames_of(items)[i] == items[i]@,
    decreases items.len(),
{
    if items.len() > 0 {
        let init = items.subrange(0, items.len() - 1);
        lemma_frames_of(init);
        assert(frames_of(items) == frames_of(init).push(items[items.len() - 1]@));
        assert forall|i: int| 0 <= i < items.len() implies #[trigger] frames_of(items)[i]
            == items[i]@ by {
            if i < items.len() - 1 {
                assert(init[i] == items[i]);
            }
        }
    }
}

pub open spec fn crlf() -> Seq<u8> {
    seq![CR, LF]
}

/// The text `ERR ` that every error carries on the wire before its message.
pub open spec fn err_prefix() -> Seq<u8> {
    seq![69u8, 82u8, 82u8, 32u8]
}

/// Bytes that hold neither CR nor LF.
pub open spec fn single_line(bytes: Seq<u8>) -> bool {
    forall|i: int| 0 <= i < bytes.len() ==> #[trigger] bytes[i] != CR && bytes[i] != LF
}

/// The encoding of a value on the wire.
pub open spec fn encode(f: Frame) -> Seq<u8>
    decreases f,
{
    match f {
        Frame::Simple(s) => seq![SIMPLE_STRING_BYTE_CODE] + encode_utf8(s) + crlf(),
        Frame::Error(s) => seq![ERROR_BYTE_CODE] + err_prefix() + encode_utf8(s) + crlf(),
        Frame::Integer(i) => seq![INTEGER_BYTE_CODE] + signed_decimal(i as int) + crlf(),
        Frame::Bulk(s) => seq![BULK_STRING_BYTE_CODE] + decimal(encode_utf8(s).len()) + crlf()
            + encode_utf8(s) + crlf(),
        Frame::Array(items) => seq![ARRAY_BYTE_CODE] + decimal(items.len()) + crlf()
            + encode_items(items),
        Frame::Null => seq![NULL_BYTE_CODE] + crlf(),
    }
}

/// The encodings of `items`, one after the other.
pub open spec fn encode_items(items: Seq<Frame>) -> Seq<u8>
    decreases items,
{
    if items.len() == 0 {
        Seq::empty()
    } else {
        encode(items[0]) + encode_items(items.subrange(1, items.len() as int))
    }
}

/// The value that stands for a request: an array of bulk strings.
pub open spec fn request_frame(args: Seq<Seq<char>>) -> Frame {
    Frame::Array(args.map_values(|s: Seq<char>| Frame::Bulk(s)))
}

/// A value that the encoding carries faithfully: simple strings and errors on
/// one line, and every length within the range of a signed 64-bit field.
pub open spec fn well_formed(f: Frame) -> bool
    decreases f,
{
    match f {
        Frame::Simple(s) => single_line(encode_utf8(s)),
        Frame::Error(s) => single_line(encode_utf8(s)),
        Frame::Integer(_) => true,
        Frame::Bulk(s) => encode_utf8(s).len() <= i64::MAX,
        Frame::Array(items) => items.len() <= i64::MAX && forall|i: int|
            0 <= i < items.len() ==> well_formed(#[trigger] items[i]),
        Frame::Null => true,
    }
}

pub proof fn lemma_encode_items_push(items: Seq<Frame>, i: int)
    requires
        0 <= i < items.len(),
    ensures
        encode_items(items.subrange(0, i + 1)) == encode_items(items.subrange(0, i)) + encode(
            items[i],
        ),
    decreases i,
{
    let next = items.subrange(0, i + 1);
    if i == 0 {
        assert(next.subrange(1, next.len() as int) =~= Seq::<Frame>::empty());
        assert(items.subrange(0, 0) =~= Seq::<Frame>::empty());
        assert(encode_items(next.subrange(1, 1)) =~= Seq::<u8>::empty());
        assert(encode_items(items.subrange(0, 0)) =~= Seq::<u8>::empty());
        assert(encode_items(next) =~= encode(items[0]));
    } else {
        let rest = items.subrange(1, items.len() as int);
        lemma_encode_items_push(rest, i - 1);
        assert(next.subrange(1, next.len() as int) =~= rest.subrange(0, i));
        assert(items.subrange(0, i).subrange(1, i) =~= rest.subrange(0, i - 1));
        assert(encode_items(next) =~= encode(items[0]) + encode_items(rest.subrange(0, i)));
        assert(encode_items(items.subrange(0, i)) =~= encode(items[0]) + encode_items(
            rest.subrange(0, i - 1),
        ));
    }
}

fn push_all(buf: &mut Vec<u8>, bytes: &[u8])
    ensures
        final(buf)@ == old(buf)@ + bytes@,
{
    let mut i: usize = 0;
    while i < bytes.len()
        invariant
            i <= bytes@.len(),
            buf@ == old(buf)@ + bytes@.subrange(0, i as int),
        decreases bytes@.len() - i,
    {
        buf.push(bytes[i]);
        i = i + 1;
        assert(buf@ =~= old(buf)@ + bytes@.subrange(0, i as int));
    }
    assert(bytes@.subrange(0, i as int) =~= bytes@);
}

fn push_crlf(buf: &mut Vec<u8>)
    ensures
        final(buf)@ == old(buf)@ + crlf(),
{
    buf.push(CR);
    buf.push(LF);
    assert(final(buf)@ =~= old(buf)@ + crlf());
}

/// Appends the length-prefixed form of a bulk string.
fn push_bulk(buf: &mut Vec<u8>, s: &String)
    ensures
        final(buf)@ == old(buf)@ + encode(Frame::Bulk(s@)),
{
    let bytes = s.as_str().as_bytes();
    buf.push(BULK_STRING_BYTE_CODE);
    push_decimal(buf, bytes.len() as u64);
    push_crlf(buf);
    push_all(buf, bytes);
    push_crlf(buf);
    assert(final(buf)@ =~= old(buf)@ + encode(Frame::Bulk(s@)));
}

fn serialize(buf: &mut Vec<u8>, value: &RespOut)
    ensures
        final(buf)@ == old(buf)@ + encode(value@),
    decreases value,
{
    match value {
        RespOut::SimpleString(s) => {
            buf.push(SIMPLE_STRING_BYTE_CODE);
            push_all(buf, s.as_str().as_bytes());
            push_crlf(buf);
        },
        RespOut::Error(e) => {
            buf.push(ERROR_BYTE_CODE);
            buf.push(69);
            buf.push(82);
            buf.push(82);
            buf.push(32);
            push_all(buf, e.as_str().as_bytes());
            push_crlf(buf);
        },
        RespOut::Integer(i) => {
            buf.push(INTEGER_BYTE_CODE);
            push_signed_decimal(buf, *i);
            push_crlf(buf);
        },
        RespOut::BulkString(s) => {
            push_bulk(buf, s);
        },
        RespOut::Null => {
            buf.push(NULL_BYTE_CODE);
            push_crlf(buf);
        },
        RespOut::Array(values) => {
            let ghost items = value@->Array_0;
            buf.push(ARRAY_BYTE_CODE);
            push_decimal(buf, values.len() as u64);
            push_crlf(buf);
            let ghost head = buf@;
            proof {
                lemma_frames_of(values@);
            }
            let mut i: usize = 0;
            while i < values.len()
                invariant
                    *value == RespOut::Array(*values),
                    i <= values@.len(),
                    items.len() == values@.len(),
                    forall|j: int| 0 <= j < values@.len() ==> items[j] == (#[trigger] values@[j])@,
                    buf@ == head + encode_items(items.subrange(0, i as int)),
                decreases values@.len() - i,
            {
                proof {
                    lemma_encode_items_push(items, i as int);
                    assert(decreases_to!(*value => (*value)->Array_0));
                }
                serialize(buf, &values[i]);
                i = i + 1;
                assert(buf@ =~= head + encode_items(items.subrange(0, i as int)));
            }
            assert(items.subrange(0, i as int) =~= items);
        },
    }
    assert(final(buf)@ =~= old(buf)@ + encode(value@));
}

/// The bytes that stand for `values`, one after the other.
pub fn serialize_all(values: &Vec<RespOut>) -> (r: Vec<u8>)
    ensures
        r@ == encode_items(frames_of(values@)),
{
    let ghost items = frames_of(values@);
    proof {
        lemma_frames_of(values@);
    }
    let mut buf: Vec<u8> = Vec::new();
    let mut i: usize = 0;
    while i < values.len()
        invariant
            i <= values@.len(),
            items == frames_of(values@),
            items.len() == values@.len(),
            forall|j: int| 0 <= j < values@.len() ==> items[j] == (#[trigger] values@[j])@,
            buf@ == encode_items(items.subrange(0, i as int)),
        decreases values@.len() - i,
    {
        proof {
            lemma_encode_items_push(items, i as int);
        }
        serialize(&mut buf, &values[i]);
        i = i + 1;
        assert(buf@ =~= encode_items(items.subrange(0, i as int)));
    }
    assert(items.subrange(0, i as int) =~= items);
    buf
}

impl RespOut {
    /// The bytes that stand for this value on the wire.
    pub fn serialize(&self) -> (r: Vec<u8>)
        ensures
            r@ == encode(self@),
    {
        let mut buf: Vec<u8> = Vec::new();
        serialize(&mut buf, self);
        assert(buf@ =~= encode(self@));
        buf
    }
}

impl RespIn {
    /// The bytes that stand for this request on the wire.
    pub fn serialize(&self) -> (r: Vec<u8>)
        ensures
            r@ == encode(request_frame(self@)),
    {
        let mut buf: Vec<u8> = Vec::new();
        match self {
            RespIn::Array(values) => {
                let ghost items = request_frame(self@)->Array_0;
                buf.push(ARRAY_BYTE_CODE);
                push_decimal(&mut buf, values.len() as u64);
                push_crlf(&mut buf);
                let ghost head = buf@;
                let mut i: usize = 0;
                while i < values.len()
                    invariant
                        i <= values@.len(),
                        items.len() == values@.len(),
                        forall|j: int|
                            0 <= j < values@.len() ==> items[j] == Frame::Bulk(
                                (#[trigger] values@[j])@,
                            ),
                        buf@ == head + encode_items(items.subrange(0, i as int)),
                    decreases values@.len() - i,
                {
                    proof {
                        lemma_encode_items_push(items, i as int);
                    }
                    push_bulk(&mut buf, &values[i]);
                    i = i + 1;
                    assert(buf@ =~= head + encode_items(items.subrange(0, i as int)));
                }
                assert(items.subrange(0, i as int) =~= items);
                assert(buf@ =~= encode(request_frame(self@)));
            },
        }
        buf
    }
}

/// The index of the first CR or LF at or after `pos`, or the buffer's length
/// when there is none.
pub open spec fn line_break(b: Seq<u8>, pos: int) -> int
    decreases b.len() - pos,
{
    if pos < 0 || pos >= b.len() {
        b.len() as int
    } else if b[pos] == CR || b[pos] == LF {
        pos
    } else {
        line_break(b, pos + 1)
    }
}

/// The line that starts at `pos`, ended by CRLF, and the position after it. A
/// CR that no LF follows, or an LF with no CR before it, makes it malformed.
pub open spec fn parse_line(b: Seq<u8>, pos: int) -> Option<(Seq<u8>, int)> {
    let j = line_break(b, pos);
    if j + 1 < b.len() && b[j] == CR && b[j + 1] == LF {
        Some((b.subrange(pos, j), j + 2))
    } else {
        None
    }
}

/// A line that holds a signed 64-bit decimal.
pub open spec fn parse_int_line(b: Seq<u8>, pos: int) -> Option<(i64, int)> {
    match parse_line(b, pos) {
        Some((l, p)) => match parse_i64(l) {
            Some(v) => Some((v, p)),
            None => None,
        },
        None => None,
    }
}

/// The text of an error line: its message after the `ERR ` that the encoding adds.
pub open spec fn strip_err(l: Seq<u8>) -> Seq<u8> {
    if l.len() >= 4 && l.subrange(0, 4) == err_prefix() {
        l.subrange(4, l.len() as int)
    } else {
        l
    }
}

/// A bulk string after its tag: its length line, then that many bytes of UTF-8
/// text and CRLF. A negative length stands for the legacy null, `Some((None, _))`.
pub open spec fn parse_bulk(b: Seq<u8>, pos: int) -> Option<(Option<Seq<char>>, int)> {
    match parse_int_line(b, pos) {
        Some((n, p)) => if n < 0 {
            Some((None, p))
        } else {
            let end = p + n;
            if end + 1 < b.len() && b[end] == CR && b[end + 1] == LF && valid_utf8(
                b.subrange(p, end),
            ) {
                Some((Some(decode_utf8(b.subrange(p, end))), end + 2))
            } else {
                None
            }
        },
        None => None,
    }
}

/// The value that starts at `pos`, and the position after it.
pub open spec fn parse_frame(b: Seq<u8>, pos: int) -> Option<(Frame, int)>
    decreases b.len() - pos, 0int, 0int,
{
    if 0 <= pos < b.len() {
        let tag = b[pos];
        if tag == SIMPLE_STRING_BYTE_CODE {
            match parse_line(b, pos + 1) {
                Some((l, p)) => if valid_utf8(l) {
                    Some((Frame::Simple(decode_utf8(l)), p))
                } else {
                    None
                },
                None => None,
            }
        } else if tag == ERROR_BYTE_CODE {
            match parse_line(b, pos + 1) {
                Some((l, p)) => if valid_utf8(strip_err(l)) {
                    Some((Frame::Error(decode_utf8(strip_err(l))), p))
                } else {
                    None
                },
                None => None,
            }
        } else if tag == INTEGER_BYTE_CODE {
            match parse_int_line(b, pos + 1) {
                Some((v, p)) => Some((Frame::Integer(v), p)),
                None => None,
            }
        } else if tag == BULK_STRING_BYTE_CODE {
            match parse_bulk(b, pos + 1) {
                Some((Some(s), p)) => Some((Frame::Bulk(s), p)),
                Some((None, p)) => Some((Frame::Null, p)),
                None => None,
            }
        } else if tag == ARRAY_BYTE_CODE {
            match parse_array(b, pos + 1) {
                Some((items, p)) => Some((Frame::Array(items), p)),
                None => None,
            }
        } else if tag == NULL_BYTE_CODE {
            if pos + 2 < b.len() && b[pos + 1] == CR && b[pos + 2] == LF {
                Some((Frame::Null, pos + 3))
            } else {
                None
            }
        } else {
            None
        }
    } else {
        None
    }
}

/// The elements of an array after its tag: the count line, then that many values
/// (none for a negative count).
pub open spec fn parse_array(b: Seq<u8>, pos: int) -> Option<(Seq<Frame>, int)>
    decreases b.len() - pos, 2int, 0int,
{
    match parse_int_line(b, pos) {
        // A line always ends past where it starts; the test records that.
        Some((n, p)) => if pos < p <= b.len() {
            parse_items(b, p, n as int)
        } else {
            None
        },
        None => None,
    }
}

/// `n` values one after the other from `pos`. Each one takes at least a byte,
/// which the test `pos < q` records.
pub open spec fn parse_items(b: Seq<u8>, pos: int, n: int) -> Option<(Seq<Frame>, int)>
    decreases b.len() - pos, 1int, n,
{
    if n <= 0 {
        Some((Seq::empty(), pos))
    } else {
        match parse_frame(b, pos) {
            Some((f, q)) => if pos < q <= b.len() {
                match parse_items(b, q, n - 1) {
                    Some((fs, r)) => Some((seq![f] + fs, r)),
                    None => None,
                }
            } else {
                None
            },
            None => None,
        }
    }
}

/// `n` bulk strings one after the other from `pos`; a legacy null among them
/// makes the request malformed.
pub open spec fn parse_bulk_strings(b: Seq<u8>, pos: int, n: int) -> Option<
    (Seq<Seq<char>>, int),
>
    decreases n,
{
    if n <= 0 {
        Some((Seq::empty(), pos))
    } else if 0 <= pos < b.len() && b[pos] == BULK_STRING_BYTE_CODE {
        match parse_bulk(b, pos + 1) {
            Some((Some(s), p)) => match parse_bulk_strings(b, p, n - 1) {
                Some((ss, q)) => Some((seq![s] + ss, q)),
                None => None,
            },
            _ => None,
        }
    } else {
        None
    }
}

/// An array of bulk strings that starts at `pos`.
pub open spec fn parse_array_of_strings(b: Seq<u8>, pos: int) -> Option<(Seq<Seq<char>>, int)> {
    if 0 <= pos < b.len() && b[pos] == ARRAY_BYTE_CODE {
        match parse_int_line(b, pos + 1) {
            Some((n, p)) => parse_bulk_strings(b, p, n as int),
            None => None,
        }
    } else {
        None
    }
}

/// The request at the start of `b`; what follows it is not read.
pub open spec fn request_of(b: Seq<u8>) -> Option<Seq<Seq<char>>> {
    match parse_array_of_strings(b, 0) {
        Some((args, _)) => Some(args),
        None => None,
    }
}

/// The value at the start of `b`; what follows it is not read.
pub open spec fn value_of(b: Seq<u8>) -> Option<Frame> {
    match parse_frame(b, 0) {
        Some((f, _)) => Some(f),
        None => None,
    }
}

/// The bytes do not form a value of the wire protocol.
#[derive(Clone, Copy, Debug, PartialEq, Eq)]
pub struct MalformedFrame;

impl MalformedFrame {
    pub fn message(&self) -> (r: String)
        ensures
            r@ == "malformed frame"@,
    {
        String::from_str("malformed frame")
    }

    /// The error response that reports the malformed request.
    pub fn response(&self) -> (r: RespOut)
        ensures
            r@ == Frame::Error("malformed frame"@),
    {
        RespOut::Error(self.message())
    }
}

/// `fs` followed by what `rest` parsed, if it parsed.
pub open spec fn prepend<A>(fs: Seq<A>, rest: Option<(Seq<A>, int)>) -> Option<(Seq<A>, int)> {
    match rest {
        Some((more, q)) => Some((fs + more, q)),
        None => None,
    }
}

/// A cursor over a byte buffer that reads protocol values.
pub struct RespParser<'a> {
    buf: &'a [u8],
    pos: usize,
}

/// Copies `buf[start..end]`.
fn copy_range(buf: &[u8], start: usize, end: usize) -> (r: Vec<u8>)
    requires
        start <= end <= buf@.len(),
    ensures
        r@ == buf@.subrange(start as int, end as int),
{
    let mut r: Vec<u8> = Vec::new();
    let mut i: usize = start;
    while i < end
        invariant
            start <= i <= end <= buf@.len(),
            r@ == buf@.subrange(start as int, i as int),
        decreases end - i,
    {
        r.push(buf[i]);
        i = i + 1;
        assert(r@ =~= buf@.subrange(start as int, i as int));
    }
    r
}

impl<'a> RespParser<'a> {
    fn new(buf: &'a [u8]) -> (r: RespParser<'a>)
        ensures
            r.buf@ == buf@,
            r.pos == 0,
    {
        RespParser { buf, pos: 0 }
    }

    fn parse_request(&mut self) -> (r: Result<RespIn, MalformedFrame>)
        requires
            old(self).pos <= old(self).buf@.len(),
        ensures
            match parse_array_of_strings(old(self).buf@, old(self).pos as int) {
                Some((args, _)) => r matches Ok(req) && req@ == args,
                None => r is Err,
            },
    {
        match self.next_array_of_strings() {
            Ok(values) => Ok(RespIn::Array(values)),
            Err(e) => Err(e),
        }
    }

    fn parse_response(&mut self) -> (r: Result<RespOut, MalformedFrame>)
        requires
            old(self).pos <= old(self).buf@.len(),
        ensures
            match parse_frame(old(self).buf@, old(self).pos as int) {
                Some((f, _)) => r matches Ok(v) && v@ == f,
                None => r is Err,
            },
    {
        self.next_item()
    }

    /// The next byte.
    fn next(&mut self) -> (r: Result<u8, MalformedFrame>)
        requires
            old(self).pos <= old(self).buf@.len(),
        ensures
            final(self).buf == old(self).buf,
            final(self).pos <= final(self).buf@.len(),
            old(self).pos < old(self).buf@.len() ==> r == Ok::<u8, MalformedFrame>(
                old(self).buf@[old(self).pos as int],
            ) && final(self).pos == old(self).pos + 1,
            old(self).pos == old(self).buf@.len() ==> r is Err,
    {
        let pos = self.pos;
        if self.buf.len() <= pos {
            return Err(MalformedFrame);
        }
        let res = self.buf[pos];
        self.pos = pos + 1;
        Ok(res)
    }

    /// The next line, without its CRLF.
    fn next_line(&mut self) -> (r: Result<Vec<u8>, MalformedFrame>)
        requires
            old(self).pos <= old(self).buf@.len(),
        ensures
            final(self).buf == old(self).buf,
            final(self).pos <= final(self).buf@.len(),
            match parse_line(old(self).buf@, old(self).pos as int) {
                Some((l, p)) => r matches Ok(v) && v@ == l && final(self).pos == p && old(
                    self,
                ).pos < p,
                None => r is Err,
            },
    {
        let ghost b = self.buf@;
        let ghost start = self.pos as int;
        let mut line: Vec<u8> = Vec::new();
        loop
            invariant
                self.buf@ == b,
                start <= self.pos <= b.len(),
                line@ == b.subrange(start, self.pos as int),
                line_break(b, start) == line_break(b, self.pos as int),
                start == old(self).pos,
                b == old(self).buf@,
                self.buf == old(self).buf,
            decreases b.len() - self.pos,
        {
            let byte = match self.next() {
                Ok(byte) => byte,
                Err(e) => {
                    return Err(e);
                },
            };
            if byte == CR {
                let lf = match self.next() {
                    Ok(lf) => lf,
                    Err(e) => {
                        return Err(e);
                    },
                };
                if lf != LF {
                    return Err(MalformedFrame);
                }
                return Ok(line);
            } else if byte == LF {
                return Err(MalformedFrame);
            }
            line.push(byte);
            assert(line@ =~= b.subrange(start, self.pos as int));
        }
    }

    /// The next value.
    fn next_item(&mut self) -> (r: Result<RespOut, MalformedFrame>)
        requires
            old(self).pos <= old(self).buf@.len(),
        ensures
            final(self).buf == old(self).buf,
            final(self).pos <= final(self).buf@.len(),
            match parse_frame(old(self).buf@, old(self).pos as int) {
                Some((f, q)) => r matches Ok(v) && v@ == f && final(self).pos == q && old(
                    self,
                ).pos < q,
                None => r is Err,
            },
        decreases old(self).buf@.len() - old(self).pos, 0int,
    {
        let tag = match self.next() {
            Ok(tag) => tag,
            Err(e) => {
                return Err(e);
            },
        };
        if tag == SIMPLE_STRING_BYTE_CODE {
            match self.next_line() {
                Ok(line) => match string_from_utf8(line) {
                    Some(s) => Ok(RespOut::SimpleString(s)),
                    None => Err(MalformedFrame),
                },
                Err(e) => Err(e),
            }
        } else if tag == ERROR_BYTE_CODE {
            match self.next_line() {
                Ok(line) => {
                    let text = strip_err_prefix(line);
                    match string_from_utf8(text) {
                        Some(s) => Ok(RespOut::Error(s)),
                        None => Err(MalformedFrame),
                    }
                },
                Err(e) => Err(e),
            }
        } else if tag == INTEGER_BYTE_CODE {
            match self.next_int() {
                Ok(i) => Ok(RespOut::Integer(i)),
                Err(e) => Err(e),
            }
        } else if tag == BULK_STRING_BYTE_CODE {
            match self.next_string() {
                Ok(Some(s)) => Ok(RespOut::BulkString(s)),
                Ok(None) => Ok(RespOut::Null),
                Err(e) => Err(e),
            }
        } else if tag == ARRAY_BYTE_CODE {
            match self.next_array() {
                Ok(items) => Ok(RespOut::Array(items)),
                Err(e) => Err(e),
            }
        } else if tag == NULL_BYTE_CODE {
            match self.consume_type(CR) {
                Ok(()) => {},
                Err(e) => {
                    return Err(e);
                },
            }
            match self.consume_type(LF) {
                Ok(()) => Ok(RespOut::Null),
                Err(e) => Err(e),
            }
        } else {
            Err(MalformedFrame)
        }
    }

    /// The next line, read as a signed 64-bit decimal.
    fn next_int(&mut self) -> (r: Result<i64, MalformedFrame>)
        requires
            old(self).pos <= old(self).buf@.len(),
        ensures
            final(self).buf == old(self).buf,
            final(self).pos <= final(self).buf@.len(),
            match parse_int_line(old(self).buf@, old(self).pos as int) {
                Some((v, p)) => r == Ok::<i64, MalformedFrame>(v) && final(self).pos == p && old(
                    self,
                ).pos < p,
                None => r is Err,
            },
    {
        match self.next_line() {
            Ok(line) => match parse_i64_bytes(line.as_slice()) {
                Some(v) => Ok(v),
                None => Err(MalformedFrame),
            },
            Err(e) => Err(e),
        }
    }

    /// The rest of a bulk string after its tag; `None` for the legacy null.
    fn next_string(&mut self) -> (r: Result<Option<String>, MalformedFrame>)
        requires
            old(self).pos <= old(self).buf@.len(),
        ensures
            final(self).buf == old(self).buf,
            final(self).pos <= final(self).buf@.len(),
            match parse_bulk(old(self).buf@, old(self).pos as int) {
                Some((Some(s), p)) => r matches Ok(Some(t)) && t@ == s && final(self).pos == p
                    && old(self).pos < p,
                Some((None, p)) => r matches Ok(None) && final(self).pos == p && old(self).pos
                    < p,
                None => r is Err,
            },
    {
        let n = match self.next_int() {
            Ok(n) => n,
            Err(e) => {
                return Err(e);
            },
        };
        if n < 0 {
            return Ok(None);
        }
        let start = self.pos;
        let room = self.buf.len() - start;
        if n as u64 >= room as u64 || room - (n as usize) < 2 {
            return Err(MalformedFrame);
        }
        let end = start + n as usize;
        if self.buf[end] != CR || self.buf[end + 1] != LF {
            return Err(MalformedFrame);
        }
        let payload = copy_range(self.buf, start, end);
        match string_from_utf8(payload) {
            Some(s) => {
                self.pos = end + 2;
                Ok(Some(s))
            },
            None => Err(MalformedFrame),
        }
    }

    /// The elements of an array after its tag.
    fn next_array(&mut self) -> (r: Result<Vec<RespOut>, MalformedFrame>)
        requires
            old(self).pos <= old(self).buf@.len(),
        ensures
            final(self).buf == old(self).buf,
            final(self).pos <= final(self).buf@.len(),
            match parse_array(old(self).buf@, old(self).pos as int) {
                Some((items, q)) => r matches Ok(v) && frames_of(v@) == items && final(self).pos
                    == q && old(self).pos < q,
                None => r is Err,
            },
        decreases old(self).buf@.len() - old(self).pos, 1int,
    {
        let ghost b = self.buf@;
        let ghost start = self.pos as int;
        let n = match self.next_int() {
            Ok(n) => n,
            Err(e) => {
                return Err(e);
            },
        };
        let ghost p = self.pos as int;
        let mut res: Vec<RespOut> = Vec::new();
        let mut i: i64 = 0;
        assert(prepend(frames_of(res@), parse_items(b, p, n - i)) =~= parse_items(b, p, n as int))
            by {
            assert(frames_of(res@) =~= Seq::<Frame>::empty());
            match parse_items(b, p, n as int) {
                Some((fs, q)) => {
                    assert(Seq::<Frame>::empty() + fs =~= fs);
                },
                None => {},
            }
        }
        while i < n
            invariant
                self.buf@ == b,
                self.buf == old(self).buf,
                b == old(self).buf@,
                start == old(self).pos,
                start < p <= self.pos <= b.len(),
                parse_int_line(b, start) == Some((n, p)),
                0 <= i,
                i <= n || i == 0,
                parse_items(b, p, n as int) == prepend(frames_of(res@), parse_items(b, self.pos as int, n - i)),
            decreases n - i,
        {
            let ghost before = self.pos as int;
            let ghost done = res@;
            let item = match self.next_item() {
                Ok(item) => item,
                Err(e) => {
                    assert(parse_items(b, before, n - i) is None);
                    return Err(e);
                },
            };
            let ghost f = item@;
            res.push(item);
            i = i + 1;
            proof {
                let q = self.pos as int;
                assert(res@.subrange(0, res@.len() - 1) =~= done);
                assert(frames_of(res@) == frames_of(done).push(f));
                match parse_items(b, q, n - i) {
                    Some((more, r)) => {
                        assert(frames_of(done) + (seq![f] + more) =~= frames_of(res@) + more);
                    },
                    None => {},
                }
            }
        }
        proof {
            match parse_items(b, p, n as int) {
                Some((fs, q)) => {
                    assert(frames_of(res@) + Seq::<Frame>::empty() =~= frames_of(res@));
                },
                None => {},
            }
        }
        Ok(res)
    }

    /// An array of bulk strings.
    fn next_array_of_strings(&mut self) -> (r: Result<Vec<String>, MalformedFrame>)
        requires
            old(self).pos <= old(self).buf@.len(),
        ensures
            final(self).buf == old(self).buf,
            final(self).pos <= final(self).buf@.len(),
            match parse_array_of_strings(old(self).buf@, old(self).pos as int) {
                Some((args, q)) => r matches Ok(v) && v@.map_values(|s: String| s@) == args
                    && final(self).pos == q,
                None => r is Err,
            },
    {
        let ghost b = self.buf@;
        let ghost start = self.pos as int;
        match self.consume_type(ARRAY_BYTE_CODE) {
            Ok(()) => {},
            Err(e) => {
                return Err(e);
            },
        }
        let n = match self.next_int() {
            Ok(n) => n,
            Err(e) => {
                return Err(e);
            },
        };
        let ghost p = self.pos as int;
        let mut res: Vec<String> = Vec::new();
        let mut i: i64 = 0;
        assert(prepend(res@.map_values(|s: String| s@), parse_bulk_strings(b, p, n - i))
            =~= parse_bulk_strings(b, p, n as int)) by {
            match parse_bulk_strings(b, p, n as int) {
                Some((ss, q)) => {
                    assert(res@.map_values(|s: String| s@) + ss =~= ss);
                },
                None => {},
            }
        }
        while i < n
            invariant
                self.buf@ == b,
                self.buf == old(self).buf,
                b == old(self).buf@,
                start == old(self).pos,
                0 <= start < b.len(),
                b[start] == ARRAY_BYTE_CODE,
                parse_int_line(b, start + 1) == Some((n, p)),
                p <= self.pos <= b.len(),
                0 <= i,
                i <= n || i == 0,
                parse_bulk_strings(b, p, n as int) == prepend(
                    res@.map_values(|s: String| s@),
                    parse_bulk_strings(b, self.pos as int, n - i),
                ),
            decreases n - i,
        {
            let ghost done = res@;
            let ghost before = self.pos as int;
            match self.consume_type(BULK_STRING_BYTE_CODE) {
                Ok(()) => {},
                Err(e) => {
                    assert(parse_bulk_strings(b, before, n - i) is None);
                    return Err(e);
                },
            }
            let s = match self.next_string() {
                Ok(Some(s)) => s,
                Ok(None) => {
                    assert(parse_bulk_strings(b, before, n - i) is None);
                    return Err(MalformedFrame);
                },
                Err(e) => {
                    assert(parse_bulk_strings(b, before, n - i) is None);
                    return Err(e);
                },
            };
            let ghost t = s@;
            res.push(s);
            i = i + 1;
            proof {
                let q = self.pos as int;
                assert(res@.map_values(|s: String| s@) =~= done.map_values(|s: String| s@).push(t));
                match parse_bulk_strings(b, q, n - i) {
                    Some((more, r)) => {
                        assert(done.map_values(|s: String| s@) + (seq![t] + more)
                            =~= res@.map_values(|s: String| s@) + more);
                    },
                    None => {},
                }
            }
        }
        proof {
            match parse_bulk_strings(b, p, n as int) {
                Some((ss, q)) => {
                    assert(res@.map_values(|s: String| s@) + Seq::<Seq<char>>::empty()
                        =~= res@.map_values(|s: String| s@));
                },
                None => {},
            }
        }
        Ok(res)
    }

    /// Reads one byte, which must be `expected`.
    fn consume_type(&mut self, expected: u8) -> (r: Result<(), MalformedFrame>)
        requires
            old(self).pos <= old(self).buf@.len(),
        ensures
            final(self).buf == old(self).buf,
            final(self).pos <= final(self).buf@.len(),
            r is Ok <==> old(self).pos < old(self).buf@.len() && old(self).buf@[old(
                self,
            ).pos as int] == expected,
            r is Ok ==> final(self).pos == old(self).pos + 1,
    {
        match self.next() {
            Ok(s) => if s == expected {
                Ok(())
            } else {
                Err(MalformedFrame)
            },
            Err(e) => Err(e),
        }
    }
}

/// The text of an error line without the `ERR ` that the encoding adds.
fn strip_err_prefix(line: Vec<u8>) -> (r: Vec<u8>)
    ensures
        r@ == strip_err(line@),
{
    let n = line.len();
    if n >= 4 && line[0] == 69 && line[1] == 82 && line[2] == 82 && line[3] == 32 {
        assert(line@.subrange(0, 4) =~= err_prefix());
        copy_range(line.as_slice(), 4, n)
    } else {
        proof {
            if line@.len() >= 4 && line@.subrange(0, 4) == err_prefix() {
                assert(line@.subrange(0, 4)[0] == line@[0]);
                assert(line@.subrange(0, 4)[1] == line@[1]);
                assert(line@.subrange(0, 4)[2] == line@[2]);
                assert(line@.subrange(0, 4)[3] == line@[3]);
            }
        }
        line
    }
}

/// Reads a request (an array of bulk strings) from the start of `buf`.
pub fn parse_input(buf: &[u8]) -> (r: Result<RespIn, MalformedFrame>)
    ensures
        match request_of(buf@) {
            Some(args) => r matches Ok(req) && req@ == args,
            None => r is Err,
        },
{
    let mut parser = RespParser::new(buf);
    parser.parse_request()
}

/// Reads a value of any kind from the start of `buf`.
pub fn parse_output(buf: &[u8]) -> (r: Result<RespOut, MalformedFrame>)
    ensures
        match value_of(buf@) {
            Some(f) => r matches Ok(v) && v@ == f,
            None => r is Err,
        },
{
    let mut parser = RespParser::new(buf);
    parser.parse_response()
}

/// `b` holds `e` from `pos` on.
pub open spec fn holds_at(b: Seq<u8>, pos: int, e: Seq<u8>) -> bool {
    0 <= pos && pos + e.len() <= b.len() && b.subrange(pos, pos + e.len()) == e
}

proof fn lemma_holds_at_split(b: Seq<u8>, pos: int, x: Seq<u8>, y: Seq<u8>)
    requires
        holds_at(b, pos, x + y),
    ensures
        holds_at(b, pos, x),
        holds_at(b, pos + x.len(), y),
{
    assert(b.subrange(pos, pos + x.len()) =~= (x + y).subrange(0, x.len() as int));
    assert(b.subrange(pos + x.len(), pos + x.len() + y.len()) =~= (x + y).subrange(
        x.len() as int,
        (x + y).len() as int,
    ));
    assert((x + y).subrange(0, x.len() as int) =~= x);
    assert((x + y).subrange(x.len() as int, (x + y).len() as int) =~= y);
}

proof fn lemma_holds_at_index(b: Seq<u8>, pos: int, e: Seq<u8>, i: int)
    requires
        holds_at(b, pos, e),
        0 <= i < e.len(),
    ensures
        b[pos + i] == e[i],
{
    assert(b.subrange(pos, pos + e.len())[i] == b[pos + i]);
}

/// A line of bytes without CR or LF, followed by CRLF, parses as that line.
proof fn lemma_parse_line(b: Seq<u8>, pos: int, l: Seq<u8>)
    requires
        holds_at(b, pos, l + crlf()),
        single_line(l),
    ensures
        parse_line(b, pos) == Some((l, pos + l.len() + 2)),
{
    lemma_holds_at_split(b, pos, l, crlf());
    let end = pos + l.len();
    lemma_holds_at_index(b, end, crlf(), 0);
    lemma_holds_at_index(b, end, crlf(), 1);
    lemma_line_break(b, pos, l, 0);
}

proof fn lemma_line_break(b: Seq<u8>, pos: int, l: Seq<u8>, k: int)
    requires
        holds_at(b, pos, l),
        single_line(l),
        0 <= k <= l.len(),
        pos + l.len() < b.len(),
        b[pos + l.len()] == CR,
    ensures
        line_break(b, pos + k) == pos + l.len(),
    decreases l.len() - k,
{
    if k < l.len() {
        lemma_holds_at_index(b, pos, l, k);
        lemma_line_break(b, pos, l, k + 1);
    }
}

proof fn lemma_digits_single_line(d: Seq<u8>)
    requires
        all_digits(d),
    ensures
        single_line(d),
{
    assert forall|i: int| 0 <= i < d.len() implies #[trigger] d[i] != CR && d[i] != LF by {
        assert(is_digit(d[i]));
    }
}

/// The line of a signed decimal parses as its value.
proof fn lemma_parse_int_line(b: Seq<u8>, pos: int, i: i64)
    requires
        holds_at(b, pos, signed_decimal(i as int) + crlf()),
    ensures
        parse_int_line(b, pos) == Some((i, pos + signed_decimal(i as int).len() + 2)),
{
    let d = signed_decimal(i as int);
    if i < 0 {
        lemma_decimal_digits((-i) as nat);
        lemma_digits_single_line(decimal((-i) as nat));
        assert forall|j: int| 0 <= j < d.len() implies #[trigger] d[j] != CR && d[j] != LF by {
            if j > 0 {
                assert(d[j] == decimal((-i) as nat)[j - 1]);
            }
        }
    } else {
        lemma_decimal_digits(i as nat);
        lemma_digits_single_line(d);
    }
    lemma_parse_line(b, pos, d);
    lemma_parse_signed_decimal(i);
}

/// The line that an encoded length starts with parses as that length.
proof fn lemma_parse_length_line(b: Seq<u8>, pos: int, n: nat)
    requires
        n <= i64::MAX,
        holds_at(b, pos, decimal(n) + crlf()),
    ensures
        parse_int_line(b, pos) == Some((n as i64, pos + decimal(n).len() + 2)),
{
    assert(signed_decimal(n as i64 as int) == decimal(n));
    lemma_parse_int_line(b, pos, n as i64);
}

proof fn lemma_utf8_round_trip(s: Seq<char>)
    ensures
        valid_utf8(encode_utf8(s)),
        decode_utf8(encode_utf8(s)) == s,
{
    encode_utf8_valid_utf8(s);
    encode_utf8_decode_utf8(s);
}

/// A well-formed value parses back from its encoding, wherever that encoding
/// stands in a buffer, and the parse ends right after it.
pub proof fn lemma_parse_encoded(f: Frame, b: Seq<u8>, pos: int)
    requires
        well_formed(f),
        holds_at(b, pos, encode(f)),
    ensures
        parse_frame(b, pos) == Some((f, pos + encode(f).len())),
    decreases f,
{
    let e = encode(f);
    lemma_holds_at_index(b, pos, e, 0);
    match f {
        Frame::Simple(s) => {
            let l = encode_utf8(s);
            assert(e =~= seq![SIMPLE_STRING_BYTE_CODE] + (l + crlf()));
            lemma_holds_at_split(b, pos, seq![SIMPLE_STRING_BYTE_CODE], l + crlf());
            lemma_parse_line(b, pos + 1, l);
            lemma_utf8_round_trip(s);
        },
        Frame::Error(s) => {
            let l = err_prefix() + encode_utf8(s);
            assert(e =~= seq![ERROR_BYTE_CODE] + (l + crlf()));
            lemma_holds_at_split(b, pos, seq![ERROR_BYTE_CODE], l + crlf());
            assert forall|i: int| 0 <= i < l.len() implies #[trigger] l[i] != CR && l[i] != LF by {
                if i >= 4 {
                    assert(l[i] == encode_utf8(s)[i - 4]);
                }
            }
            lemma_parse_line(b, pos + 1, l);
            assert(l.subrange(0, 4) =~= err_prefix());
            assert(strip_err(l) =~= encode_utf8(s));
            lemma_utf8_round_trip(s);
        },
        Frame::Integer(i) => {
            let d = signed_decimal(i as int);
            assert(e =~= seq![INTEGER_BYTE_CODE] + (d + crlf()));
            lemma_holds_at_split(b, pos, seq![INTEGER_BYTE_CODE], d + crlf());
            lemma_parse_int_line(b, pos + 1, i);
        },
        Frame::Bulk(s) => {
            let l = encode_utf8(s);
            let d = decimal(l.len());
            assert(e =~= seq![BULK_STRING_BYTE_CODE] + ((d + crlf()) + (l + crlf())));
            lemma_holds_at_split(b, pos, seq![BULK_STRING_BYTE_CODE], (d + crlf()) + (l + crlf()));
            lemma_holds_at_split(b, pos + 1, d + crlf(), l + crlf());
            lemma_parse_length_line(b, pos + 1, l.len());
            let p = pos + 1 + d.len() + 2;
            lemma_holds_at_split(b, p, l, crlf());
            lemma_holds_at_index(b, p + l.len(), crlf(), 0);
            lemma_holds_at_index(b, p + l.len(), crlf(), 1);
            lemma_utf8_round_trip(s);
        },
        Frame::Array(items) => {
            let d = decimal(items.len());
            let rest = encode_items(items);
            assert(e =~= seq![ARRAY_BYTE_CODE] + ((d + crlf()) + rest));
            lemma_holds_at_split(b, pos, seq![ARRAY_BYTE_CODE], (d + crlf()) + rest);
            lemma_holds_at_split(b, pos + 1, d + crlf(), rest);
            lemma_parse_length_line(b, pos + 1, items.len());
            lemma_parse_items_encoded(items, b, pos + 1 + d.len() + 2);
        },
        Frame::Null => {
            lemma_holds_at_index(b, pos, e, 1);
            lemma_holds_at_index(b, pos, e, 2);
        },
    }
}

/// Well-formed values encoded one after the other parse back in order.
pub proof fn lemma_parse_items_encoded(items: Seq<Frame>, b: Seq<u8>, pos: int)
    requires
        forall|i: int| 0 <= i < items.len() ==> well_formed(#[trigger] items[i]),
        holds_at(b, pos, encode_items(items)),
    ensures
        parse_items(b, pos, items.len() as int) == Some((items, pos + encode_items(items).len())),
    decreases items,
{
    if items.len() == 0 {
        assert(items =~= Seq::<Frame>::empty());
    } else {
        let tail = items.subrange(1, items.len() as int);
        let first = encode(items[0]);
        lemma_holds_at_split(b, pos, first, encode_items(tail));
        lemma_parse_encoded(items[0], b, pos);
        assert(first.len() > 0) by {
            lemma_encoded_not_empty(items[0]);
        }
        assert forall|i: int| 0 <= i < tail.len() implies well_formed(#[trigger] tail[i]) by {
            assert(tail[i] == items[i + 1]);
        }
        lemma_parse_items_encoded(tail, b, pos + first.len());
        assert(seq![items[0]] + tail =~= items);
    }
}

proof fn lemma_encoded_not_empty(f: Frame)
    ensures
        encode(f).len() > 0,
{
}

/// Round trip: every well-formed value, encoded and read back, is itself.
pub proof fn lemma_round_trip(f: Frame)
    requires
        well_formed(f),
    ensures
        value_of(encode(f)) == Some(f),
{
    let e = encode(f);
    assert(e.subrange(0, e.len() as int) =~= e);
    lemma_parse_encoded(f, e, 0);
}

/// Bulk strings encoded one after the other parse back, in order, as the
/// arguments of a request.
proof fn lemma_parse_bulk_strings_encoded(args: Seq<Seq<char>>, b: Seq<u8>, pos: int)
    requires
        forall|i: int| 0 <= i < args.len() ==> encode_utf8(#[trigger] args[i]).len() <= i64::MAX,
        holds_at(b, pos, encode_items(args.map_values(|s: Seq<char>| Frame::Bulk(s)))),
    ensures
        parse_bulk_strings(b, pos, args.len() as int) == Some(
            (args, pos + encode_items(args.map_values(|s: Seq<char>| Frame::Bulk(s))).len()),
        ),
    decreases args.len(),
{
    let frames = args.map_values(|s: Seq<char>| Frame::Bulk(s));
    if args.len() == 0 {
        assert(args =~= Seq::<Seq<char>>::empty());
    } else {
        let tail = args.subrange(1, args.len() as int);
        let first = encode(frames[0]);
        assert(frames.subrange(1, frames.len() as int) =~= tail.map_values(
            |s: Seq<char>| Frame::Bulk(s),
        ));
        lemma_holds_at_split(b, pos, first, encode_items(frames.subrange(1, frames.len() as int)));
        assert(frames[0] == Frame::Bulk(args[0]));
        lemma_parse_encoded(frames[0], b, pos);
        lemma_holds_at_index(b, pos, first, 0);
        assert forall|i: int| 0 <= i < tail.len() implies encode_utf8(#[trigger] tail[i]).len()
            <= i64::MAX by {
            assert(tail[i] == args[i + 1]);
        }
        lemma_parse_bulk_strings_encoded(tail, b, pos + first.len());
        assert(seq![args[0]] + tail =~= args);
    }
}

/// Round trip for requests: arguments that fit the length fields, encoded as a
/// request and read back, are themselves.
pub proof fn lemma_request_round_trip(args: Seq<Seq<char>>)
    requires
        args.len() <= i64::MAX,
        forall|i: int| 0 <= i < args.len() ==> encode_utf8(#[trigger] args[i]).len() <= i64::MAX,
    ensures
        request_of(encode(request_frame(args))) == Some(args),
{
    let frames = args.map_values(|s: Seq<char>| Frame::Bulk(s));
    let e = encode(request_frame(args));
    let d = decimal(args.len());
    assert(e =~= seq![ARRAY_BYTE_CODE] + ((d + crlf()) + encode_items(frames)));
    assert(e.subrange(0, e.len() as int) =~= e);
    lemma_holds_at_split(e, 0, seq![ARRAY_BYTE_CODE], (d + crlf()) + encode_items(frames));
    lemma_holds_at_split(e, 1, d + crlf(), encode_items(frames));
    lemma_parse_length_line(e, 1, args.len());
    lemma_parse_bulk_strings_encoded(args, e, 1 + d.len() + 2int);
}

} // verus!
