//! The wire codec: the five kinds of protocol value, their byte encoding,
//! and a decoder that reads one value from the front of a byte buffer.
use vstd::prelude::*;
use vstd::utf8::{
    char_is_scalar, char_u32_cast, decode_utf8, encode_scalar, encode_utf8, encode_utf8_decode_utf8, encode_utf8_valid_utf8,
    valid_utf8,
};
use crate::decimal::{
    decimal_of, digits_of, is_digit, lemma_decimal_round_trip, lemma_digits_of_facts,
    lemma_i64_round_trip, parse_i64, parse_i64_spec, push_decimal, push_digits,
};

verus! {

/// A protocol value, as sent by clients and servers alike.
#[derive(Debug)]
pub enum RespValue {
    SimpleString(String),
    Error(String),
    Integer(i64),
    BulkString(Option<Vec<u8>>),
    Array(Option<Vec<RespValue>>),
}

/// The mathematical content of a `RespValue`.
pub enum Frame {
    Simple(Seq<char>),
    Error(Seq<char>),
    Integer(i64),
    Bulk(Option<Seq<u8>>),
    Array(Option<Seq<Frame>>),
}

pub open spec fn frame_of(v: RespValue) -> Frame
    decreases v,
{
    match v {
        RespValue::SimpleString(s) => Frame::Simple(s@),
        RespValue::Error(s) => Frame::Error(s@),
        RespValue::Integer(i) => Frame::Integer(i),
        RespValue::BulkString(None) => Frame::Bulk(None),
        RespValue::BulkString(Some(b)) => Frame::Bulk(Some(b@)),
        RespValue::Array(None) => Frame::Array(None),
        RespValue::Array(Some(items)) => Frame::Array(Some(frames_of(items@))),
    }
}

pub open spec fn frames_of(s: Seq<RespValue>) -> Seq<Frame>
    decreases s,
{
    if s.len() == 0 {
        Seq::empty()
    } else {
        frames_of(s.drop_last()).push(frame_of(s.last()))
    }
}

impl View for RespValue {
    type V = Frame;

    open spec fn view(&self) -> Frame {
        frame_of(*self)
    }
}

pub open spec fn crlf() -> Seq<u8> {
    seq![13u8, 10u8]
}

/// A type byte, a header text, and the line terminator.
pub open spec fn header(tag: u8, body: Seq<u8>) -> Seq<u8> {
    seq![tag] + body + crlf()
}

/// The bytes that stand for a frame on the wire.
pub open spec fn encoding(f: Frame) -> Seq<u8>
    decreases f,
{
    match f {
        Frame::Simple(t) => header(43u8, encode_utf8(t)),
        Frame::Error(t) => header(45u8, encode_utf8(t)),
        Frame::Integer(i) => header(58u8, decimal_of(i as int)),
        Frame::Bulk(None) => header(36u8, decimal_of(-1)),
        Frame::Bulk(Some(b)) => header(36u8, decimal_of(b.len() as int)) + b + crlf(),
        Frame::Array(None) => header(42u8, decimal_of(-1)),
        Frame::Array(Some(items)) => header(42u8, decimal_of(items.len() as int)) + encodings(
            items,
        ),
    }
}

/// The encodings of `items`, one after another.
pub open spec fn encodings(items: Seq<Frame>) -> Seq<u8>
    decreases items,
{
    if items.len() == 0 {
        Seq::empty()
    } else {
        encoding(items[0]) + encodings(items.drop_first())
    }
}

pub proof fn lemma_frames_of_len(s: Seq<RespValue>)
    ensures
        frames_of(s).len() == s.len(),
    decreases s.len(),
{
    if s.len() > 0 {
        lemma_frames_of_len(s.drop_last());
    }
}

pub proof fn lemma_frames_of_index(s: Seq<RespValue>, i: int)
    requires
        0 <= i < s.len(),
    ensures
        frames_of(s)[i] == frame_of(s[i]),
    decreases s.len(),
{
    lemma_frames_of_len(s.drop_last());
    if i < s.len() - 1 {
        lemma_frames_of_index(s.drop_last(), i);
    }
}

pub proof fn lemma_encodings_item_len(items: Seq<Frame>, i: int)
    requires
        0 <= i < items.len(),
    ensures
        encoding(items[i]).len() <= encodings(items).len(),
    decreases i,
{
    if i > 0 {
        lemma_encodings_item_len(items.drop_first(), i - 1);
    }
}

pub proof fn lemma_encodings_push(items: Seq<Frame>, f: Frame)
    ensures
        encodings(items.push(f)) == encodings(items) + encoding(f),
    decreases items.len(),
{
    if items.len() == 0 {
        assert(items.push(f).drop_first() =~= Seq::<Frame>::empty());
        assert(items.push(f)[0] == f);
        assert(encodings(Seq::<Frame>::empty()) == Seq::<u8>::empty());
        assert(encodings(items) == Seq::<u8>::empty());
        assert(encodings(items.push(f)) =~= encodings(items) + encoding(f));
    } else {
        lemma_encodings_push(items.drop_first(), f);
        assert(items.push(f).drop_first() =~= items.drop_first().push(f));
        assert(items.push(f)[0] == items[0]);
        assert(encodings(items.push(f)) == encoding(items[0]) + encodings(items.drop_first().push(f)));
        assert(encodings(items.push(f)) =~= encodings(items) + encoding(f));
    }
}

pub(crate) fn push_bytes(out: &mut Vec<u8>, b: &[u8])
    ensures
        final(out)@ == old(out)@ + b@,
{
    let mut i: usize = 0;
    while i < b.len()
        invariant
            i <= b@.len(),
            out@ == old(out)@ + b@.subrange(0, i as int),
        decreases b@.len() - i,
    {
        out.push(b[i]);
        i = i + 1;
        assert(out@ =~= old(out)@ + b@.subrange(0, i as int));
    }
    assert(b@.subrange(0, i as int) =~= b@);
}

fn push_crlf(out: &mut Vec<u8>)
    ensures
        final(out)@ == old(out)@ + crlf(),
{
    out.push(13u8);
    out.push(10u8);
    assert(out@ =~= old(out)@ + crlf());
}

impl RespValue {
    /// Appends the wire encoding of this value to `out`.
    pub fn encode(&self, out: &mut Vec<u8>)
        ensures
            final(out)@ == old(out)@ + encoding(self@),
        decreases encoding(self@).len(),
    {
        let ghost start = out@;
        match self {
            RespValue::SimpleString(s) => {
                out.push(43u8);
                push_bytes(out, s.as_str().as_bytes());
                push_crlf(out);
                assert(out@ =~= start + encoding(self@));
            },
            RespValue::Error(s) => {
                out.push(45u8);
                push_bytes(out, s.as_str().as_bytes());
                push_crlf(out);
                assert(out@ =~= start + encoding(self@));
            },
            RespValue::Integer(i) => {
                out.push(58u8);
                push_decimal(*i, out);
                push_crlf(out);
                assert(out@ =~= start + encoding(self@));
            },
            RespValue::BulkString(None) => {
                out.push(36u8);
                push_decimal(-1i64, out);
                push_crlf(out);
                assert(out@ =~= start + encoding(self@));
            },
            RespValue::BulkString(Some(bytes)) => {
                out.push(36u8);
                push_digits(bytes.len() as u64, out);
                push_crlf(out);
                push_bytes(out, bytes.as_slice());
                push_crlf(out);
                assert(out@ =~= start + encoding(self@));
            },
            RespValue::Array(None) => {
                out.push(42u8);
                push_decimal(-1i64, out);
                push_crlf(out);
                assert(out@ =~= start + encoding(self@));
            },
            RespValue::Array(Some(values)) => {
                out.push(42u8);
                push_digits(values.len() as u64, out);
                push_crlf(out);
                let ghost head = out@;
                assert(head =~= start + header(42u8, decimal_of(values@.len() as int)));
                let mut i: usize = 0;
                while i < values.len()
                    invariant
                        i <= values@.len(),
                        self@ == Frame::Array(Some(frames_of(values@))),
                        out@ == head + encodings(frames_of(values@.subrange(0, i as int))),
                    decreases values@.len() - i,
                {
                    proof {
                        lemma_frames_of_len(values@);
                        lemma_frames_of_index(values@, i as int);
                        lemma_encodings_item_len(frames_of(values@), i as int);
                        assert(self@ == Frame::Array(Some(frames_of(values@))));
                        assert(encoding(self@) == header(42u8, decimal_of(frames_of(values@).len() as int)) + encodings(frames_of(values@)));
                    }
                    values[i].encode(out);
                    proof {
                        let prev = values@.subrange(0, i as int);
                        let next = values@.subrange(0, i + 1);
                        assert(next.drop_last() =~= prev);
                        lemma_encodings_push(frames_of(prev), frame_of(values@[i as int]));
                    }
                    i = i + 1;
                    assert(out@ =~= head + encodings(frames_of(values@.subrange(0, i as int))));
                }
                assert(values@.subrange(0, i as int) =~= values@);
                proof {
                    lemma_frames_of_len(values@);
                }
                assert(out@ =~= start + encoding(self@));
            },
        }
    }
}

/// Why a buffer does not start with a well-formed frame.
#[derive(Debug, PartialEq, Eq, Structural)]
pub enum DecodeError {
    /// The buffer ends before the frame does.
    Incomplete,
    /// A line or a bulk payload is not followed by `\r\n`.
    MissingCrlf,
    /// An integer frame's line is not a signed 64-bit integer.
    InvalidInteger,
    /// A bulk or array header's length is not a signed 64-bit integer.
    InvalidLength,
    /// The frame starts with a byte that names no kind of value.
    UnknownPrefix(u8),
}

/// The first line feed at or after `from`.
pub open spec fn find_lf(s: Seq<u8>, from: int) -> Option<int>
    decreases s.len() - from,
{
    if from < 0 || from >= s.len() {
        None
    } else if s[from] == 10u8 {
        Some(from)
    } else {
        find_lf(s, from + 1)
    }
}

/// The line that starts at `from`, without its `\r\n`, and where the next
/// one starts.
pub open spec fn read_line(s: Seq<u8>, from: int) -> Result<(Seq<u8>, int), DecodeError> {
    match find_lf(s, from) {
        None => Err(DecodeError::Incomplete),
        Some(j) => if j > from && s[j - 1] == 13u8 {
            Ok((s.subrange(from, j - 1), j + 1))
        } else {
            Err(DecodeError::MissingCrlf)
        },
    }
}

/// The text that the standard library's lossy UTF-8 conversion makes of
/// bytes that are not valid UTF-8.
pub uninterp spec fn lossy_text(b: Seq<u8>) -> Seq<char>;

/// The text of a line: its characters where it is valid UTF-8, else the
/// lossy reading of it.
pub open spec fn text_of(b: Seq<u8>) -> Seq<char> {
    if valid_utf8(b) {
        decode_utf8(b)
    } else {
        lossy_text(b)
    }
}

/// The bulk payload of length `n` that starts at `from`.
pub open spec fn bulk_payload(s: Seq<u8>, from: int, n: int) -> Result<(Frame, int), DecodeError> {
    if from + n + 2 > s.len() {
        Err(DecodeError::Incomplete)
    } else if s[from + n] == 13u8 && s[from + n + 1] == 10u8 {
        Ok((Frame::Bulk(Some(s.subrange(from, from + n))), from + n + 2))
    } else {
        Err(DecodeError::MissingCrlf)
    }
}

pub open spec fn is_type_byte(b: u8) -> bool {
    b == 43u8 || b == 45u8 || b == 58u8 || b == 36u8 || b == 42u8
}

/// The frame that starts at `pos` in `s`, and where it ends.
pub open spec fn decode_at(s: Seq<u8>, pos: int) -> Result<(Frame, int), DecodeError>
    decreases s.len() - pos, 0int,
{
    if pos < 0 || pos >= s.len() {
        Err(DecodeError::Incomplete)
    } else if !is_type_byte(s[pos]) {
        Err(DecodeError::UnknownPrefix(s[pos]))
    } else {
        let tag = s[pos];
        match read_line(s, pos + 1) {
            Err(e) => Err(e),
            Ok((l, next)) => if tag == 43u8 {
                Ok((Frame::Simple(text_of(l)), next))
            } else if tag == 45u8 {
                Ok((Frame::Error(text_of(l)), next))
            } else {
                match parse_i64_spec(l) {
                    None => Err(
                        if tag == 58u8 {
                            DecodeError::InvalidInteger
                        } else {
                            DecodeError::InvalidLength
                        },
                    ),
                    Some(n) => if tag == 58u8 {
                        Ok((Frame::Integer(n), next))
                    } else if n < 0 {
                        Ok((if tag == 36u8 { Frame::Bulk(None) } else { Frame::Array(None) }, next))
                    } else if tag == 36u8 {
                        bulk_payload(s, next, n as int)
                    } else if pos < next <= s.len() {
                        match decode_items(s, next, n as nat) {
                            Ok((items, q)) => Ok((Frame::Array(Some(items)), q)),
                            Err(e) => Err(e),
                        }
                    } else {
                        Err(DecodeError::Incomplete)
                    },
                }
            },
        }
    }
}

/// `n` frames one after another from `pos`, and where the last one ends.
pub open spec fn decode_items(s: Seq<u8>, pos: int, n: nat) -> Result<(Seq<Frame>, int), DecodeError>
    decreases s.len() - pos, 1int,
{
    if pos < 0 || pos > s.len() {
        Err(DecodeError::Incomplete)
    } else if n == 0 {
        Ok((Seq::empty(), pos))
    } else {
        match decode_at(s, pos) {
            Err(e) => Err(e),
            Ok((f, p)) => if pos < p <= s.len() {
                match decode_items(s, p, (n - 1) as nat) {
                    Ok((rest, q)) => Ok((seq![f] + rest, q)),
                    Err(e) => Err(e),
                }
            } else {
                Err(DecodeError::Incomplete)
            },
        }
    }
}

pub open spec fn prepend(
    acc: Seq<Frame>,
    r: Result<(Seq<Frame>, int), DecodeError>,
) -> Result<(Seq<Frame>, int), DecodeError> {
    match r {
        Ok((rest, q)) => Ok((acc + rest, q)),
        Err(e) => Err(e),
    }
}

/// What an executable decoding result means.
pub open spec fn result_frame(r: Result<(RespValue, usize), DecodeError>) -> Result<(Frame, int), DecodeError> {
    match r {
        Ok((v, p)) => Ok((v@, p as int)),
        Err(e) => Err(e),
    }
}

/// Relies on `String::from_utf8_lossy`: valid UTF-8 comes back as the same
/// characters; other bytes are read with replacement characters.
#[verifier::external_body]
pub(crate) fn text_from_bytes(b: &[u8]) -> (r: String)
    ensures
        r@ == lossy_text(b@),
        valid_utf8(b@) ==> r@ == decode_utf8(b@),
{
    String::from_utf8_lossy(b).into_owned()
}

fn copy_range(buf: &[u8], from: usize, to: usize) -> (r: Vec<u8>)
    requires
        from <= to <= buf@.len(),
    ensures
        r@ == buf@.subrange(from as int, to as int),
{
    let mut r: Vec<u8> = Vec::new();
    let mut i: usize = from;
    while i < to
        invariant
            from <= i <= to <= buf@.len(),
            r@ == buf@.subrange(from as int, i as int),
        decreases to - i,
    {
        r.push(buf[i]);
        i = i + 1;
        assert(r@ =~= buf@.subrange(from as int, i as int));
    }
    r
}

/// Finds the line that starts at `from`: returns where its text ends and
/// where the next line starts.
fn line_at(buf: &[u8], from: usize) -> (r: Result<(usize, usize), DecodeError>)
    requires
        from <= buf@.len(),
    ensures
        match r {
            Ok((end, next)) => read_line(buf@, from as int) == Ok::<(Seq<u8>, int), DecodeError>(
                (buf@.subrange(from as int, end as int), next as int),
            ) && from <= end && end + 2 == next && next <= buf@.len(),
            Err(e) => read_line(buf@, from as int) == Err::<(Seq<u8>, int), DecodeError>(e),
        },
{
    let mut j: usize = from;
    while j < buf.len()
        invariant
            from <= j <= buf@.len(),
            find_lf(buf@, from as int) == find_lf(buf@, j as int),
        decreases buf@.len() - j,
    {
        if buf[j] == 10u8 {
            if j > from && buf[j - 1] == 13u8 {
                return Ok((j - 1, j + 1));
            } else {
                return Err(DecodeError::MissingCrlf);
            }
        }
        j = j + 1;
    }
    Err(DecodeError::Incomplete)
}

/// Decodes the frame that starts at `pos`.
fn decode_from(buf: &[u8], pos: usize) -> (r: Result<(RespValue, usize), DecodeError>)
    requires
        pos <= buf@.len(),
    ensures
        result_frame(r) == decode_at(buf@, pos as int),
        r matches Ok((_, p)) ==> pos < p <= buf@.len(),
    decreases buf@.len() - pos, 0int,
{
    if pos >= buf.len() {
        return Err(DecodeError::Incomplete);
    }
    let tag = buf[pos];
    if !(tag == 43u8 || tag == 45u8 || tag == 58u8 || tag == 36u8 || tag == 42u8) {
        return Err(DecodeError::UnknownPrefix(tag));
    }
    let (end, next) = match line_at(buf, pos + 1) {
        Ok(p) => p,
        Err(e) => return Err(e),
    };
    let line = copy_range(buf, pos + 1, end);
    if tag == 43u8 {
        return Ok((RespValue::SimpleString(text_from_bytes(line.as_slice())), next));
    }
    if tag == 45u8 {
        return Ok((RespValue::Error(text_from_bytes(line.as_slice())), next));
    }
    let n = match parse_i64(line.as_slice()) {
        Some(n) => n,
        None => {
            if tag == 58u8 {
                return Err(DecodeError::InvalidInteger);
            } else {
                return Err(DecodeError::InvalidLength);
            }
        },
    };
    if tag == 58u8 {
        return Ok((RespValue::Integer(n), next));
    }
    if n < 0 {
        if tag == 36u8 {
            return Ok((RespValue::BulkString(None), next));
        } else {
            return Ok((RespValue::Array(None), next));
        }
    }
    if tag == 36u8 {
        let avail: usize = buf.len() - next;
        if avail < 2 || (n as u64) > (avail - 2) as u64 {
            return Err(DecodeError::Incomplete);
        }
        let stop: usize = next + n as usize;
        if buf[stop] == 13u8 && buf[stop + 1] == 10u8 {
            let data = copy_range(buf, next, stop);
            return Ok((RespValue::BulkString(Some(data)), stop + 2));
        } else {
            return Err(DecodeError::MissingCrlf);
        }
    }
    match decode_list(buf, next, n as u64) {
        Ok((items, q)) => Ok((RespValue::Array(Some(items)), q)),
        Err(e) => Err(e),
    }
}

/// Decodes `n` frames one after another from `pos`.
fn decode_list(buf: &[u8], pos: usize, n: u64) -> (r: Result<(Vec<RespValue>, usize), DecodeError>)
    requires
        0 < pos <= buf@.len(),
    ensures
        match r {
            Ok((items, q)) => decode_items(buf@, pos as int, n as nat) == Ok::<(Seq<Frame>, int), DecodeError>(
                (frames_of(items@), q as int),
            ) && pos <= q <= buf@.len(),
            Err(e) => decode_items(buf@, pos as int, n as nat) == Err::<(Seq<Frame>, int), DecodeError>(e),
        },
    decreases buf@.len() - pos, 1int,
{
    let mut items: Vec<RespValue> = Vec::new();
    let mut cur: usize = pos;
    let mut k: u64 = 0;
    while k < n
        invariant
            pos <= cur <= buf@.len(),
            k <= n,
            decode_items(buf@, pos as int, n as nat) == prepend(
                frames_of(items@),
                decode_items(buf@, cur as int, (n - k) as nat),
            ),
        decreases n - k,
    {
        let ghost acc = frames_of(items@);
        let ghost m = (n - k) as nat;
        proof {
            assert(decode_items(buf@, cur as int, m) == match decode_at(buf@, cur as int) {
                Err(e) => Err(e),
                Ok((f, p)) => if cur < p <= buf@.len() {
                    prepend(seq![f], decode_items(buf@, p, (m - 1) as nat))
                } else {
                    Err(DecodeError::Incomplete)
                },
            });
        }
        let (v, p) = match decode_from(buf, cur) {
            Ok(x) => x,
            Err(e) => return Err(e),
        };
        proof {
            let tail = decode_items(buf@, p as int, (m - 1) as nat);
            match tail {
                Ok((rest, q)) => {
                    assert(acc + (seq![v@] + rest) =~= acc.push(v@) + rest);
                },
                Err(_) => {},
            }
            assert(items@.push(v).drop_last() =~= items@);
        }
        items.push(v);
        cur = p;
        k = k + 1;
    }
    proof {
        assert(frames_of(items@) + Seq::<Frame>::empty() =~= frames_of(items@));
    }
    Ok((items, cur))
}

/// Reads the frame at the front of `buf`: the value and the number of bytes
/// it takes up, or why there is none.
pub fn read_resp(buf: &[u8]) -> (r: Result<(RespValue, usize), DecodeError>)
    ensures
        result_frame(r) == decode_at(buf@, 0),
{
    decode_from(buf, 0)
}

pub open spec fn no_lf(b: Seq<u8>) -> bool {
    forall|k: int| 0 <= k < b.len() ==> #[trigger] b[k] != 10u8
}

/// Text that holds no line feed.
pub open spec fn text_ok(t: Seq<char>) -> bool {
    forall|k: int| 0 <= k < t.len() ==> #[trigger] t[k] != '\n'
}

/// A frame that the wire can carry unchanged: its texts hold no line feed,
/// and its lengths fit in a signed 64-bit header.
pub open spec fn frame_ok(f: Frame) -> bool
    decreases f,
{
    match f {
        Frame::Simple(t) => text_ok(t),
        Frame::Error(t) => text_ok(t),
        Frame::Integer(_) => true,
        Frame::Bulk(None) => true,
        Frame::Bulk(Some(b)) => b.len() <= i64::MAX,
        Frame::Array(None) => true,
        Frame::Array(Some(items)) => items.len() <= i64::MAX && frames_ok(items),
    }
}

pub open spec fn frames_ok(items: Seq<Frame>) -> bool
    decreases items,
{
    items.len() == 0 || (frame_ok(items[0]) && frames_ok(items.drop_first()))
}

proof fn lemma_scalar_no_lf(v: u32)
    requires
        v != 10,
        v <= 0x10FFFF,
    ensures
        no_lf(encode_scalar(v)),
{
    if v <= 0x7F {
        assert(((v & 0x7F) as u8) != 10u8) by (bit_vector)
            requires
                v <= 0x7F,
                v != 10,
        ;
    } else {
        assert((0xC0u8 | ((v >> 6u32) & 0x1F) as u8) != 10u8) by (bit_vector);
        assert((0xE0u8 | ((v >> 12u32) & 0x0F) as u8) != 10u8) by (bit_vector);
        assert((0xF0u8 | ((v >> 18u32) & 0x7) as u8) != 10u8) by (bit_vector);
        assert((0x80u8 | (v & 0x3F) as u8) != 10u8) by (bit_vector);
        assert((0x80u8 | ((v >> 6u32) & 0x3F) as u8) != 10u8) by (bit_vector);
        assert((0x80u8 | ((v >> 12u32) & 0x3F) as u8) != 10u8) by (bit_vector);
    }
}

proof fn lemma_utf8_no_lf(t: Seq<char>)
    requires
        text_ok(t),
    ensures
        no_lf(encode_utf8(t)),
    decreases t.len(),
{
    if t.len() > 0 {
        let c = t[0];
        assert(c != '\n');
        char_is_scalar(c);
        char_u32_cast(c, c as u32);
        assert('\n' as u32 == 10u32);
        char_u32_cast('\n', 10u32);
        assert((c as u32) != 10u32);
        lemma_scalar_no_lf(c as u32);
        assert(text_ok(t.drop_first())) by {
            assert forall|k: int| 0 <= k < t.drop_first().len() implies #[trigger] t.drop_first()[k]
                != '\n' by {
                assert(t.drop_first()[k] == t[k + 1]);
            }
        }
        lemma_utf8_no_lf(t.drop_first());
        let a = encode_scalar(c as u32);
        let b = encode_utf8(t.drop_first());
        assert forall|k: int| 0 <= k < (a + b).len() implies #[trigger] (a + b)[k] != 10u8 by {
            if k < a.len() {
                assert((a + b)[k] == a[k]);
            } else {
                assert((a + b)[k] == b[k - a.len()]);
            }
        }
    }
}

proof fn lemma_decimal_no_lf(i: int)
    ensures
        no_lf(decimal_of(i)),
{
    let m: nat = if i < 0 { (-i) as nat } else { i as nat };
    lemma_digits_of_facts(m);
    let d = digits_of(m);
    assert forall|k: int| 0 <= k < decimal_of(i).len() implies #[trigger] decimal_of(i)[k] != 10u8 by {
        if i < 0 {
            if k > 0 {
                assert(decimal_of(i)[k] == d[k - 1]);
                assert(is_digit(d[k - 1]));
            }
        } else {
            assert(is_digit(d[k]));
        }
    }
}

proof fn lemma_find_lf_skip(s: Seq<u8>, from: int, to: int)
    requires
        0 <= from <= to <= s.len(),
        forall|k: int| from <= k < to ==> #[trigger] s[k] != 10u8,
    ensures
        find_lf(s, from) == find_lf(s, to),
    decreases to - from,
{
    if from < to {
        lemma_find_lf_skip(s, from + 1, to);
    }
}

proof fn lemma_read_header(s: Seq<u8>, pos: int, tag: u8, body: Seq<u8>)
    requires
        0 <= pos,
        pos + body.len() + 3 <= s.len(),
        s.subrange(pos, pos + body.len() + 3) == header(tag, body),
        no_lf(body),
    ensures
        s[pos] == tag,
        read_line(s, pos + 1) == Ok::<(Seq<u8>, int), DecodeError>((body, pos + body.len() + 3)),
{
    let h = header(tag, body);
    let j = pos + body.len() + 2;
    assert(s[pos] == h[0]);
    assert forall|k: int| pos + 1 <= k < j implies #[trigger] s[k] != 10u8 by {
        assert(s[k] == h[k - pos]);
        if k < j - 1 {
            assert(h[k - pos] == body[k - pos - 1]);
        }
    }
    assert(s[j] == h[j - pos]);
    assert(s[j - 1] == h[j - 1 - pos]);
    lemma_find_lf_skip(s, pos + 1, j);
    assert(s.subrange(pos + 1, j - 1) =~= body) by {
        assert forall|k: int| 0 <= k < body.len() implies #[trigger] s.subrange(pos + 1, j - 1)[k]
            == body[k] by {
            assert(s[pos + 1 + k] == h[1 + k]);
        }
    }
}

proof fn lemma_encoding_len(f: Frame)
    ensures
        encoding(f).len() >= 3,
{
}

proof fn lemma_decode_frame(f: Frame, s: Seq<u8>, pos: int)
    requires
        frame_ok(f),
        0 <= pos,
        pos + encoding(f).len() <= s.len(),
        s.subrange(pos, pos + encoding(f).len()) == encoding(f),
    ensures
        decode_at(s, pos) == Ok::<(Frame, int), DecodeError>((f, pos + encoding(f).len())),
    decreases f,
{
    let e = encoding(f);
    match f {
        Frame::Simple(t) => {
            lemma_utf8_no_lf(t);
            lemma_read_header(s, pos, 43u8, encode_utf8(t));
            encode_utf8_valid_utf8(t);
            encode_utf8_decode_utf8(t);
        },
        Frame::Error(t) => {
            lemma_utf8_no_lf(t);
            lemma_read_header(s, pos, 45u8, encode_utf8(t));
            encode_utf8_valid_utf8(t);
            encode_utf8_decode_utf8(t);
        },
        Frame::Integer(i) => {
            lemma_decimal_no_lf(i as int);
            lemma_read_header(s, pos, 58u8, decimal_of(i as int));
            lemma_i64_round_trip(i);
        },
        Frame::Bulk(None) => {
            lemma_decimal_no_lf(-1);
            lemma_read_header(s, pos, 36u8, decimal_of(-1));
            lemma_i64_round_trip(-1i64);
        },
        Frame::Array(None) => {
            lemma_decimal_no_lf(-1);
            lemma_read_header(s, pos, 42u8, decimal_of(-1));
            lemma_i64_round_trip(-1i64);
        },
        Frame::Bulk(Some(b)) => {
            let d = decimal_of(b.len() as int);
            let h = header(36u8, d);
            lemma_decimal_no_lf(b.len() as int);
            lemma_decimal_round_trip(b.len() as int);
            assert(s.subrange(pos, pos + h.len()) =~= h) by {
                assert forall|k: int| 0 <= k < h.len() implies #[trigger] s.subrange(pos, pos + h.len())[k]
                    == h[k] by {
                    assert(s[pos + k] == e[k]);
                }
            }
            lemma_read_header(s, pos, 36u8, d);
            let next = pos + h.len();
            assert(s[next + b.len()] == e[(h.len() + b.len()) as int]);
            assert(s[next + b.len() + 1] == e[(h.len() + b.len() + 1) as int]);
            assert(s.subrange(next, next + b.len()) =~= b) by {
                assert forall|k: int| 0 <= k < b.len() implies #[trigger] s.subrange(next, next + b.len())[k]
                    == b[k] by {
                    assert(s[next + k] == e[h.len() + k]);
                }
            }
        },
        Frame::Array(Some(items)) => {
            let d = decimal_of(items.len() as int);
            let h = header(42u8, d);
            lemma_decimal_no_lf(items.len() as int);
            lemma_decimal_round_trip(items.len() as int);
            assert(s.subrange(pos, pos + h.len()) =~= h) by {
                assert forall|k: int| 0 <= k < h.len() implies #[trigger] s.subrange(pos, pos + h.len())[k]
                    == h[k] by {
                    assert(s[pos + k] == e[k]);
                }
            }
            lemma_read_header(s, pos, 42u8, d);
            let next = pos + h.len();
            let body = encodings(items);
            assert(s.subrange(next, next + body.len()) =~= body) by {
                assert forall|k: int| 0 <= k < body.len() implies #[trigger] s.subrange(next, next + body.len())[k]
                    == body[k] by {
                    assert(s[next + k] == e[h.len() + k]);
                }
            }
            lemma_decode_list(items, s, next);
        },
    }
}

proof fn lemma_decode_list(items: Seq<Frame>, s: Seq<u8>, pos: int)
    requires
        frames_ok(items),
        0 <= pos,
        pos + encodings(items).len() <= s.len(),
        s.subrange(pos, pos + encodings(items).len()) == encodings(items),
    ensures
        decode_items(s, pos, items.len()) == Ok::<(Seq<Frame>, int), DecodeError>(
            (items, pos + encodings(items).len()),
        ),
    decreases items,
{
    if items.len() == 0 {
        assert(items =~= Seq::<Frame>::empty());
    } else {
        let e = encodings(items);
        let first = items[0];
        let rest = items.drop_first();
        let e0 = encoding(first);
        let er = encodings(rest);
        lemma_encoding_len(first);
        assert(s.subrange(pos, pos + e0.len()) =~= e0) by {
            assert forall|k: int| 0 <= k < e0.len() implies #[trigger] s.subrange(pos, pos + e0.len())[k]
                == e0[k] by {
                assert(s[pos + k] == e[k]);
            }
        }
        lemma_decode_frame(first, s, pos);
        let p = pos + e0.len();
        assert(s.subrange(p, p + er.len()) =~= er) by {
            assert forall|k: int| 0 <= k < er.len() implies #[trigger] s.subrange(p, p + er.len())[k]
                == er[k] by {
                assert(s[p + k] == e[e0.len() + k]);
            }
        }
        lemma_decode_list(rest, s, p);
        assert(seq![first] + rest =~= items);
    }
}

/// Decoding the encoding of a frame whose texts hold no line feed gives that
/// frame back, and reads exactly its bytes, whatever follows them.
pub proof fn lemma_round_trip(f: Frame, rest: Seq<u8>)
    requires
        frame_ok(f),
    ensures
        decode_at(encoding(f) + rest, 0) == Ok::<(Frame, int), DecodeError>(
            (f, encoding(f).len() as int),
        ),
{
    let s = encoding(f) + rest;
    assert(s.subrange(0, encoding(f).len() as int) =~= encoding(f));
    lemma_decode_frame(f, s, 0);
}

} // verus!
