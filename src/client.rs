//! What a command-line client needs around the codec: a request built from
//! words, and a reply rendered for a person to read.
use vstd::prelude::*;
use vstd::utf8::{decode_utf8, encode_utf8, valid_utf8};
use crate::commands::{push_chars, string_from_chars};
use crate::decimal::{decimal_of, push_decimal, push_digits};
use crate::resp::{
    encoding, encodings, frame_of, frames_of, lemma_encodings_item_len, lemma_frames_of_index,
    lemma_frames_of_len, Frame, RespValue,
};

verus! {

/// The request that sends `words`: an array of bulk strings, one per word.
pub open spec fn request_of(words: Seq<String>) -> Frame {
    Frame::Array(Some(Seq::new(words.len(), |i: int| Frame::Bulk(Some(encode_utf8(words[i]@))))))
}

/// Builds the request for `args`, one bulk string per word.
pub fn build_array_from_cli(args: &[String]) -> (r: RespValue)
    ensures
        r@ == request_of(args@),
{
    let mut items: Vec<RespValue> = Vec::new();
    let mut i: usize = 0;
    while i < args.len()
        invariant
            i <= args@.len(),
            frames_of(items@) == Seq::new(i as nat, |j: int| Frame::Bulk(Some(encode_utf8(args@[j]@)))),
        decreases args@.len() - i,
    {
        let mut b: Vec<u8> = Vec::new();
        crate::resp::push_bytes(&mut b, args[i].as_str().as_bytes());
        let ghost before = items@;
        let v = RespValue::BulkString(Some(b));
        items.push(v);
        proof {
            assert(items@.drop_last() =~= before);
            assert(frames_of(items@) == frames_of(before).push(frame_of(v)));
            assert(b@ =~= encode_utf8(args@[i as int]@));
        }
        i = i + 1;
        assert(frames_of(items@) =~= Seq::new(i as nat, |j: int| Frame::Bulk(Some(encode_utf8(args@[j]@)))));
    }
    RespValue::Array(Some(items))
}

/// ASCII bytes as characters.
pub open spec fn ascii_text(b: Seq<u8>) -> Seq<char> {
    Seq::new(b.len(), |i: int| b[i] as char)
}

/// What `str::trim_end` leaves of `s`: `s` without its trailing white space.
pub uninterp spec fn trimmed_end(s: Seq<char>) -> Seq<char>;

/// How a reply reads on screen.
pub open spec fn render(f: Frame) -> Seq<char>
    decreases f,
{
    match f {
        Frame::Simple(s) => s,
        Frame::Error(s) => "(error) "@ + s,
        Frame::Integer(i) => ascii_text(decimal_of(i as int)),
        Frame::Bulk(None) => "(nil)"@,
        Frame::Bulk(Some(b)) => if valid_utf8(b) {
            decode_utf8(b)
        } else {
            "(binary) "@ + ascii_text(decimal_of(b.len() as int)) + " bytes"@
        },
        Frame::Array(None) => "(nil)"@,
        Frame::Array(Some(items)) => trimmed_end(render_lines(items)),
    }
}

/// The items of an array reply, one numbered line each.
pub open spec fn render_lines(items: Seq<Frame>) -> Seq<char>
    decreases items,
{
    if items.len() == 0 {
        Seq::empty()
    } else {
        render_lines(items.drop_last()) + ascii_text(decimal_of(items.len() as int)) + ") "@
            + render(items.last()) + "\n"@
    }
}

/// Relies on `str::from_utf8`: the text of `b` exactly when `b` is valid
/// UTF-8.
#[verifier::external_body]
fn utf8_text(b: &[u8]) -> (r: Option<String>)
    ensures
        r is Some <==> valid_utf8(b@),
        r matches Some(s) ==> s@ == decode_utf8(b@),
{
    std::str::from_utf8(b).ok().map(|s| s.to_string())
}

/// Relies on `str::trim_end`: the text without its trailing white space.
#[verifier::external_body]
fn trim_end_of(s: &str) -> (r: String)
    ensures
        r@ == trimmed_end(s@),
{
    s.trim_end().to_string()
}

fn push_ascii(out: &mut Vec<char>, b: &Vec<u8>)
    ensures
        final(out)@ == old(out)@ + ascii_text(b@),
{
    let mut i: usize = 0;
    while i < b.len()
        invariant
            i <= b@.len(),
            out@ == old(out)@ + ascii_text(b@.subrange(0, i as int)),
        decreases b@.len() - i,
    {
        out.push(b[i] as char);
        i = i + 1;
        assert(out@ =~= old(out)@ + ascii_text(b@.subrange(0, i as int)));
    }
    assert(b@.subrange(0, i as int) =~= b@);
}

fn push_rendered(out: &mut Vec<char>, resp: &RespValue)
    ensures
        final(out)@ == old(out)@ + render(resp@),
    decreases encoding(resp@).len(),
{
    match resp {
        RespValue::SimpleString(s) => push_chars(out, s.as_str()),
        RespValue::Error(s) => {
            push_chars(out, "(error) ");
            push_chars(out, s.as_str());
            assert(out@ =~= old(out)@ + render(resp@));
        },
        RespValue::Integer(i) => {
            let mut d: Vec<u8> = Vec::new();
            push_decimal(*i, &mut d);
            assert(d@ =~= decimal_of(*i as int));
            push_ascii(out, &d);
        },
        RespValue::BulkString(None) => push_chars(out, "(nil)"),
        RespValue::BulkString(Some(b)) => match utf8_text(b.as_slice()) {
            Some(t) => push_chars(out, t.as_str()),
            None => {
                push_chars(out, "(binary) ");
                let mut d: Vec<u8> = Vec::new();
                push_digits(b.len() as u64, &mut d);
                assert(d@ =~= decimal_of(b@.len() as int));
                push_ascii(out, &d);
                push_chars(out, " bytes");
                assert(out@ =~= old(out)@ + render(resp@));
            },
        },
        RespValue::Array(None) => push_chars(out, "(nil)"),
        RespValue::Array(Some(items)) => {
            let mut lines: Vec<char> = Vec::new();
            let mut i: usize = 0;
            while i < items.len()
                invariant
                    i <= items@.len(),
                    resp@ == Frame::Array(Some(frames_of(items@))),
                    lines@ == render_lines(frames_of(items@.subrange(0, i as int))),
                decreases items@.len() - i,
            {
                let ghost before = lines@;
                proof {
                    lemma_frames_of_len(items@);
                    lemma_frames_of_index(items@, i as int);
                    lemma_encodings_item_len(frames_of(items@), i as int);
                    assert(encoding(resp@) == crate::resp::header(
                        42u8,
                        decimal_of(frames_of(items@).len() as int),
                    ) + encodings(frames_of(items@)));
                    let prev = items@.subrange(0, i as int);
                    let next = items@.subrange(0, i + 1);
                    assert(next.drop_last() =~= prev);
                    lemma_frames_of_len(next);
                }
                let mut d: Vec<u8> = Vec::new();
                push_digits((i + 1) as u64, &mut d);
                assert(d@ =~= decimal_of((i + 1) as int));
                push_ascii(&mut lines, &d);
                push_chars(&mut lines, ") ");
                push_rendered(&mut lines, &items[i]);
                push_chars(&mut lines, "\n");
                proof {
                    let prev = items@.subrange(0, i as int);
                    let next = items@.subrange(0, i + 1);
                    let fnext = frames_of(next);
                    assert(next.last() == items@[i as int]);
                    assert(fnext == frames_of(prev).push(frame_of(items@[i as int])));
                    assert(fnext.drop_last() =~= frames_of(prev));
                    assert(fnext.last() == items@[i as int]@);
                    assert(fnext.len() == i + 1);
                    assert(lines@ =~= render_lines(fnext));
                }
                i = i + 1;
                assert(lines@ =~= render_lines(frames_of(items@.subrange(0, i as int))));
            }
            assert(items@.subrange(0, i as int) =~= items@);
            let text = string_from_chars(&lines);
            let trimmed = trim_end_of(text.as_str());
            push_chars(out, trimmed.as_str());
        },
    }
}

/// How `resp` reads on screen: errors marked `(error)`, a null `(nil)`, an
/// array as numbered lines.
pub fn format_resp(resp: &RespValue) -> (r: String)
    ensures
        r@ == render(resp@),
{
    let mut out: Vec<char> = Vec::new();
    push_rendered(&mut out, resp);
    assert(out@ =~= render(resp@));
    string_from_chars(&out)
}

/// The text `host:port`.
pub open spec fn host_port(host: Seq<char>, port: u16) -> Seq<char> {
    host + ":"@ + ascii_text(decimal_of(port as int))
}

/// The address `host:port` to connect to.
pub fn join_host_port(host: &str, port: u16) -> (r: String)
    ensures
        r@ == host_port(host@, port),
{
    let mut out: Vec<char> = Vec::new();
    push_chars(&mut out, host);
    push_chars(&mut out, ":");
    let mut d: Vec<u8> = Vec::new();
    push_digits(port as u64, &mut d);
    assert(d@ =~= decimal_of(port as int));
    push_ascii(&mut out, &d);
    assert(out@ =~= host_port(host@, port));
    string_from_chars(&out)
}

} // verus!
