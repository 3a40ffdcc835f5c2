//! Message framing on a language server's standard streams. Each message is
//! written as `Content-Length: N\r\n\r\n` followed by the N bytes of its
//! JSON text. The reader takes a stream apart again line by line: a header
//! line, one more line that it skips, then exactly N bytes of body.
use vstd::prelude::*;
use vstd::utf8::{decode_utf8, encode_utf8, is_ascii_chars, valid_utf8};
use crate::json::{json_text, Json};
use crate::text::{
    chars_of, decimal, has_prefix, is_white_space, lemma_parse_decimal, parse_unsigned,
    parse_usize_or_zero, push_chars, push_decimal, starts_with_chars, string_from_chars,
    trim_chars, trim_end, trim_start, trimmed, all_digits,
};

verus! {

broadcast use vstd::utf8::group_utf8_lib;

// ---------------------------------------------------------------------
// Writing
// ---------------------------------------------------------------------

/// `Content-Length:`, the name of the one header.
pub open spec fn content_length_key() -> Seq<char> {
    seq!['C', 'o', 'n', 't', 'e', 'n', 't', '-', 'L', 'e', 'n', 'g', 't', 'h', ':']
}

/// The header line announcing a body of `n` bytes, with its line end.
pub open spec fn header_line(n: nat) -> Seq<char> {
    content_length_key() + seq![' '] + decimal(n) + seq!['\r', '\n']
}

/// Everything that comes before a body of `n` bytes: the header line and
/// the empty line that ends the header.
pub open spec fn frame_header(n: nat) -> Seq<char> {
    header_line(n) + seq!['\r', '\n']
}

/// The bytes of one framed message whose body is `body`.
pub open spec fn frame_bytes(body: Seq<u8>) -> Seq<u8> {
    encode_utf8(frame_header(body.len())) + body
}

/// The bytes of a sequence of framed messages, one after the other.
pub open spec fn frames(bodies: Seq<Seq<u8>>) -> Seq<u8>
    decreases bodies.len(),
{
    if bodies.len() == 0 {
        Seq::empty()
    } else {
        frame_bytes(bodies[0]) + frames(bodies.drop_first())
    }
}

fn push_content_length_key(out: &mut Vec<char>)
    ensures
        final(out)@ == old(out)@ + content_length_key(),
{
    out.push('C');
    out.push('o');
    out.push('n');
    out.push('t');
    out.push('e');
    out.push('n');
    out.push('t');
    out.push('-');
    out.push('L');
    out.push('e');
    out.push('n');
    out.push('g');
    out.push('t');
    out.push('h');
    out.push(':');
    proof {
        assert(final(out)@ =~= old(out)@ + content_length_key());
    }
}

proof fn lemma_encode_utf8_concat(a: Seq<char>, b: Seq<char>)
    ensures
        encode_utf8(a + b) == encode_utf8(a) + encode_utf8(b),
    decreases a.len(),
{
    if a.len() == 0 {
        assert(a + b =~= b);
    } else {
        lemma_encode_utf8_concat(a.drop_first(), b);
        assert((a + b).drop_first() =~= a.drop_first() + b);
        assert(encode_utf8(a) + encode_utf8(b) =~= vstd::utf8::encode_scalar(a[0] as u32) + (
        encode_utf8(a.drop_first()) + encode_utf8(b)));
    }
}

/// The frame for a message text: the header giving the length of the text
/// in UTF-8 bytes, then those bytes (what the transport writes for each
/// message).
pub fn encode_frame(message: &str) -> (frame: Vec<u8>)
    ensures
        frame@ == frame_bytes(encode_utf8(message@)),
{
    let mb = message.as_bytes();
    let n = mb.len();
    let mut h: Vec<char> = Vec::new();
    push_content_length_key(&mut h);
    h.push(' ');
    push_decimal(&mut h, n as u64);
    h.push('\r');
    h.push('\n');
    h.push('\r');
    h.push('\n');
    proof {
        assert(h@ =~= frame_header(n as nat));
    }
    let body = chars_of(message);
    push_chars(&mut h, body.as_slice());
    let all = string_from_chars(h.as_slice());
    let bytes = vstd::slice::slice_to_vec(all.as_str().as_bytes());
    proof {
        assert(n as nat == encode_utf8(message@).len());
        assert(all@ == frame_header(n as nat) + message@);
        assert(bytes@ == encode_utf8(all@));
        lemma_encode_utf8_concat(frame_header(n as nat), message@);
    }
    bytes
}

/// The frame for a JSON message: its compact text, framed.
pub fn message_frame(message: &Json) -> (frame: Vec<u8>)
    ensures
        frame@ == frame_bytes(encode_utf8(json_text(message@))),
{
    let text = message.to_text();
    encode_frame(text.as_str())
}

// ---------------------------------------------------------------------
// Reading
// ---------------------------------------------------------------------

/// Where the reader stands in the stream.
pub enum FrameReader {
    /// Reading lines until a `Content-Length:` header.
    AwaitHeader,
    /// A header announced a body of this many bytes; the line that ends the
    /// header comes next.
    AwaitSeparator(usize),
    /// The body of this many bytes comes next.
    AwaitBody(usize),
}

/// What the reader asks of the stream next.
pub enum ReadStep {
    /// Read one line.
    ReadLine,
    /// Read exactly this many bytes.
    ReadBody(usize),
    /// A complete body: hand it on, then read a line.
    Deliver(Vec<u8>),
    /// The stream has ended or failed: stop reading.
    Stop,
}

/// The mathematical form of a [`ReadStep`].
pub enum StepView {
    ReadLine,
    ReadBody(usize),
    Deliver(Seq<u8>),
    Stop,
}

impl View for ReadStep {
    type V = StepView;

    open spec fn view(&self) -> StepView {
        match self {
            ReadStep::ReadLine => StepView::ReadLine,
            ReadStep::ReadBody(n) => StepView::ReadBody(*n),
            ReadStep::Deliver(b) => StepView::Deliver(b@),
            ReadStep::Stop => StepView::Stop,
        }
    }
}

/// The length a header line gives: the text after `Content-Length:`,
/// trimmed, read as a `usize`, and 0 where it is not one.
pub open spec fn header_value(line: Seq<char>) -> usize {
    match parse_unsigned(
        trimmed(line.subrange(content_length_key().len() as int, line.len() as int)),
        usize::MAX as nat,
    ) {
        Some(v) => v as usize,
        None => 0,
    }
}

/// The reader's next state and request after a line was read: `line` is
/// the text read, empty at the end of the stream, and `None` where reading
/// failed. A reader that waits for a body keeps asking for it.
pub open spec fn after_line(st: FrameReader, line: Option<Seq<char>>) -> (FrameReader, StepView) {
    match st {
        FrameReader::AwaitSeparator(n) => (FrameReader::AwaitBody(n), StepView::ReadBody(n)),
        FrameReader::AwaitBody(n) => (FrameReader::AwaitBody(n), StepView::ReadBody(n)),
        _ => match line {
            None => (FrameReader::AwaitHeader, StepView::Stop),
            Some(l) => if l.len() == 0 {
                (FrameReader::AwaitHeader, StepView::Stop)
            } else if has_prefix(l, content_length_key()) {
                (FrameReader::AwaitSeparator(header_value(l)), StepView::ReadLine)
            } else {
                (FrameReader::AwaitHeader, StepView::ReadLine)
            },
        },
    }
}

/// The reader's next state and request after a body was read: `None` where
/// the stream ended before the body was complete.
pub open spec fn after_body(body: Option<Seq<u8>>) -> (FrameReader, StepView) {
    match body {
        Some(b) => (FrameReader::AwaitHeader, StepView::Deliver(b)),
        None => (FrameReader::AwaitHeader, StepView::ReadLine),
    }
}

impl FrameReader {
    /// A reader at the start of a stream.
    pub fn new() -> (r: FrameReader)
        ensures
            r == FrameReader::AwaitHeader,
    {
        FrameReader::AwaitHeader
    }

    /// Takes in the line that was read (`Some("")` at the end of the
    /// stream, `None` where reading failed) and says what to read next.
    pub fn on_line(&mut self, line: Option<&str>) -> (step: ReadStep)
        ensures
            (*final(self), step@) == after_line(
                *old(self),
                match line {
                    Some(l) => Some(l@),
                    None => None,
                },
            ),
    {
        match *self {
            FrameReader::AwaitSeparator(n) => {
                *self = FrameReader::AwaitBody(n);
                ReadStep::ReadBody(n)
            },
            FrameReader::AwaitBody(n) => ReadStep::ReadBody(n),
            _ => match line {
                None => {
                    *self = FrameReader::AwaitHeader;
                    ReadStep::Stop
                },
                Some(l) => {
                    let cs = chars_of(l);
                    if cs.len() == 0 {
                        *self = FrameReader::AwaitHeader;
                        return ReadStep::Stop;
                    }
                    let mut key: Vec<char> = Vec::new();
                    push_content_length_key(&mut key);
                    proof {
                        assert(key@ =~= content_length_key());
                    }
                    if starts_with_chars(cs.as_slice(), key.as_slice()) {
                        let mut rest: Vec<char> = Vec::new();
                        let mut i: usize = key.len();
                        while i < cs.len()
                            invariant
                                key@.len() <= i <= cs@.len(),
                                rest@ == cs@.subrange(key@.len() as int, i as int),
                            decreases cs@.len() - i,
                        {
                            rest.push(cs[i]);
                            proof {
                                assert(cs@.subrange(key@.len() as int, i + 1) =~= cs@.subrange(
                                    key@.len() as int,
                                    i as int,
                                ).push(cs@[i as int]));
                            }
                            i = i + 1;
                        }
                        let t = trim_chars(rest.as_slice());
                        let n = parse_usize_or_zero(t.as_slice());
                        *self = FrameReader::AwaitSeparator(n);
                        ReadStep::ReadLine
                    } else {
                        *self = FrameReader::AwaitHeader;
                        ReadStep::ReadLine
                    }
                },
            },
        }
    }

    /// Takes in the body that was read (`None` where the stream ended
    /// before it was complete) and says what to do next.
    pub fn on_body(&mut self, body: Option<Vec<u8>>) -> (step: ReadStep)
        ensures
            (*final(self), step@) == after_body(
                match body {
                    Some(b) => Some(b@),
                    None => None,
                },
            ),
    {
        *self = FrameReader::AwaitHeader;
        match body {
            Some(b) => ReadStep::Deliver(b),
            None => ReadStep::ReadLine,
        }
    }
}

// ---------------------------------------------------------------------
// The reader over a whole stream
// ---------------------------------------------------------------------

/// The length of the first line of `s`: up to and including its first line
/// feed, or all of `s` if it has none.
pub open spec fn line_end(s: Seq<u8>) -> nat
    decreases s.len(),
{
    if s.len() == 0 {
        0
    } else if s[0] == 10 {
        1
    } else {
        1 + line_end(s.drop_first())
    }
}

/// Reading one line of `s`: its text (`None` if it is not UTF-8) and what
/// is left of the stream.
pub open spec fn read_line(s: Seq<u8>) -> (Option<Seq<char>>, Seq<u8>) {
    let k = line_end(s) as int;
    let bytes = s.take(k);
    (
        if valid_utf8(bytes) {
            Some(decode_utf8(bytes))
        } else {
            None
        },
        s.skip(k),
    )
}

/// Reading exactly `n` bytes of `s`: those bytes, or `None` (and nothing
/// left) where `s` is shorter.
pub open spec fn read_exact(s: Seq<u8>, n: nat) -> (Option<Seq<u8>>, Seq<u8>) {
    if n <= s.len() {
        (Some(s.take(n as int)), s.skip(n as int))
    } else {
        (None, Seq::empty())
    }
}

/// The first line of a non-empty stream is not empty and no longer than the stream.
pub proof fn lemma_line_end_bounds(s: Seq<u8>)
    ensures
        line_end(s) <= s.len(),
        s.len() > 0 ==> line_end(s) >= 1,
    decreases s.len(),
{
    if s.len() > 0 && s[0] != 10 {
        lemma_line_end_bounds(s.drop_first());
    }
}

/// The bodies that the reader delivers from a stream, starting at a
/// header, when each of its requests is answered from the stream.
pub open spec fn read_frames(s: Seq<u8>) -> Seq<Seq<u8>>
    decreases s.len(),
{
    let (line, rest) = read_line(s);
    let (st1, step1) = after_line(FrameReader::AwaitHeader, line);
    if step1 is Stop || s.len() == 0 {
        Seq::empty()
    } else {
        proof {
            lemma_line_end_bounds(s);
        }
        match st1 {
            FrameReader::AwaitSeparator(n) => {
                let (line2, rest2) = read_line(rest);
                let (st2, step2) = after_line(st1, line2);
                proof {
                    lemma_line_end_bounds(rest);
                }
                let (body, rest3) = read_exact(rest2, n as nat);
                let (st3, step3) = after_body(body);
                match step3 {
                    StepView::Deliver(b) => seq![b] + read_frames(rest3),
                    _ => read_frames(rest3),
                }
            },
            _ => read_frames(rest),
        }
    }
}

// ---------------------------------------------------------------------
// Reading back what was written
// ---------------------------------------------------------------------

proof fn lemma_line_end_concat(a: Seq<u8>, r: Seq<u8>)
    requires
        a.len() > 0,
        a.last() == 10,
        forall|i: int| 0 <= i < a.len() - 1 ==> a[i] != 10,
    ensures
        line_end(a + r) == a.len(),
    decreases a.len(),
{
    if a.len() > 1 {
        assert((a + r)[0] == a[0]);
        assert((a + r).drop_first() =~= a.drop_first() + r);
        lemma_line_end_concat(a.drop_first(), r);
    } else {
        assert((a + r)[0] == a[0]);
    }
}

proof fn lemma_decimal_ascii(n: nat)
    ensures
        is_ascii_chars(decimal(n)),
        all_digits(decimal(n)),
        forall|i: int| 0 <= i < decimal(n).len() ==> (decimal(n)[i] as u32) != 10,
{
    lemma_parse_decimal(n, n);
    assert forall|i: int| 0 <= i < decimal(n).len() implies '\0' <= #[trigger] decimal(n)[i]
        <= '\u{7f}' by {
        let c = decimal(n)[i];
        assert(crate::text::is_digit(c));

    }
}

proof fn lemma_trim_header_value(d: Seq<char>)
    requires
        d.len() > 0,
        all_digits(d),
    ensures
        trimmed(seq![' '] + d + seq!['\r', '\n']) == d,
{
    let s = seq![' '] + d + seq!['\r', '\n'];
    assert(s.drop_first() =~= d + seq!['\r', '\n']);
    assert(is_white_space(s[0]));
    assert(trim_start(s) == trim_start(d + seq!['\r', '\n']));
    assert((d + seq!['\r', '\n'])[0] == d[0]);
    assert(crate::text::is_digit(d[0]));
    assert(trim_start(d + seq!['\r', '\n']) == d + seq!['\r', '\n']);
    let t = d + seq!['\r', '\n'];
    assert(t.drop_last() =~= d + seq!['\r']);
    assert((d + seq!['\r']).drop_last() =~= d);
    assert(crate::text::is_digit(d.last()));
    assert(trim_end(d) == d);
    assert(is_white_space(t.last()));
    assert(trim_end(t) == trim_end(d + seq!['\r']));
    assert(is_white_space((d + seq!['\r']).last()));
    assert(trim_end(d + seq!['\r']) == trim_end(d));
    assert(trimmed(s) == trim_end(t));
}

/// One frame read from the front of a stream: its body comes out and the
/// reader stands at the rest of the stream.
proof fn lemma_read_one_frame(b: Seq<u8>, r: Seq<u8>)
    requires
        b.len() <= usize::MAX,
    ensures
        read_frames(frame_bytes(b) + r) == seq![b] + read_frames(r),
{
    let n = b.len();
    let hl = header_line(n);
    let s = frame_bytes(b) + r;
    lemma_decimal_ascii(n);
    let key = content_length_key();
    assert(is_ascii_chars(key));
    let d = decimal(n);
    assert(hl =~= key + seq![' '] + d + seq!['\r', '\n']);
    assert(is_ascii_chars(hl)) by {
        assert forall|i: int| 0 <= i < hl.len() implies '\0' <= #[trigger] hl[i] <= '\u{7f}' by {
            if i < 15 {
                assert(hl[i] == key[i]);
            } else if i == 15 {
            } else if i < 16 + d.len() {
                assert(hl[i] == d[i - 16]);
            } else {
            }
        }
    }
    let crlf = seq!['\r', '\n'];
    assert(is_ascii_chars(crlf));
    lemma_encode_utf8_concat(hl, crlf);
    assert(frame_header(n) == hl + crlf);
    let hb = encode_utf8(hl);
    let cb = encode_utf8(crlf);
    vstd::utf8::is_ascii_chars_encode_utf8(hl);
    vstd::utf8::is_ascii_chars_encode_utf8(crlf);
    assert(s =~= hb + (cb + b + r));
    // The header line.
    assert(hb.len() == hl.len());
    assert(hb.last() == 10) by {
        assert(hl[hl.len() - 1] as u8 == hb[hl.len() - 1]);
    }
    assert forall|i: int| 0 <= i < hb.len() - 1 implies hb[i] != 10 by {
        assert(hl[i] as u8 == hb[i]);
        if i < 15 {
            assert(hl[i] == key[i]);
        } else if i == 15 {
        } else if i < 16 + d.len() {
            assert(hl[i] == d[i - 16]);
        } else {
            assert(hl[i] == '\r');
        }
    }
    lemma_line_end_concat(hb, cb + b + r);
    assert(s.take(hb.len() as int) =~= hb);
    assert(s.skip(hb.len() as int) =~= cb + b + r);
    assert(decode_utf8(hb) == hl);
    let (line, rest) = read_line(s);
    assert(line == Some(hl));
    assert(rest == cb + b + r);
    // It is a header, and it gives the length.
    assert(hl.subrange(0, 15) =~= key);
    assert(has_prefix(hl, key));
    assert(hl.subrange(15, hl.len() as int) =~= seq![' '] + d + seq!['\r', '\n']);
    lemma_trim_header_value(d);
    lemma_parse_decimal(n, usize::MAX as nat);
    assert(header_value(hl) == n);
    // The line that ends the header.
    assert(cb.len() == 2);
    assert(cb[0] == 13 && cb[1] == 10) by {
        assert(crlf[0] as u8 == cb[0]);
        assert(crlf[1] as u8 == cb[1]);
    }
    assert forall|i: int| 0 <= i < cb.len() - 1 implies cb[i] != 10 by {}
    lemma_line_end_concat(cb, b + r);
    assert((cb + b + r) =~= cb + (b + r));
    assert((cb + (b + r)).skip(2) =~= b + r);
    // The body.
    assert((b + r).take(n as int) =~= b);
    assert((b + r).skip(n as int) =~= r);
    assert(s.len() > 0);
}

/// The bytes of framed messages, read back, give the messages' bodies in
/// the order they were written.
pub proof fn lemma_frames_round_trip(bodies: Seq<Seq<u8>>)
    requires
        forall|i: int| 0 <= i < bodies.len() ==> (#[trigger] bodies[i]).len() <= usize::MAX,
    ensures
        read_frames(frames(bodies)) == bodies,
    decreases bodies.len(),
{
    if bodies.len() == 0 {
        assert(line_end(Seq::<u8>::empty()) == 0);
        assert(Seq::<u8>::empty().take(0) =~= Seq::<u8>::empty());
        assert(decode_utf8(Seq::<u8>::empty()) =~= Seq::<char>::empty());
    } else {
        let rest = bodies.drop_first();
        assert forall|i: int| 0 <= i < rest.len() implies (#[trigger] rest[i]).len()
            <= usize::MAX by {
            assert(rest[i] == bodies[i + 1]);
        }
        lemma_frames_round_trip(rest);
        assert(bodies[0].len() <= usize::MAX);
        lemma_read_one_frame(bodies[0], frames(rest));
        assert(seq![bodies[0]] + rest =~= bodies);
    }
}

} // verus!
