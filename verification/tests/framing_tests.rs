use neurogit::framing::{encode_frame, message_frame, FrameReader, ReadStep};
use neurogit::json::{json_string, json_uint, member, object2};

/// Runs the reader over a whole stream, answering each of its requests from
/// the stream, and returns the bodies it delivers.
fn read_all(stream: &[u8]) -> Vec<Vec<u8>> {
    let mut pos = 0usize;
    let mut reader = FrameReader::new();
    let mut out = Vec::new();
    let mut step = ReadStep::ReadLine;
    loop {
        step = match step {
            ReadStep::ReadLine => {
                let start = pos;
                while pos < stream.len() && stream[pos] != b'\n' {
                    pos += 1;
                }
                if pos < stream.len() {
                    pos += 1;
                }
                match std::str::from_utf8(&stream[start..pos]) {
                    Ok(line) => reader.on_line(Some(line)),
                    Err(_) => reader.on_line(None),
                }
            }
            ReadStep::ReadBody(n) => {
                if stream.len() - pos >= n {
                    let body = stream[pos..pos + n].to_vec();
                    pos += n;
                    reader.on_body(Some(body))
                } else {
                    pos = stream.len();
                    reader.on_body(None)
                }
            }
            ReadStep::Deliver(b) => {
                out.push(b);
                ReadStep::ReadLine
            }
            ReadStep::Stop => return out,
        };
    }
}

#[test]
fn a_frame_is_a_header_then_the_body() {
    assert_eq!(encode_frame("{}"), b"Content-Length: 2\r\n\r\n{}".to_vec());
    assert_eq!(encode_frame(""), b"Content-Length: 0\r\n\r\n".to_vec());
}

#[test]
fn the_length_counts_bytes_not_characters() {
    let f = encode_frame("\"é\"");
    assert_eq!(f, "Content-Length: 4\r\n\r\n\"é\"".as_bytes().to_vec());
}

#[test]
fn a_message_is_framed_as_its_compact_text() {
    let m = object2(member("id", json_uint(7)), member("x", json_string("y")));
    let f = message_frame(&m);
    assert_eq!(f, b"Content-Length: 16\r\n\r\n{\"id\":7,\"x\":\"y\"}".to_vec());
}

#[test]
fn frames_read_back_as_their_bodies() {
    let mut stream = encode_frame("{\"a\":1}");
    stream.extend(encode_frame("héllo\nworld"));
    stream.extend(encode_frame(""));
    stream.extend(encode_frame("last"));
    let bodies = read_all(&stream);
    assert_eq!(
        bodies,
        vec![b"{\"a\":1}".to_vec(), "héllo\nworld".as_bytes().to_vec(), vec![], b"last".to_vec()]
    );
}

#[test]
fn lines_before_a_header_are_skipped() {
    let mut stream = b"noise\r\nContent-Type: x\r\n".to_vec();
    stream.extend(encode_frame("ok"));
    assert_eq!(read_all(&stream), vec![b"ok".to_vec()]);
}

#[test]
fn a_bad_length_reads_an_empty_body() {
    let stream = b"Content-Length: abc\r\n\r\n".to_vec();
    assert_eq!(read_all(&stream), vec![Vec::<u8>::new()]);
}

#[test]
fn a_short_body_is_not_delivered() {
    let stream = b"Content-Length: 10\r\n\r\nabc".to_vec();
    assert_eq!(read_all(&stream), Vec::<Vec<u8>>::new());
}

#[test]
fn reader_steps() {
    let mut r = FrameReader::new();
    assert!(matches!(r.on_line(Some("Content-Length:  12 \r\n")), ReadStep::ReadLine));
    assert!(matches!(r.on_line(Some("\r\n")), ReadStep::ReadBody(12)));
    assert!(matches!(r.on_body(Some(b"abc".to_vec())), ReadStep::Deliver(ref b) if b == b"abc"));
    assert!(matches!(r.on_line(Some("")), ReadStep::Stop));
    let mut r = FrameReader::new();
    assert!(matches!(r.on_line(None), ReadStep::Stop));
    let mut r = FrameReader::new();
    assert!(matches!(r.on_line(Some("Content-Length: 3\r\n")), ReadStep::ReadLine));
    assert!(matches!(r.on_line(None), ReadStep::ReadBody(3)));
    assert!(matches!(r.on_body(None), ReadStep::ReadLine));
    let mut r = FrameReader::new();
    r.on_line(Some("Content-Length: 5\r\n"));
    r.on_line(Some("\r\n"));
    assert!(matches!(r.on_line(Some("stray\n")), ReadStep::ReadBody(5)));
    assert!(matches!(r.on_body(Some(b"12345".to_vec())), ReadStep::Deliver(_)));
}
