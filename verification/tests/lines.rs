use econ_client::lines::LineBuffer;

fn drain(buffer: &mut LineBuffer) -> Vec<String> {
    let mut out = Vec::new();
    while let Some(line) = buffer.pop() {
        out.push(line);
    }
    out
}

fn feed(chunks: &[&[u8]]) -> (LineBuffer, Vec<usize>) {
    let mut buffer = LineBuffer::new();
    let mut counts = Vec::new();
    for chunk in chunks {
        counts.push(buffer.ingest(chunk));
    }
    (buffer, counts)
}

#[test]
fn new_buffer_is_empty() {
    let mut buffer = LineBuffer::new();
    assert_eq!(buffer.len(), 0);
    assert!(!buffer.has_pending());
    assert_eq!(buffer.pop(), None);
}

#[test]
fn pop_is_last_in_first_out() {
    let mut buffer = LineBuffer::new();
    assert_eq!(buffer.ingest(b"A\nB\nC\n"), 3);
    assert_eq!(buffer.pop(), Some("C".to_string()));
    assert_eq!(buffer.pop(), Some("B".to_string()));
    assert_eq!(buffer.pop(), Some("A".to_string()));
    assert_eq!(buffer.pop(), None);
}

#[test]
fn padding_after_a_line_is_no_content() {
    let mut buffer = LineBuffer::new();
    assert_eq!(buffer.ingest(b"PING\n\0\0\0"), 1);
    assert!(!buffer.has_pending());
    let line = buffer.pop().unwrap();
    assert_eq!(line, "PING");
    assert!(!line.contains('\0'));
    assert_eq!(buffer.pop(), None);
}

#[test]
fn padding_inside_a_chunk_is_stripped() {
    let mut buffer = LineBuffer::new();
    assert_eq!(buffer.ingest(b"\0P\0I\0\nNG\0\n"), 2);
    assert_eq!(drain(&mut buffer), vec!["NG".to_string(), "PI".to_string()]);
}

#[test]
fn a_line_cut_in_two_is_one_line() {
    let mut buffer = LineBuffer::new();
    assert_eq!(buffer.ingest(b"AB"), 0);
    assert!(buffer.has_pending());
    assert_eq!(buffer.len(), 0);
    assert_eq!(buffer.ingest(b"CD\n"), 1);
    assert!(!buffer.has_pending());
    assert_eq!(buffer.pop(), Some("ABCD".to_string()));
    assert_eq!(buffer.pop(), None);
}

#[test]
fn fragment_joins_only_the_first_line_of_the_next_chunk() {
    let (mut buffer, counts) = feed(&[b"he", b"llo\nworld\n"]);
    assert_eq!(counts, vec![0, 2]);
    assert_eq!(drain(&mut buffer), vec!["world".to_string(), "hello".to_string()]);
}

#[test]
fn empty_chunk_changes_nothing() {
    let mut buffer = LineBuffer::new();
    assert_eq!(buffer.ingest(b""), 0);
    assert_eq!(buffer.len(), 0);
    assert!(!buffer.has_pending());
    assert_eq!(buffer.ingest(b"AB"), 0);
    assert_eq!(buffer.ingest(b""), 0);
    assert!(buffer.has_pending());
    assert_eq!(buffer.ingest(b"\n"), 1);
    assert_eq!(buffer.pop(), Some("AB".to_string()));
}

#[test]
fn chunk_of_padding_alone_keeps_the_fragment() {
    let mut buffer = LineBuffer::new();
    assert_eq!(buffer.ingest(b"AB"), 0);
    assert_eq!(buffer.ingest(b"\0\0\0\0"), 0);
    assert!(buffer.has_pending());
    assert_eq!(buffer.len(), 0);
    assert_eq!(buffer.ingest(b"CD\n"), 1);
    assert_eq!(buffer.pop(), Some("ABCD".to_string()));
}

#[test]
fn lone_terminator_completes_the_fragment() {
    let mut buffer = LineBuffer::new();
    assert_eq!(buffer.ingest(b"status"), 0);
    assert_eq!(buffer.ingest(b"\n"), 1);
    assert!(!buffer.has_pending());
    assert_eq!(buffer.pop(), Some("status".to_string()));
    assert_eq!(buffer.pop(), None);
}

#[test]
fn lone_terminator_without_fragment_is_an_empty_line() {
    let mut buffer = LineBuffer::new();
    assert_eq!(buffer.ingest(b"\n"), 1);
    assert_eq!(buffer.pop(), Some(String::new()));
    assert_eq!(buffer.pop(), None);
}

#[test]
fn empty_lines_are_lines() {
    let mut buffer = LineBuffer::new();
    assert_eq!(buffer.ingest(b"\n\nx\n\n"), 4);
    assert_eq!(
        drain(&mut buffer),
        vec![String::new(), "x".to_string(), String::new(), String::new()]
    );
}

#[test]
fn chunk_without_terminator_becomes_the_fragment() {
    let mut buffer = LineBuffer::new();
    assert_eq!(buffer.ingest(b"no terminator here"), 0);
    assert_eq!(buffer.len(), 0);
    assert!(buffer.has_pending());
    assert_eq!(buffer.pop(), None);
}

#[test]
fn unterminated_chunk_grows_the_fragment() {
    let (mut buffer, counts) = feed(&[b"AB", b"CD", b"\n"]);
    assert_eq!(counts, vec![0, 0, 1]);
    assert!(!buffer.has_pending());
    assert_eq!(drain(&mut buffer), vec!["ABCD".to_string()]);
}

#[test]
fn fragment_grows_over_many_chunks() {
    let (mut buffer, counts) = feed(&[b"a", b"b", b"", b"c", b"\0", b"d", b"e\n"]);
    assert_eq!(counts, vec![0, 0, 0, 0, 0, 0, 1]);
    assert_eq!(drain(&mut buffer), vec!["abcde".to_string()]);
}

#[test]
fn fragment_completes_the_first_line_of_an_unterminated_chunk() {
    let mut buffer = LineBuffer::new();
    assert_eq!(buffer.ingest(b"AB"), 0);
    assert_eq!(buffer.ingest(b"CD\nEF"), 1);
    assert_eq!(buffer.len(), 1);
    assert!(buffer.has_pending());
    assert_eq!(buffer.ingest(b"GH\n"), 1);
    assert!(!buffer.has_pending());
    assert_eq!(drain(&mut buffer), vec!["EFGH".to_string(), "ABCD".to_string()]);
}

#[test]
fn count_is_the_number_of_terminators() {
    let mut buffer = LineBuffer::new();
    assert_eq!(buffer.ingest(b"one\ntwo\nthree"), 2);
    assert_eq!(buffer.len(), 2);
    assert_eq!(buffer.ingest(b"\nfour\nfive\nsix\n"), 4);
    assert_eq!(buffer.len(), 6);
    assert_eq!(
        drain(&mut buffer),
        vec!["six", "five", "four", "three", "two", "one"]
    );
}

fn reassembles(chunks: &[&[u8]], lines: &[&str]) {
    let (mut buffer, counts) = feed(chunks);
    assert_eq!(counts.iter().sum::<usize>(), lines.len());
    assert!(!buffer.has_pending());
    assert_eq!(buffer.len(), lines.len());
    let mut popped = drain(&mut buffer);
    popped.reverse();
    assert_eq!(popped, lines);
}

#[test]
fn stream_in_one_chunk_is_reassembled() {
    reassembles(&[b"alpha\nbeta\ngamma\n"], &["alpha", "beta", "gamma"]);
}

#[test]
fn stream_cut_at_terminators_is_reassembled() {
    reassembles(&[b"alpha\n", b"beta\n", b"gamma\n"], &["alpha", "beta", "gamma"]);
}

#[test]
fn stream_cut_inside_lines_is_reassembled() {
    reassembles(&[b"alp", b"ha\nbeta\n", b"gam", b"ma\n"], &["alpha", "beta", "gamma"]);
}

#[test]
fn stream_cut_before_a_terminator_is_reassembled() {
    reassembles(&[b"alpha", b"\nbeta\n", b"gamma", b"\n"], &["alpha", "beta", "gamma"]);
}

#[test]
fn stream_with_empty_and_padded_chunks_is_reassembled() {
    reassembles(
        &[b"", b"alpha\n\0\0", b"\0", b"be", b"\0\0", b"ta\ngamma\n\0", b""],
        &["alpha", "beta", "gamma"],
    );
}

#[test]
fn stream_cut_anywhere_in_two_is_reassembled() {
    let stream = b"alpha\nbeta\n\ngamma\n";
    for cut in 0..=stream.len() {
        reassembles(&[&stream[..cut], &stream[cut..]], &["alpha", "beta", "", "gamma"]);
    }
}

#[test]
fn stream_cut_anywhere_in_three_is_reassembled() {
    let stream = b"ab\nc\n\nde\n";
    for first in 0..=stream.len() {
        for second in first..=stream.len() {
            reassembles(
                &[&stream[..first], &stream[first..second], &stream[second..]],
                &["ab", "c", "", "de"],
            );
        }
    }
}

#[test]
fn stream_fed_byte_by_byte_is_reassembled() {
    let stream = b"alpha\nbeta\ngamma\n";
    let chunks: Vec<&[u8]> = stream.chunks(1).collect();
    reassembles(&chunks, &["alpha", "beta", "gamma"]);
}

#[test]
fn stream_cut_between_characters_is_reassembled() {
    let stream = "h\u{e9}\n\u{4e16}\u{754c}\n".as_bytes();
    reassembles(&[&stream[..1], &stream[1..3], &stream[3..7], &stream[7..]], &[
        "h\u{e9}",
        "\u{4e16}\u{754c}",
    ]);
}

#[test]
fn stream_of_one_byte_lines_is_reassembled() {
    reassembles(&[b"a", b"\n", b"b", b"\n", b"\n"], &["a", "b", ""]);
}

#[test]
fn multibyte_text_is_kept() {
    let mut buffer = LineBuffer::new();
    assert_eq!(buffer.ingest("h\u{e9}llo \u{4e16}\u{754c} \u{1f600}\n".as_bytes()), 1);
    assert_eq!(buffer.pop(), Some("h\u{e9}llo \u{4e16}\u{754c} \u{1f600}".to_string()));
}

#[test]
fn invalid_bytes_are_replaced() {
    let mut buffer = LineBuffer::new();
    assert_eq!(buffer.ingest(&[b'a', 0xff, b'b', b'\n']), 1);
    assert_eq!(buffer.pop(), Some("a\u{fffd}b".to_string()));
}

#[test]
fn character_cut_by_a_chunk_boundary_is_replaced() {
    let bytes = "\u{e9}\n".as_bytes();
    let (mut buffer, counts) = feed(&[&bytes[..1], &bytes[1..]]);
    assert_eq!(counts, vec![0, 1]);
    assert_eq!(buffer.pop(), Some("\u{fffd}\u{fffd}".to_string()));
}

#[test]
fn ingest_text_takes_decoded_text() {
    let mut buffer = LineBuffer::new();
    assert_eq!(buffer.ingest_text("AB"), 0);
    assert_eq!(buffer.ingest_text("CD\n\0EF\n"), 2);
    assert_eq!(buffer.ingest_text(""), 0);
    assert_eq!(buffer.ingest_text("\0"), 0);
    assert_eq!(buffer.ingest_text("GH"), 0);
    assert_eq!(buffer.ingest_text("IJ\n"), 1);
    assert_eq!(
        drain(&mut buffer),
        vec!["GHIJ".to_string(), "EF".to_string(), "ABCD".to_string()]
    );
}

#[test]
fn discard_lines_keeps_the_fragment() {
    let mut buffer = LineBuffer::new();
    assert_eq!(buffer.ingest(b"one\ntwo\nthr"), 2);
    buffer.discard_lines();
    assert_eq!(buffer.len(), 0);
    assert!(buffer.has_pending());
    assert_eq!(buffer.ingest(b"ee\n"), 1);
    assert_eq!(drain(&mut buffer), vec!["three".to_string()]);
}
