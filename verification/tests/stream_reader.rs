use http1::forms::stream_reader::{StreamError, StreamReader};

fn read_all_until_sequence(reader: &mut StreamReader, sequence: &[u8]) -> Vec<u8> {
    let mut bytes = vec![];

    loop {
        let (found, chunk) = reader.read_until_sequence(sequence).unwrap();
        bytes.extend_from_slice(&chunk);

        if found || chunk.is_empty() {
            break;
        }
    }

    bytes
}

#[test]
fn should_read_until() {
    let mut reader = StreamReader::new("Adios amigos!".as_bytes());

    assert_eq!(reader.read_until(b' ').unwrap(), b"Adios ");
    assert_eq!(reader.read_until(b'!').unwrap(), b"amigos!");
}

#[test]
fn should_peek_bytes_without_consuming() {
    let mut reader = StreamReader::new("Peek test example.".as_bytes());
    assert_eq!(reader.peek(5).unwrap(), b"Peek ");
    assert_eq!(reader.read_exact(5).unwrap(), b"Peek ");
}

#[test]
fn should_peek_more_than_buffer_and_extend() {
    let mut reader = StreamReader::new("Short buffer peek test.".as_bytes());
    assert_eq!(reader.peek(0).unwrap(), b"");
    assert_eq!(reader.peek(1).unwrap(), b"S");
    assert_eq!(reader.peek(2).unwrap(), b"Sh");
    assert_eq!(reader.peek(3).unwrap(), b"Sho");
    assert_eq!(reader.peek(4).unwrap(), b"Shor");
    assert_eq!(reader.peek(5).unwrap(), b"Short");
    assert_eq!(reader.peek(6).unwrap(), b"Short ");
    assert_eq!(reader.peek(15).unwrap(), b"Short buffer pe");
    assert_eq!(reader.read_exact(15).unwrap(), b"Short buffer pe");
}

#[test]
fn should_return_all_if_byte_not_found_in_read_until() {
    let mut reader = StreamReader::new("No exclamation here.".as_bytes());
    assert_eq!(reader.read_until(b'!').unwrap(), b"No exclamation here.");
}

#[test]
fn should_read_until_repeated_byte() {
    let mut reader = StreamReader::new("aaa,bbb,ccc".as_bytes());
    assert_eq!(reader.read_until(b',').unwrap(), b"aaa,");
    assert_eq!(reader.read_until(b',').unwrap(), b"bbb,");
    assert_eq!(reader.read_until(b',').unwrap(), b"ccc");
}

#[test]
fn should_return_entire_input_if_sequence_not_found() {
    let mut reader = StreamReader::new(b"Hello there!".as_ref());
    let result = read_all_until_sequence(&mut reader, b"World");
    assert_eq!(result, b"Hello there!");
}

#[test]
fn should_read_until_sequence_with_buffer_size() {
    let mut reader = StreamReader::with_buffer_size(
        "Hey how are you? Hey, I said how are you!?".as_bytes(),
        7,
    );

    let chunk1 = read_all_until_sequence(&mut reader, b"you");
    assert_eq!(chunk1, b"Hey how are you");

    let chunk2 = read_all_until_sequence(&mut reader, b"you");
    assert_eq!(chunk2, b"? Hey, I said how are you");
    assert_eq!(reader.read_exact(2).unwrap(), b"!?");
}

#[test]
fn should_return_empty_when_empty_sequence_is_provided() {
    let mut reader = StreamReader::new(b"Hello World!".as_ref());
    let (_, result) = reader.read_until_sequence(b"").unwrap();

    assert_eq!(result, b"");
    assert_eq!(reader.total_bytes_read(), 0);
}

#[test]
fn should_read_exact() {
    let mut reader = StreamReader::new(b"Hello World!".as_ref());
    let result = reader.read_exact(5).unwrap();

    assert_eq!(result.len(), 5);
    assert_eq!(result, b"Hello");
}

#[test]
fn should_return_empty_when_read_exact_zero_bytes() {
    let mut reader = StreamReader::new(b"Hello World!".as_ref());
    let result = reader.read_exact(0).unwrap();

    assert_eq!(result, b"");
    assert_eq!(reader.total_bytes_read(), 0);
}

#[test]
fn should_error_when_read_exact_exceeds_available_data() {
    let mut reader = StreamReader::new(b"Hi".as_ref());
    let result = reader.read_exact(5).unwrap();

    assert_eq!(result.len(), 2);
    assert_eq!(result, b"Hi");
}

#[test]
fn should_read_to_end() {
    let mut reader = StreamReader::new(b"Hello World!".as_ref());
    assert_eq!(reader.read_to_end().unwrap(), b"Hello World!");
    assert_eq!(reader.total_bytes_read(), 12);
}

#[test]
fn should_return_empty_on_read_to_end_with_empty_input() {
    let mut reader = StreamReader::new(b"".as_ref());
    let result = reader.read_to_end().unwrap();

    assert_eq!(result, b"");
    assert_eq!(reader.total_bytes_read(), 0);
}

#[test]
fn should_track_total_bytes_read_correctly_with_read_to_end() {
    let mut reader = StreamReader::new(b"Some sample text".as_ref());
    assert_eq!(reader.read_to_end().unwrap(), b"Some sample text");
    assert_eq!(reader.total_bytes_read(), 16);
}

#[test]
fn should_read_line() {
    let mut reader = StreamReader::new(b"Hello World!\nThis is a test.\n".as_ref());

    let line = reader.read_line().unwrap();
    assert_eq!(line, b"Hello World!\n");

    let line = reader.read_line().unwrap();
    assert_eq!(line, b"This is a test.\n");
}

#[test]
fn should_handle_empty_input_in_read_line() {
    let mut reader = StreamReader::new(b"".as_ref());

    let line = reader.read_line().unwrap();
    assert_eq!(line, b"");
    assert_eq!(reader.total_bytes_read(), 0);
}

#[test]
fn should_handle_no_line_end_in_read_line() {
    let mut reader = StreamReader::new(b"Hello World!".as_ref());

    let line = reader.read_line().unwrap();
    assert_eq!(line, b"Hello World!");
    assert_eq!(reader.total_bytes_read(), 12);
}

#[test]
fn should_read_single_line_with_only_newline() {
    let mut reader = StreamReader::new(b"Line with newline\n".as_ref());

    let line = reader.read_line().unwrap();
    assert_eq!(line, b"Line with newline\n");
    assert_eq!(reader.total_bytes_read(), 18);
}

#[test]
fn should_reach_reader_limit() {
    let data = std::iter::successors(Some(0u8), |n| Some((n + 1) % 255))
        .take(200)
        .collect::<Vec<u8>>();

    let mut reader = StreamReader::with_reader_bytes_limit(data.as_slice(), 100);
    let err = reader.read_to_end().unwrap_err();

    assert!(matches!(err, StreamError::ReaderLimitReached { limit: 100, .. }));
    assert!(err.to_string().contains("reader bytes limit reached"));
}

#[test]
fn should_read_until_with_limit() {
    let data = "Time is an illusion that helps things makes sense, So we're always living in the present tense";

    let chunk1 = StreamReader::new(data.as_bytes()).read_until_with_limit(b'h', Some(10));
    assert!(chunk1.is_err());

    let chunk2 = StreamReader::new(data.as_bytes()).read_until_with_limit(b'h', Some(30));
    assert_eq!(chunk2.unwrap(), b"Time is an illusion th");
}

#[test]
fn read_until_does_not_depend_on_buffer_size() {
    for size in 1..9 {
        let mut reader = StreamReader::with_buffer_size(b"ab\ncd\n\nef", size);
        assert_eq!(reader.read_until(b'\n').unwrap(), b"ab\n".to_vec());
        assert_eq!(reader.read_until(b'\n').unwrap(), b"cd\n".to_vec());
        assert_eq!(reader.read_until(b'\n').unwrap(), b"\n".to_vec());
        assert_eq!(reader.read_until(b'\n').unwrap(), b"ef".to_vec());
        assert_eq!(reader.read_until(b'\n').unwrap(), Vec::<u8>::new());
    }
}
