use nerdfix::input::{ContentType, InputReader};

fn lines(text: &[&str]) -> Vec<Vec<u8>> {
    text.iter().map(|l| l.as_bytes().to_vec()).collect()
}

#[test]
fn reader_states() {
    let mut reader = InputReader::new(1, 3);
    assert_eq!(reader.wanted(), 4);
    assert_eq!(reader.room(), usize::MAX);
    {
        let line = reader.next_line(&lines(&["a\n", "bc\n"])).unwrap();
        assert_eq!(line.contents(), b"a\n");
        assert_eq!(line.line_number(), 0);
        assert_eq!(line.offset_of(0), 0);
        assert_eq!(line.offset_of(1), 1);
        assert_eq!(line.len(), 2);
    }
    assert_eq!(reader.wanted(), 1);
    assert_eq!(reader.room(), usize::MAX - 5);
    {
        let line = reader.next_line(&lines(&[""])).unwrap();
        assert_eq!(line.contents(), b"bc\n");
        assert_eq!(line.line_number(), 1);
        assert_eq!(line.offset_of(0), 2);
    }
    assert!(reader.next_line(&lines(&[])).is_none());
    assert_eq!(reader.wanted(), 0);
    assert!(reader.next_line(&lines(&[])).is_none());
}

#[test]
fn empty_stream() {
    let mut reader = InputReader::new(1, 3);
    assert!(reader.next_line(&lines(&[""])).is_none());
    assert_eq!(reader.wanted(), 0);
}

#[test]
fn window_without_context() {
    let mut reader = InputReader::new(0, 0);
    assert_eq!(reader.wanted(), 1);
    {
        let line = reader.next_line(&lines(&["one\n"])).unwrap();
        assert_eq!(line.contents(), b"one\n");
        let all = line.read_span(1, 2, 5, 5);
        assert_eq!(all.data, b"one\n");
        assert_eq!((all.offset, all.len, all.line, all.column), (0, 4, 0, 0));
    }
    {
        let line = reader.next_line(&lines(&["two"])).unwrap();
        assert_eq!(line.contents(), b"two");
        assert_eq!(line.offset_of(0), 4);
    }
    assert!(reader.next_line(&lines(&[""])).is_none());
}

#[test]
fn context_around_the_third_of_five_lines() {
    let text = ["first\n", "second\n", "third\n", "fourth\n", "fifth\n"];
    let mut reader = InputReader::new(1, 3);
    reader.next_line(&lines(&text[..4])).unwrap();
    reader.next_line(&lines(&text[4..])).unwrap();
    let line = reader.next_line(&lines(&[""])).unwrap();
    assert_eq!(line.contents(), b"third\n");
    assert_eq!(line.line_number(), 2);
    assert_eq!(line.offset_of(0), 13);
    let span = line.read_span(15, 2, 1, 3);
    assert_eq!(span.data, b"second\nthird\nfourth\nfifth\n");
    assert_eq!(span.offset, 6);
    assert_eq!(span.len, 26);
    assert_eq!(span.line, 1);
    assert_eq!(span.column, 0);
    assert_eq!(span.line_count, 5);
}

#[test]
fn context_at_the_ends_of_the_stream() {
    let text = ["first\n", "second\n", "third"];
    let mut reader = InputReader::new(1, 3);
    {
        let line = reader.next_line(&lines(&[text[0], text[1], text[2], ""])).unwrap();
        // nothing stands before the first line
        let span = line.read_span(0, 5, 1, 1);
        assert_eq!(span.data, b"first\nsecond\n");
        assert_eq!((span.offset, span.line, span.column), (0, 0, 0));
        assert_eq!(span.line_count, 2);
    }
    reader.next_line(&lines(&[""])).unwrap();
    {
        let line = reader.next_line(&lines(&[""])).unwrap();
        assert_eq!(line.contents(), b"third");
        // nothing stands behind the last line
        let span = line.read_span(13, 5, 1, 3);
        assert_eq!(span.data, b"second\nthird");
        assert_eq!((span.offset, span.line, span.column), (6, 1, 0));
        assert_eq!(span.line_count, 3);
    }
    assert!(reader.next_line(&lines(&[""])).is_none());
}

#[test]
fn span_without_context() {
    let mut reader = InputReader::new(1, 3);
    reader.next_line(&lines(&["first\n", "second\n", "third\n", ""])).unwrap();
    let line = reader.next_line(&lines(&[""])).unwrap();
    let span = line.read_span(8, 3, 0, 0);
    assert_eq!(span.data, b"con");
    assert_eq!((span.offset, span.len, span.line, span.column), (8, 3, 1, 2));
    assert_eq!(span.line_count, 1);
    // lines before only: the stretch ends with the span
    let span = line.read_span(8, 3, 1, 0);
    assert_eq!(span.data, b"first\nsecon");
    assert_eq!((span.offset, span.line, span.column), (0, 0, 0));
    // lines after only: the stretch begins with the span
    let span = line.read_span(8, 3, 0, 1);
    assert_eq!(span.data, b"cond\nthird\n");
    assert_eq!((span.offset, span.line, span.column), (8, 1, 2));
    assert_eq!(span.line_count, 3);
}

#[test]
fn window_drops_the_oldest_line() {
    let mut reader = InputReader::new(1, 1);
    assert_eq!(reader.wanted(), 2);
    reader.next_line(&lines(&["1\n", "2\n"])).unwrap();
    reader.next_line(&lines(&["3\n"])).unwrap();
    let line = reader.next_line(&lines(&["4\n"])).unwrap();
    assert_eq!(line.contents(), b"3\n");
    let span = line.read_span(4, 1, 9, 9);
    assert_eq!(span.data, b"2\n3\n4\n");
    assert_eq!((span.offset, span.line), (2, 1));
}

#[test]
fn binary_content() {
    let mut reader = InputReader::new(1, 3);
    {
        let line = reader.next_line(&lines(&["plain text\n"])).unwrap();
        assert_eq!(line.content_type(), ContentType::Text);
    }
    let mut reader = InputReader::new(1, 3);
    {
        let line = reader.next_line(&vec![b"a\0b\n".to_vec()]).unwrap();
        assert_eq!(line.content_type(), ContentType::Binary);
    }
    let mut reader = InputReader::new(1, 3);
    {
        let line = reader.next_line(&lines(&["%PDF-1.4\n"])).unwrap();
        assert_eq!(line.content_type(), ContentType::Binary);
    }
    let mut reader = InputReader::new(1, 3);
    {
        // a byte order mark makes text of what holds a zero
        let line = reader.next_line(&vec![vec![0xFF, 0xFE, b'a', 0, b'\n', 0]]).unwrap();
        assert_eq!(line.content_type(), ContentType::Text);
    }
    let mut reader = InputReader::new(1, 3);
    {
        // a zero behind the first 1024 bytes is not looked at
        let mut long = vec![b'a'; 1024];
        long.push(0);
        let line = reader.next_line(&vec![long]).unwrap();
        assert_eq!(line.content_type(), ContentType::Text);
    }
}

#[test]
fn span_that_ends_behind_the_line() {
    let mut reader = InputReader::new(1, 3);
    reader.next_line(&lines(&["first\n", "second\n", "third\n", ""])).unwrap();
    let line = reader.next_line(&lines(&[""])).unwrap();
    assert_eq!(line.window_end(), 19);
    // the span begins in the second line and ends in the third one
    let span = line.read_span(10, 6, 0, 0);
    assert_eq!(span.data, b"nd\nthi");
    assert_eq!((span.offset, span.len, span.line, span.column), (10, 6, 1, 4));
    // one line before and the line itself do not cover it: the stretch
    // ends with the span
    let span = line.read_span(10, 6, 1, 0);
    assert_eq!(span.data, b"first\nsecond\nthi");
    assert_eq!((span.offset, span.len), (0, 16));
    // with the line after, the stretch ends with that line
    let span = line.read_span(10, 6, 0, 1);
    assert_eq!(span.data, b"nd\nthird\n");
    // a span at the very end of the line and of the window
    let span = line.read_span(13, 6, 0, 0);
    assert_eq!(span.data, b"third\n");
    let span = line.read_span(13, 0, 0, 0);
    assert_eq!(span.data, b"");
    assert_eq!((span.offset, span.column), (13, 7));
    assert_eq!(line.offset_of(100), 106);
}
