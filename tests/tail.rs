use tail_rs::backward::{tail_seekable, tailc_seekable, ByteScanner, LineScanner};
use tail_rs::mode::{select_mode, text_output, Mode, TailError};
use tail_rs::model::CHUNK_CAPACITY;
use tail_rs::ring::CircularBuffer;
use tail_rs::streams::{tail_non_seekable, tailc_non_seekable, ByteStream, LineStream};
use tail_rs::{tail, tailc};

/// Straightforward last-n-lines, for comparison.
fn naive_lines(s: &[u8], n: usize) -> Vec<u8> {
    if s.is_empty() {
        return Vec::new();
    }
    let trailing = *s.last().unwrap() == b'\n';
    let body = if trailing { &s[..s.len() - 1] } else { s };
    let lines: Vec<&[u8]> = body.split(|&b| b == b'\n').collect();
    let start = lines.len().saturating_sub(n);
    let mut out = lines[start..].join(&b'\n');
    if trailing {
        out.push(b'\n');
    }
    out
}

fn sample(len: usize, line_every: usize) -> Vec<u8> {
    (0..len)
        .map(|i| if i % line_every == line_every - 1 { b'\n' } else { b'a' + (i % 26) as u8 })
        .collect()
}

fn scan_lines(src: &[u8], n: usize) -> Vec<u8> {
    let mut sc = LineScanner::new(src.len(), n);
    while !sc.is_done() {
        let (off, len) = sc.next_read();
        sc.feed(src[off..off + len].to_vec());
    }
    sc.finish()
}

#[test]
fn lines_with_trailing_separator() {
    let s = b"a\nb\nc\n".to_vec();
    assert_eq!(tail(&s, true, 2), b"b\nc\n".to_vec());
    assert_eq!(tail(&s, false, 2), b"b\nc\n".to_vec());
}

#[test]
fn lines_without_trailing_separator() {
    let s = b"a\nb\nc".to_vec();
    assert_eq!(tail(&s, true, 2), b"b\nc".to_vec());
    assert_eq!(tail(&s, false, 2), b"b\nc".to_vec());
}

#[test]
fn bytes_hello_world() {
    let s = b"hello world".to_vec();
    assert_eq!(tailc(&s, true, 5), b"world".to_vec());
    assert_eq!(tailc(&s, false, 5), b"world".to_vec());
}

#[test]
fn empty_source_lines() {
    let s: Vec<u8> = Vec::new();
    assert_eq!(tail_seekable(&s, 10), Vec::<u8>::new());
    assert_eq!(tail_non_seekable(&s, 10), Vec::<u8>::new());
}

#[test]
fn empty_source_every_extractor() {
    let s: Vec<u8> = Vec::new();
    for n in [1usize, 2, 10, 5000] {
        assert!(tail(&s, true, n).is_empty());
        assert!(tail(&s, false, n).is_empty());
        assert!(tailc(&s, true, n).is_empty());
        assert!(tailc(&s, false, n).is_empty());
    }
    assert!(tailc_seekable(&s, 0).is_empty());
}

#[test]
fn stream_fed_line_by_line() {
    let mut st = LineStream::new(2);
    for line in ["1\n", "2\n", "3\n", "4\n", "5\n"] {
        st.feed(&line.as_bytes().to_vec());
    }
    assert_eq!(st.finish(), b"4\n5\n".to_vec());
}

#[test]
fn more_wanted_than_available() {
    let s = b"x\ny\nz".to_vec();
    assert_eq!(tail(&s, true, 10), s);
    assert_eq!(tail(&s, false, 10), s);
    assert_eq!(tailc(&s, true, 100), s);
    assert_eq!(tailc(&s, false, 100), s);
}

#[test]
fn exactly_as_many_lines_as_available() {
    let s = b"x\ny\nz\n".to_vec();
    assert_eq!(tail(&s, true, 3), s);
    assert_eq!(tail(&s, false, 3), s);
    assert_eq!(tail(&s, true, 2), b"y\nz\n".to_vec());
}

#[test]
fn empty_lines_count() {
    let s = b"a\n\n\nb\n".to_vec();
    assert_eq!(tail(&s, true, 2), b"\nb\n".to_vec());
    assert_eq!(tail(&s, false, 3), b"\n\nb\n".to_vec());
    assert_eq!(tail(&b"\n\n".to_vec(), true, 1), b"\n".to_vec());
    assert_eq!(tail(&b"\n".to_vec(), true, 1), b"\n".to_vec());
    assert_eq!(tail(&b"\n".to_vec(), false, 1), b"\n".to_vec());
}

#[test]
fn single_line_without_separator() {
    let s = b"only".to_vec();
    assert_eq!(tail(&s, true, 1), s);
    assert_eq!(tail(&s, false, 1), s);
}

#[test]
fn line_extractors_agree_across_chunks() {
    for &(len, every) in &[(10_000usize, 7usize), (9000, 4097), (8192, 4096), (12_289, 3000), (5000, 1)] {
        let s = sample(len, every);
        for n in [1usize, 2, 3, 5, 100, 3000] {
            let a = tail(&s, true, n);
            let b = tail(&s, false, n);
            assert_eq!(a, b, "len {} every {} n {}", len, every, n);
            assert_eq!(a, naive_lines(&s, n));
        }
    }
}

#[test]
fn long_line_spans_chunks() {
    let mut s = vec![b'q'; 3 * CHUNK_CAPACITY + 17];
    s.push(b'\n');
    s.extend_from_slice(b"last");
    assert_eq!(tail(&s, true, 1), b"last".to_vec());
    assert_eq!(tail(&s, true, 2), s);
    assert_eq!(scan_lines(&s, 2), s);
}

#[test]
fn byte_tail_is_suffix() {
    let s = sample(10_000, 13);
    for n in [1usize, 5, 4096, 4097, 9999, 10_000, 20_000] {
        let want = s[s.len().saturating_sub(n)..].to_vec();
        assert_eq!(tailc(&s, true, n), want);
        assert_eq!(tailc(&s, false, n), want);
    }
}

#[test]
fn byte_scanner_reads_only_what_is_needed() {
    let s = sample(10_000, 9);
    let mut sc = ByteScanner::new(s.len(), 10);
    let (off, len) = sc.next_read();
    assert_eq!((off, len), (9990, 10));
    sc.feed(s[off..off + len].to_vec());
    assert!(sc.is_done());
    assert_eq!(sc.finish(), s[9990..].to_vec());
}

#[test]
fn line_scanner_reads_backward_in_chunks() {
    let s = sample(10_000, 100);
    let mut sc = LineScanner::new(s.len(), 1);
    let (off, len) = sc.next_read();
    assert_eq!((off, len), (10_000 - CHUNK_CAPACITY, CHUNK_CAPACITY));
    sc.feed(s[off..off + len].to_vec());
    assert!(sc.is_done());
    assert_eq!(sc.finish(), naive_lines(&s, 1));
}

#[test]
fn running_twice_gives_same_output() {
    let s = sample(7000, 11);
    assert_eq!(tail(&s, true, 4), tail(&s, true, 4));
    assert_eq!(tail(&s, false, 4), tail(&s, false, 4));
    assert_eq!(tailc(&s, true, 33), tailc(&s, true, 33));
    assert_eq!(tailc(&s, false, 33), tailc(&s, false, 33));
    let once = tail(&s, true, 4);
    assert_eq!(tail(&once, true, 4), once);
    let once_c = tailc(&s, true, 33);
    assert_eq!(tailc(&once_c, false, 33), once_c);
}

#[test]
fn final_separator_mirrors_source() {
    for s in [b"a\nb\n".to_vec(), b"a\nb".to_vec(), b"\n".to_vec(), b"x".to_vec()] {
        for n in [1usize, 2, 5] {
            let out = tail(&s, true, n);
            assert_eq!(out.last() == Some(&b'\n'), s.last() == Some(&b'\n'));
            let out2 = tail(&s, false, n);
            assert_eq!(out2.last() == Some(&b'\n'), s.last() == Some(&b'\n'));
        }
    }
}

#[test]
fn stream_chunks_split_anywhere() {
    let s = sample(3000, 17);
    let mut st = LineStream::new(5);
    let mut bt = ByteStream::new(50);
    for piece in s.chunks(7) {
        st.feed(&piece.to_vec());
        bt.feed(&piece.to_vec());
    }
    assert_eq!(st.finish(), naive_lines(&s, 5));
    assert_eq!(bt.finish(), s[s.len() - 50..].to_vec());
}

#[test]
fn circular_buffer_keeps_latest() {
    let mut r = CircularBuffer::new(3);
    for i in 1..=7u32 {
        r.push(i);
    }
    assert_eq!(r.len(), 3);
    assert_eq!(r.into_ordered(), vec![5, 6, 7]);
    let mut r2 = CircularBuffer::new(3);
    r2.push(1u32);
    r2.push(2u32);
    assert_eq!(r2.into_ordered(), vec![1, 2]);
}

#[test]
fn mode_selection() {
    assert_eq!(select_mode(10, 0), Ok(Mode::Lines(10)));
    assert_eq!(select_mode(10, 3), Ok(Mode::Bytes(3)));
    assert_eq!(select_mode(0, 0), Err(TailError::InvalidArgument));
    assert_eq!(select_mode(0, 3), Err(TailError::InvalidArgument));
}

#[test]
fn text_check() {
    assert_eq!(text_output(b"b\nc\n".to_vec()), Ok(b"b\nc\n".to_vec()));
    assert_eq!(text_output("é\n".as_bytes().to_vec()), Ok("é\n".as_bytes().to_vec()));
    assert_eq!(text_output(vec![0xff, b'\n']), Err(TailError::EncodingFailure));
    assert_eq!(text_output(vec![0xc3]), Err(TailError::EncodingFailure));
}

#[test]
fn binary_bytes_pass_through() {
    let s: Vec<u8> = vec![0xff, 0x00, 0xfe, 0x80, b'\n', 0xc3];
    assert_eq!(tailc(&s, true, 3), vec![0x80, b'\n', 0xc3]);
    assert_eq!(tailc(&s, false, 3), vec![0x80, b'\n', 0xc3]);
}
