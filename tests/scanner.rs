use resserve::http::HeaderScanner;

/// Feeds `chunks` until the header is complete; returns the header and the
/// bytes of the stream left unconsumed.
fn scan(chunks: &[&[u8]]) -> (Vec<u8>, Vec<u8>) {
    let mut sc = HeaderScanner::new();
    let mut rest: Vec<u8> = Vec::new();
    let mut done = false;
    for c in chunks {
        if done {
            rest.extend_from_slice(c);
            continue;
        }
        let n = sc.feed(c);
        assert!(n <= c.len());
        if sc.is_done() {
            done = true;
            rest.extend_from_slice(&c[n..]);
        } else {
            assert_eq!(n, c.len());
        }
    }
    assert!(done, "header never completed");
    (sc.into_header(), rest)
}

const STREAM: &[u8] = b"GET / X\r\n\r\nEXTRA";
const HEADER: &[u8] = b"GET / X\r\n\r\n";

#[test]
fn scanner_whole_stream_in_one_chunk() {
    let (h, rest) = scan(&[STREAM]);
    assert_eq!(h, HEADER);
    assert_eq!(rest, b"EXTRA");
}

#[test]
fn scanner_split_inside_mark() {
    let (h, rest) = scan(&[b"GET / X\r\n\r", b"\nEXTRA"]);
    assert_eq!(h, HEADER);
    assert_eq!(rest, b"EXTRA");
}

#[test]
fn scanner_every_split_point() {
    for i in 0..=STREAM.len() {
        let (h, rest) = scan(&[&STREAM[..i], &STREAM[i..]]);
        assert_eq!(h, HEADER, "split at {}", i);
        assert_eq!(rest, b"EXTRA", "split at {}", i);
    }
}

#[test]
fn scanner_byte_by_byte() {
    let chunks: Vec<&[u8]> = (0..STREAM.len()).map(|i| &STREAM[i..i + 1]).collect();
    let (h, rest) = scan(&chunks);
    assert_eq!(h, HEADER);
    assert_eq!(rest, b"EXTRA");
}

#[test]
fn scanner_three_way_splits() {
    for i in 0..=STREAM.len() {
        for j in i..=STREAM.len() {
            let (h, rest) = scan(&[&STREAM[..i], &STREAM[i..j], &STREAM[j..]]);
            assert_eq!(h, HEADER);
            assert_eq!(rest, b"EXTRA");
        }
    }
}

#[test]
fn scanner_retests_byte_after_mismatch() {
    let (h, rest) = scan(&[b"A\r\r\n\r\nB"]);
    assert_eq!(h, b"A\r\r\n\r\n");
    assert_eq!(rest, b"B");
}

#[test]
fn scanner_partial_mark_then_other_bytes() {
    let (h, rest) = scan(&[b"x\r\n\ry\r\n", b"\r\nz"]);
    assert_eq!(h, b"x\r\n\ry\r\n\r\n");
    assert_eq!(rest, b"z");
}

#[test]
fn scanner_without_mark_consumes_everything() {
    let mut sc = HeaderScanner::new();
    assert_eq!(sc.feed(b"GET / X\r\n"), 9);
    assert!(!sc.is_done());
    assert_eq!(sc.feed(b""), 0);
    assert!(!sc.is_done());
    assert_eq!(sc.into_header(), b"GET / X\r\n");
}
