use ygrep::search::push_decimal;
use ygrep::search::Pattern;
use ygrep::{FileScan, FileSearch, LineDelimiter};

/// Searches an in-memory file fed in chunks of `size` bytes.
fn search_in_chunks(path: &str, data: &[u8], re: &Pattern, size: usize) -> Vec<u8> {
    let mut out = Vec::new();
    let mut scan = FileScan::new(path.as_bytes().to_vec(), re);
    for chunk in data.chunks(size) {
        if !scan.wants_input() {
            break;
        }
        assert!(scan.push(re, chunk, &mut out));
    }
    scan.finish(re, &mut out);
    out
}

fn search(path: &str, data: &[u8], re: &Pattern) -> Vec<u8> {
    let whole = search_in_chunks(path, data, re, data.len().max(1));
    for size in 1..4 {
        assert_eq!(search_in_chunks(path, data, re, size), whole);
    }
    whole
}

#[test]
fn decimal_digits() {
    let mut out = b"n=".to_vec();
    push_decimal(0, &mut out);
    push_decimal(1234567890, &mut out);
    assert_eq!(out, b"n=01234567890".to_vec());
}

#[test]
fn matches_are_numbered_from_one_under_one_header() {
    let re = Pattern::new("ba".to_string()).unwrap();
    assert_eq!(search("/r/a.txt", b"foo\nbar\n", &re), b"/r/a.txt\n2:bar\n".to_vec());
    assert_eq!(search("/r/b.txt", b"baz\n", &re), b"/r/b.txt\n1:baz\n".to_vec());
    assert_eq!(search("/r/c.txt", b"x\r\nbad\rbat", &re), b"/r/c.txt\n2:bad\n3:bat\n".to_vec());
}

#[test]
fn no_match_prints_nothing() {
    let re = Pattern::new("zz".to_string()).unwrap();
    assert_eq!(search("/r/a.txt", b"foo\nbar\n", &re), Vec::<u8>::new());
}

#[test]
fn binary_notice_gives_nul_offset_and_stops() {
    let re = Pattern::new("B".to_string()).unwrap();
    assert_eq!(
        search("/r/bin", &[0x41, 0x00, 0x42, 0x0A], &re),
        b"/r/bin\nbinary file matches (found \"\\0\" byte around offset 1)\n".to_vec()
    );
    assert_eq!(
        search("/r/bin", b"B1\nxx\0B\n", &re),
        b"/r/bin\n1:B1\nbinary file matches (found \"\\0\" byte around offset 5)\n".to_vec()
    );
}

#[test]
fn on_line_with_given_verdicts() {
    let mut out = Vec::new();
    let mut fs = FileSearch::new(b"p".to_vec());
    assert!(fs.on_line(b"no", Some(LineDelimiter::LF), 0, false, &mut out));
    assert!(out.is_empty());
    assert!(fs.on_line(b"yes", Some(LineDelimiter::LF), 3, true, &mut out));
    assert!(fs.on_line(b"again", None, 7, true, &mut out));
    assert_eq!(out, b"p\n2:yes\n3:again\n".to_vec());
    assert_eq!(fs.lines_searched(), 3);
    assert!(!fs.is_finished());
    assert!(!fs.on_line(b"", Some(LineDelimiter::NUL), 12, false, &mut out));
    assert!(fs.is_finished());
    assert_eq!(
        out,
        b"p\n2:yes\n3:again\nbinary file matches (found \"\\0\" byte around offset 12)\n".to_vec()
    );
}

#[test]
fn two_files_each_with_header_and_numbered_match() {
    let re = Pattern::new("ba".to_string()).unwrap();
    let mut out = search("/r/a.txt", b"foo\nbar\n", &re);
    out.extend(search("/r/b.txt", b"baz\n", &re));
    assert_eq!(out, b"/r/a.txt\n2:bar\n/r/b.txt\n1:baz\n".to_vec());
}

#[test]
fn binary_input_wants_no_more() {
    let re = Pattern::new("A".to_string()).unwrap();
    let mut out = Vec::new();
    let mut scan = FileScan::new(b"f".to_vec(), &re);
    assert!(scan.wants_input());
    assert!(scan.push(&re, b"A\0", &mut out));
    assert!(!scan.wants_input());
    assert!(!scan.push(&re, b"A\n", &mut out));
    scan.finish(&re, &mut out);
    assert_eq!(out, b"f\nbinary file matches (found \"\\0\" byte around offset 1)\n".to_vec());
}

#[test]
fn crlf_split_across_chunks_is_one_line_end() {
    let re = Pattern::new("^b$".to_string()).unwrap();
    let mut out = Vec::new();
    let mut scan = FileScan::new(b"f".to_vec(), &re);
    assert!(scan.push(&re, b"a\r", &mut out));
    assert!(out.is_empty());
    assert!(scan.push(&re, b"\nb", &mut out));
    assert!(out.is_empty());
    scan.finish(&re, &mut out);
    assert_eq!(out, b"f\n2:b\n".to_vec());
}

#[test]
fn pattern_compiles_and_matches() {
    let p = Pattern::new("b[a-z]r".to_string()).unwrap();
    assert!(p.is_match(b"foo bar"));
    assert!(!p.is_match(b"foo baz"));
    assert!(!p.is_match(b""));
}

#[test]
fn invalid_pattern_is_refused() {
    assert!(Pattern::new("foo(bar".to_string()).is_none());
}
