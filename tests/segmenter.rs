use ygrep::readline::{lines_of, read_line_ext};
use ygrep::{LineDelimiter, LineStep, Lines};

fn rec(s: &str, d: Option<LineDelimiter>) -> (Vec<u8>, Option<LineDelimiter>) {
    (s.as_bytes().to_vec(), d)
}

#[test]
fn crlf_is_one_delimiter() {
    assert_eq!(lines_of(b"abc\r\n"), vec![rec("abc", Some(LineDelimiter::CRLF))]);
}

#[test]
fn lone_cr_then_next_line() {
    assert_eq!(
        lines_of(b"abc\rX"),
        vec![rec("abc", Some(LineDelimiter::CR)), rec("X", None)]
    );
}

#[test]
fn nul_ends_the_lines() {
    assert_eq!(
        lines_of(&[0x41, 0x00, 0x42, 0x0A]),
        vec![rec("A", Some(LineDelimiter::NUL))]
    );
}

#[test]
fn mixed_delimiters_with_trailing_part() {
    assert_eq!(
        lines_of(b"one\ntwo\rthree\r\nfour"),
        vec![
            rec("one", Some(LineDelimiter::LF)),
            rec("two", Some(LineDelimiter::CR)),
            rec("three", Some(LineDelimiter::CRLF)),
            rec("four", None),
        ]
    );
}

#[test]
fn ending_on_delimiter_gives_no_trailing_line() {
    assert_eq!(
        lines_of(b"one\ntwo\r"),
        vec![rec("one", Some(LineDelimiter::LF)), rec("two", Some(LineDelimiter::CR))]
    );
}

#[test]
fn empty_lines_are_kept() {
    assert_eq!(
        lines_of(b"\n\r\n"),
        vec![rec("", Some(LineDelimiter::LF)), rec("", Some(LineDelimiter::CRLF))]
    );
}

#[test]
fn empty_input_has_no_lines() {
    assert_eq!(lines_of(b""), vec![]);
}

#[test]
fn read_line_ext_decided_and_undecided() {
    let mut buf = Vec::new();
    assert_eq!(read_line_ext(b"ab", false, &mut buf), None);
    assert!(buf.is_empty());
    assert_eq!(read_line_ext(b"ab\r", false, &mut buf), None);
    assert_eq!(read_line_ext(b"ab\r", true, &mut buf), Some((3, Some(LineDelimiter::CR))));
    assert_eq!(buf, b"ab".to_vec());
    let mut buf = b"x".to_vec();
    assert_eq!(read_line_ext(b"cd\r\nef", false, &mut buf), Some((4, Some(LineDelimiter::CRLF))));
    assert_eq!(buf, b"xcd".to_vec());
    let mut buf = Vec::new();
    assert_eq!(read_line_ext(b"", true, &mut buf), Some((0, None)));
    assert_eq!(read_line_ext(b"tail", true, &mut buf), Some((4, None)));
    assert_eq!(buf, b"tail".to_vec());
}

#[test]
fn cr_at_chunk_boundary_waits_for_next_byte() {
    let mut lines = Lines::new();
    assert!(lines.feed(b"abc\r"));
    assert!(matches!(lines.next_line(), LineStep::NeedInput));
    assert!(lines.feed(b"\nxy"));
    match lines.next_line() {
        LineStep::Line(c, d, off) => {
            assert_eq!(c, b"abc".to_vec());
            assert_eq!(d, Some(LineDelimiter::CRLF));
            assert_eq!(off, 0);
        }
        other => panic!("unexpected {:?}", other),
    }
    assert!(matches!(lines.next_line(), LineStep::NeedInput));
    lines.finish();
    match lines.next_line() {
        LineStep::Line(c, d, off) => {
            assert_eq!(c, b"xy".to_vec());
            assert_eq!(d, None);
            assert_eq!(off, 5);
        }
        other => panic!("unexpected {:?}", other),
    }
    assert!(matches!(lines.next_line(), LineStep::End));
    assert!(!lines.feed(b"more"));
}

#[test]
fn long_line_across_many_chunks() {
    let mut lines = Lines::new();
    for _ in 0..100 {
        assert!(lines.feed(b"0123456789"));
        assert!(matches!(lines.next_line(), LineStep::NeedInput));
    }
    assert!(lines.feed(b"\n"));
    match lines.next_line() {
        LineStep::Line(c, d, off) => {
            assert_eq!(c.len(), 1000);
            assert_eq!(d, Some(LineDelimiter::LF));
            assert_eq!(off, 0);
        }
        other => panic!("unexpected {:?}", other),
    }
    assert_eq!(lines.offset(), 1001);
}

#[test]
fn nul_stops_even_with_more_input() {
    let mut lines = Lines::new();
    assert!(lines.feed(b"ok\nA\0B\nC\n"));
    assert!(matches!(lines.next_line(), LineStep::Line(_, Some(LineDelimiter::LF), 0)));
    match lines.next_line() {
        LineStep::Line(c, d, off) => {
            assert_eq!(c, b"A".to_vec());
            assert_eq!(d, Some(LineDelimiter::NUL));
            assert_eq!(off, 3);
        }
        other => panic!("unexpected {:?}", other),
    }
    assert!(matches!(lines.next_line(), LineStep::End));
}
