use ill::scan::{
    any_exists_until, dump_all_until_any, dump_until, newlines, read_all_until_any, read_until,
    read_until_spare_ws, repeat, ReadHead,
};

fn v(s: &str) -> Vec<u8> {
    s.as_bytes().to_vec()
}

#[test]
fn read_head_starts_at_one_one() {
    let h = ReadHead::new();
    assert_eq!(h.line, 1);
    assert_eq!(h.column, 1);
}

#[test]
fn advance_tracks_columns_and_lines() {
    let mut h = ReadHead::new();
    h.advance(b'a');
    assert_eq!((h.line, h.column), (1, 2));
    h.advance(b'\n');
    assert_eq!((h.line, h.column), (2, 0));
    h.advance(b'b');
    assert_eq!((h.line, h.column), (2, 1));
}

#[test]
fn new_by_shifts() {
    let h = ReadHead::new();
    let s = h.new_by(2, -1);
    assert_eq!((s.line, s.column), (3, 0));
}

#[test]
fn read_until_stops_at_delimiter_and_strips_whitespace() {
    let src = v("a b;rest");
    let mut at = 0usize;
    let (nl, cols, content) = read_until(&src, &mut at, &v(";"));
    assert_eq!(content, v("ab"));
    assert_eq!(nl, 0);
    assert_eq!(cols, 3);
    // the delimiter is next and not consumed
    assert_eq!(at, 3);
    assert_eq!(src[at], b';');
}

#[test]
fn read_until_spare_ws_keeps_whitespace() {
    let src = v("a b;rest");
    let mut at = 0usize;
    let (_, _, content) = read_until_spare_ws(&src, &mut at, &v(";"));
    assert_eq!(content, v("a b"));
    assert_eq!(at, 3);
}

#[test]
fn read_until_counts_newlines() {
    let src = v("a\nb;x");
    let mut at = 0usize;
    let (nl, cols, content) = read_until(&src, &mut at, &v(";"));
    assert_eq!(content, v("ab"));
    assert_eq!(nl, 1);
    assert_eq!(cols, 2);
}

#[test]
fn read_all_until_any_takes_run() {
    let src = v("aaab");
    let mut at = 0usize;
    let (_, _, content) = read_all_until_any(&src, &mut at, &v("a"));
    assert_eq!(content, v("aaa"));
    // the byte that ended the run is next and not consumed
    assert_eq!(at, 3);
}

#[test]
fn any_exists_until_sees_through() {
    let src = v("ab{cd}");
    assert!(any_exists_until(&src, 0, &v("{"), &v("}")));
    assert!(!any_exists_until(&src, 0, &v(";"), &v("}")));
}

#[test]
fn dump_until_advances_head() {
    let src = v("abc\nd;x");
    let mut at = 0usize;
    let mut h = ReadHead::new();
    dump_until(&mut h, &src, &mut at, &v(";"));
    // the delimiter itself is skipped and counted
    assert_eq!(at, 6);
    assert_eq!(h.line, 2);
}

#[test]
fn dump_all_until_any_skips_run() {
    let src = v("   x");
    let mut at = 0usize;
    let mut h = ReadHead::new();
    dump_all_until_any(&mut h, &src, &mut at, &v(" "));
    // the run of spaces and the byte that ended it are skipped and counted
    assert_eq!(at, 4);
    assert_eq!(h.column, 5);
}

#[test]
fn newlines_counts() {
    assert_eq!(newlines(&v("a\nb\n")), 2);
    assert_eq!(newlines(&v("abc")), 0);
}

#[test]
fn repeat_builds_runs() {
    assert_eq!(repeat(3, b'-'), v("---"));
    assert_eq!(repeat(0, b'x'), v(""));
    assert_eq!(repeat(-2, b'x'), v(""));
}
