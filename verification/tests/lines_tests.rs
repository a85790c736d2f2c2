use loc_counter::lines::count_segments;

#[test]
fn empty_file_counts_one_line() {
    assert_eq!(count_segments(b""), 1);
}

#[test]
fn no_trailing_newline_counts_one_line() {
    assert_eq!(count_segments(b"abc"), 1);
}

#[test]
fn trailing_newline_counts_two_segments() {
    // Splitting "abc\n" on the newline byte yields ["abc", ""]: the
    // final empty fragment is a segment of its own.
    assert_eq!(count_segments(b"abc\n"), 2);
}

#[test]
fn lone_newline_counts_two_segments() {
    assert_eq!(count_segments(b"\n"), 2);
}

#[test]
fn three_lines_without_final_newline() {
    assert_eq!(count_segments(b"a\nb\nc"), 3);
}

#[test]
fn hello_world_source_counts_two() {
    assert_eq!(count_segments(b"fn main(){}\n"), 2);
}
