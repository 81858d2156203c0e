use connect_the_corners::Location;
use connect_the_corners::Offset;
use connect_the_corners::grid::character_at;
use connect_the_corners::grid::distinct_characters;
use connect_the_corners::grid::height;
use connect_the_corners::grid::lines;
use connect_the_corners::grid::max_width;
use connect_the_corners::grid::min_width;
use connect_the_corners::grid::rectangle;
use connect_the_corners::grid::to_chars;
use connect_the_corners::grid::width;
use connect_the_corners::grid::widths;
use connect_the_corners::grid::within_grid;
use connect_the_corners::runs::in_a_line_of_4;
use connect_the_corners::runs::lines_of_4;
use connect_the_corners::runs::same_to_the_left;
use connect_the_corners::runs::same_to_the_right;
use connect_the_corners::search::character_connecting_opposite_corners;
use connect_the_corners::search::connected;

fn rows_of(s: &str) -> Vec<Vec<char>> {
    lines(&to_chars(s))
}

#[test]
fn locations_translate_by_offsets() {
    let l = Location::new(1, 2).plus(Offset::new(0, -1));
    assert_eq!((l.x, l.y), (1, 1));
}

#[test]
fn offsets_scale_by_multipliers() {
    let o = Offset::new(2, -3).times(4);
    assert_eq!((o.x, o.y), (8, -12));
}

#[test]
fn lines_split_on_newlines() {
    let rows = rows_of("ab\ncd\n");
    assert_eq!(rows, vec![vec!['a', 'b'], vec!['c', 'd']]);
}

#[test]
fn lines_strip_carriage_return_before_newline() {
    let rows = rows_of("ab\r\ncd");
    assert_eq!(rows, vec![vec!['a', 'b'], vec!['c', 'd']]);
}

#[test]
fn lines_keep_other_carriage_returns() {
    let rows = rows_of("a\r");
    assert_eq!(rows, vec![vec!['a', '\r']]);
}

#[test]
fn dimensions_of_a_ragged_grid() {
    let rows = rows_of("ab\nc");
    assert_eq!(widths(&rows), vec![2, 1]);
    assert_eq!(max_width(&rows), 2);
    assert_eq!(min_width(&rows), 1);
    assert_eq!(width(&rows), 2);
    assert_eq!(height(&rows), 2);
    assert!(!rectangle(&rows));
}

#[test]
fn rectangle_accepts_equal_rows() {
    assert!(rectangle(&rows_of("ab\ncd")));
}

#[test]
fn distinct_characters_keep_first_occurrences() {
    let d = distinct_characters(&to_chars("aba\nbc"));
    assert_eq!(d, vec!['a', 'b', 'c']);
}

#[test]
fn distinct_characters_exclude_newlines() {
    let d = distinct_characters(&to_chars("a\na\na"));
    assert_eq!(d, vec!['a']);
}

#[test]
fn character_lookup_is_row_then_column() {
    let rows = rows_of("ab\ncd");
    assert_eq!(character_at(Location::new(1, 0), &rows), 'b');
    assert_eq!(character_at(Location::new(0, 1), &rows), 'c');
}

#[test]
fn character_lookup_handles_multibyte_cells() {
    let rows = rows_of("\u{e9}\u{65e5}\nab");
    assert_eq!(character_at(Location::new(1, 0), &rows), '\u{65e5}');
}

#[test]
fn within_grid_bounds_checks_all_sides() {
    let rows = rows_of("ab\ncd");
    assert!(within_grid(Location::new(0, 0), &rows));
    assert!(within_grid(Location::new(1, 1), &rows));
    assert!(!within_grid(Location::new(2, 0), &rows));
    assert!(!within_grid(Location::new(0, 2), &rows));
    assert!(!within_grid(Location::new(-1, 0), &rows));
    assert!(!within_grid(Location::new(0, -1), &rows));
}

#[test]
fn connected_finds_a_bent_region() {
    let rows = rows_of("AA\nBA");
    assert!(connected(Location::new(0, 0), Location::new(1, 1), &rows));
}

#[test]
fn connected_rejects_a_diagonal_touch() {
    let rows = rows_of("AB\nBA");
    assert!(!connected(Location::new(0, 0), Location::new(1, 1), &rows));
}

#[test]
fn connected_never_discovers_its_own_start() {
    let rows = rows_of("A");
    assert!(!connected(Location::new(0, 0), Location::new(0, 0), &rows));
}

#[test]
fn resolver_prefers_the_first_diagonal_pair() {
    let rows = rows_of("AAA\nABA\nAAA");
    assert_eq!(character_connecting_opposite_corners(&rows), Some('A'));
}

#[test]
fn resolver_falls_back_to_the_second_pair() {
    let rows = rows_of("AB\nBB");
    assert_eq!(character_connecting_opposite_corners(&rows), Some('B'));
}

#[test]
fn resolver_reports_absence() {
    let rows = rows_of("AB\nAB");
    assert_eq!(character_connecting_opposite_corners(&rows), None);
}

#[test]
fn run_counts_stop_at_mismatch_or_edge() {
    let rows = rows_of("AAAB");
    assert_eq!(same_to_the_right(Location::new(0, 0), &rows), 2);
    assert_eq!(same_to_the_left(Location::new(2, 0), &rows), 2);
    assert_eq!(same_to_the_left(Location::new(3, 0), &rows), 0);
}

#[test]
fn run_counts_are_capped_at_three() {
    let rows = rows_of("AAAAA");
    assert_eq!(same_to_the_right(Location::new(0, 0), &rows), 3);
    assert!(in_a_line_of_4(Location::new(0, 0), &rows));
    assert!(in_a_line_of_4(Location::new(4, 0), &rows));
}

#[test]
fn three_in_a_row_is_not_a_line_of_four() {
    let rows = rows_of("AAA");
    assert!(!in_a_line_of_4(Location::new(1, 0), &rows));
    assert_eq!(lines_of_4('A', &rows), None);
}

#[test]
fn lines_of_4_marks_each_flagged_cell() {
    let rows = rows_of("AAAA\nBBBB");
    assert_eq!(
        lines_of_4('A', &rows),
        Some("<b>A</b><b>A</b><b>A</b><b>A</b><br>BBBB".to_string())
    );
}
