use connect_the_corners::validate_connect_the_corners;

const EMPTY_MSG: &str = "Invalid. The input is empty.";
const TOO_MANY_MSG: &str = "Invalid. The input contains more than 2 distinct characters.";
const NOT_RECT_MSG: &str = "Invalid. The input is not rectangular.";
const NO_CORNERS_MSG: &str = "Invalid. There are not 2 diagonally opposite corners connected by horizontally and vertically adjacent characters.";
const VALID_MSG: &str = "This is a valid path.";

fn line_of_four_msg(rendering: &str) -> String {
    format!(
        "Invalid. There must not be 4 path characters in a line horizontally or vertically:<br><br><code>{}</code>",
        rendering
    )
}

#[test]
fn empty_input_is_rejected() {
    assert_eq!(validate_connect_the_corners(""), EMPTY_MSG);
}

#[test]
fn three_distinct_characters_are_rejected() {
    assert_eq!(validate_connect_the_corners("ABC\nABC\nABC"), TOO_MANY_MSG);
}

#[test]
fn three_distinct_characters_beat_raggedness() {
    // Rule order: the distinct-character rule fires before the shape rule.
    assert_eq!(validate_connect_the_corners("ABC\nA"), TOO_MANY_MSG);
}

#[test]
fn ragged_rows_are_rejected() {
    assert_eq!(validate_connect_the_corners("AB\nA"), NOT_RECT_MSG);
}

#[test]
fn unconnected_corners_are_rejected() {
    assert_eq!(validate_connect_the_corners("AB\nBA"), NO_CORNERS_MSG);
}

#[test]
fn two_solid_rows_connect_no_corner_pair() {
    assert_eq!(validate_connect_the_corners("AAAA\nBBBB"), NO_CORNERS_MSG);
}

#[test]
fn single_cell_has_no_discoverable_finish() {
    // The finish only counts when discovered from a neighbor, so the
    // one-cell grid's coinciding corners never connect.
    assert_eq!(validate_connect_the_corners("A"), NO_CORNERS_MSG);
}

#[test]
fn newline_only_input_has_no_corners() {
    assert_eq!(validate_connect_the_corners("\n"), NO_CORNERS_MSG);
}

#[test]
fn l_shaped_path_is_valid() {
    assert_eq!(validate_connect_the_corners("ABB\nABB\nAAA"), VALID_MSG);
}

#[test]
fn short_single_rows_are_valid() {
    assert_eq!(validate_connect_the_corners("AA"), VALID_MSG);
    assert_eq!(validate_connect_the_corners("AAA"), VALID_MSG);
}

#[test]
fn monochrome_square_is_valid() {
    assert_eq!(validate_connect_the_corners("AA\nAA"), VALID_MSG);
}

#[test]
fn monochrome_ring_is_valid() {
    assert_eq!(validate_connect_the_corners("AAA\nABA\nAAA"), VALID_MSG);
}

#[test]
fn horizontal_run_of_four_is_marked() {
    assert_eq!(
        validate_connect_the_corners("AAAA"),
        line_of_four_msg("<b>A</b><b>A</b><b>A</b><b>A</b>")
    );
}

#[test]
fn vertical_run_of_four_is_marked() {
    assert_eq!(
        validate_connect_the_corners("A\nA\nA\nA"),
        line_of_four_msg("<b>A</b><br><b>A</b><br><b>A</b><br><b>A</b>")
    );
}

#[test]
fn only_run_cells_are_marked() {
    // The left column connects the corners; its vertical run of four is
    // marked while the other path cells stay unmarked.
    assert_eq!(
        validate_connect_the_corners("AB\nAB\nAB\nAA"),
        line_of_four_msg("<b>A</b>B<br><b>A</b>B<br><b>A</b>B<br><b>A</b>A")
    );
}

#[test]
fn validation_is_idempotent() {
    let first = validate_connect_the_corners("ABB\nABB\nAAA");
    let second = validate_connect_the_corners("ABB\nABB\nAAA");
    assert_eq!(first, second);
}

#[test]
fn multibyte_characters_count_as_single_cells() {
    assert_eq!(validate_connect_the_corners("\u{e9}\u{e9}\n\u{e9}\u{e9}"), VALID_MSG);
}

#[test]
fn carriage_return_line_endings_split_rows() {
    // "\r\n" splits a row; the carriage return still counts as one of the
    // two allowed distinct characters.
    assert_eq!(validate_connect_the_corners("AA\r\nAA"), VALID_MSG);
}

#[test]
fn carriage_return_counts_toward_distinct_characters() {
    assert_eq!(validate_connect_the_corners("AB\r\nAB\r\nAB"), TOO_MANY_MSG);
}
