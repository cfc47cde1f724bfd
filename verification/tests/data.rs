use firn::data::{DataComponent, Position};

fn grid_with_abcde_cursor_at_2() -> DataComponent {
    let mut data = DataComponent::new();
    data.write_text("abcde");
    assert_eq!(data.get_active_position(), Position { row: 0, col: 4 });
    data.activate_prev_cell();
    data.activate_prev_cell();
    assert_eq!(data.get_active_position(), Position { row: 0, col: 2 });
    data
}

#[test]
fn retreat_column_clamps_at_zero() {
    let mut data = DataComponent::new();
    data.activate_prev_cell();
    assert_eq!(data.get_active_position(), Position { row: 0, col: 0 });
    // also from a non-trivial state: two retreats from column 1 stay put
    data.write_text("xy");
    assert_eq!(data.get_active_position(), Position { row: 0, col: 1 });
    data.activate_prev_cell();
    data.activate_prev_cell();
    data.activate_prev_cell();
    assert_eq!(data.get_active_position(), Position { row: 0, col: 0 });
    assert_eq!(data.render(10), "xy");
}

#[test]
fn retreat_row_clamps_at_zero() {
    let mut data = DataComponent::new();
    data.activate_prev_line();
    assert_eq!(data.get_active_position(), Position { row: 0, col: 0 });
    data.write_text("a");
    data.activate_next_line();
    data.activate_prev_line();
    data.activate_prev_line();
    assert_eq!(data.get_active_position(), Position { row: 0, col: 0 });
}

#[test]
fn erase_to_end_keeps_the_cursor_cell() {
    let mut data = grid_with_abcde_cursor_at_2();
    data.erase_in_line(Some("0"));
    assert_eq!(data.render(10), "abc");
    assert_eq!(data.get_active_position(), Position { row: 0, col: 2 });
}

#[test]
fn erase_default_equals_mode_zero() {
    let mut data = grid_with_abcde_cursor_at_2();
    data.erase_in_line(None);
    assert_eq!(data.render(10), "abc");
}

#[test]
fn erase_to_start_blanks_without_resizing() {
    let mut data = grid_with_abcde_cursor_at_2();
    data.erase_in_line(Some("1"));
    assert_eq!(data.render(10), "");
    assert_eq!(data.get_active_position(), Position { row: 0, col: 2 });
    // the five cells are still there, now blank: writing lands at column 2
    data.write_text("X");
    assert_eq!(data.render(10), "  X");
}

#[test]
fn erase_all_empties_the_line() {
    let mut data = grid_with_abcde_cursor_at_2();
    data.erase_in_line(Some("2"));
    assert_eq!(data.render(10), "");
    assert_eq!(data.get_active_position(), Position { row: 0, col: 0 });
    data.write_text("X");
    assert_eq!(data.render(10), "X");
}

#[test]
fn erase_unknown_mode_changes_nothing() {
    let mut data = grid_with_abcde_cursor_at_2();
    data.erase_in_line(Some("7"));
    assert_eq!(data.render(10), "abcde");
    data.erase_in_line(Some("02"));
    assert_eq!(data.render(10), "abcde");
}

#[test]
fn delete_removes_after_the_cursor() {
    let mut data = grid_with_abcde_cursor_at_2();
    data.delete_character("1");
    assert_eq!(data.render(10), "abce");
    assert_eq!(data.get_active_position(), Position { row: 0, col: 2 });
}

#[test]
fn delete_clips_to_the_line_end() {
    let mut data = grid_with_abcde_cursor_at_2();
    data.delete_character("99");
    assert_eq!(data.render(10), "abc");
}

#[test]
fn delete_with_unparsable_count_changes_nothing() {
    let mut data = grid_with_abcde_cursor_at_2();
    data.delete_character("x");
    data.delete_character("");
    data.delete_character("2;3");
    // a count too large for the machine fails to parse, like any other junk
    data.delete_character("99999999999999999999999999999999999999");
    assert_eq!(data.render(10), "abcde");
}

#[test]
fn active_cell_reads_and_writes_the_cursor_cell() {
    let mut data = DataComponent::new();
    data.write_text("ab");
    assert_eq!(data.get_active_cell().grapheme, Some(String::from("b")));
    data.get_active_cell_mut().grapheme = Some(String::from("Z"));
    assert_eq!(data.render(10), "aZ");
}

#[test]
fn advance_column_grows_the_line() {
    let mut data = DataComponent::new();
    data.activate_next_cell();
    data.activate_next_cell();
    assert_eq!(data.get_active_position(), Position { row: 0, col: 2 });
    data.write_text("c");
    assert_eq!(data.render(10), "  c");
}

#[test]
fn advance_row_appends_a_line_once() {
    let mut data = DataComponent::new();
    data.write_text("a");
    data.activate_next_line();
    assert_eq!(data.get_active_position(), Position { row: 1, col: 0 });
    data.write_text("b");
    assert_eq!(data.render(10), "a\nb");
    assert_eq!(data.render(2), "a\nb");
    assert_eq!(data.render(1), "b");
    assert_eq!(data.render(0), "");
}
