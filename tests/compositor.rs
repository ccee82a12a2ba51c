use termwin::{Container, Point, Window};

fn grid(top_left: Point, rows: &[&str]) -> Window<char> {
    let mut w = Window::new(top_left);
    for r in rows {
        w.data.push(r.chars().collect());
    }
    w
}

fn buffer_of(c: &Container<char>, wid: i32, hgt: i32) -> Vec<(Point, char)> {
    let mut out = Vec::new();
    for y in 0..hgt {
        for x in 0..wid {
            let p = Point::new(x, y);
            if let Some(v) = c.get(p) {
                out.push((p, v));
            }
        }
    }
    out
}

#[test]
fn two_overlapping_windows_end_to_end() {
    let mut c = Container::new();
    c.add_win(grid(Point::new(0, 0), &["aa", "aa"]));
    c.add_win(grid(Point::new(1, 1), &["b"]));
    c.refresh();
    assert_eq!(c.get(Point::new(0, 0)), Some('a'));
    assert_eq!(c.get(Point::new(1, 0)), Some('a'));
    assert_eq!(c.get(Point::new(0, 1)), Some('a'));
    assert_eq!(c.get(Point::new(1, 1)), Some('b'));
    assert_eq!(buffer_of(&c, 5, 5).len(), 4);
    assert_eq!(
        c.changed(),
        &[Point::new(0, 0), Point::new(1, 0), Point::new(0, 1), Point::new(1, 1)]
    );
    let rows = c.materialize(3, 3, ' ');
    let text: Vec<String> = rows.iter().map(|r| r.iter().collect()).collect();
    assert_eq!(text, vec!["aa ", "ab ", "   "]);
    assert_eq!(c.to_string_with_default(3, 3, ' '), "aa \nab \n   \n");
}

#[test]
fn later_window_is_painted_on_top() {
    let mut c = Container::new();
    c.add_win(grid(Point::new(2, 3), &["xyz"]));
    c.add_win(grid(Point::new(3, 3), &["Q"]));
    c.refresh();
    assert_eq!(c.get(Point::new(2, 3)), Some('x'));
    assert_eq!(c.get(Point::new(3, 3)), Some('Q'));
    assert_eq!(c.get(Point::new(4, 3)), Some('z'));
}

#[test]
fn first_refresh_reports_every_covered_position_once() {
    let mut c = Container::new();
    c.add_win(grid(Point::new(0, 0), &["ab", "c"]));
    c.add_win(grid(Point::new(0, 0), &["d"]));
    c.refresh();
    assert_eq!(c.changed(), &[Point::new(0, 0), Point::new(1, 0), Point::new(0, 1)]);
    assert_eq!(c.get(Point::new(0, 0)), Some('d'));
    assert_eq!(c.get(Point::new(1, 1)), None);
}

#[test]
fn second_refresh_without_changes_reports_nothing() {
    let mut c = Container::new();
    c.add_win(grid(Point::new(1, 2), &["hi", "yo"]));
    c.refresh();
    let before = buffer_of(&c, 6, 6);
    c.refresh();
    assert!(c.changed().is_empty());
    assert_eq!(buffer_of(&c, 6, 6), before);
}

#[test]
fn overlapping_different_values_are_reported_again() {
    let mut c = Container::new();
    c.add_win(grid(Point::new(0, 0), &["aa", "aa"]));
    c.add_win(grid(Point::new(1, 1), &["b"]));
    c.refresh();
    c.refresh();
    assert_eq!(c.changed(), &[Point::new(1, 1)]);
    assert_eq!(c.get(Point::new(1, 1)), Some('b'));
}

#[test]
fn one_changed_cell_is_reported_alone() {
    let mut c = Container::new();
    c.add_win(grid(Point::new(0, 0), &["abc"]));
    c.add_win(grid(Point::new(0, 1), &["def"]));
    c.refresh();
    c.windows[1].data[0][2] = 'X';
    c.refresh();
    assert_eq!(c.changed(), &[Point::new(2, 1)]);
    assert_eq!(c.get(Point::new(2, 1)), Some('X'));
}

#[test]
fn removed_window_disappears_silently() {
    let mut c = Container::new();
    c.add_win(grid(Point::new(0, 0), &["ab"]));
    c.add_win(grid(Point::new(5, 5), &["z"]));
    c.refresh();
    c.windows.remove(1);
    c.refresh();
    assert_eq!(c.get(Point::new(5, 5)), None);
    assert!(c.changed().is_empty());
    assert_eq!(c.get(Point::new(0, 0)), Some('a'));
}

#[test]
fn materialize_fills_gaps_with_default() {
    let mut c: Container<u8> = Container::new();
    let mut w = Window::new(Point::new(1, 0));
    w.data.push(vec![7, 8]);
    c.add_win(w);
    c.refresh();
    assert_eq!(c.materialize(4, 2, 0), vec![vec![0, 7, 8, 0], vec![0, 0, 0, 0]]);
    assert_eq!(c.materialize(0, 2, 0), vec![Vec::<u8>::new(), Vec::new()]);
    assert!(c.materialize(3, 0, 0).is_empty());
}

#[test]
fn negative_positions_are_outside_the_materialized_view() {
    let mut c = Container::new();
    c.add_win(grid(Point::new(-1, -1), &["ab", "cd"]));
    c.refresh();
    assert_eq!(c.get(Point::new(-1, -1)), Some('a'));
    assert_eq!(c.to_string_with_default(2, 1, '.'), "d.\n");
}

#[test]
fn to_string_uses_null_for_gaps() {
    let mut c = Container::new();
    c.add_win(grid(Point::new(1, 0), &["k"]));
    c.refresh();
    assert_eq!(c.to_string(2, 1), "\0k\n");
}

#[test]
fn empty_container_has_nothing() {
    let mut c: Container<char> = Container::new();
    c.refresh();
    assert!(c.changed().is_empty());
    assert_eq!(c.to_string_with_default(2, 2, '#'), "##\n##\n");
}

#[test]
fn write_str_splits_lines_and_continues() {
    let mut w = Window::new(Point::new(0, 0));
    w.write_str("ab\ncd");
    assert_eq!(w.data, vec![vec!['a', 'b'], vec!['c', 'd'], vec![]]);
    w.write_str("ef");
    assert_eq!(w.data, vec![vec!['a', 'b'], vec!['c', 'd'], vec!['e', 'f'], vec![]]);
}

#[test]
fn write_str_empty_text_leaves_one_row() {
    let mut w = Window::new(Point::new(0, 0));
    w.write_str("");
    assert_eq!(w.data, vec![Vec::<char>::new()]);
}

#[test]
fn write_str_continues_last_row() {
    let mut w = Window::new(Point::new(0, 0));
    w.data.push(vec!['x']);
    w.write_str("yz\r\nw\n");
    assert_eq!(w.data, vec![vec!['x', 'y', 'z'], vec!['w'], vec![]]);
}

#[test]
fn outline_frames_rows() {
    let mut w = Window::new(Point::new(0, 0));
    w.data.push(vec!['a', 'b']);
    w.data.push(vec!['c']);
    w.outline_with('#');
    let text: Vec<String> = w.data.iter().map(|r| r.iter().collect()).collect();
    assert_eq!(text, vec!["####", "#ab#", "#c#", "###"]);
}

#[test]
fn outline_of_empty_window_does_nothing() {
    let mut w: Window<char> = Window::new(Point::new(3, 4));
    w.outline_with('#');
    assert!(w.data.is_empty());
    assert_eq!(w.top_left, Point::new(3, 4));
}

#[test]
fn point_offset_adds_column_and_row() {
    assert_eq!(Point::new(-2, 5).offset(3, 1), Point::new(1, 6));
}

#[test]
fn get_buffer_lists_each_position_once() {
    let mut c = Container::new();
    c.add_win(grid(Point::new(0, 0), &["ab"]));
    c.add_win(grid(Point::new(1, 0), &["c"]));
    c.refresh();
    assert_eq!(c.get_buffer(), &[(Point::new(0, 0), 'a'), (Point::new(1, 0), 'c')]);
}

#[test]
fn default_container_is_empty() {
    let c: Container<u32> = Container::default();
    assert!(c.windows.is_empty());
    assert!(c.get_buffer().is_empty());
    assert!(c.changed().is_empty());
}
