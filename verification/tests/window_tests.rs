use road_match::window::split_index;
use road_match::window::subrect;

fn grid_10_by_10() -> Vec<i32> {
    let mut buf = Vec::new();
    for v in 0..100 {
        buf.push(v);
    }
    buf
}

#[test]
fn window_of_three_by_three_inside_ten_by_ten() {
    let buf = grid_10_by_10();
    assert_eq!(subrect(&buf, 10, 23, (3, 3)), vec![23, 24, 25, 33, 34, 35, 43, 44, 45]);
}

#[test]
fn window_past_the_end_is_empty() {
    let buf = grid_10_by_10();
    assert_eq!(subrect(&buf, 10, 89, (2, 5)), Vec::<i32>::new());
    assert_eq!(subrect(&buf, 10, 95, (2, 2)), Vec::<i32>::new());
    assert_eq!(subrect(&buf, 10, 100, (1, 1)), Vec::<i32>::new());
}

#[test]
fn window_that_ends_on_the_last_cell() {
    let buf = grid_10_by_10();
    assert_eq!(subrect(&buf, 10, 88, (2, 2)), vec![88, 89, 98, 99]);
    assert_eq!(subrect(&buf, 10, 99, (1, 1)), vec![99]);
}

#[test]
fn whole_buffer_is_a_window() {
    let buf = grid_10_by_10();
    assert_eq!(subrect(&buf, 10, 0, (10, 10)), buf);
}

#[test]
fn window_without_rows_or_columns_is_empty() {
    let buf = grid_10_by_10();
    assert_eq!(subrect(&buf, 10, 5, (0, 3)), Vec::<i32>::new());
    assert_eq!(subrect(&buf, 10, 5, (3, 0)), Vec::<i32>::new());
}

#[test]
fn buffer_without_columns_gives_nothing() {
    let buf = grid_10_by_10();
    assert_eq!(subrect(&buf, 0, 0, (1, 1)), Vec::<i32>::new());
}

#[test]
fn window_in_an_empty_buffer_is_empty() {
    let buf: Vec<u8> = Vec::new();
    assert_eq!(subrect(&buf, 4, 0, (1, 1)), Vec::<u8>::new());
}

#[test]
fn huge_window_does_not_overflow() {
    let buf = grid_10_by_10();
    assert_eq!(subrect(&buf, 10, 1, (usize::MAX, 2)), Vec::<i32>::new());
    assert_eq!(subrect(&buf, usize::MAX, usize::MAX, (2, 2)), Vec::<i32>::new());
    assert_eq!(subrect(&buf, 10, 0, (1, usize::MAX)), Vec::<i32>::new());
}

#[test]
fn window_rows_step_by_the_buffer_width() {
    let buf: Vec<char> = vec!['a', 'b', 'c', 'd', 'e', 'f'];
    assert_eq!(subrect(&buf, 3, 1, (2, 2)), vec!['b', 'c', 'e', 'f']);
    assert_eq!(subrect(&buf, 2, 1, (3, 1)), vec!['b', 'd', 'f']);
}

#[test]
fn split_index_gives_row_and_column() {
    assert_eq!(split_index(0, 7), (0, 0));
    assert_eq!(split_index(23, 10), (2, 3));
    assert_eq!(split_index(6, 7), (0, 6));
    assert_eq!(split_index(7, 7), (1, 0));
}
