use git_append::blob::{join_lines, split_lines};
use git_append::file::{contents_as_lines, strip_final_end_line};
use git_append::line::{order_of, same_line, LineOrder};
use git_append::line_set::{copy_of, take_line, LineSet};

fn text(line: &str) -> Vec<u8> {
    line.as_bytes().to_vec()
}

fn texts(all: &[&str]) -> Vec<Vec<u8>> {
    all.iter().map(|line| text(line)).collect()
}

#[test]
fn the_empty_blob_has_one_empty_line() {
    assert_eq!(texts(&[""]), split_lines(&Vec::new()));
}

#[test]
fn a_final_newline_gives_an_empty_last_line() {
    assert_eq!(texts(&["a", "bc", ""]), split_lines(&text("a\nbc\n")));
}

#[test]
fn splitting_keeps_carriage_returns_and_empty_lines() {
    assert_eq!(texts(&["a\r", "", "b"]), split_lines(&text("a\r\n\nb")));
}

#[test]
fn joining_puts_newlines_between_lines_only() {
    assert_eq!(text("a\nbc"), join_lines(&texts(&["a", "bc"])));
    assert_eq!(text("a"), join_lines(&texts(&["a"])));
    assert_eq!(text(""), join_lines(&Vec::new()));
    assert_eq!(text("\n"), join_lines(&texts(&["", ""])));
}

#[test]
fn splitting_undoes_joining() {
    let all = texts(&["x", "", "y z", ""]);
    assert_eq!(all, split_lines(&join_lines(&all)));
}

#[test]
fn a_working_file_is_split_at_its_newlines_and_nowhere_else() {
    let mut content = text("a\n");
    content.extend_from_slice(&[0xff, 0xfe, b'\n']);
    content.extend_from_slice(b"b\r\nc");
    assert_eq!(
        vec![text("a"), vec![0xff, 0xfe], text("b\r"), text("c")],
        contents_as_lines(&content)
    );
}

#[test]
fn an_empty_working_file_has_one_empty_line() {
    assert_eq!(texts(&[""]), contents_as_lines(&Vec::new()));
}

#[test]
fn a_working_file_that_ends_in_a_newline_has_an_empty_last_line() {
    assert_eq!(texts(&["a", "b", ""]), contents_as_lines(&text("a\nb\n")));
}

#[test]
fn one_final_newline_is_stripped() {
    assert_eq!(text("token"), strip_final_end_line(text("token\n")));
    assert_eq!(text("token\n"), strip_final_end_line(text("token\n\n")));
    assert_eq!(text("token"), strip_final_end_line(text("token")));
    assert_eq!(text(""), strip_final_end_line(text("")));
}

#[test]
fn lines_are_ordered_byte_by_byte() {
    assert_eq!(LineOrder::Before, order_of(&text("a"), &text("b")));
    assert_eq!(LineOrder::After, order_of(&text("b"), &text("a")));
    assert_eq!(LineOrder::Same, order_of(&text("ab"), &text("ab")));
    assert_eq!(LineOrder::Before, order_of(&text("a"), &text("ab")));
    assert_eq!(LineOrder::After, order_of(&text("ab"), &text("a")));
    assert_eq!(LineOrder::Before, order_of(&text(""), &text("a")));
    assert_eq!(LineOrder::Same, order_of(&text(""), &text("")));
    assert_eq!(LineOrder::Before, order_of(&text("Z"), &text("a")));
    assert_eq!(LineOrder::Before, order_of(&text("a"), &vec![0xc3, 0xa9]));
    assert_eq!(LineOrder::Before, order_of(&text("ab"), &text("b")));
}

#[test]
fn same_line_compares_bytes() {
    assert!(same_line(&text("ab"), &text("ab")));
    assert!(!same_line(&text("ab"), &text("aB")));
    assert!(!same_line(&text("ab"), &text("abc")));
}

#[test]
fn a_copy_holds_the_same_bytes() {
    assert_eq!(text("abc"), copy_of(&text("abc")));
}

#[test]
fn a_line_set_lists_its_lines_once_and_in_order() {
    let set = LineSet::from_lines(texts(&["b", "a", "", "b", "ab", "a"]));
    assert_eq!(&texts(&["", "a", "ab", "b"]), set.as_lines());
}

#[test]
fn a_line_set_of_many_lines_is_sorted() {
    let mut all: Vec<Vec<u8>> = Vec::new();
    let mut seed: u32 = 7;
    for _ in 0..500 {
        seed = seed.wrapping_mul(1103515245).wrapping_add(12345);
        all.push(format!("{}", (seed >> 16) % 200).into_bytes());
    }
    let set = LineSet::from_lines(all.clone());
    let mut expected = all.clone();
    expected.sort();
    expected.dedup();
    assert_eq!(&expected, set.as_lines());
}

#[test]
fn the_union_holds_the_lines_of_both_sets() {
    let one = LineSet::from_lines(texts(&["c", "a"]));
    let other = LineSet::from_lines(texts(&["b", "c", "d"]));
    assert_eq!(&texts(&["a", "b", "c", "d"]), one.union(&other).as_lines());
    assert_eq!(&texts(&["a", "c"]), one.union(&one).as_lines());
    let none = LineSet::from_lines(Vec::new());
    assert_eq!(&texts(&["a", "c"]), one.union(&none).as_lines());
    assert_eq!(&texts(&["a", "c"]), none.union(&one).as_lines());
}

#[test]
fn sets_are_the_same_whatever_the_order_they_were_given_in() {
    let one = LineSet::from_lines(texts(&["c", "a", "a"]));
    let other = LineSet::from_lines(texts(&["a", "c"]));
    let third = LineSet::from_lines(texts(&["a", "b"]));
    let fourth = LineSet::from_lines(texts(&["a"]));
    assert!(one.same_as(&other));
    assert!(!one.same_as(&third));
    assert!(!one.same_as(&fourth));
    assert!(!fourth.same_as(&one));
}

#[test]
fn a_line_set_gives_its_lines_away() {
    let set = LineSet::from_lines(texts(&["b", "a", "b"]));
    assert_eq!(texts(&["a", "b"]), set.into_lines());
}

#[test]
fn a_line_is_taken_out_of_a_vector() {
    let mut all = texts(&["a", "b", "c"]);
    assert_eq!(text("b"), take_line(&mut all, 1));
    assert_eq!(texts(&["a", "", "c"]), all);
}

#[test]
fn a_sorted_vector_is_taken_as_it_is() {
    let set = LineSet::from_sorted(texts(&["a", "b", "c"]));
    assert_eq!(&texts(&["a", "b", "c"]), set.as_lines());
}
