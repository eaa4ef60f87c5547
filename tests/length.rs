use fish_input::format::FormatArgs;
use fish_input::length::{Length, StringError};

#[test]
fn length_options() {
    let mut l = Length::new();
    assert_eq!(l.parse_opt('q'), Ok(()));
    assert!(l.quiet && !l.visible);
    assert_eq!(l.parse_opt('V'), Ok(()));
    assert!(l.visible);
    assert_eq!(l.parse_opt('x'), Err(StringError::UnknownOption));
}

#[test]
fn length_counts_characters() {
    let l = Length::new();
    let args: Vec<Vec<usize>> = ["abc", "", "héllo"]
        .iter()
        .map(|s| Length::measure_plain(&s.chars().collect()))
        .collect();
    let r = l.handle(&args);
    assert_eq!(r.printed, vec![3, 0, 5]);
    assert!(r.success);
}

#[test]
fn length_all_empty_fails() {
    let l = Length::new();
    let r = l.handle(&vec![vec![0], vec![0]]);
    assert_eq!(r.printed, vec![0, 0]);
    assert!(!r.success);
    let r = l.handle(&Vec::new());
    assert!(r.printed.is_empty() && !r.success);
}

#[test]
fn length_quiet_prints_nothing() {
    let l = Length { quiet: true, visible: false };
    let r = l.handle(&vec![vec![0], vec![4]]);
    assert!(r.printed.is_empty());
    assert!(r.success);
}

#[test]
fn length_visible_takes_widest_piece() {
    assert_eq!(Length::line_width(&vec![2, 7, 3]), 7);
    assert_eq!(Length::line_width(&Vec::new()), 0);
    let l = Length { quiet: false, visible: true };
    let r = l.handle(&vec![vec![Length::line_width(&vec![1, 5]), Length::line_width(&vec![0])]]);
    assert_eq!(r.printed, vec![5, 0]);
}

#[test]
fn format_decisions() {
    let a = FormatArgs { all: false, check: false, force: false, paths: Vec::new() };
    assert!(a.nothing_to_do());
    assert!(a.needs_clean_tree_check());
    let b = FormatArgs { all: false, check: true, force: false, paths: vec!["x".to_string()] };
    assert!(!b.nothing_to_do());
    assert!(!b.needs_clean_tree_check());
    assert!(FormatArgs::confirmed(&"y\n".chars().collect()));
    assert!(!FormatArgs::confirmed(&"yes\n".chars().collect()));
}
