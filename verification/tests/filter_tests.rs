use friable::filter::{Filter, Separator};

#[test]
fn add_separator_test() {
    let mut filter = Filter::new(vec![(" ", false)]);
    filter.add_separator(("+", true));
    assert_eq!(filter.contains('+'), Some(true));
}

#[test]
fn override_separator_test() {
    let mut filter = Filter::new(vec![(" ", false), ("+", false)]);
    filter.add_separator(("+", false));
    assert_eq!(filter.get_separators(), 2);
    filter.add_separator(("+", true));
    assert_eq!(filter.get_separators(), 2);
}

#[test]
fn separator_new_test() {
    let separator = Separator::new('+', true);
    assert_eq!(separator.symbol, '+');
    assert!(separator.keep);
}

#[test]
fn distinct_symbols_count_test() {
    let filter = Filter::new(vec![("+", true), ("(", true), (")", true), (",", true)]);
    assert_eq!(filter.get_separators(), 4);
}

#[test]
fn later_keep_flag_wins_test() {
    let mut filter = Filter::new(vec![("+", false)]);
    assert_eq!(filter.contains('+'), Some(false));
    filter.add_separator(("+", true));
    assert_eq!(filter.contains('+'), Some(true));
    filter.add_separator(("+", false));
    assert_eq!(filter.contains('+'), Some(false));
}

#[test]
fn duplicate_in_initial_list_last_wins_test() {
    let filter = Filter::new(vec![("+", false), ("+", true)]);
    assert_eq!(filter.get_separators(), 1);
    assert_eq!(filter.contains('+'), Some(true));
}

#[test]
fn empty_symbol_string_ignored_test() {
    let mut filter = Filter::new(vec![("", true)]);
    assert_eq!(filter.get_separators(), 0);
    filter.add_separator(("", false));
    assert_eq!(filter.get_separators(), 0);
    assert_eq!(filter.contains(' '), None);
}

#[test]
fn multi_character_symbol_truncated_test() {
    let filter = Filter::new(vec![("+-", true)]);
    assert_eq!(filter.contains('+'), Some(true));
    assert_eq!(filter.contains('-'), None);
}

#[test]
fn contains_unregistered_test() {
    let filter = Filter::new(vec![(" ", false)]);
    assert_eq!(filter.contains('x'), None);
    assert_eq!(filter.contains(' '), Some(false));
}
