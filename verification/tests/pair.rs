use lockfree::parse::find_char;
use lockfree::parse::parse_pair;

#[test]
fn test_parse_pair() {
    assert_eq!(parse_pair::<i32>("", ','), None);
    assert_eq!(parse_pair::<i32>("10,", ','), None);
    assert_eq!(parse_pair::<i32>(",10", ','), None);
    assert_eq!(parse_pair::<i32>("10,20", ','), Some((10, 20)));
    assert_eq!(parse_pair::<i32>("10,20xy", ','), None);
    assert_eq!(parse_pair::<f64>("0.5x", 'x'), None);
    assert_eq!(parse_pair::<f64>("0.5x1.5", 'x'), Some((0.5, 1.5)));
}

#[test]
fn pair_splits_at_first_separator() {
    // "1,2,3": the left half is "1", the right half "2,3", which is no i32.
    assert_eq!(parse_pair::<i32>("1,2,3", ','), None);
    assert_eq!(parse_pair::<i32>("400x600", 'x'), Some((400, 600)));
}

#[test]
fn pair_without_separator_is_rejected() {
    assert_eq!(parse_pair::<i32>("400", 'x'), None);
    assert_eq!(parse_pair::<u32>("1020", ','), None);
}

#[test]
fn find_char_reports_first_occurrence() {
    assert_eq!(find_char("400x600", 'x'), Some(3));
    assert_eq!(find_char("a,b,c", ','), Some(1));
    assert_eq!(find_char("abc", ','), None);
    assert_eq!(find_char("", ','), None);
    assert_eq!(find_char(",abc", ','), Some(0));
}
