use stasis::str_ext::SplitKeepingDelimiterExt;
use stasis::str_ext::SplitType::{Delimiter, Match};

#[test]
fn split_with_delimiter() {
    let delims = &[',', ';'][..];
    let items: Vec<_> = "alpha,beta;gamma".split_keeping_delimiter(delims).collect_all();
    assert_eq!(
        &items,
        &[
            Match("alpha".to_string()),
            Delimiter(",".to_string()),
            Match("beta".to_string()),
            Delimiter(";".to_string()),
            Match("gamma".to_string())
        ]
    );
}

#[test]
fn split_with_delimiter_allows_consecutive_delimiters() {
    let delims = &[',', ';'][..];
    let items: Vec<_> = ",;".split_keeping_delimiter(delims).collect_all();
    assert_eq!(&items, &[Delimiter(",".to_string()), Delimiter(";".to_string())]);
}

#[test]
fn split_of_empty_text_is_empty() {
    let delims = &[','][..];
    let items = "".split_keeping_delimiter(delims).collect_all();
    assert!(items.is_empty());
}

#[test]
fn split_without_delimiters_is_one_piece() {
    let delims = &[','][..];
    let items = "abc".split_keeping_delimiter(delims).collect_all();
    assert_eq!(items, vec![Match("abc".to_string())]);
    assert_eq!(items[0].as_str(), "abc");
}

#[test]
fn split_hands_out_pieces_one_at_a_time() {
    let delims = &['+'][..];
    let mut s = "a+b".split_keeping_delimiter(delims);
    assert_eq!(s.next(), Some(Match("a".to_string())));
    assert_eq!(s.next(), Some(Delimiter("+".to_string())));
    assert_eq!(s.next(), Some(Match("b".to_string())));
    assert_eq!(s.next(), None);
}
