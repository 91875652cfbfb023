use rst::error::ErrorKind;
use rst::expand::{_parse_names, parse_names, CharCursor};
use rst::name::{ArtName, ArtType, NameSet};
use rst::strset::StrSet;
use rst::text::chars_of;

#[test]
fn test_parse_names() {
    assert_eq!(_parse_names(&mut CharCursor::new("hi, ho"), false).unwrap(), ["hi", "ho"]);
    assert_eq!(
        _parse_names(&mut CharCursor::new("hi-[ho, he]"), false).unwrap(),
        ["hi-ho", "hi-he"]
    );
    assert_eq!(
        _parse_names(
            &mut CharCursor::new("hi-[ho, he], he-[ho, hi, ha-[ha, he]]"),
            false
        )
        .unwrap(),
        ["hi-ho", "hi-he", "he-ho", "he-hi", "he-ha-ha", "he-ha-he"]
    );
    assert!(_parse_names(&mut CharCursor::new("[]"), false).is_err());
    assert!(_parse_names(&mut CharCursor::new("[hi]"), false).is_err());
    assert!(_parse_names(&mut CharCursor::new("hi-[ho, [he]]"), false).is_err());
    assert!(_parse_names(&mut CharCursor::new("hi-[ho, he"), false).is_err());
}

#[test]
fn test_show_artifact() {}

fn items(s: &str) -> Vec<String> {
    _parse_names(&mut CharCursor::new(s), false).unwrap()
}

#[test]
fn comma_lists_are_split_and_trimmed() {
    assert_eq!(items("hi, ho"), ["hi", "ho"]);
    assert_eq!(items("  h i ,\n ho\r\n,,he, "), ["hi", "ho", "he"]);
    assert_eq!(items(""), Vec::<String>::new());
    assert_eq!(items(" , ,"), Vec::<String>::new());
    assert_eq!(items("one"), ["one"]);
}

#[test]
fn a_group_gives_the_prefix_before_each_alternative() {
    assert_eq!(items("hi-[ho, he]"), ["hi-ho", "hi-he"]);
    assert_eq!(items(" h i - [ ho , , he , ] "), ["hi-ho", "hi-he"]);
    assert_eq!(items("a[]"), Vec::<String>::new());
    assert_eq!(items("a[b]c, d"), ["ab", "c", "d"]);
}

#[test]
fn groups_nest() {
    assert_eq!(
        items("hi-[ho, he], he-[ho, hi, ha-[ha, he]]"),
        ["hi-ho", "hi-he", "he-ho", "he-hi", "he-ha-ha", "he-ha-he"]
    );
    assert_eq!(
        items("hello-[there, you-[are, great]]"),
        ["hello-there", "hello-you-are", "hello-you-great"]
    );
}

#[test]
fn a_closing_bracket_outside_a_group_ends_the_list() {
    let mut cursor = CharCursor::new("a, b], c");
    assert_eq!(_parse_names(&mut cursor, false).unwrap(), ["a", "b"]);
    assert_eq!(cursor.next(), Some(','));
    assert_eq!(_parse_names(&mut cursor, false).unwrap(), ["c"]);
    assert_eq!(cursor.next(), None);
}

#[test]
fn inside_a_group_the_end_of_the_text_is_an_error() {
    let e = _parse_names(&mut CharCursor::new("a, b"), true).unwrap_err();
    assert_eq!(e.kind, ErrorKind::UnclosedBracket);
    let mut cursor = CharCursor::new("a, b] rest");
    assert_eq!(_parse_names(&mut cursor, true).unwrap(), ["a", "b"]);
    assert_eq!(cursor.next(), Some(' '));
    assert_eq!(cursor.next(), Some('r'));
}

#[test]
fn grammar_errors() {
    for text in
        ["[]", "[hi]", "hi-[ho, [he]]", "a, [b]", "a,[b]", "a[b][c]", "a-[b] [c]", "a-[[b]]", " [a]"]
    {
        let e = _parse_names(&mut CharCursor::new(text), false).unwrap_err();
        assert_eq!(e.kind, ErrorKind::EmptyPrefix);
        assert_eq!(
            e.to_string(),
            "cannot have '[' after characters ',' or ']' or at start of string"
        );
    }
    for text in ["hi-[ho, he", "a[", "a[b[c]"] {
        let e = _parse_names(&mut CharCursor::new(text), false).unwrap_err();
        assert_eq!(e.kind, ErrorKind::UnclosedBracket);
        assert_eq!(e.to_string(), "brackets are not closed");
    }
}

#[test]
fn parse_names_gives_each_name_once() {
    let set = parse_names("hi, ho, HI, hi-[a, A]").unwrap();
    assert_eq!(set.len(), 3);
    assert_eq!(set.get(0).value(), "HI");
    assert_eq!(set.get(1).value(), "HO");
    assert_eq!(set.get(2).value(), "HI-A");
    assert!(set.contains(&ArtName::from_str("Ho").unwrap()));
    assert!(!set.contains(&ArtName::from_str("he").unwrap()));
    assert_eq!(parse_names("").unwrap().len(), 0);
}

#[test]
fn parse_names_of_the_examples() {
    let set = parse_names("hi-[ho, he], he-[ho, hi, ha-[ha, he]]").unwrap();
    let names: Vec<&str> = (0..set.len()).map(|i| set.get(i).value().as_str()).collect();
    assert_eq!(names, ["HI-HO", "HI-HE", "HE-HO", "HE-HI", "HE-HA-HA", "HE-HA-HE"]);
}

#[test]
fn parse_names_error_kinds() {
    assert_eq!(parse_names("hi-[ho, he").unwrap_err().kind, ErrorKind::UnclosedBracket);
    assert_eq!(parse_names("[hi]").unwrap_err().kind, ErrorKind::EmptyPrefix);
    assert_eq!(parse_names("[]").unwrap_err().kind, ErrorKind::EmptyPrefix);
    assert_eq!(parse_names("hi-[ho, [he]]").unwrap_err().kind, ErrorKind::EmptyPrefix);
    let e = parse_names("hi, h_o, a b, ?").unwrap_err();
    assert_eq!(e.kind, ErrorKind::InvalidName);
    assert_eq!(e.to_string(), "invalid artifact name: h_o");
    assert_eq!(parse_names("a-[-b]").unwrap_err().to_string(), "invalid artifact name: a--b");
}

#[test]
fn name_types() {
    assert_eq!(ArtName::from_str("req-foo").unwrap().get_type(), ArtType::REQ);
    assert_eq!(ArtName::from_str("SPC-core-load-table").unwrap().get_type(), ArtType::SPC);
    assert_eq!(ArtName::from_str("tst").unwrap().get_type(), ArtType::TST);
    assert_eq!(ArtName::from_str("reqs-foo").unwrap().get_type(), ArtType::Other);
    assert_eq!(ArtName::from_str("re").unwrap().get_type(), ArtType::Other);
    assert_eq!(ArtName::from_str("hi").unwrap().get_type(), ArtType::Other);
}

#[test]
fn names_are_normalized() {
    let a = ArtName::from_str("spc-Core-load2").unwrap();
    let b = ArtName::from_str("SPC-CORE-LOAD2").unwrap();
    assert_eq!(a.value(), "SPC-CORE-LOAD2");
    assert!(a.same(&b));
    assert!(a.clone().same(&a));
    assert!(!a.same(&ArtName::from_str("SPC-core-load").unwrap()));
}

#[test]
fn invalid_names() {
    for text in ["", "-", "a--b", "-a", "a-", "a b", "a_b", "a.b", "ä", "a,b", "a[b]"] {
        let e = ArtName::from_str(text).unwrap_err();
        assert_eq!(e.kind, ErrorKind::InvalidName);
        assert_eq!(e.to_string(), format!("invalid artifact name: {}", text));
    }
}

#[test]
fn name_sets() {
    let mut set = NameSet::new();
    assert!(set.insert(ArtName::from_str("a").unwrap()));
    assert!(set.insert(ArtName::from_str("b").unwrap()));
    assert!(!set.insert(ArtName::from_str("A").unwrap()));
    assert_eq!(set.len(), 2);
    let copy = set.clone();
    assert_eq!(copy.len(), 2);
    assert_eq!(copy.get(1).value(), "B");
}

#[test]
fn string_sets() {
    let set = StrSet::from_vec(vec!["x".to_string(), "y".to_string(), "x".to_string()]);
    assert_eq!(set.len(), 2);
    assert!(set.contains("y"));
    assert!(!set.contains("z"));
    let mut copy = set.clone();
    assert!(!copy.insert("x".to_string()));
    assert!(copy.insert("z".to_string()));
    assert_eq!(copy.get(2), "z");
    assert_eq!(set.len(), 2);
}

#[test]
fn characters_of_a_text() {
    assert_eq!(chars_of("aé[,"), ['a', 'é', '[', ',']);
    assert_eq!(chars_of(""), Vec::<char>::new());
}
