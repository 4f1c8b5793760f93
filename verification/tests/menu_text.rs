use native32emu::menu_text::str_sub_field;

#[test]
fn picks_a_field_by_number() {
    assert_eq!(str_sub_field("a,b,c", ",", "1"), "a");
    assert_eq!(str_sub_field("a,b,c", ",", "2"), "b");
    assert_eq!(str_sub_field("a,b,c", ",", " 3 "), "c");
    assert_eq!(str_sub_field("a,b,c", ",", "+1"), "a");
}

#[test]
fn field_out_of_range_or_unreadable_is_empty() {
    assert_eq!(str_sub_field("a,b,c", ",", "0"), "");
    assert_eq!(str_sub_field("a,b,c", ",", "4"), "");
    assert_eq!(str_sub_field("a,b,c", ",", "x"), "");
    assert_eq!(str_sub_field("a,b,c", ",", "99999999999999999999999"), "");
    assert_eq!(str_sub_field("a,b,c", ",", ""), "");
}

#[test]
fn longer_delimiters_and_empty_fields() {
    assert_eq!(str_sub_field("abc::def", "::", "2"), "def");
    assert_eq!(str_sub_field("a,b,", ",", "3"), "");
    assert_eq!(str_sub_field(",x", ",", "2"), "x");
}

#[test]
fn empty_delimiter_keeps_the_whole_string() {
    assert_eq!(str_sub_field("abc", "", "1"), "abc");
    assert_eq!(str_sub_field("abc", "", "2"), "");
}
