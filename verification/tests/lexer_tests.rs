use rpp_tree::parser::element_tag;
use rpp_tree::parser::quoted_string;
use rpp_tree::parser::unquoted_string;

#[test]
fn quoted_string_test_01() {
    let input = b"'apple'".to_vec();
    let (result, _) = quoted_string(&input, 0).unwrap();
    assert_eq!(result, b"apple".to_vec());
}

#[test]
fn quoted_string_test_02() {
    let input = b"'app\"le'".to_vec();
    let (result, _) = quoted_string(&input, 0).unwrap();
    assert_eq!(result, b"app\"le".to_vec());
}

#[test]
fn quoted_string_test_03() {
    let input = b"\"asd asjhd basjh \"".to_vec();
    let (result, _) = quoted_string(&input, 0).unwrap();
    assert_eq!(result, b"asd asjhd basjh ".to_vec());
}

#[test]
fn quoted_string_test_04() {
    let input = b"`asd asjhd basjh `".to_vec();
    let (result, _) = quoted_string(&input, 0).unwrap();
    assert_eq!(result, b"asd asjhd basjh ".to_vec());
}

#[test]
fn quoted_string_test_05() {
    let input = b"`asd asjhd basjh ` 'hello'".to_vec();
    let (result, after) = quoted_string(&input, 0).unwrap();
    assert_eq!(result, b"asd asjhd basjh ".to_vec());
    assert_eq!(after, 18);
}

#[test]
fn quoted_string_test_06() {
    let input = b"`asd asjhd b\nasjh ` 'hello'".to_vec();
    assert!(quoted_string(&input, 0).is_err());
}

#[test]
fn unquoted_string_test_01() {
    let input = b"apple".to_vec();
    let (result, _) = unquoted_string(&input, 0).unwrap();
    assert_eq!(result, b"apple".to_vec());
}

#[test]
fn unquoted_string_test_02() {
    let input = b"hasquote''``' askjdla".to_vec();
    let (result, _) = unquoted_string(&input, 0).unwrap();
    assert_eq!(result, b"hasquote''``'".to_vec());
}

#[test]
fn unquoted_string_test_03() {
    let input = b"has space".to_vec();
    let (result, _) = unquoted_string(&input, 0).unwrap();
    assert_eq!(result, b"has".to_vec());
}

#[test]
fn unquoted_string_test_04() {
    let input = b"  leading space".to_vec();
    assert!(unquoted_string(&input, 0).is_err());
}

#[test]
fn unquoted_string_test_05() {
    let input = b"'hello'".to_vec();
    assert!(unquoted_string(&input, 0).is_err());
}

#[test]
fn element_tag_reads_up_to_space() {
    let input = b"TRACK 1 2".to_vec();
    let (tag, after) = element_tag(&input, 0).unwrap();
    assert_eq!(tag, b"TRACK".to_vec());
    assert_eq!(after, 5);
}
