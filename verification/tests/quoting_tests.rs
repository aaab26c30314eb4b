use rpp_tree::serialize::serialise_term;

#[test]
fn plain_term_stays_unquoted() {
    assert_eq!(serialise_term(&b"apple".to_vec()), b"apple".to_vec());
}

#[test]
fn term_with_space_gets_double_quotes() {
    assert_eq!(serialise_term(&b"has space".to_vec()), b"\"has space\"".to_vec());
}

#[test]
fn term_with_double_quote_gets_single_quotes() {
    assert_eq!(serialise_term(&b"say \"hi\"".to_vec()), b"'say \"hi\"'".to_vec());
}

#[test]
fn term_with_inner_single_quote_stays_unquoted() {
    assert_eq!(serialise_term(&b"it's".to_vec()), b"it's".to_vec());
}

#[test]
fn spaced_term_with_single_quote_gets_double_quotes() {
    assert_eq!(serialise_term(&b"it's fine".to_vec()), b"\"it's fine\"".to_vec());
}

#[test]
fn term_with_both_quotes_gets_backticks() {
    assert_eq!(serialise_term(&b"say \"it's\"".to_vec()), b"`say \"it's\"`".to_vec());
}

#[test]
fn empty_term_becomes_quote_pair() {
    assert_eq!(serialise_term(&b"".to_vec()), b"\"\"".to_vec());
}

#[test]
fn backtick_becomes_single_quote() {
    assert_eq!(serialise_term(&b"a`b".to_vec()), b"a'b".to_vec());
}

#[test]
fn backtick_term_quoted_like_its_replacement() {
    assert_eq!(serialise_term(&b"a` b".to_vec()), b"\"a' b\"".to_vec());
}

#[test]
fn quote_leading_term_is_wrapped() {
    assert_eq!(serialise_term(&b"'lead".to_vec()), b"\"'lead\"".to_vec());
}
