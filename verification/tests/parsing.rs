use intcode::parse_intcode;

#[test]
fn parse_simple_program() {
    assert_eq!(parse_intcode("1,5,5,0,99,3").unwrap(), vec![1, 5, 5, 0, 99, 3]);
}

#[test]
fn parse_signs() {
    assert_eq!(parse_intcode("+5,-7,0").unwrap(), vec![5, -7, 0]);
}

#[test]
fn parse_trims_surrounding_whitespace() {
    assert_eq!(parse_intcode(" \t1,2,3\n").unwrap(), vec![1, 2, 3]);
}

#[test]
fn parse_word_boundaries() {
    let text = format!("{},{}", isize::MIN, isize::MAX);
    assert_eq!(parse_intcode(&text).unwrap(), vec![isize::MIN, isize::MAX]);
}

#[test]
fn parse_rejects_empty_text() {
    assert!(parse_intcode("").is_err());
}

#[test]
fn parse_rejects_non_numeric_token() {
    assert!(parse_intcode("1,x,3").is_err());
}

#[test]
fn parse_rejects_empty_token() {
    assert!(parse_intcode("1,,2").is_err());
    assert!(parse_intcode("1,2,").is_err());
}

#[test]
fn parse_rejects_bare_sign() {
    assert!(parse_intcode("-").is_err());
}

#[test]
fn parse_rejects_overflowing_token() {
    assert!(parse_intcode("99999999999999999999999999").is_err());
}

#[test]
fn parse_rejects_inner_whitespace() {
    assert!(parse_intcode("1, 2").is_err());
}
