use monoterm::params::{parse_token, split_params};

fn tokens_of(params: &[u8]) -> Vec<Vec<u8>> {
    split_params(params).into_iter().map(|t| t.to_vec()).collect()
}

#[test]
fn split_empty_list_is_one_empty_token() {
    assert_eq!(tokens_of(b""), vec![b"".to_vec()]);
}

#[test]
fn split_single_token() {
    assert_eq!(tokens_of(b"31"), vec![b"31".to_vec()]);
}

#[test]
fn split_at_every_separator() {
    assert_eq!(
        tokens_of(b"38;2;10;20;30"),
        vec![b"38".to_vec(), b"2".to_vec(), b"10".to_vec(), b"20".to_vec(), b"30".to_vec()]
    );
}

#[test]
fn split_keeps_empty_tokens() {
    assert_eq!(tokens_of(b";"), vec![b"".to_vec(), b"".to_vec()]);
    assert_eq!(tokens_of(b";1;;2;"), vec![
        b"".to_vec(),
        b"1".to_vec(),
        b"".to_vec(),
        b"2".to_vec(),
        b"".to_vec(),
    ]);
}

#[test]
fn split_tokens_borrow_in_order() {
    let params = b"1;22;333";
    let tokens = split_params(params);
    assert_eq!(tokens.len(), 3);
    assert_eq!(tokens[0], &params[0..1]);
    assert_eq!(tokens[1], &params[2..4]);
    assert_eq!(tokens[2], &params[5..8]);
}

#[test]
fn split_then_join_gives_the_list_back() {
    let lists: [&[u8]; 6] = [b"", b";", b"0", b"1;2", b";;7;", b"38;5;196;48;2;1;2;3"];
    for list in lists {
        let joined = tokens_of(list).join(&b';');
        assert_eq!(joined, list.to_vec());
    }
}

#[test]
fn parse_empty_token_is_zero() {
    assert_eq!(parse_token(b""), Some(0));
}

#[test]
fn parse_plain_codes() {
    assert_eq!(parse_token(b"0"), Some(0));
    assert_eq!(parse_token(b"7"), Some(7));
    assert_eq!(parse_token(b"38"), Some(38));
    assert_eq!(parse_token(b"107"), Some(107));
    assert_eq!(parse_token(b"255"), Some(255));
}

#[test]
fn parse_accepts_leading_zeros() {
    assert_eq!(parse_token(b"00"), Some(0));
    assert_eq!(parse_token(b"007"), Some(7));
    assert_eq!(parse_token(b"0000000000000000000000000000255"), Some(255));
}

#[test]
fn parse_rejects_values_over_255() {
    assert_eq!(parse_token(b"256"), None);
    assert_eq!(parse_token(b"300"), None);
    assert_eq!(parse_token(b"1000"), None);
    assert_eq!(parse_token(b"99999999999999999999999999999999999999"), None);
    assert_eq!(parse_token(b"0256"), None);
}

#[test]
fn parse_rejects_other_bytes() {
    assert_eq!(parse_token(b"a"), None);
    assert_eq!(parse_token(b"1a"), None);
    assert_eq!(parse_token(b" 1"), None);
    assert_eq!(parse_token(b"-1"), None);
    assert_eq!(parse_token(b"1;2"), None);
    assert_eq!(parse_token(b"/"), None);
    assert_eq!(parse_token(b":"), None);
}

#[test]
fn parse_agrees_with_decimal_spelling_of_every_code() {
    for code in 0..=255u8 {
        assert_eq!(parse_token(code.to_string().as_bytes()), Some(code));
    }
}
