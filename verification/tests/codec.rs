use rts_client::codec::{parse_list, parse_table};
use rts_client::error::DecodeError;
use rts_client::tokens::{TokenReader, is_float_bytes, parse_i32_token, read_float, read_int};

fn owned(pairs: Vec<(&[u8], &[u8])>) -> Vec<(Vec<u8>, Vec<u8>)> {
    pairs.into_iter().map(|(k, v)| (k.to_vec(), v.to_vec())).collect()
}

#[test]
fn table_drops_empty_and_malformed_pairs() {
    let r = parse_table(b"{a=1,,b=2,c=}");
    assert_eq!(r, owned(vec![(b"a", b"1"), (b"b", b"2")]));
}

#[test]
fn table_drops_extra_equals_and_bare_values() {
    let r = parse_table(b"{a=b=c,=v,k=1}");
    assert_eq!(r, owned(vec![(b"k", b"1")]));
}

#[test]
fn table_of_short_input_is_empty() {
    assert_eq!(parse_table(b""), vec![]);
    assert_eq!(parse_table(b"{"), vec![]);
}

#[test]
fn list_skips_empty_pieces() {
    let r = parse_list(b"{a,,b}");
    assert_eq!(r, vec![b"a".to_vec(), b"b".to_vec()]);
}

#[test]
fn reader_skips_whitespace_runs() {
    let mut r = TokenReader::over(b"  12   34 ");
    assert_eq!(read_int(&mut r), Ok(12));
    assert_eq!(read_int(&mut r), Ok(34));
    assert_eq!(read_int(&mut r), Err(DecodeError::UnexpectedEof));
}

#[test]
fn read_int_rejects_garbage() {
    let mut r = TokenReader::over(b"12x 5");
    assert_eq!(read_int(&mut r), Err(DecodeError::NotAnInteger));
}

#[test]
fn int_token_bounds() {
    assert_eq!(parse_i32_token(b"2147483647"), Some(2147483647));
    assert_eq!(parse_i32_token(b"2147483648"), None);
    assert_eq!(parse_i32_token(b"-2147483648"), Some(-2147483648));
    assert_eq!(parse_i32_token(b"-2147483649"), None);
    assert_eq!(parse_i32_token(b"+5"), Some(5));
    assert_eq!(parse_i32_token(b"007"), Some(7));
    assert_eq!(parse_i32_token(b""), None);
    assert_eq!(parse_i32_token(b"-"), None);
    assert_eq!(parse_i32_token(b"99999999999999999999999"), None);
}

#[test]
fn float_token_grammar() {
    assert!(is_float_bytes(b"1.5"));
    assert!(is_float_bytes(b"-1.25"));
    assert!(is_float_bytes(b"1."));
    assert!(is_float_bytes(b".5"));
    assert!(is_float_bytes(b"3e5"));
    assert!(is_float_bytes(b"3.25E-2"));
    assert!(is_float_bytes(b"-inf"));
    assert!(is_float_bytes(b"Infinity"));
    assert!(is_float_bytes(b"NaN"));
    assert!(!is_float_bytes(b""));
    assert!(!is_float_bytes(b"."));
    assert!(!is_float_bytes(b"1e"));
    assert!(!is_float_bytes(b"1.2.3"));
    assert!(!is_float_bytes(b"--1"));
    assert!(!is_float_bytes(b"1 5"));
}

#[test]
fn read_float_reports_not_a_float() {
    let mut r = TokenReader::over(b"abc");
    assert_eq!(read_float(&mut r), Err(DecodeError::NotAFloat));
    let mut r2 = TokenReader::over(b"");
    assert_eq!(read_float(&mut r2), Err(DecodeError::UnexpectedEof));
    let mut r3 = TokenReader::over(b"2.5");
    assert_eq!(read_float(&mut r3), Ok(b"2.5".to_vec()));
}
