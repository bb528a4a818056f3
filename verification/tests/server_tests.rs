use gcd_server::form::parse_form;
use gcd_server::gcd::gcd;
use gcd_server::handlers::{get_form, handle_request, post_gcd, ContentType, Method, Response};
use gcd_server::text::{parse_u64, u64_to_dec};

fn contains(haystack: &[u8], needle: &[u8]) -> bool {
    haystack.windows(needle.len()).any(|w| w == needle)
}

fn assert_bad(r: &Response, body: &[u8]) {
    assert_eq!(r.status, 400);
    assert_eq!(r.content_type, None);
    assert_eq!(r.body, body.to_vec());
}

fn assert_ok(r: &Response, body: &[u8]) {
    assert_eq!(r.status, 200);
    assert_eq!(r.content_type, Some(ContentType::HtmlUtf8));
    assert_eq!(r.body, body.to_vec());
}

#[test]
fn test_gcd() {
    assert_eq!(gcd(14, 15), 1);
    let n1 = 2 * 3 * 5 * 11 * 17;
    let n2 = 3 * 7 * 11 * 13 * 19;
    let d = 3 * 11;
    assert_eq!(gcd(n1, n2), d)
}

#[test]
fn gcd_is_commutative_on_samples() {
    assert_eq!(gcd(48, 18), gcd(18, 48));
    assert_eq!(gcd(7, 21), gcd(21, 7));
    assert_eq!(gcd(1, 999), gcd(999, 1));
}

#[test]
fn gcd_of_a_number_with_itself() {
    assert_eq!(gcd(1, 1), 1);
    assert_eq!(gcd(97, 97), 97);
    assert_eq!(gcd(u64::MAX, u64::MAX), u64::MAX);
}

#[test]
fn post_two_numbers() {
    let r = post_gcd(b"n=48&n=18");
    assert_ok(&r, b"GCD is 6");
}

#[test]
fn post_without_the_field() {
    let r = post_gcd(b"m=48&q=18");
    assert_bad(&r, b"No numbers (\"n\") in form data\n");
}

#[test]
fn post_empty_body() {
    let r = post_gcd(b"");
    assert_bad(&r, b"No numbers (\"n\") in form data\n");
}

#[test]
fn post_a_word_instead_of_a_number() {
    let r = post_gcd(b"n=abc");
    assert_bad(&r, b"Bad number n=abc\n");
}

#[test]
fn post_a_single_number() {
    let r = post_gcd(b"n=7");
    assert_ok(&r, b"GCD is 7");
}

#[test]
fn post_an_empty_value() {
    let r = post_gcd(b"n=");
    assert_bad(&r, b"Bad number n=\n");
}

#[test]
fn post_a_field_without_a_value_sign() {
    let r = post_gcd(b"n");
    assert_bad(&r, b"Bad number n=\n");
}

#[test]
fn empty_pieces_between_separators_are_skipped() {
    let r = post_gcd(b"&n=48&&n=18&");
    assert_ok(&r, b"GCD is 6");
}

#[test]
fn a_pair_without_equals_has_an_empty_value() {
    let form = parse_form(b"flag&n=3").expect("well-formed body");
    let values = form.get(b"flag").expect("the field is present");
    assert_eq!(values, vec![b"".to_vec()]);
}

#[test]
fn post_stops_at_the_first_bad_value() {
    let r = post_gcd(b"n=4&n=abc&n=0def");
    assert_bad(&r, b"Bad number n=abc\n");
}

#[test]
fn post_many_numbers_in_order() {
    let r = post_gcd(b"n=12&n=18&n=30");
    assert_ok(&r, b"GCD is 6");
}

#[test]
fn post_zero_folds_by_the_identity() {
    let r = post_gcd(b"n=0&n=5");
    assert_ok(&r, b"GCD is 5");
    let r = post_gcd(b"n=5&n=0");
    assert_ok(&r, b"GCD is 5");
    let r = post_gcd(b"n=0");
    assert_ok(&r, b"GCD is 0");
}

#[test]
fn post_number_too_large_for_u64() {
    let r = post_gcd(b"n=18446744073709551616");
    assert_bad(&r, b"Bad number n=18446744073709551616\n");
    let r = post_gcd(b"n=18446744073709551615");
    assert_ok(&r, b"GCD is 18446744073709551615");
}

#[test]
fn post_percent_encoded_field_name() {
    let r = post_gcd(b"%6E=7");
    assert_ok(&r, b"GCD is 7");
}

#[test]
fn post_plus_decodes_to_space() {
    let r = post_gcd(b"n=+7");
    assert_bad(&r, b"Bad number n= 7\n");
}

#[test]
fn post_malformed_percent_escape() {
    let r = post_gcd(b"n=%G1");
    assert_bad(&r, b"Error parsing form data: invalid percent escape\n");
    let r = post_gcd(b"n=%4");
    assert_bad(&r, b"Error parsing form data: invalid percent escape\n");
}

#[test]
fn get_form_serves_the_calculator() {
    let r = get_form();
    assert_eq!(r.status, 200);
    assert_eq!(r.content_type, Some(ContentType::HtmlUtf8));
    assert!(contains(&r.body, b"<form"));
    assert!(contains(&r.body, b"action=\"/gcd\""));
    assert!(contains(&r.body, b"name=\"n\""));
}

#[test]
fn routing_serves_the_two_paths_only() {
    let r = handle_request(Method::Get, b"/", b"").expect("the root path is served");
    assert_eq!(r.status, 200);
    let r = handle_request(Method::Post, b"/gcd", b"n=48&n=18").expect("the gcd path is served");
    assert_eq!(r.body, b"GCD is 6".to_vec());
    assert!(handle_request(Method::Get, b"/gcd", b"").is_none());
    assert!(handle_request(Method::Post, b"/", b"").is_none());
    assert!(handle_request(Method::Get, b"/other", b"").is_none());
}

#[test]
fn form_data_keeps_order_and_duplicates() {
    let form = parse_form(b"a=1&n=x&b=2&n=y&n=x").expect("well-formed body");
    let values = form.get(b"n").expect("the field is present");
    let texts: Vec<&[u8]> = values.iter().map(|v| v.as_slice()).collect();
    assert_eq!(texts, vec![b"x" as &[u8], b"y", b"x"]);
    assert!(form.get(b"z").is_none());
}

#[test]
fn form_values_are_decoded() {
    let form = parse_form(b"n=%34%38&n=1+2").expect("well-formed body");
    let values = form.get(b"n").expect("the field is present");
    assert_eq!(values[0], b"48".to_vec());
    assert_eq!(values[1], b"1 2".to_vec());
}

#[test]
fn parse_u64_accepts_digits_only() {
    assert_eq!(parse_u64(b"0"), Some(0));
    assert_eq!(parse_u64(b"007"), Some(7));
    assert_eq!(parse_u64(b"18446744073709551615"), Some(u64::MAX));
    assert_eq!(parse_u64(b"18446744073709551616"), None);
    assert_eq!(parse_u64(b""), None);
    assert_eq!(parse_u64(b"1a"), None);
    assert_eq!(parse_u64(b"-1"), None);
    assert_eq!(parse_u64(b"+1"), None);
}

#[test]
fn u64_to_dec_writes_decimal() {
    assert_eq!(u64_to_dec(0), b"0".to_vec());
    assert_eq!(u64_to_dec(10), b"10".to_vec());
    assert_eq!(u64_to_dec(1234567890), b"1234567890".to_vec());
    assert_eq!(u64_to_dec(u64::MAX), b"18446744073709551615".to_vec());
}
