use hashcash::gencash::{try_gencash, GencashError};
use hashcash::header::{parse_challenge, parse_hashcash_header};
use reqwest::header::HeaderValue;

const TOKEN: &str = "wFqIT_wY3tYKcrm5zqwaUoWym3ZCz32cCsrJOgYBgihtpaWUhGyWJ--EY-zfwI-i";

fn read(text: &str) -> Option<(String, u8)> {
    let parsed = parse_challenge(text);
    if let Ok(value) = HeaderValue::from_str(text) {
        if text.is_ascii() {
            assert_eq!(parse_hashcash_header(&value), parsed);
        }
    }
    parsed
}

fn found(easiness: u8) -> Option<(String, u8)> {
    Some((TOKEN.to_string(), easiness))
}

#[test]
fn header_lines_are_read() {
    assert_eq!(read(&format!("1:180:1731410499:{TOKEN}")), found(180));
    assert_eq!(read(&format!("1:0::{TOKEN}")), found(0));
    assert_eq!(read(&format!("1:255:any thing:{TOKEN}")), found(255));
    assert_eq!(read(&format!("1:+007:1:{TOKEN}")), found(7));
}

#[test]
fn blanks_around_a_header_do_not_count() {
    assert_eq!(read(&format!(" \t 1:180:1:{TOKEN}\t ")), found(180));
    assert_eq!(read(&format!("\u{a0}\u{3000}1:180:1:{TOKEN}\u{2028}\r\n")), found(180));
    assert_eq!(read(&format!("\u{200b}1:180:1:{TOKEN}")), None);
    assert_eq!(read(&format!("1 :180:1:{TOKEN}")), None);
    assert_eq!(read(&format!("1: 180:1:{TOKEN}")), None);
    assert_eq!(read("   "), None);
}

#[test]
fn other_versions_are_refused() {
    assert_eq!(read(&format!("2:180:1:{TOKEN}")), None);
    assert_eq!(read(&format!("01:180:1:{TOKEN}")), None);
    assert_eq!(read(&format!(":180:1:{TOKEN}")), None);
}

#[test]
fn easiness_must_be_a_number_up_to_255() {
    for number in ["", "+", "-1", "256", "1000", "4294967476", "18x", "++1", "\u{661}"] {
        assert_eq!(read(&format!("1:{number}:1:{TOKEN}")), None);
    }
    assert_eq!(read(&format!("1:00000000000000255:1:{TOKEN}")), found(255));
}

#[test]
fn fields_must_be_complete() {
    assert_eq!(read(""), None);
    assert_eq!(read("1"), None);
    assert_eq!(read("1:180"), None);
    assert_eq!(read("1:180:1"), None);
    assert_eq!(read("1:180:1:"), None);
    assert_eq!(read(&format!("1:180:{TOKEN}")), None);
}

#[test]
fn token_must_be_64_bytes_long() {
    assert_eq!(read(&format!("1:180:1:{TOKEN}A")), None);
    assert_eq!(read(&format!("1:180:1:{}", &TOKEN[1..])), None);
    let colons = format!("{}:::", &TOKEN[3..]);
    assert_eq!(read(&format!("1:180:1:{colons}")), Some((colons, 180)));
    let accents = "\u{e9}".repeat(32);
    assert_eq!(parse_challenge(&format!("1:180:1:{accents}")), Some((accents, 180)));
}

#[test]
fn header_bytes_must_be_visible_ascii() {
    let mut bytes = format!("1:180:1:{TOKEN}").into_bytes();
    let value = HeaderValue::from_bytes(&bytes).unwrap();
    assert_eq!(parse_hashcash_header(&value), found(180));
    bytes[6] = 0xe9;
    let value = HeaderValue::from_bytes(&bytes).unwrap();
    assert_eq!(parse_hashcash_header(&value), None);
}

#[test]
fn header_token_never_has_the_wrong_length() {
    let (token, _) = read(&format!("1:180:1:{TOKEN}")).unwrap();
    assert!(try_gencash(&token, 255).is_ok());
    let (token, _) = read(&format!("1:180:1:{}", "=".repeat(64))).unwrap();
    assert_eq!(try_gencash(&token, 255), Err(GencashError::InvalidBase64));
}
