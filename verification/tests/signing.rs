use neutral_grid::signing::{hex_text, sign_base64, sign_hex};
use neutral_grid::text::{
    contains_text, radix_text, replace_all, same_text, split_on, starts_with, trim_trailing,
};

#[test]
fn texts_are_signed() {
    let message = "The quick brown fox jumps over the lazy dog";
    assert_eq!(
        sign_hex("key", message),
        "f7bc83f430538424b13298e6aa6fb143ef4d59a14946175997479dbc2d1a3cd8"
    );
    assert_eq!(sign_base64("key", message), "97yD9DBThCSxMpjmqm+xQ+9NWaFJRhdZl0edvC0aPNg=");
}

#[test]
fn bytes_are_written_in_hexadecimal() {
    assert_eq!(hex_text(&[0, 1, 15, 16, 171, 255]), "00010f10abff");
    assert_eq!(hex_text(&[]), "");
}

#[test]
fn texts_are_taken_apart() {
    assert_eq!(split_on("ETH-240105-2500-C", '-'), vec!["ETH", "240105", "2500", "C"]);
    assert_eq!(split_on("", '-'), vec![""]);
    assert_eq!(split_on("-a-", '-'), vec!["", "a", ""]);
    assert_eq!(trim_trailing("https://x//", '/'), "https://x");
    assert_eq!(trim_trailing("//", '/'), "");
    assert_eq!(replace_all("http://a?http://b", "http://", "ws://"), "ws://a?ws://b");
    assert_eq!(replace_all("aaa", "aa", "b"), "ba");
    assert!(same_text("ab", "ab") && !same_text("ab", "abc") && !same_text("ab", "aB"));
    assert!(starts_with("ETH-1", "ETH") && !starts_with("ET", "ETH") && starts_with("x", ""));
    assert!(contains_text("\"51059\" \"no\"", "51059") && !contains_text("5105", "51059"));
    assert!(contains_text("x", ""));
    assert_eq!(radix_text(0, 10), "0");
    assert_eq!(radix_text(255, 16), "ff");
    assert_eq!(radix_text(u64::MAX as u128, 10), u64::MAX.to_string());
}
