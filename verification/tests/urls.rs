use vfd::bookish;
use vfd::urls::is_url;

#[test]
fn urls_is_url_matches_valid_urls() {
    assert!(is_url("https://example.net/"));
    assert!(is_url("https://example.net/picture.jpg"));
    assert!(is_url("https://example.net/picture.jpg?query=cat"));
}

#[test]
fn urls_is_url_does_not_match_invalid_urls() {
    assert!(!is_url("XXX"));
    assert!(!is_url(""));
}

#[test]
fn bookish_recognises_urls_in_the_same_way() {
    assert!(bookish::urls::is_url("https://example.net/picture.jpg"));
    assert!(!bookish::urls::is_url("XXX"));
}
