use bins::engines::{produce_id, Bin, BinKind, ProduceId, VerifyUrl};
use bins::error::BinsError;
use bins::paste_url::{last_path_segment, parse_url, url_segments};

#[test]
fn parse_url_normalizes_the_serialization() {
    let u = parse_url("HTTPS://Example.NET").unwrap();
    assert_eq!(u.serialization, "https://example.net/");
    assert_eq!(u.segments, Some(vec!["".to_string()]));
}

#[test]
fn parse_url_failure_carries_the_parser_message() {
    match parse_url("no scheme here") {
        Err(BinsError::Msg(m)) => assert_eq!(m, "relative URL without a base"),
        _ => panic!("expected an error"),
    }
}

#[test]
fn data_url_has_no_path_segments() {
    let u = parse_url("data:text/plain,Hello").unwrap();
    assert_eq!(u.segments, None);
    assert_eq!(last_path_segment(&u), None);
}

#[test]
fn produce_id_is_last_path_segment() {
    let u = parse_url("https://hastebin.com/raw/abcdef").unwrap();
    assert_eq!(produce_id(&u).unwrap(), "abcdef");
    assert_eq!(BinKind::Hastebin.produce_id(&u).unwrap(), "abcdef");
    let root = parse_url("https://hastebin.com/").unwrap();
    assert_eq!(produce_id(&root).unwrap(), "");
}

#[test]
fn produce_id_fails_without_path_segments() {
    let u = parse_url("mailto:someone@example.com").unwrap();
    match produce_id(&u) {
        Err(e) => assert_eq!(e.message(), "no last path segment"),
        Ok(_) => panic!("expected an error"),
    }
}

#[test]
fn segments_drop_empty_ones() {
    let u = parse_url("https://gist.github.com/user//abc/").unwrap();
    assert_eq!(url_segments(&u), vec!["user".to_string(), "abc".to_string()]);
    assert_eq!(BinKind::Gist.segments(&u), vec!["user".to_string(), "abc".to_string()]);
    let d = parse_url("data:x").unwrap();
    assert!(url_segments(&d).is_empty());
}

#[test]
fn duplicate_keeps_the_url() {
    let u = parse_url("https://sprunge.us/abc?x=1").unwrap();
    let d = u.duplicate();
    assert_eq!(d.serialization, u.serialization);
    assert_eq!(d.segments, u.segments);
    assert_eq!(d.as_str(), "https://sprunge.us/abc?x=1");
}

#[test]
fn bins_have_names_and_domains() {
    assert_eq!(BinKind::Pastie.get_name(), "pastie");
    assert_eq!(BinKind::Gist.get_domain(), "gist.github.com");
}

#[test]
fn error_messages() {
    assert_eq!(BinsError::InvalidIndex.message(), "invalid index file");
    assert!(BinsError::InvalidIndex.is_invalid_index());
    assert_eq!(BinsError::Msg("x".to_string()).message(), "x");
    assert!(!BinsError::Msg("x".to_string()).is_invalid_index());
}
