use bins::error::BinsError;
use bins::index::{split_index, Index};
use bins::paste_url::parse_url;

fn url(s: &str) -> bins::paste_url::PasteUrl {
    match parse_url(s) {
        Ok(u) => u,
        Err(_) => panic!("test URL does not parse"),
    }
}

fn two_file_index() -> Index {
    Index::from_pairs(
        vec!["a.txt".to_string(), "my notes.md".to_string()],
        vec![url("https://hastebin.com/abc"), url("https://hastebin.com/def")],
    )
}

#[test]
fn index_text_has_header_separator_and_numbered_lines() {
    let idx = two_file_index();
    assert_eq!(
        idx.to_string(),
        "2 files\n-------\n\n1. a.txt: https://hastebin.com/abc\n2. my notes.md: https://hastebin.com/def\n"
    );
}

#[test]
fn index_of_twelve_files_has_wider_separator() {
    let mut names = Vec::new();
    let mut urls = Vec::new();
    for i in 0..12 {
        names.push(format!("f{}", i));
        urls.push(url(&format!("https://sprunge.us/x{}", i)));
    }
    let text = Index::from_pairs(names, urls).to_string();
    assert!(text.starts_with("12 files\n--------\n\n1. f0: https://sprunge.us/x0\n"));
    assert!(text.ends_with("12. f11: https://sprunge.us/x11\n"));
}

#[test]
fn index_round_trips_through_its_text() {
    let idx = two_file_index();
    let back = match Index::parse(&idx.to_string()) {
        Ok(i) => i,
        Err(_) => panic!("index did not read back"),
    };
    let got: Vec<(String, String)> =
        back.files.iter().map(|(k, v)| (k.clone(), v.serialization.clone())).collect();
    assert_eq!(
        got,
        vec![
            ("a.txt".to_string(), "https://hastebin.com/abc".to_string()),
            ("my notes.md".to_string(), "https://hastebin.com/def".to_string()),
        ]
    );
}

#[test]
fn split_index_reads_names_and_url_texts() {
    let text = "2 files\n-------\n\n1. a b: http://x.y/1\n\n   \n2. c: http://x.y/2: extra\n";
    let pairs = split_index(text).expect("an index");
    assert_eq!(
        pairs,
        vec![
            ("a b".to_string(), "http://x.y/1".to_string()),
            ("c".to_string(), "http://x.y/2".to_string()),
        ]
    );
}

#[test]
fn split_index_name_without_space_is_empty() {
    let pairs = split_index("h\ns\n\nxyz: http://a.b/\n").expect("an index");
    assert_eq!(pairs, vec![("".to_string(), "http://a.b/".to_string())]);
}

#[test]
fn text_with_fewer_than_four_lines_is_no_index() {
    assert_eq!(split_index("1 files\n-------\n"), None);
    assert!(matches!(Index::parse("1 files\n-------\n"), Err(BinsError::InvalidIndex)));
}

#[test]
fn line_without_separator_makes_no_index() {
    assert_eq!(split_index("1 files\n-------\n\n1. a http://x.y\n"), None);
    assert!(matches!(Index::parse("hello\nworld\n\nplain text\n"), Err(BinsError::InvalidIndex)));
}

#[test]
fn index_without_entries_is_invalid() {
    assert_eq!(split_index("0 files\n-------\n\n"), None);
    assert!(matches!(Index::parse("0 files\n-------\n\n"), Err(BinsError::InvalidIndex)));
}

#[test]
fn index_with_unparsable_url_is_invalid() {
    assert!(matches!(
        Index::parse("1 files\n-------\n\n1. a: not a url\n"),
        Err(BinsError::InvalidIndex)
    ));
}

#[test]
fn duplicate_names_keep_the_later_url_at_the_later_place() {
    let idx = Index::from_pairs(
        vec!["a".to_string(), "b".to_string(), "a".to_string()],
        vec![url("http://x.y/1"), url("http://x.y/2"), url("http://x.y/3")],
    );
    let got: Vec<(String, String)> =
        idx.files.iter().map(|(k, v)| (k.clone(), v.serialization.clone())).collect();
    assert_eq!(
        got,
        vec![
            ("b".to_string(), "http://x.y/2".to_string()),
            ("a".to_string(), "http://x.y/3".to_string()),
        ]
    );
}

#[test]
fn from_parsed_with_a_failed_url_is_invalid() {
    let r = Index::from_parsed(
        vec!["a".to_string()],
        vec![Err(BinsError::Msg("relative URL without a base".to_string()))],
    );
    assert!(matches!(r, Err(BinsError::InvalidIndex)));
    let ok = Index::from_parsed(vec!["a".to_string()], vec![Ok(url("http://x.y/1"))]).unwrap();
    assert_eq!(ok.files.len(), 1);
}

#[test]
fn index_file_for_upload_is_named_index_md() {
    let f = bins::engines::index_paste_file(&two_file_index());
    assert_eq!(f.name, "index.md");
    assert!(f.data.starts_with("2 files\n"));
}
