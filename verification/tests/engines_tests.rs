use bins::engines::{
    choose_contents, finish_contents, ContentOutput, ContentRequest, ContentStep, Info, files_map, get_bin_by_domain, get_bin_by_name, get_bin_names, info_from_download, join_paste_files,
    json_files, known_contents, number_lines, paste_files, select_files, upload_response_url,
    urls_output, write_report, BinKind, PasteContents, PasteFile, RemotePasteFile,
};
use bins::error::BinsError;
use bins::index::Index;
use bins::paste_url::{parse_url, PasteUrl};

fn url(s: &str) -> PasteUrl {
    parse_url(s).unwrap()
}

fn remote(name: &str, n: u32) -> RemotePasteFile {
    RemotePasteFile {
        id: format!("id{}", n),
        name: name.to_string(),
        bin: "hastebin".to_string(),
        url: url(&format!("https://hastebin.com/p{}", n)),
        raw_url: url(&format!("https://hastebin.com/raw/p{}", n)),
        contents: PasteContents { truncated: false, value: Some(format!("text {}", n)) },
    }
}

fn names(v: &[RemotePasteFile]) -> Vec<String> {
    v.iter().map(|f| f.name.clone()).collect()
}

#[test]
fn bin_names_in_order() {
    assert_eq!(get_bin_names(), vec!["gist", "bitbucket", "sprunge", "hastebin", "pastebin", "pastie"]);
}

#[test]
fn bin_by_name_ignores_case() {
    assert!(get_bin_by_name("GIST") == Some(BinKind::Gist));
    assert!(get_bin_by_name("HasteBin") == Some(BinKind::Hastebin));
    assert!(get_bin_by_name("nopaste").is_none());
}

#[test]
fn bin_by_domain_ignores_case() {
    assert!(get_bin_by_domain("Sprunge.US") == Some(BinKind::Sprunge));
    assert!(get_bin_by_domain("pastie.org") == Some(BinKind::Pastie));
    assert!(get_bin_by_domain("example.com").is_none());
}

#[test]
fn number_lines_pads_to_the_widest_number() {
    assert_eq!(number_lines("a\nb"), "1  a\n2  b");
    let ten = (1..=10).map(|i| format!("l{}", i)).collect::<Vec<_>>().join("\n");
    let numbered = number_lines(&ten);
    assert!(numbered.starts_with(" 1  l1\n 2  l2\n"));
    assert!(numbered.ends_with("\n10  l10"));
    assert_eq!(number_lines(""), "1  ");
}

#[test]
fn join_of_one_file_is_its_text() {
    let files = vec![PasteFile { name: "a".to_string(), data: "hello".to_string() }];
    assert_eq!(join_paste_files(&files), "hello");
}

#[test]
fn join_of_several_files_shows_headers() {
    let files = vec![
        PasteFile { name: "a".to_string(), data: "x".to_string() },
        PasteFile { name: "b".to_string(), data: "y\n".to_string() },
    ];
    assert_eq!(join_paste_files(&files), "==> a <==\nx\n==> b <==\ny\n");
    assert_eq!(join_paste_files(&Vec::new()), "");
}

#[test]
fn urls_are_listed_one_per_line() {
    let files = vec![remote("a", 1), remote("b", 2)];
    assert_eq!(urls_output(&files), "https://hastebin.com/p1\nhttps://hastebin.com/p2");
}

#[test]
fn single_file_is_always_selected() {
    let r = select_files(vec![remote("a", 1)], &vec!["zzz".to_string()], &None, false).unwrap();
    assert_eq!(names(&r), vec!["a"]);
}

#[test]
fn several_files_without_choice_list_the_files() {
    match select_files(vec![remote("a", 1), remote("b", 2)], &Vec::new(), &None, false) {
        Err(BinsError::Msg(m)) => assert_eq!(
            m,
            "paste had multiple files, but no behavior was specified on the command line\n\navailable files:\n  a\n  b"
        ),
        _ => panic!("expected an error"),
    }
}

#[test]
fn files_are_chosen_by_name_ignoring_case_in_the_order_asked() {
    let files = vec![remote("One.txt", 1), remote("two.txt", 2), remote("three", 3)];
    let r = select_files(files, &vec!["THREE".to_string(), "one.TXT".to_string()], &None, false).unwrap();
    assert_eq!(names(&r), vec!["three", "One.txt"]);
}

#[test]
fn missing_or_repeated_name_is_not_found() {
    let files = vec![remote("a", 1), remote("b", 2)];
    match select_files(files, &vec!["c".to_string()], &None, false) {
        Err(e) => assert_eq!(e.message(), "file c not found"),
        Ok(_) => panic!("expected an error"),
    }
    let files = vec![remote("a", 1), remote("b", 2)];
    match select_files(files, &vec!["A".to_string(), "a".to_string()], &None, false) {
        Err(e) => assert_eq!(e.message(), "file a not found"),
        Ok(_) => panic!("expected an error"),
    }
}

#[test]
fn files_are_chosen_by_position() {
    let files = vec![remote("a", 1), remote("b", 2), remote("c", 3)];
    let r = select_files(files, &Vec::new(), &Some(vec![2, 0]), false).unwrap();
    assert_eq!(names(&r), vec!["c", "a"]);
    let files = vec![remote("a", 1), remote("b", 2)];
    match select_files(files, &Vec::new(), &Some(vec![1, 1]), false) {
        Err(e) => assert_eq!(e.message(), "file 1 not found"),
        Ok(_) => panic!("expected an error"),
    }
    let files = vec![remote("a", 1), remote("b", 2)];
    match select_files(files, &Vec::new(), &Some(vec![7]), true) {
        Err(e) => assert_eq!(e.message(), "file 7 not found"),
        Ok(_) => panic!("expected an error"),
    }
}

#[test]
fn all_files_are_chosen_when_asked() {
    let files = vec![remote("a", 1), remote("b", 2)];
    let r = select_files(files, &Vec::new(), &None, true).unwrap();
    assert_eq!(names(&r), vec!["a", "b"]);
}

#[test]
fn known_contents_skip_truncated_files() {
    let mut f = remote("a", 1);
    assert_eq!(known_contents(&f), Some("text 1".to_string()));
    f.contents.truncated = true;
    assert_eq!(known_contents(&f), None);
    let d = PasteContents::default();
    assert!(!d.truncated && d.value.is_none());
}

#[test]
fn files_map_keeps_order_and_later_duplicates() {
    let m = files_map(
        vec!["x".to_string(), "y".to_string(), "x".to_string()],
        vec!["1".to_string(), "2".to_string(), "3".to_string()],
    );
    let got: Vec<(String, String)> = m.iter().map(|(k, v)| (k.clone(), v.clone())).collect();
    assert_eq!(got, vec![("y".to_string(), "2".to_string()), ("x".to_string(), "3".to_string())]);
}

#[test]
fn paste_files_number_lines_when_asked() {
    let m = files_map(vec!["a".to_string()], vec!["p\nq".to_string()]);
    let plain = paste_files(&m, false);
    assert_eq!(plain[0].name, "a");
    assert_eq!(plain[0].data, "p\nq");
    let numbered = paste_files(&m, true);
    assert_eq!(numbered[0].data, "1  p\n2  q");
}

#[test]
fn json_files_fill_in_fetched_contents() {
    let m = files_map(vec!["b".to_string()], vec!["fetched".to_string()]);
    let r = json_files(vec![remote("a", 1), remote("b", 2)], &m).unwrap().unwrap();
    assert_eq!(r[0].contents.value, None);
    assert_eq!(r[1].contents.value, Some("fetched".to_string()));
    assert!(json_files(vec![remote("a", 1)], &m).unwrap().is_none());
    match json_files(Vec::new(), &m) {
        Err(e) => assert_eq!(e.message(), "paste had no output (this is a bug)"),
        Ok(_) => panic!("expected an error"),
    }
}

#[test]
fn write_report_lists_written_files() {
    let r = write_report(&vec![
        ("a".to_string(), "/tmp/a".to_string()),
        ("b".to_string(), "/tmp/b.1".to_string()),
    ]);
    assert_eq!(r, "Wrote a -> /tmp/a\nWrote b -> /tmp/b.1");
}

#[test]
fn upload_response_is_checked() {
    match upload_response_url(false, "500 Internal Server Error", "") {
        Err(e) => assert_eq!(e.message(), "status code 500 Internal Server Error"),
        Ok(_) => panic!("expected an error"),
    }
    let u = upload_response_url(true, "200 OK", "https://hastebin.com/abc").unwrap();
    assert_eq!(u.serialization, "https://hastebin.com/abc");
}

#[test]
fn plain_contents_give_one_file() {
    let u = url("https://hastebin.com/abc");
    let raw = url("https://hastebin.com/raw/abc");
    let content = "just text".to_string();
    let index = Index::parse(&content);
    let info = info_from_download("hastebin", &u, raw, content, index, Vec::new()).unwrap();
    assert_eq!(info.id, "abc");
    assert_eq!(info.name, "abc");
    assert_eq!(info.files.len(), 1);
    assert_eq!(info.files[0].name, "abc");
    assert_eq!(info.files[0].raw_url.serialization, "https://hastebin.com/raw/abc");
    assert_eq!(info.files[0].contents.value, Some("just text".to_string()));
    assert!(info.index.is_none());
    assert!(!info.raw);
    assert!(info.into_raw().raw);
}

#[test]
fn index_contents_give_one_file_per_entry() {
    let u = url("https://hastebin.com/idx");
    let raw = url("https://hastebin.com/raw/idx");
    let content = "2 files\n-------\n\n1. a.rs: https://hastebin.com/aa\n2. b.rs: https://hastebin.com/bb\n".to_string();
    let index = Index::parse(&content);
    let raws = vec![Ok(url("https://hastebin.com/raw/aa")), Ok(url("https://hastebin.com/raw/bb"))];
    let info = info_from_download("hastebin", &u, raw, content, index, raws).unwrap();
    assert_eq!(names(&info.files), vec!["a.rs", "b.rs"]);
    assert_eq!(info.files[1].id, "bb");
    assert_eq!(info.files[1].raw_url.serialization, "https://hastebin.com/raw/bb");
    assert_eq!(info.files[0].contents.value, None);
    assert!(info.index.is_some());
    assert_eq!(info.id, "idx");
}

#[test]
fn failed_raw_url_conversion_is_the_error() {
    let u = url("https://hastebin.com/idx");
    let raw = url("https://hastebin.com/raw/idx");
    let content = "1 files\n-------\n\n1. a.rs: https://hastebin.com/aa\n".to_string();
    let index = Index::parse(&content);
    let raws = vec![Err(BinsError::Msg("cannot convert".to_string()))];
    match info_from_download("hastebin", &u, raw, content, index, raws) {
        Err(e) => assert_eq!(e.message(), "cannot convert"),
        Ok(_) => panic!("expected an error"),
    }
}

#[test]
fn other_index_errors_are_passed_on() {
    let u = url("https://hastebin.com/idx");
    let raw = url("https://hastebin.com/raw/idx");
    let r = info_from_download("hastebin", &u, raw, "x".to_string(), Err(BinsError::Msg("boom".to_string())), Vec::new());
    match r {
        Err(e) => assert_eq!(e.message(), "boom"),
        Ok(_) => panic!("expected an error"),
    }
}

#[test]
fn root_url_without_segments_cannot_name_a_file() {
    let u = url("data:text/plain,hello");
    let raw = url("https://hastebin.com/raw/idx");
    match info_from_download("hastebin", &u, raw, "hello".to_string(), Err(BinsError::InvalidIndex), Vec::new()) {
        Err(e) => assert_eq!(e.message(), "paste url was a root url"),
        Ok(_) => panic!("expected an error"),
    }
}

fn request() -> ContentRequest {
    ContentRequest {
        files: Vec::new(),
        range: None,
        all: false,
        raw_urls: false,
        urls: false,
        json: false,
        number_lines: false,
        write: false,
    }
}

fn index_info() -> Info {
    let u = url("https://hastebin.com/idx");
    let raw = url("https://hastebin.com/raw/idx");
    let content = "2 files\n-------\n\n1. a.rs: https://hastebin.com/aa\n2. b.rs: https://hastebin.com/bb\n".to_string();
    let index = Index::parse(&content);
    let raws = vec![Ok(url("https://hastebin.com/raw/aa")), Ok(url("https://hastebin.com/raw/bb"))];
    info_from_download("hastebin", &u, raw, content, index, raws).unwrap()
}

#[test]
fn raw_info_unless_only_urls_are_asked_for() {
    let mut req = request();
    assert!(req.info_for(index_info()).raw);
    req.urls = true;
    assert!(!req.info_for(index_info()).raw);
}

#[test]
fn only_urls_are_shown_when_asked_for() {
    let info = index_info();
    let mut req = request();
    req.all = true;
    req.raw_urls = true;
    match choose_contents(&info, &req) {
        Ok(ContentStep::Output(s)) => assert_eq!(s, "https://hastebin.com/aa\nhttps://hastebin.com/bb"),
        _ => panic!("expected the URLs"),
    }
}

#[test]
fn chosen_files_are_handed_back_to_fetch() {
    let info = index_info();
    let mut req = request();
    req.range = Some(vec![1]);
    match choose_contents(&info, &req) {
        Ok(ContentStep::Fetch(v)) => assert_eq!(names(&v), vec!["b.rs"]),
        _ => panic!("expected files to fetch"),
    }
    req.range = None;
    match choose_contents(&info, &req) {
        Err(e) => assert!(e.message().starts_with("paste had multiple files")),
        _ => panic!("expected an error"),
    }
}

#[test]
fn fetched_texts_are_joined_numbered_or_listed() {
    let info = index_info();
    let chosen = vec![remote("a.rs", 1), remote("b.rs", 2)];
    let mut req = request();
    match finish_contents(&info, &req, &chosen, vec!["x".to_string(), "y".to_string()]) {
        Ok(ContentOutput::Text(s)) => assert_eq!(s, "==> a.rs <==\nx\n==> b.rs <==\ny"),
        _ => panic!("expected text"),
    }
    req.number_lines = true;
    req.write = true;
    match finish_contents(&info, &req, &chosen, vec!["x".to_string(), "y".to_string()]) {
        Ok(ContentOutput::Write(v)) => {
            assert_eq!(v.len(), 2);
            assert_eq!(v[1].name, "b.rs");
            assert_eq!(v[1].data, "1  y");
        }
        _ => panic!("expected files to write"),
    }
    req.json = true;
    match finish_contents(&info, &req, &vec![remote("b.rs", 2)], vec!["y".to_string()]) {
        Ok(ContentOutput::Json(Some(v))) => {
            assert_eq!(names(&v), vec!["a.rs", "b.rs"]);
            assert_eq!(v[0].contents.value, None);
            assert_eq!(v[1].contents.value, Some("y".to_string()));
        }
        _ => panic!("expected JSON files"),
    }
}

#[test]
fn bins_are_found_in_any_ascii_case() {
    for (name, b) in [("gist", BinKind::Gist), ("pastie", BinKind::Pastie), ("bitbucket", BinKind::Bitbucket)] {
        assert!(get_bin_by_name(&name.to_ascii_uppercase()) == Some(b));
    }
    assert!(get_bin_by_domain("HASTEBIN.COM") == Some(BinKind::Hastebin));
    assert!(get_bin_by_domain("PasteBin.Com") == Some(BinKind::Pastebin));
}
