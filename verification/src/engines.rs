//! Paste services ("bins") and the logic that turns what a service returns
//! into the files of a paste, and the files of a paste into output.
//!
//! Network transfers are not made here: the functions take what a transfer
//! returned and decide what follows.

use vstd::prelude::*;
use crate::error::{error_text, msg_error, BinsError};
use crate::maps::{
    assoc, entry_insert, insert_all, keys_distinct, lemma_assoc_in, lemma_insert_all_subset,
    lemma_remove_key_subset, remove_key,
};
use crate::paste_url::{url_parse, last_segment, parse_url, parse_url_spec, strings_view, PasteUrl, UrlView};
use crate::text::{
    chars_of, decimal, decimal_chars, extend_chars, join, join_chars, lowercase, split_char,
    split_chars, str_eq, string_of, to_lowercase, lemma_decimal_len_monotonic, ascii_lower_text,
    is_ascii_text,
    lemma_split_char_nonempty,
};

verus! {

// ----------------------------------------------------------------------------
// Contents of files
// ----------------------------------------------------------------------------

/// The contents of a file of a paste, as far as they are known.
#[derive(Debug)]
pub struct PasteContents {
    /// Whether the service cut the contents short.
    pub truncated: bool,
    /// The contents, if they were fetched.
    pub value: Option<String>,
}

/// What the library knows of the contents of a file.
pub struct ContentsView {
    pub truncated: bool,
    pub value: Option<Seq<char>>,
}

/// The view of an optional string.
pub open spec fn opt_view(o: Option<String>) -> Option<Seq<char>> {
    match o {
        Some(s) => Some(s@),
        None => None,
    }
}

impl View for PasteContents {
    type V = ContentsView;

    open spec fn view(&self) -> ContentsView {
        ContentsView { truncated: self.truncated, value: opt_view(self.value) }
    }
}

impl Default for PasteContents {
    /// Contents that are not cut short and not known.
    fn default() -> (r: Self)
        ensures
            !r.truncated,
            r.value is None,
    {
        PasteContents { truncated: false, value: None }
    }
}

fn clone_opt_string(o: &Option<String>) -> (r: Option<String>)
    ensures
        opt_view(r) == opt_view(*o),
{
    match o {
        Some(s) => Some(s.clone()),
        None => None,
    }
}

impl PasteContents {
    /// A copy of these contents.
    pub fn duplicate(&self) -> (r: PasteContents)
        ensures
            r@ == self@,
    {
        PasteContents { truncated: self.truncated, value: clone_opt_string(&self.value) }
    }
}

// ----------------------------------------------------------------------------
// Files of a paste on a service
// ----------------------------------------------------------------------------

/// A file of a paste on a service.
#[derive(Debug)]
pub struct RemotePasteFile {
    pub id: String,
    pub name: String,
    pub bin: String,
    pub url: PasteUrl,
    pub raw_url: PasteUrl,
    pub contents: PasteContents,
}

/// What the library knows of a file of a paste on a service.
pub struct RemoteFileView {
    pub id: Seq<char>,
    pub name: Seq<char>,
    pub bin: Seq<char>,
    pub url: UrlView,
    pub raw_url: UrlView,
    pub contents: ContentsView,
}

impl View for RemotePasteFile {
    type V = RemoteFileView;

    open spec fn view(&self) -> RemoteFileView {
        RemoteFileView {
            id: self.id@,
            name: self.name@,
            bin: self.bin@,
            url: self.url@,
            raw_url: self.raw_url@,
            contents: self.contents@,
        }
    }
}

/// The views of a list of files.
pub open spec fn files_view(v: Seq<RemotePasteFile>) -> Seq<RemoteFileView> {
    v.map_values(|f: RemotePasteFile| f@)
}

impl RemotePasteFile {
    /// A copy of this file.
    pub fn duplicate(&self) -> (r: RemotePasteFile)
        ensures
            r@ == self@,
    {
        RemotePasteFile {
            id: self.id.clone(),
            name: self.name.clone(),
            bin: self.bin.clone(),
            url: self.url.duplicate(),
            raw_url: self.raw_url.duplicate(),
            contents: self.contents.duplicate(),
        }
    }
}

/// A copy of a list of files.
pub fn duplicate_files(v: &Vec<RemotePasteFile>) -> (r: Vec<RemotePasteFile>)
    ensures
        files_view(r@) == files_view(v@),
{
    let mut r: Vec<RemotePasteFile> = Vec::new();
    let n = v.len();
    for i in 0..n
        invariant
            n == v@.len(),
            r@.len() == i,
            forall|j: int| 0 <= j < i ==> (#[trigger] r@[j])@ == v@[j]@,
    {
        r.push(v[i].duplicate());
    }
    assert(files_view(r@) =~= files_view(v@));
    r
}

/// A file to upload, or a file of output: a name and its text.
#[derive(Debug)]
pub struct PasteFile {
    pub name: String,
    pub data: String,
}

/// The views of a list of files to upload: names with texts.
pub open spec fn paste_files_view(v: Seq<PasteFile>) -> Seq<(Seq<char>, Seq<char>)> {
    v.map_values(|p: PasteFile| (p.name@, p.data@))
}

// ----------------------------------------------------------------------------
// The services
// ----------------------------------------------------------------------------

/// A paste service that `bins` can use.
#[derive(PartialEq, Eq, Structural, Clone, Copy, Debug)]
pub enum BinKind {
    Gist,
    Bitbucket,
    Sprunge,
    Hastebin,
    Pastebin,
    Pastie,
}

/// A paste service: it has a name and a domain.
pub trait Bin {
    /// The name of the service.
    fn get_name(&self) -> &str;

    /// The domain of the service's web site.
    fn get_domain(&self) -> &str;
}

/// A service that keeps the files of a paste of several files apart and
/// lists them in an index.
pub trait UsesIndices {
}

/// A service that takes uploads at a fixed URL.
pub trait UploadUrl {
    /// The URL that uploads go to.
    fn get_upload_url(&self) -> &str;
}

/// The name of each service.
pub open spec fn bin_name(b: BinKind) -> Seq<char> {
    match b {
        BinKind::Gist => "gist"@,
        BinKind::Bitbucket => "bitbucket"@,
        BinKind::Sprunge => "sprunge"@,
        BinKind::Hastebin => "hastebin"@,
        BinKind::Pastebin => "pastebin"@,
        BinKind::Pastie => "pastie"@,
    }
}

/// The domain of each service.
pub open spec fn bin_domain(b: BinKind) -> Seq<char> {
    match b {
        BinKind::Gist => "gist.github.com"@,
        BinKind::Bitbucket => "bitbucket.org"@,
        BinKind::Sprunge => "sprunge.us"@,
        BinKind::Hastebin => "hastebin.com"@,
        BinKind::Pastebin => "pastebin.com"@,
        BinKind::Pastie => "pastie.org"@,
    }
}

fn static_name(b: BinKind) -> (r: &'static str)
    ensures
        r@ == bin_name(b),
{
    match b {
        BinKind::Gist => "gist",
        BinKind::Bitbucket => "bitbucket",
        BinKind::Sprunge => "sprunge",
        BinKind::Hastebin => "hastebin",
        BinKind::Pastebin => "pastebin",
        BinKind::Pastie => "pastie",
    }
}

impl Bin for BinKind {
    fn get_name(&self) -> (r: &str)
        ensures
            r@ == bin_name(*self),
    {
        match self {
            BinKind::Gist => "gist",
            BinKind::Bitbucket => "bitbucket",
            BinKind::Sprunge => "sprunge",
            BinKind::Hastebin => "hastebin",
            BinKind::Pastebin => "pastebin",
            BinKind::Pastie => "pastie",
        }
    }

    fn get_domain(&self) -> (r: &str)
        ensures
            r@ == bin_domain(*self),
    {
        match self {
            BinKind::Gist => "gist.github.com",
            BinKind::Bitbucket => "bitbucket.org",
            BinKind::Sprunge => "sprunge.us",
            BinKind::Hastebin => "hastebin.com",
            BinKind::Pastebin => "pastebin.com",
            BinKind::Pastie => "pastie.org",
        }
    }
}

/// All services, in the order in which they are searched.
pub open spec fn bin_order() -> Seq<BinKind> {
    seq![
        BinKind::Gist,
        BinKind::Bitbucket,
        BinKind::Sprunge,
        BinKind::Hastebin,
        BinKind::Pastebin,
        BinKind::Pastie,
    ]
}

/// All services, in the order in which they are searched.
pub fn all_bins() -> (r: Vec<BinKind>)
    ensures
        r@ == bin_order(),
{
    let r = vec![
        BinKind::Gist,
        BinKind::Bitbucket,
        BinKind::Sprunge,
        BinKind::Hastebin,
        BinKind::Pastebin,
        BinKind::Pastie,
    ];
    assert(r@ =~= bin_order());
    r
}

/// The names of all services, in order.
pub fn get_bin_names() -> (r: Vec<&'static str>)
    ensures
        r@.map_values(|s: &str| s@) == bin_order().map_values(|b: BinKind| bin_name(b)),
{
    let bins = all_bins();
    let mut r: Vec<&'static str> = Vec::new();
    for i in 0..bins.len()
        invariant
            bins@ == bin_order(),
            r@.len() == i,
            forall|j: int| 0 <= j < i ==> (#[trigger] r@[j])@ == bin_name(bin_order()[j]),
    {
        r.push(static_name(bins[i]));
    }
    assert(r@.map_values(|s: &str| s@) =~= bin_order().map_values(|b: BinKind| bin_name(b)));
    r
}

/// The first of `bins` whose name (`by_name`) or domain (otherwise) lowercases
/// to the same text as `key` does.
pub open spec fn first_bin(bins: Seq<BinKind>, key: Seq<char>, by_name: bool) -> Option<BinKind>
    decreases bins.len(),
{
    if bins.len() == 0 {
        None
    } else if lowercase(
        if by_name {
            bin_name(bins[0])
        } else {
            bin_domain(bins[0])
        },
    ) == lowercase(key) {
        Some(bins[0])
    } else {
        first_bin(bins.drop_first(), key, by_name)
    }
}

/// The first of `bins` whose name (`by_name`) or domain (otherwise) has the
/// same ASCII lowercase as `key`.
pub open spec fn first_bin_ascii(bins: Seq<BinKind>, key: Seq<char>, by_name: bool) -> Option<BinKind>
    decreases bins.len(),
{
    if bins.len() == 0 {
        None
    } else if ascii_lower_text(
        if by_name {
            bin_name(bins[0])
        } else {
            bin_domain(bins[0])
        },
    ) == ascii_lower_text(key) {
        Some(bins[0])
    } else {
        first_bin_ascii(bins.drop_first(), key, by_name)
    }
}

/// The name and the domain of every service are ASCII and already lowercase.
pub proof fn lemma_bin_labels(b: BinKind)
    ensures
        is_ascii_text(bin_name(b)),
        is_ascii_text(bin_domain(b)),
        ascii_lower_text(bin_name(b)) == bin_name(b),
        ascii_lower_text(bin_domain(b)) == bin_domain(b),
{
    reveal_strlit("gist");
    reveal_strlit("bitbucket");
    reveal_strlit("sprunge");
    reveal_strlit("hastebin");
    reveal_strlit("pastebin");
    reveal_strlit("pastie");
    reveal_strlit("gist.github.com");
    reveal_strlit("bitbucket.org");
    reveal_strlit("sprunge.us");
    reveal_strlit("hastebin.com");
    reveal_strlit("pastebin.com");
    reveal_strlit("pastie.org");
    assert(ascii_lower_text(bin_name(b)) =~= bin_name(b));
    assert(ascii_lower_text(bin_domain(b)) =~= bin_domain(b));
}

/// The length and first character of a service's name and domain, which
/// tell the services apart.
proof fn lemma_bin_label_marks(b: BinKind)
    ensures
        bin_name(b).len() == match b {
            BinKind::Gist => 4int,
            BinKind::Bitbucket => 9,
            BinKind::Sprunge => 7,
            BinKind::Hastebin => 8,
            BinKind::Pastebin => 8,
            BinKind::Pastie => 6,
        },
        bin_domain(b).len() == match b {
            BinKind::Gist => 15int,
            BinKind::Bitbucket => 13,
            BinKind::Sprunge => 10,
            BinKind::Hastebin => 12,
            BinKind::Pastebin => 12,
            BinKind::Pastie => 10,
        },
        bin_name(b)[0] == bin_domain(b)[0],
        bin_name(b)[0] == match b {
            BinKind::Gist => 'g',
            BinKind::Bitbucket => 'b',
            BinKind::Sprunge => 's',
            BinKind::Hastebin => 'h',
            BinKind::Pastebin => 'p',
            BinKind::Pastie => 'p',
        },
{
    match b {
        BinKind::Gist => {
            reveal_strlit("gist");
            reveal_strlit("gist.github.com");
        },
        BinKind::Bitbucket => {
            reveal_strlit("bitbucket");
            reveal_strlit("bitbucket.org");
        },
        BinKind::Sprunge => {
            reveal_strlit("sprunge");
            reveal_strlit("sprunge.us");
        },
        BinKind::Hastebin => {
            reveal_strlit("hastebin");
            reveal_strlit("hastebin.com");
        },
        BinKind::Pastebin => {
            reveal_strlit("pastebin");
            reveal_strlit("pastebin.com");
        },
        BinKind::Pastie => {
            reveal_strlit("pastie");
            reveal_strlit("pastie.org");
        },
    }
}

/// No two services share a name, nor a domain.
proof fn lemma_bin_labels_distinct(x: BinKind, b: BinKind)
    ensures
        bin_name(x) == bin_name(b) ==> x == b,
        bin_domain(x) == bin_domain(b) ==> x == b,
{
    lemma_bin_label_marks(x);
    lemma_bin_label_marks(b);
}

/// A service is found by its name, or by its domain, written in any mix of
/// ASCII upper and lower case.
pub proof fn law_bin_found_in_any_case(b: BinKind, key: Seq<char>, by_name: bool)
    requires
        is_ascii_text(key),
        ascii_lower_text(key) == if by_name {
            bin_name(b)
        } else {
            bin_domain(b)
        },
    ensures
        first_bin_ascii(bin_order(), key, by_name) == Some(b),
{
    let bins = bin_order();
    assert forall|k: int| 0 <= k < bins.len() implies (ascii_lower_text(
        if by_name {
            bin_name(#[trigger] bins[k])
        } else {
            bin_domain(bins[k])
        },
    ) == ascii_lower_text(key) <==> bins[k] == b) by {
        lemma_bin_labels(bins[k]);
        lemma_bin_labels_distinct(bins[k], b);
    }
    lemma_first_bin_ascii_finds(bins, key, by_name, b);
}

/// Among services listed once each, the one whose label matches is found.
proof fn lemma_first_bin_ascii_finds(bins: Seq<BinKind>, key: Seq<char>, by_name: bool, b: BinKind)
    requires
        bins.contains(b),
        forall|k: int| 0 <= k < bins.len() ==> (ascii_lower_text(
            if by_name {
                bin_name(#[trigger] bins[k])
            } else {
                bin_domain(bins[k])
            },
        ) == ascii_lower_text(key) <==> bins[k] == b),
    ensures
        first_bin_ascii(bins, key, by_name) == Some(b),
    decreases bins.len(),
{
    assert(bins.len() > 0);
    let l0 = ascii_lower_text(if by_name { bin_name(bins[0]) } else { bin_domain(bins[0]) });
    if l0 != ascii_lower_text(key) {
        let j = choose|j: int| 0 <= j < bins.len() && bins[j] == b;
        assert(j != 0);
        assert(bins.drop_first()[j - 1] == b);
        assert forall|k: int| 0 <= k < bins.drop_first().len() implies (ascii_lower_text(
            if by_name {
                bin_name(#[trigger] bins.drop_first()[k])
            } else {
                bin_domain(bins.drop_first()[k])
            },
        ) == ascii_lower_text(key) <==> bins.drop_first()[k] == b) by {
            assert(bins.drop_first()[k] == bins[k + 1]);
        }
        lemma_first_bin_ascii_finds(bins.drop_first(), key, by_name, b);
    }
}

fn find_bin(key: &str, by_name: bool) -> (r: Option<BinKind>)
    ensures
        r == first_bin(bin_order(), key@, by_name),
        is_ascii_text(key@) ==> r == first_bin_ascii(bin_order(), key@, by_name),
{
    let bins = all_bins();
    let key_lower = to_lowercase(key);
    let n = bins.len();
    assert(bin_order().skip(0) =~= bin_order());
    for i in 0..n
        invariant
            n == bins@.len(),
            bins@ == bin_order(),
            key_lower@ == lowercase(key@),
            is_ascii_text(key@) ==> key_lower@ == ascii_lower_text(key@),
            first_bin(bin_order(), key@, by_name) == first_bin(bin_order().skip(i as int), key@, by_name),
            is_ascii_text(key@) ==> first_bin_ascii(bin_order(), key@, by_name) == first_bin_ascii(
                bin_order().skip(i as int),
                key@,
                by_name,
            ),
    {
        let b = bins[i];
        let label = if by_name {
            b.get_name()
        } else {
            b.get_domain()
        };
        proof {
            lemma_bin_labels(b);
        }
        let label_lower = to_lowercase(label);
        assert(bin_order().skip(i as int)[0] == b);
        if str_eq(label_lower.as_str(), key_lower.as_str()) {
            return Some(b);
        }
        assert(bin_order().skip(i as int).drop_first() =~= bin_order().skip(i + 1));
    }
    assert(bin_order().skip(n as int).len() == 0);
    None
}

/// The service whose name matches `name`, ignoring case.
pub fn get_bin_by_name(name: &str) -> (r: Option<BinKind>)
    ensures
        r == first_bin(bin_order(), name@, true),
        is_ascii_text(name@) ==> r == first_bin_ascii(bin_order(), name@, true),
{
    find_bin(name, true)
}

/// The service whose domain matches `domain`, ignoring case.
pub fn get_bin_by_domain(domain: &str) -> (r: Option<BinKind>)
    ensures
        r == first_bin(bin_order(), domain@, false),
        is_ascii_text(domain@) ==> r == first_bin_ascii(bin_order(), domain@, false),
{
    find_bin(domain, false)
}

// ----------------------------------------------------------------------------
// Identifiers
// ----------------------------------------------------------------------------

/// The id of a paste: the last path segment of its URL.
pub open spec fn produce_id_spec(url: UrlView, r: Result<String, BinsError>) -> bool {
    match last_segment(url) {
        Some(s) => r matches Ok(id) && id@ == s,
        None => r matches Err(BinsError::Msg(m)) && m@ == "no last path segment"@,
    }
}

/// Produces the id of a paste from its URL.
pub trait ProduceId {
    /// The id of the paste at `url`.
    fn produce_id(&self, url: &PasteUrl) -> Result<String, BinsError>;
}

impl ProduceId for BinKind {
    /// Every service takes the last path segment of the URL as the id.
    fn produce_id(&self, url: &PasteUrl) -> (r: Result<String, BinsError>)
        ensures
            produce_id_spec(url@, r),
    {
        produce_id(url)
    }
}

/// The id of the paste at `url`: the last path segment of the URL.
pub fn produce_id(url: &PasteUrl) -> (r: Result<String, BinsError>)
    ensures
        produce_id_spec(url@, r),
{
    match crate::paste_url::last_path_segment(url) {
        Some(s) => Ok(s),
        None => Err(msg_error("no last path segment")),
    }
}

/// A service that names the non-empty path segments of a URL, to decide
/// whether the URL is one of its pastes.
pub trait VerifyUrl {
    /// The non-empty path segments of `url`, in order.
    fn segments(&self, url: &PasteUrl) -> (r: Vec<String>)
        ensures
            strings_view(r@) == crate::paste_url::non_empty_segments(url@),
    {
        crate::paste_url::url_segments(url)
    }
}

impl VerifyUrl for BinKind {
}

// ----------------------------------------------------------------------------
// Output
// ----------------------------------------------------------------------------

/// `n` spaces.
pub open spec fn spaces(n: nat) -> Seq<char> {
    Seq::new(n, |i: int| ' ')
}

/// The `i`-th line (counting from one) of a text whose line numbers are
/// `width` characters wide: the number, right-aligned, two spaces, and the
/// line.
pub open spec fn numbered_line(i: nat, width: nat, line: Seq<char>) -> Seq<char> {
    spaces((width - decimal(i).len()) as nat) + decimal(i) + seq![' ', ' '] + line
}

/// `s` with every line numbered, the numbers right-aligned to the width of
/// the largest.
pub open spec fn numbered_text(s: Seq<char>) -> Seq<char> {
    let ls = split_char(s, '\n');
    let w = decimal(ls.len()).len();
    join(Seq::new(ls.len(), |k: int| numbered_line((k + 1) as nat, w, ls[k])), seq!['\n'])
}

/// `string` with every line numbered.
pub fn number_lines(string: &str) -> (r: String)
    ensures
        r@ == numbered_text(string@),
{
    let chars = chars_of(string);
    let lines = split_chars(&chars, '\n');
    let ghost ls = split_char(string@, '\n');
    let n = lines.len();
    let width = decimal_chars(n).len();
    let mut pieces: Vec<Vec<char>> = Vec::new();
    for k in 0..n
        invariant
            n == lines@.len(),
            ls == lines@.map_values(|p: Vec<char>| p@),
            width == decimal(n as nat).len(),
            pieces@.len() == k,
            forall|j: int| 0 <= j < k ==> (#[trigger] pieces@[j])@ == numbered_line(
                (j + 1) as nat,
                width as nat,
                ls[j],
            ),
    {
        let d = decimal_chars(k + 1);
        proof {
            lemma_decimal_len_monotonic((k + 1) as nat, n as nat);
        }
        let mut line: Vec<char> = Vec::new();
        let pad = width - d.len();
        for t in 0..pad
            invariant
                line@ == spaces(t as nat),
        {
            line.push(' ');
            assert(line@ =~= spaces((t + 1) as nat));
        }
        extend_chars(&mut line, &d);
        line.push(' ');
        line.push(' ');
        extend_chars(&mut line, &lines[k]);
        assert(line@ =~= numbered_line((k + 1) as nat, width as nat, ls[k as int]));
        pieces.push(line);
    }
    let mut nl: Vec<char> = Vec::new();
    nl.push('\n');
    let joined = join_chars(&pieces, &nl);
    assert(pieces@.map_values(|p: Vec<char>| p@) =~= Seq::new(
        ls.len(),
        |k: int| numbered_line((k + 1) as nat, width as nat, ls[k]),
    ));
    string_of(&joined)
}

/// Numbering keeps the lines: the numbered text has as many lines as the
/// text, and its `k`-th line is the `k`-th line of the text preceded by its
/// number, right-aligned to the width of the largest number, and two spaces.
pub proof fn law_number_lines_keeps_lines(s: Seq<char>)
    ensures
        split_char(numbered_text(s), '\n').len() == split_char(s, '\n').len(),
        forall|k: int|
            0 <= k < split_char(s, '\n').len() ==> #[trigger] split_char(numbered_text(s), '\n')[k]
                == numbered_line(
                (k + 1) as nat,
                decimal(split_char(s, '\n').len()).len(),
                split_char(s, '\n')[k],
            ),
{
    let ls = split_char(s, '\n');
    let w = decimal(ls.len()).len();
    let ps = Seq::new(ls.len(), |k: int| numbered_line((k + 1) as nat, w, ls[k]));
    lemma_split_char_nonempty(s, '\n');
    crate::text::lemma_split_char_pieces(s, '\n');
    assert forall|k: int| 0 <= k < ps.len() implies !(#[trigger] ps[k]).contains('\n') by {
        let d = decimal((k + 1) as nat);
        crate::text::lemma_decimal_digits((k + 1) as nat);
        let l = ps[k];
        assert(!ls[k].contains('\n'));
        if l.contains('\n') {
            let j = choose|j: int| 0 <= j < l.len() && l[j] == '\n';
            let pad = spaces((w - d.len()) as nat);
            if j < pad.len() {
                assert(l[j] == ' ');
            } else if j < pad.len() + d.len() {
                assert(l[j] == d[j - pad.len()]);
            } else if j < pad.len() + d.len() + 2 {
                assert(l[j] == ' ');
            } else {
                assert(l[j] == ls[k][j - pad.len() - d.len() - 2]);
            }
        }
    }
    crate::text::lemma_split_join(ps, '\n');
}

/// The block that shows one file among several: a header with its name,
/// then its text.
pub open spec fn file_block(name: Seq<char>, data: Seq<char>) -> Seq<char> {
    "==> "@ + name + " <==\n"@ + data
}

/// The output of files: the text of a single file as it is, or else each
/// file's block, the blocks separated by line breaks.
pub open spec fn joined_files(files: Seq<(Seq<char>, Seq<char>)>) -> Seq<char> {
    if files.len() == 1 {
        files[0].1
    } else {
        join(files.map_values(|f: (Seq<char>, Seq<char>)| file_block(f.0, f.1)), seq!['\n'])
    }
}

/// The output of the files `files`.
pub fn join_paste_files(files: &Vec<PasteFile>) -> (r: String)
    ensures
        r@ == joined_files(paste_files_view(files@)),
{
    if files.len() == 1 {
        return files[0].data.clone();
    }
    let open = chars_of("==> ");
    let close = chars_of(" <==\n");
    let mut blocks: Vec<Vec<char>> = Vec::new();
    let n = files.len();
    for i in 0..n
        invariant
            n == files@.len(),
            open@ == "==> "@,
            close@ == " <==\n"@,
            blocks@.len() == i,
            forall|j: int| 0 <= j < i ==> (#[trigger] blocks@[j])@ == file_block(
                files@[j].name@,
                files@[j].data@,
            ),
    {
        let mut b: Vec<char> = Vec::new();
        extend_chars(&mut b, &open);
        let name = chars_of(files[i].name.as_str());
        extend_chars(&mut b, &name);
        extend_chars(&mut b, &close);
        let data = chars_of(files[i].data.as_str());
        extend_chars(&mut b, &data);
        blocks.push(b);
    }
    let mut nl: Vec<char> = Vec::new();
    nl.push('\n');
    let joined = join_chars(&blocks, &nl);
    assert(blocks@.map_values(|p: Vec<char>| p@) =~= paste_files_view(files@).map_values(
        |f: (Seq<char>, Seq<char>)| file_block(f.0, f.1),
    ));
    string_of(&joined)
}

/// The URLs of files, one per line.
pub open spec fn url_lines(files: Seq<RemoteFileView>) -> Seq<char> {
    join(files.map_values(|f: RemoteFileView| f.url.serialization), seq!['\n'])
}

/// Only-URLs output lists, line by line, the URL of each file (not its raw
/// URL), in order, when no URL holds a line break.
pub proof fn law_url_lines_list_urls(files: Seq<RemoteFileView>)
    requires
        files.len() >= 1,
        forall|i: int| 0 <= i < files.len() ==> !(#[trigger] files[i]).url.serialization.contains('\n'),
    ensures
        split_char(url_lines(files), '\n') == files.map_values(|f: RemoteFileView| f.url.serialization),
{
    let ps = files.map_values(|f: RemoteFileView| f.url.serialization);
    assert forall|i: int| 0 <= i < ps.len() implies !(#[trigger] ps[i]).contains('\n') by {
        assert(ps[i] == files[i].url.serialization);
    }
    crate::text::lemma_split_join(ps, '\n');
}

/// The URLs of `files`, one per line, as they are shown when only URLs are
/// asked for.
pub fn urls_output(files: &Vec<RemotePasteFile>) -> (r: String)
    ensures
        r@ == url_lines(files_view(files@)),
{
    let mut pieces: Vec<Vec<char>> = Vec::new();
    let n = files.len();
    for i in 0..n
        invariant
            n == files@.len(),
            pieces@.len() == i,
            forall|j: int| 0 <= j < i ==> (#[trigger] pieces@[j])@ == files@[j].url@.serialization,
    {
        pieces.push(chars_of(files[i].url.as_str()));
    }
    let mut nl: Vec<char> = Vec::new();
    nl.push('\n');
    let joined = join_chars(&pieces, &nl);
    assert(pieces@.map_values(|p: Vec<char>| p@) =~= files_view(files@).map_values(
        |f: RemoteFileView| f.url.serialization,
    ));
    string_of(&joined)
}

/// The report of files written to disk: a line `Wrote <name> -> <path>` for
/// each, without the last line break.
pub open spec fn written_report(written: Seq<(Seq<char>, Seq<char>)>) -> Seq<char> {
    join(
        written.map_values(|w: (Seq<char>, Seq<char>)| "Wrote "@ + w.0 + " -> "@ + w.1),
        seq!['\n'],
    )
}

/// The report of the files written to disk, given each file's name and the
/// path it was written to.
pub fn write_report(written: &Vec<(String, String)>) -> (r: String)
    ensures
        r@ == written_report(written@.map_values(|w: (String, String)| (w.0@, w.1@))),
{
    let a = chars_of("Wrote ");
    let b = chars_of(" -> ");
    let mut pieces: Vec<Vec<char>> = Vec::new();
    let n = written.len();
    for i in 0..n
        invariant
            n == written@.len(),
            a@ == "Wrote "@,
            b@ == " -> "@,
            pieces@.len() == i,
            forall|j: int| 0 <= j < i ==> (#[trigger] pieces@[j])@ == "Wrote "@ + written@[j].0@
                + " -> "@ + written@[j].1@,
    {
        let mut line: Vec<char> = Vec::new();
        extend_chars(&mut line, &a);
        extend_chars(&mut line, &chars_of(written[i].0.as_str()));
        extend_chars(&mut line, &b);
        extend_chars(&mut line, &chars_of(written[i].1.as_str()));
        pieces.push(line);
    }
    let mut nl: Vec<char> = Vec::new();
    nl.push('\n');
    let joined = join_chars(&pieces, &nl);
    assert(pieces@.map_values(|p: Vec<char>| p@) =~= written@.map_values(
        |w: (String, String)| (w.0@, w.1@),
    ).map_values(|w: (Seq<char>, Seq<char>)| "Wrote "@ + w.0 + " -> "@ + w.1));
    string_of(&joined)
}

// ----------------------------------------------------------------------------
// Uploads
// ----------------------------------------------------------------------------

/// The file that holds the index of an upload of several files.
pub fn index_paste_file(index: &crate::index::Index) -> (r: PasteFile)
    ensures
        r.name@ == "index.md"@,
        r.data@ == crate::index::index_text(crate::index::url_texts(index.entries())),
{
    PasteFile { name: "index.md".to_owned(), data: index.to_string() }
}

/// What an upload gives: an error with the status if the service did not
/// answer with success, otherwise the URL that the answer holds.
pub fn upload_response_url(success: bool, status: &str, body: &str) -> (r: Result<
    PasteUrl,
    BinsError,
>)
    ensures
        !success ==> (r matches Err(BinsError::Msg(m)) && m@ == "status code "@ + status@),
        success ==> parse_url_spec(body@, r),
{
    if !success {
        let mut m = chars_of("status code ");
        extend_chars(&mut m, &chars_of(status));
        return Err(BinsError::Msg(string_of(&m)));
    }
    parse_url(body)
}

// ----------------------------------------------------------------------------
// Choosing files of a paste
// ----------------------------------------------------------------------------

/// The message for a file that was asked for but is not there.
pub open spec fn not_found(s: Seq<char>) -> Seq<char> {
    "file "@ + s + " not found"@
}

/// The files keyed by their lowercased names; of files whose names lowercase
/// alike, the last one counts.
pub open spec fn name_pool(files: Seq<RemoteFileView>) -> Seq<(Seq<char>, RemoteFileView)> {
    insert_all(files.map_values(|f: RemoteFileView| (lowercase(f.name), f)))
}

/// The files asked for by name, each taken out of the pool when it is
/// chosen; the first name whose lowercase is not (or no longer) in the pool
/// is an error.
pub open spec fn pick_named(pool: Seq<(Seq<char>, RemoteFileView)>, reqs: Seq<Seq<char>>) -> Result<
    Seq<RemoteFileView>,
    Seq<char>,
>
    decreases reqs.len(),
{
    if reqs.len() == 0 {
        Ok(Seq::empty())
    } else {
        let q = lowercase(reqs[0]);
        match assoc(pool, q) {
            None => Err(not_found(reqs[0])),
            Some(f) => match pick_named(remove_key(pool, q), reqs.drop_first()) {
                Ok(rest) => Ok(seq![f] + rest),
                Err(m) => Err(m),
            },
        }
    }
}

/// The files asked for by position (counting from zero), each taken out
/// when it is chosen; the first position that is not (or no longer) there is
/// an error.
pub open spec fn pick_numbered(pool: Seq<Option<RemoteFileView>>, reqs: Seq<usize>) -> Result<
    Seq<RemoteFileView>,
    Seq<char>,
>
    decreases reqs.len(),
{
    if reqs.len() == 0 {
        Ok(Seq::empty())
    } else {
        let k = reqs[0] as int;
        if k < pool.len() && pool[k] is Some {
            match pick_numbered(pool.update(k, None), reqs.drop_first()) {
                Ok(rest) => Ok(seq![pool[k]->Some_0] + rest),
                Err(m) => Err(m),
            }
        } else {
            Err(not_found(decimal(reqs[0] as nat)))
        }
    }
}

/// The message for a paste of several files when the command line says
/// neither which files to show nor to show all.
pub open spec fn multiple_files_message(files: Seq<RemoteFileView>) -> Seq<char> {
    "paste had multiple files, but no behavior was specified on the command line\n\navailable files:\n"@
        + join(files.map_values(|f: RemoteFileView| "  "@ + f.name), seq!['\n'])
}

/// The files to show of a paste: all of a paste of one file; of a paste of
/// several files, those named (ignoring case), else those at the positions
/// given, else all if all are asked for; otherwise an error that lists the
/// files.
pub open spec fn selected_files(
    files: Seq<RemoteFileView>,
    names: Seq<Seq<char>>,
    range: Option<Seq<usize>>,
    all: bool,
) -> Result<Seq<RemoteFileView>, Seq<char>> {
    if files.len() > 1 {
        if names.len() > 0 {
            pick_named(name_pool(files), names)
        } else if range is Some {
            pick_numbered(files.map_values(|f: RemoteFileView| Some(f)), range->Some_0)
        } else if all {
            Ok(files)
        } else {
            Err(multiple_files_message(files))
        }
    } else {
        Ok(files)
    }
}

proof fn lemma_pick_named(
    pool: Seq<(Seq<char>, RemoteFileView)>,
    reqs: Seq<Seq<char>>,
    files: Seq<RemoteFileView>,
)
    requires
        forall|i: int|
            0 <= i < pool.len() ==> (#[trigger] pool[i]).0 == lowercase(pool[i].1.name) && files.contains(
                pool[i].1,
            ),
    ensures
        pick_named(pool, reqs) matches Ok(fs) ==> fs.len() == reqs.len() && forall|i: int|
            0 <= i < fs.len() ==> files.contains(#[trigger] fs[i]) && lowercase(fs[i].name) == lowercase(
                reqs[i],
            ),
    decreases reqs.len(),
{
    if reqs.len() > 0 {
        let q = lowercase(reqs[0]);
        if let Some(f) = assoc(pool, q) {
            lemma_assoc_in(pool, q);
            let j = choose|j: int| 0 <= j < pool.len() && pool[j] == (q, f);
            assert(pool[j].0 == lowercase(pool[j].1.name));
            let rest_pool = remove_key(pool, q);
            lemma_remove_key_subset(pool, q);
            assert forall|i: int| 0 <= i < rest_pool.len() implies (#[trigger] rest_pool[i]).0 == lowercase(
                rest_pool[i].1.name,
            ) && files.contains(rest_pool[i].1) by {
                assert(pool.contains(rest_pool[i]));
                let m = choose|m: int| 0 <= m < pool.len() && pool[m] == rest_pool[i];
                assert(pool[m].0 == lowercase(pool[m].1.name));
            }
            lemma_pick_named(rest_pool, reqs.drop_first(), files);
            if let Ok(fs) = pick_named(pool, reqs) {
                let rest = pick_named(rest_pool, reqs.drop_first())->Ok_0;
                assert(fs == seq![f] + rest);
                assert forall|i: int| 0 <= i < fs.len() implies files.contains(#[trigger] fs[i]) && lowercase(
                    fs[i].name,
                ) == lowercase(reqs[i]) by {
                    if i > 0 {
                        assert(fs[i] == rest[i - 1]);
                        assert(reqs.drop_first()[i - 1] == reqs[i]);
                    }
                }
            }
        }
    }
}

/// Files chosen by name: one for each name asked for, in that order, each a
/// file of the paste whose name lowercases as the name asked for does.
pub proof fn law_chosen_by_name(
    files: Seq<RemoteFileView>,
    names: Seq<Seq<char>>,
    range: Option<Seq<usize>>,
    all: bool,
)
    requires
        files.len() > 1,
        names.len() > 0,
    ensures
        selected_files(files, names, range, all) matches Ok(fs) ==> fs.len() == names.len() && forall|i: int|
            0 <= i < fs.len() ==> files.contains(#[trigger] fs[i]) && lowercase(fs[i].name) == lowercase(
                names[i],
            ),
{
    let keyed = files.map_values(|f: RemoteFileView| (lowercase(f.name), f));
    let pool = name_pool(files);
    lemma_insert_all_subset(keyed);
    assert forall|i: int| 0 <= i < pool.len() implies (#[trigger] pool[i]).0 == lowercase(pool[i].1.name)
        && files.contains(pool[i].1) by {
        assert(keyed.contains(pool[i]));
        let m = choose|m: int| 0 <= m < keyed.len() && keyed[m] == pool[i];
        assert(keyed[m] == (lowercase(files[m].name), files[m]));
    }
    lemma_pick_named(pool, names, files);
}

/// Names whose lowercases are distinct and all in the pool are all chosen,
/// each as the file the pool holds for its lowercase.
proof fn lemma_pick_named_ok(pool: Seq<(Seq<char>, RemoteFileView)>, reqs: Seq<Seq<char>>)
    requires
        forall|i: int| 0 <= i < reqs.len() ==> assoc(pool, lowercase(#[trigger] reqs[i])) is Some,
        forall|i: int, j: int|
            0 <= i < j < reqs.len() ==> lowercase(#[trigger] reqs[i]) != lowercase(#[trigger] reqs[j]),
    ensures
        pick_named(pool, reqs) matches Ok(fs) && fs.len() == reqs.len() && forall|i: int|
            0 <= i < reqs.len() ==> #[trigger] fs[i] == assoc(pool, lowercase(reqs[i]))->Some_0,
    decreases reqs.len(),
{
    if reqs.len() > 0 {
        let q = lowercase(reqs[0]);
        assert(assoc(pool, lowercase(reqs[0])) is Some);
        let p2 = remove_key(pool, q);
        let rest = reqs.drop_first();
        assert forall|i: int| 0 <= i < rest.len() implies assoc(p2, lowercase(#[trigger] rest[i])) is Some
            && assoc(p2, lowercase(rest[i])) == assoc(pool, lowercase(rest[i])) by {
            assert(rest[i] == reqs[i + 1]);
            assert(lowercase(reqs[0]) != lowercase(reqs[i + 1]));
            crate::maps::lemma_assoc_remove_other(pool, q, lowercase(rest[i]));
        }
        assert forall|i: int, j: int| 0 <= i < j < rest.len() implies lowercase(#[trigger] rest[i])
            != lowercase(#[trigger] rest[j]) by {
            assert(rest[i] == reqs[i + 1] && rest[j] == reqs[j + 1]);
            assert(lowercase(reqs[i + 1]) != lowercase(reqs[j + 1]));
        }
        lemma_pick_named_ok(p2, rest);
        let fr = pick_named(p2, rest)->Ok_0;
        let fs = pick_named(pool, reqs)->Ok_0;
        assert(fs == seq![assoc(pool, q)->Some_0] + fr);
        assert forall|i: int| 0 <= i < reqs.len() implies #[trigger] fs[i] == assoc(pool, lowercase(reqs[i]))->Some_0 by {
            if i > 0 {
                assert(fs[i] == fr[i - 1]);
                assert(rest[i - 1] == reqs[i]);
            }
        }
    }
}

/// Asking a paste of several files for names whose lowercases are distinct,
/// each the lowercase of some file's name, chooses one file per name, in
/// the order asked for: the last file whose name lowercases as that name
/// does.
pub proof fn law_present_names_are_chosen(
    files: Seq<RemoteFileView>,
    names: Seq<Seq<char>>,
    range: Option<Seq<usize>>,
    all: bool,
)
    requires
        files.len() > 1,
        names.len() > 0,
        forall|i: int| 0 <= i < names.len() ==> exists|j: int|
            0 <= j < files.len() && lowercase(#[trigger] files[j].name) == lowercase(#[trigger] names[i]),
        forall|i: int, j: int|
            0 <= i < j < names.len() ==> lowercase(#[trigger] names[i]) != lowercase(#[trigger] names[j]),
    ensures
        selected_files(files, names, range, all) matches Ok(fs) && fs.len() == names.len()
            && forall|i: int|
            0 <= i < names.len() ==> #[trigger] fs[i] == assoc(
                files.map_values(|f: RemoteFileView| (lowercase(f.name), f)),
                lowercase(names[i]),
            )->Some_0,
{
    let keyed = files.map_values(|f: RemoteFileView| (lowercase(f.name), f));
    let pool = name_pool(files);
    assert forall|i: int| 0 <= i < names.len() implies assoc(pool, lowercase(#[trigger] names[i])) is Some
        && assoc(pool, lowercase(names[i])) == assoc(keyed, lowercase(names[i])) by {
        let q = lowercase(names[i]);
        let j = choose|j: int| 0 <= j < files.len() && lowercase(#[trigger] files[j].name) == lowercase(names[i]);
        assert(keyed[j].0 == q);
        crate::maps::lemma_assoc_some(keyed, q);
        crate::maps::law_insert_all_finds_last(keyed, q);
    }
    lemma_pick_named_ok(pool, names);
}

proof fn lemma_pick_numbered(pool: Seq<Option<RemoteFileView>>, reqs: Seq<usize>, files: Seq<RemoteFileView>)
    requires
        pool.len() == files.len(),
        forall|t: int| 0 <= t < pool.len() && (#[trigger] pool[t]) is Some ==> pool[t] == Some(files[t]),
    ensures
        pick_numbered(pool, reqs) matches Ok(fs) ==> fs.len() == reqs.len() && (forall|i: int|
            #![trigger fs[i]]
            #![trigger reqs[i]]
            0 <= i < fs.len() ==> reqs[i] < files.len() && pool[reqs[i] as int] is Some && fs[i]
                == files[reqs[i] as int]) && (forall|i: int, j: int|
            0 <= i < j < reqs.len() ==> #[trigger] reqs[i] != #[trigger] reqs[j]),
    decreases reqs.len(),
{
    if reqs.len() > 0 {
        let k = reqs[0] as int;
        if k < pool.len() && pool[k] is Some {
            let p2 = pool.update(k, None);
            assert forall|t: int| 0 <= t < p2.len() && (#[trigger] p2[t]) is Some implies p2[t] == Some(files[t]) by {
                assert(t != k);
                assert(p2[t] == pool[t]);
            }
            lemma_pick_numbered(p2, reqs.drop_first(), files);
            if let Ok(fs) = pick_numbered(pool, reqs) {
                assert(pick_numbered(p2, reqs.drop_first()) is Ok);
                let rest = pick_numbered(p2, reqs.drop_first())->Ok_0;
                assert(pool[k] == Some(files[k]));
                assert(fs == seq![files[k]] + rest);
                assert(rest.len() == reqs.len() - 1);
                assert(fs.len() == reqs.len());
                assert forall|i: int|
                    #![trigger fs[i]]
                    #![trigger reqs[i]]
                    0 <= i < fs.len() implies reqs[i] < files.len() && pool[reqs[i] as int] is Some
                    && fs[i] == files[reqs[i] as int] by {
                    if i > 0 {
                        assert(reqs.drop_first()[i - 1] == reqs[i]);
                        assert(fs[i] == rest[i - 1]);
                        assert(p2[reqs[i] as int] is Some);
                    }
                }
                assert forall|i: int, j: int| 0 <= i < j < reqs.len() implies #[trigger] reqs[i] != #[trigger] reqs[j] by {
                    assert(reqs.drop_first()[j - 1] == reqs[j]);
                    if i > 0 {
                        assert(reqs.drop_first()[i - 1] == reqs[i]);
                    } else {
                        assert(rest[j - 1] == files[reqs.drop_first()[j - 1] as int]);
                        assert(p2[reqs[j] as int] is Some);
                        assert(p2[k] is None);
                    }
                }
            }
        }
    }
}

/// Files chosen by position: one for each position asked for, in that order,
/// each the file at that position; no position is chosen twice.
pub proof fn law_chosen_by_position(files: Seq<RemoteFileView>, range: Seq<usize>, all: bool)
    requires
        files.len() > 1,
    ensures
        selected_files(files, Seq::empty(), Some(range), all) matches Ok(fs) ==> fs.len() == range.len()
            && (forall|i: int|
            #![trigger fs[i]]
            #![trigger range[i]]
            0 <= i < fs.len() ==> range[i] < files.len() && fs[i] == files[range[i] as int]) && (forall|i: int, j: int|
            0 <= i < j < range.len() ==> #[trigger] range[i] != #[trigger] range[j]),
{
    let pool = files.map_values(|f: RemoteFileView| Some(f));
    assert forall|t: int| 0 <= t < pool.len() && (#[trigger] pool[t]) is Some implies pool[t] == Some(files[t]) by {
    }
    lemma_pick_numbered(pool, range, files);
}

/// Positions that are distinct and all still in the pool are all chosen, in
/// the order asked for.
proof fn lemma_pick_numbered_ok(pool: Seq<Option<RemoteFileView>>, reqs: Seq<usize>)
    requires
        forall|i: int| 0 <= i < reqs.len() ==> #[trigger] reqs[i] < pool.len() && pool[reqs[i] as int] is Some,
        forall|i: int, j: int| 0 <= i < j < reqs.len() ==> #[trigger] reqs[i] != #[trigger] reqs[j],
    ensures
        pick_numbered(pool, reqs) matches Ok(fs) && fs.len() == reqs.len() && forall|i: int|
            0 <= i < reqs.len() ==> #[trigger] fs[i] == pool[reqs[i] as int]->Some_0,
    decreases reqs.len(),
{
    if reqs.len() > 0 {
        let k = reqs[0] as int;
        assert(reqs[0] < pool.len() && pool[k] is Some);
        let p2 = pool.update(k, None);
        let rest = reqs.drop_first();
        assert forall|i: int| 0 <= i < rest.len() implies #[trigger] rest[i] < p2.len() && p2[rest[i] as int] is Some by {
            assert(rest[i] == reqs[i + 1]);
            assert(reqs[0] != reqs[i + 1]);
            assert(reqs[i + 1] < pool.len() && pool[reqs[i + 1] as int] is Some);
        }
        assert forall|i: int, j: int| 0 <= i < j < rest.len() implies #[trigger] rest[i] != #[trigger] rest[j] by {
            assert(rest[i] == reqs[i + 1] && rest[j] == reqs[j + 1]);
            assert(reqs[i + 1] != reqs[j + 1]);
        }
        lemma_pick_numbered_ok(p2, rest);
        let fr = pick_numbered(p2, rest)->Ok_0;
        let fs = pick_numbered(pool, reqs)->Ok_0;
        assert(fs == seq![pool[k]->Some_0] + fr);
        assert forall|i: int| 0 <= i < reqs.len() implies #[trigger] fs[i] == pool[reqs[i] as int]->Some_0 by {
            if i > 0 {
                assert(fs[i] == fr[i - 1]);
                assert(rest[i - 1] == reqs[i]);
                assert(reqs[0] != reqs[i]);
                assert(p2[reqs[i] as int] == pool[reqs[i] as int]);
            }
        }
    }
}

/// Asking for positions of a paste of several files that are distinct and
/// all within the paste chooses exactly the files at those positions, in
/// the order asked for.
pub proof fn law_distinct_positions_are_chosen(files: Seq<RemoteFileView>, range: Seq<usize>, all: bool)
    requires
        files.len() > 1,
        forall|i: int| 0 <= i < range.len() ==> #[trigger] range[i] < files.len(),
        forall|i: int, j: int| 0 <= i < j < range.len() ==> #[trigger] range[i] != #[trigger] range[j],
    ensures
        selected_files(files, Seq::empty(), Some(range), all) matches Ok(fs) && fs.len() == range.len()
            && forall|i: int| 0 <= i < range.len() ==> #[trigger] fs[i] == files[range[i] as int],
{
    let pool = files.map_values(|f: RemoteFileView| Some(f));
    assert forall|i: int| 0 <= i < range.len() implies #[trigger] range[i] < pool.len() && pool[range[i] as int] is Some by {
        assert(range[i] < files.len());
    }
    lemma_pick_numbered_ok(pool, range);
}

/// The views of a pool of files keyed by name.
pub open spec fn pool_view(v: Seq<(Vec<char>, RemotePasteFile)>) -> Seq<(Seq<char>, RemoteFileView)> {
    v.map_values(|e: (Vec<char>, RemotePasteFile)| (e.0@, e.1@))
}

fn pool_remove(pool: &Vec<(Vec<char>, RemotePasteFile)>, k: &Vec<char>) -> (r: Vec<(Vec<char>, RemotePasteFile)>)
    ensures
        pool_view(r@) == remove_key(pool_view(pool@), k@),
{
    let mut r: Vec<(Vec<char>, RemotePasteFile)> = Vec::new();
    let n = pool.len();
    for i in 0..n
        invariant
            n == pool@.len(),
            pool_view(r@) == remove_key(pool_view(pool@.take(i as int)), k@),
    {
        assert(pool_view(pool@.take(i + 1)).drop_last() =~= pool_view(pool@.take(i as int)));
        assert(pool_view(pool@.take(i + 1)).last() == (pool@[i as int].0@, pool@[i as int].1@));
        let same = crate::text::chars_eq(&pool[i].0, k);
        if !same {
            let key = pool[i].0.clone();
            let f = pool[i].1.duplicate();
            r.push((key, f));
            assert(pool_view(r@) =~= remove_key(pool_view(pool@.take(i as int)), k@).push(
                (pool@[i as int].0@, pool@[i as int].1@),
            ));
        }
    }
    assert(pool@.take(n as int) =~= pool@);
    r
}

fn pool_find(pool: &Vec<(Vec<char>, RemotePasteFile)>, k: &Vec<char>) -> (r: Option<usize>)
    ensures
        match r {
            Some(i) => i < pool@.len() && assoc(pool_view(pool@), k@) == Some(pool@[i as int].1@),
            None => assoc(pool_view(pool@), k@) is None,
        },
{
    let mut i = pool.len();
    assert(pool@.take(i as int) =~= pool@);
    while i > 0
        invariant
            i <= pool@.len(),
            assoc(pool_view(pool@), k@) == assoc(pool_view(pool@.take(i as int)), k@),
        decreases i,
    {
        assert(pool_view(pool@.take(i as int)).drop_last() =~= pool_view(pool@.take(i - 1)));
        assert(pool_view(pool@.take(i as int)).last() == (pool@[i - 1].0@, pool@[i - 1].1@));
        if crate::text::chars_eq(&pool[i - 1].0, k) {
            return Some(i - 1);
        }
        i = i - 1;
    }
    None
}

fn pick_by_name(files: &Vec<RemotePasteFile>, names: &Vec<String>) -> (r: Result<Vec<RemotePasteFile>, BinsError>)
    ensures
        match pick_named(name_pool(files_view(files@)), strings_view(names@)) {
            Ok(fs) => r matches Ok(v) && files_view(v@) == fs,
            Err(m) => r matches Err(BinsError::Msg(x)) && x@ == m,
        },
{
    let mut pool: Vec<(Vec<char>, RemotePasteFile)> = Vec::new();
    let ghost keyed = files_view(files@).map_values(|f: RemoteFileView| (lowercase(f.name), f));
    let n = files.len();
    assert(keyed.take(0) =~= Seq::<(Seq<char>, RemoteFileView)>::empty());
    for i in 0..n
        invariant
            n == files@.len(),
            keyed == files_view(files@).map_values(|f: RemoteFileView| (lowercase(f.name), f)),
            pool_view(pool@) == insert_all(keyed.take(i as int)),
    {
        let key = chars_of(to_lowercase(files[i].name.as_str()).as_str());
        let rest = pool_remove(&pool, &key);
        pool = rest;
        pool.push((key, files[i].duplicate()));
        assert(keyed.take(i + 1).drop_last() =~= keyed.take(i as int));
        assert(keyed.take(i + 1).last() == keyed[i as int]);
        assert(pool_view(pool@) =~= entry_insert(insert_all(keyed.take(i as int)), keyed[i as int].0, keyed[i as int].1));
    }
    assert(keyed.take(n as int) =~= keyed);
    let mut out: Vec<RemotePasteFile> = Vec::new();
    let m = names.len();
    let ghost reqs = strings_view(names@);
    assert(reqs.skip(0) =~= reqs);
    for j in 0..m
        invariant
            m == names@.len(),
            reqs == strings_view(names@),
            match pick_named(name_pool(files_view(files@)), reqs) {
                Ok(fs) => pick_named(pool_view(pool@), reqs.skip(j as int)) matches Ok(rest) && fs == files_view(out@) + rest,
                Err(e) => pick_named(pool_view(pool@), reqs.skip(j as int)) == Err::<Seq<RemoteFileView>, Seq<char>>(e),
            },
    {
        let q = chars_of(to_lowercase(names[j].as_str()).as_str());
        assert(reqs.skip(j as int)[0] == names@[j as int]@);
        assert(reqs.skip(j as int).drop_first() =~= reqs.skip(j + 1));
        match pool_find(&pool, &q) {
            None => {
                let mut msg = chars_of("file ");
                extend_chars(&mut msg, &chars_of(names[j].as_str()));
                extend_chars(&mut msg, &chars_of(" not found"));
                return Err(BinsError::Msg(string_of(&msg)));
            },
            Some(k) => {
                let f = pool[k].1.duplicate();
                let rest = pool_remove(&pool, &q);
                pool = rest;
                let ghost before = out@;
                out.push(f);
                assert(files_view(out@) =~= files_view(before) + seq![f@]);
            },
        }
    }
    assert(reqs.skip(m as int).len() == 0);
    Ok(out)
}

fn pick_by_number(files: &Vec<RemotePasteFile>, range: &Vec<usize>) -> (r: Result<Vec<RemotePasteFile>, BinsError>)
    ensures
        match pick_numbered(files_view(files@).map_values(|f: RemoteFileView| Some(f)), range@) {
            Ok(fs) => r matches Ok(v) && files_view(v@) == fs,
            Err(m) => r matches Err(BinsError::Msg(x)) && x@ == m,
        },
{
    let n = files.len();
    let mut taken: Vec<bool> = Vec::new();
    for i in 0..n
        invariant
            taken@.len() == i,
            forall|j: int| 0 <= j < i ==> !(#[trigger] taken@[j]),
    {
        taken.push(false);
    }
    let ghost start = files_view(files@).map_values(|f: RemoteFileView| Some(f));
    let ghost pool = start;
    assert(range@.skip(0) =~= range@);
    let mut out: Vec<RemotePasteFile> = Vec::new();
    let m = range.len();
    for j in 0..m
        invariant
            m == range@.len(),
            n == files@.len(),
            taken@.len() == n,
            pool.len() == n,
            start == files_view(files@).map_values(|f: RemoteFileView| Some(f)),
            forall|t: int| 0 <= t < n ==> (#[trigger] pool[t]) == if taken@[t] {
                None
            } else {
                Some(files@[t]@)
            },
            match pick_numbered(start, range@) {
                Ok(fs) => pick_numbered(pool, range@.skip(j as int)) matches Ok(rest) && fs == files_view(out@) + rest,
                Err(e) => pick_numbered(pool, range@.skip(j as int)) == Err::<Seq<RemoteFileView>, Seq<char>>(e),
            },
    {
        let k = range[j];
        assert(range@.skip(j as int)[0] == k);
        assert(range@.skip(j as int).drop_first() =~= range@.skip(j + 1));
        if k < n && !taken[k] {
            let f = files[k].duplicate();
            taken.set(k, true);
            proof {
                pool = pool.update(k as int, None);
            }
            let ghost before = out@;
            out.push(f);
            assert(files_view(out@) =~= files_view(before) + seq![f@]);
        } else {
            if k < n {
                assert(pool[k as int] is None);
            }
            assert(pick_numbered(pool, range@.skip(j as int)) == Err::<Seq<RemoteFileView>, Seq<char>>(
                not_found(decimal(k as nat)),
            ));
            let mut msg = chars_of("file ");
            extend_chars(&mut msg, &decimal_chars(k));
            extend_chars(&mut msg, &chars_of(" not found"));
            return Err(BinsError::Msg(string_of(&msg)));
        }
    }
    assert(range@.skip(m as int).len() == 0);
    Ok(out)
}

/// The files to show of a paste whose files are `files`, given the names
/// asked for, the positions asked for, and whether all are asked for.
pub fn select_files(
    files: Vec<RemotePasteFile>,
    names: &Vec<String>,
    range: &Option<Vec<usize>>,
    all: bool,
) -> (r: Result<Vec<RemotePasteFile>, BinsError>)
    ensures
        match selected_files(
            files_view(files@),
            strings_view(names@),
            match range {
                Some(v) => Some(v@),
                None => None,
            },
            all,
        ) {
            Ok(fs) => r matches Ok(v) && files_view(v@) == fs,
            Err(m) => r matches Err(BinsError::Msg(x)) && x@ == m,
        },
{
    if files.len() > 1 {
        if names.len() > 0 {
            pick_by_name(&files, names)
        } else if let Some(rg) = range {
            pick_by_number(&files, rg)
        } else if all {
            Ok(files)
        } else {
            let mut lines: Vec<Vec<char>> = Vec::new();
            let n = files.len();
            for i in 0..n
                invariant
                    n == files@.len(),
                    lines@.len() == i,
                    forall|j: int| 0 <= j < i ==> (#[trigger] lines@[j])@ == "  "@ + files@[j].name@,
            {
                let mut l = chars_of("  ");
                extend_chars(&mut l, &chars_of(files[i].name.as_str()));
                lines.push(l);
            }
            let mut nl: Vec<char> = Vec::new();
            nl.push('\n');
            let listed = join_chars(&lines, &nl);
            assert(lines@.map_values(|p: Vec<char>| p@) =~= files_view(files@).map_values(
                |f: RemoteFileView| "  "@ + f.name,
            ));
            let mut msg = chars_of(
                "paste had multiple files, but no behavior was specified on the command line\n\navailable files:\n",
            );
            extend_chars(&mut msg, &listed);
            Err(BinsError::Msg(string_of(&msg)))
        }
    } else {
        Ok(files)
    }
}

// ----------------------------------------------------------------------------
// Information about a paste
// ----------------------------------------------------------------------------

/// What is known about a paste on a service.
#[derive(Debug)]
pub struct Info {
    pub name: String,
    pub id: String,
    pub url: PasteUrl,
    pub raw_url: Option<PasteUrl>,
    /// Whether the raw contents were asked for.
    pub raw: bool,
    pub files: Vec<RemotePasteFile>,
    /// The index, if the paste was one.
    pub index: Option<crate::index::Index>,
    pub contents: PasteContents,
    pub bin: String,
}

/// What the library knows of a paste on a service.
pub struct InfoView {
    pub name: Seq<char>,
    pub id: Seq<char>,
    pub url: UrlView,
    pub raw_url: Option<UrlView>,
    pub raw: bool,
    pub files: Seq<RemoteFileView>,
    pub index: Option<Seq<(Seq<char>, UrlView)>>,
    pub contents: ContentsView,
    pub bin: Seq<char>,
}

impl View for Info {
    type V = InfoView;

    open spec fn view(&self) -> InfoView {
        InfoView {
            name: self.name@,
            id: self.id@,
            url: self.url@,
            raw_url: match self.raw_url {
                Some(u) => Some(u@),
                None => None,
            },
            raw: self.raw,
            files: files_view(self.files@),
            index: match self.index {
                Some(i) => Some(i.entries()),
                None => None,
            },
            contents: self.contents@,
            bin: self.bin@,
        }
    }
}

/// The views of outcomes of URL conversions: the URL, or the error's text.
pub open spec fn url_results_view(v: Seq<Result<PasteUrl, BinsError>>) -> Seq<Result<UrlView, Seq<char>>> {
    v.map_values(
        |r: Result<PasteUrl, BinsError>|
            match r {
                Ok(u) => Ok(u@),
                Err(e) => Err(error_text(e)),
            },
    )
}

/// The files listed by an index: each entry's name and URL, the id taken
/// from the URL and the raw URL from `raws` at the same position, with
/// unknown contents. The first entry whose id or raw URL fails is an error.
pub open spec fn entry_files(
    bin: Seq<char>,
    e: Seq<(Seq<char>, UrlView)>,
    raws: Seq<Result<UrlView, Seq<char>>>,
) -> Result<Seq<RemoteFileView>, Seq<char>>
    decreases e.len(),
{
    if e.len() == 0 {
        Ok(Seq::empty())
    } else {
        let i = e.len() - 1;
        match entry_files(bin, e.drop_last(), raws) {
            Err(m) => Err(m),
            Ok(fs) => match last_segment(e[i].1) {
                None => Err("no last path segment"@),
                Some(id) => match raws[i] {
                    Err(m) => Err(m),
                    Ok(ru) => Ok(
                        fs.push(
                            RemoteFileView {
                                id: id,
                                name: e[i].0,
                                bin: bin,
                                url: e[i].1,
                                raw_url: ru,
                                contents: ContentsView { truncated: false, value: None },
                            },
                        ),
                    ),
                },
            },
        }
    }
}

/// The information about a paste at `url` of the service `bin`, whose raw
/// contents at `raw_url` are `content`, given the outcome of reading
/// `content` as an index and, for an index, the raw URLs of its entries. An
/// index gives one file per entry; contents that are not an index give one
/// file named after the last path segment of `url`, holding the contents.
pub open spec fn info_outcome(
    bin: Seq<char>,
    url: UrlView,
    raw_url: UrlView,
    content: Seq<char>,
    index: Result<Seq<(Seq<char>, UrlView)>, BinsError>,
    raws: Seq<Result<UrlView, Seq<char>>>,
) -> Result<InfoView, Seq<char>> {
    let files = match index {
        Ok(e) => entry_files(bin, e, raws),
        Err(err) => if !(err is InvalidIndex) {
            Err(error_text(err))
        } else {
            match last_segment(url) {
                None => Err("paste url was a root url"@),
                Some(nm) => Ok(
                    seq![
                        RemoteFileView {
                            id: nm,
                            name: nm,
                            bin: bin,
                            url: url,
                            raw_url: raw_url,
                            contents: ContentsView { truncated: false, value: Some(content) },
                        },
                    ],
                ),
            }
        },
    };
    match files {
        Err(m) => Err(m),
        Ok(fs) => match last_segment(url) {
            None => Err("no last path segment"@),
            Some(id) => Ok(
                InfoView {
                    name: id,
                    id: id,
                    url: url,
                    raw_url: Some(raw_url),
                    raw: false,
                    files: fs,
                    index: match index {
                        Ok(e) => Some(e),
                        Err(_) => None,
                    },
                    contents: ContentsView { truncated: false, value: Some(content) },
                    bin: bin,
                },
            ),
        },
    }
}

/// The view of the outcome of reading an index.
pub open spec fn index_result_view(r: Result<crate::index::Index, BinsError>) -> Result<
    Seq<(Seq<char>, UrlView)>,
    BinsError,
> {
    match r {
        Ok(i) => Ok(i.entries()),
        Err(e) => Err(e),
    }
}

/// The information about the paste at `url` of the service named `bin`,
/// from its raw contents `content` fetched from `raw_url`, the outcome
/// `index` of reading `content` as an index, and, for an index, the outcome
/// of converting each entry's URL to its raw URL.
pub fn info_from_download(
    bin: &str,
    url: &PasteUrl,
    raw_url: PasteUrl,
    content: String,
    index: Result<crate::index::Index, BinsError>,
    entry_raw_urls: Vec<Result<PasteUrl, BinsError>>,
) -> (r: Result<Info, BinsError>)
    requires
        index matches Ok(i) ==> entry_raw_urls@.len() == i.entries().len(),
    ensures
        match info_outcome(
            bin@,
            url@,
            raw_url@,
            content@,
            index_result_view(index),
            url_results_view(entry_raw_urls@),
        ) {
            Ok(v) => r matches Ok(info) && info@ == v,
            Err(m) => r matches Err(BinsError::Msg(x)) && x@ == m,
        },
{
    let ghost raws = url_results_view(entry_raw_urls@);
    let mut files: Vec<RemotePasteFile> = Vec::new();
    match &index {
        Ok(idx) => {
            let entries = crate::maps::url_map_entries(&idx.files);
            let ghost e = idx.entries();
            let n = entries.len();
            assert(e.take(0) =~= Seq::<(Seq<char>, UrlView)>::empty());
            assert(files_view(files@) =~= Seq::<RemoteFileView>::empty());
            for i in 0..n
                invariant
                    n == entries@.len(),
                    e == idx.entries(),
                    index == Ok::<crate::index::Index, BinsError>(*idx),
                    e == entries@.map_values(|p: (&String, &PasteUrl)| (p.0@, p.1@)),
                    n == entry_raw_urls@.len(),
                    raws == url_results_view(entry_raw_urls@),
                    entry_files(bin@, e.take(i as int), raws) == Ok::<Seq<RemoteFileView>, Seq<char>>(
                        files_view(files@),
                    ),
            {
                let (name, u) = entries[i];
                assert(e.take(i + 1).drop_last() =~= e.take(i as int));
                assert(e.take(i + 1)[i as int] == (name@, u@));
                assert(e.take(i + 1).last() == (name@, u@));
                assert(e.take(i + 1).len() - 1 == i);
                let id = match produce_id(u) {
                    Ok(id) => id,
                    Err(err) => {
                        proof {
                            lemma_entry_files_err_prefix(bin@, e, raws, (i + 1) as int);
                        }
                        return Err(err);
                    },
                };
                let ru = match &entry_raw_urls[i] {
                    Ok(ru) => ru.duplicate(),
                    Err(err) => {
                        assert(raws[i as int] == Err::<UrlView, Seq<char>>(error_text(*err)));
                        let m = err.message();
                        proof {
                            lemma_entry_files_err_prefix(bin@, e, raws, (i + 1) as int);
                        }
                        return Err(BinsError::Msg(m));
                    },
                };
                let ghost before = files@;
                files.push(
                    RemotePasteFile {
                        id: id,
                        name: name.clone(),
                        bin: bin.to_owned(),
                        url: u.duplicate(),
                        raw_url: ru,
                        contents: PasteContents::default(),
                    },
                );
                assert(files_view(files@) =~= files_view(before).push(files@.last()@));
            }
            assert(e.take(n as int) =~= e);
        },
        Err(err) => {
            if !err.is_invalid_index() {
                return Err(BinsError::Msg(err.message()));
            }
            let nm = match crate::paste_url::last_path_segment(url) {
                Some(nm) => nm,
                None => {
                    return Err(msg_error("paste url was a root url"));
                },
            };
            files.push(
                RemotePasteFile {
                    id: nm.clone(),
                    name: nm,
                    bin: bin.to_owned(),
                    url: url.duplicate(),
                    raw_url: raw_url.duplicate(),
                    contents: PasteContents { truncated: false, value: Some(content.clone()) },
                },
            );
            assert(files_view(files@) =~= seq![files@[0]@]);
        },
    }
    let id = match produce_id(url) {
        Ok(id) => id,
        Err(e) => {
            return Err(e);
        },
    };
    let index_kept = match index {
        Ok(i) => Some(i),
        Err(_) => None,
    };
    Ok(
        Info {
            name: id.clone(),
            id: id,
            url: url.duplicate(),
            raw_url: Some(raw_url),
            raw: false,
            files: files,
            index: index_kept,
            contents: PasteContents { truncated: false, value: Some(content) },
            bin: bin.to_owned(),
        },
    )
}

/// When every entry has an id and a raw URL, the files listed by an index
/// are its entries, one for one, in order.
proof fn lemma_entry_files_ok(
    bin: Seq<char>,
    e: Seq<(Seq<char>, UrlView)>,
    raws: Seq<Result<UrlView, Seq<char>>>,
)
    requires
        raws.len() >= e.len(),
        forall|i: int| 0 <= i < e.len() ==> (#[trigger] raws[i]) is Ok,
        forall|i: int| 0 <= i < e.len() ==> (#[trigger] last_segment(e[i].1)) is Some,
    ensures
        entry_files(bin, e, raws) matches Ok(fs) && fs.len() == e.len() && forall|i: int|
            0 <= i < e.len() ==> (#[trigger] fs[i]).name == e[i].0 && fs[i].url == e[i].1
                && fs[i].id == last_segment(e[i].1)->Some_0 && fs[i].raw_url == raws[i]->Ok_0
                && fs[i].contents.value is None,
    decreases e.len(),
{
    if e.len() > 0 {
        let e2 = e.drop_last();
        assert forall|i: int| 0 <= i < e2.len() implies (#[trigger] last_segment(e2[i].1)) is Some by {
            assert(e2[i] == e[i]);
        }
        lemma_entry_files_ok(bin, e2, raws);
        let i = e.len() - 1;
        assert(last_segment(e[i].1) is Some);
        assert(raws[i] is Ok);
    }
}

/// Reading back a paste of several files: when the raw contents of a paste
/// are the index text of entries with distinct names (at least one, no name
/// or URL serialization holding a line break or `": "`), and reading that
/// text gives its entries with URLs parsed again from their serializations,
/// the paste's files are the entries' names in order, each with the parsed
/// URL and the id taken from it, provided every id and raw URL is found.
pub proof fn law_index_paste_read_back(
    bin: Seq<char>,
    url: UrlView,
    raw_url: UrlView,
    e: Seq<(Seq<char>, UrlView)>,
    raws: Seq<Result<UrlView, Seq<char>>>,
)
    requires
        e.len() >= 1,
        keys_distinct(e),
        forall|i: int|
            0 <= i < e.len() ==> crate::index::text_safe(#[trigger] e[i].0) && crate::index::text_safe(
                e[i].1.serialization,
            ),
        crate::index::all_urls_parse(crate::index::url_texts(e)),
        raws.len() == e.len(),
        forall|i: int| 0 <= i < e.len() ==> (#[trigger] raws[i]) is Ok,
        forall|i: int|
            0 <= i < e.len() ==> (#[trigger] last_segment(url_parse(e[i].1.serialization)->Ok_0)) is Some,
        last_segment(url) is Some,
    ensures
        crate::index::index_pairs(crate::index::index_text(crate::index::url_texts(e))) == Some(
            crate::index::url_texts(e),
        ),
        info_outcome(
            bin,
            url,
            raw_url,
            crate::index::index_text(crate::index::url_texts(e)),
            Ok(crate::index::parsed_entries(crate::index::url_texts(e))),
            raws,
        ) matches Ok(v) && v.files.len() == e.len() && forall|i: int|
            0 <= i < e.len() ==> (#[trigger] v.files[i]).name == e[i].0 && v.files[i].url
                == url_parse(e[i].1.serialization)->Ok_0 && v.files[i].raw_url == raws[i]->Ok_0
                && v.files[i].id == last_segment(url_parse(e[i].1.serialization)->Ok_0)->Some_0
                && v.files[i].contents.value is None,
{
    crate::index::law_index_roundtrip(e);
    let pe = crate::index::parsed_entries(crate::index::url_texts(e));
    assert forall|i: int| 0 <= i < pe.len() implies (#[trigger] last_segment(pe[i].1)) is Some by {
        assert(pe[i] == (e[i].0, url_parse(e[i].1.serialization)->Ok_0));
    }
    lemma_entry_files_ok(bin, pe, raws);
}

/// A paste whose contents are not an index is one file: it is named, and
/// identified, by the last path segment of the paste's URL, it is found at
/// the paste's URL with its raw text at the raw URL, and it holds the
/// contents. The paste itself has that id and name, the paste's URL, and
/// the contents.
pub proof fn law_plain_paste_is_one_file(
    bin: Seq<char>,
    url: UrlView,
    raw_url: UrlView,
    content: Seq<char>,
    raws: Seq<Result<UrlView, Seq<char>>>,
)
    requires
        url.segments matches Some(s) && s.len() > 0,
    ensures
        info_outcome(bin, url, raw_url, content, Err(BinsError::InvalidIndex), raws) matches Ok(v)
            && v.files.len() == 1
            && v.files[0].url == url
            && v.files[0].raw_url == raw_url
            && v.files[0].name == url.segments->Some_0.last()
            && v.files[0].id == url.segments->Some_0.last()
            && v.files[0].bin == bin
            && v.files[0].contents.value == Some(content)
            && !v.files[0].contents.truncated
            && v.url == url
            && v.raw_url == Some(raw_url)
            && v.id == url.segments->Some_0.last()
            && v.name == v.id
            && v.contents.value == Some(content)
            && v.index is None
            && v.bin == bin
            && !v.raw,
{
}

/// An error among the first `k` entries is the error of all of them.
proof fn lemma_entry_files_err_prefix(
    bin: Seq<char>,
    e: Seq<(Seq<char>, UrlView)>,
    raws: Seq<Result<UrlView, Seq<char>>>,
    k: int,
)
    requires
        0 <= k <= e.len(),
        entry_files(bin, e.take(k), raws) is Err,
    ensures
        entry_files(bin, e, raws) == entry_files(bin, e.take(k), raws),
    decreases e.len() - k,
{
    if k < e.len() {
        assert(e.take(k + 1).drop_last() =~= e.take(k));
        lemma_entry_files_err_prefix(bin, e, raws, k + 1);
    } else {
        assert(e.take(k) =~= e);
    }
}

impl Info {
    /// The same information, marked as asked for in raw form.
    pub fn into_raw(self) -> (r: Info)
        ensures
            r@ == (InfoView { raw: true, ..self@ }),
    {
        let mut info = self;
        info.raw = true;
        info
    }
}

// ----------------------------------------------------------------------------
// Contents of the chosen files
// ----------------------------------------------------------------------------

/// The contents of a file that are already known: none if they were cut
/// short, otherwise whatever was fetched.
pub open spec fn known_contents_spec(c: ContentsView) -> Option<Seq<char>> {
    if c.truncated {
        None
    } else {
        c.value
    }
}

/// The contents of `file` that are already known; the others must be
/// fetched from its raw URL.
pub fn known_contents(file: &RemotePasteFile) -> (r: Option<String>)
    ensures
        opt_view(r) == known_contents_spec(file@.contents),
{
    if file.contents.truncated {
        None
    } else {
        clone_opt_string(&file.contents.value)
    }
}

/// Names paired with texts, as far as both lists go.
pub open spec fn zip_texts(names: Seq<Seq<char>>, texts: Seq<Seq<char>>) -> Seq<(Seq<char>, Seq<char>)> {
    let n = if names.len() <= texts.len() {
        names.len()
    } else {
        texts.len()
    };
    Seq::new(n, |i: int| (names[i], texts[i]))
}

/// The map from each name to the text at the same position, as far as both
/// lists go; a later text for the same name replaces an earlier one and
/// takes the later place.
pub fn files_map(names: Vec<String>, texts: Vec<String>) -> (r: linked_hash_map::LinkedHashMap<
    String,
    String,
>)
    ensures
        crate::maps::text_map_contents(r) == insert_all(zip_texts(strings_view(names@), strings_view(texts@))),
{
    let mut m = crate::maps::text_map_new();
    let n = if names.len() <= texts.len() {
        names.len()
    } else {
        texts.len()
    };
    let ghost z = zip_texts(strings_view(names@), strings_view(texts@));
    assert(z.take(0) =~= Seq::<(Seq<char>, Seq<char>)>::empty());
    for i in 0..n
        invariant
            n <= names@.len(),
            n <= texts@.len(),
            z == zip_texts(strings_view(names@), strings_view(texts@)),
            z.len() == n,
            crate::maps::text_map_contents(m) == insert_all(z.take(i as int)),
    {
        crate::maps::text_map_insert(&mut m, names[i].clone(), texts[i].clone());
        assert(z.take(i + 1).drop_last() =~= z.take(i as int));
        assert(z.take(i + 1).last() == z[i as int]);
    }
    assert(z.take(n as int) =~= z);
    m
}

/// The files with their contents replaced by the text stored for their
/// name, if any.
pub open spec fn with_contents(fs: Seq<RemoteFileView>, m: Seq<(Seq<char>, Seq<char>)>) -> Seq<
    RemoteFileView,
> {
    fs.map_values(
        |f: RemoteFileView|
            RemoteFileView {
                contents: ContentsView { truncated: f.contents.truncated, value: assoc(m, f.name) },
                ..f
            },
    )
}

/// The files listed in JSON output: all files of the paste, each with the
/// text fetched for its name, if any; none when the paste has a single
/// file, and an error when it has none.
pub fn json_files(files: Vec<RemotePasteFile>, texts: &linked_hash_map::LinkedHashMap<String, String>) -> (r: Result<
    Option<Vec<RemotePasteFile>>,
    BinsError,
>)
    ensures
        files@.len() < 1 ==> (r matches Err(BinsError::Msg(m)) && m@
            == "paste had no output (this is a bug)"@),
        files@.len() == 1 ==> (r matches Ok(None)),
        files@.len() >= 2 ==> (r matches Ok(Some(v)) && files_view(v@) == with_contents(
            files_view(files@),
            crate::maps::text_map_contents(*texts),
        )),
{
    if files.len() < 1 {
        return Err(msg_error("paste had no output (this is a bug)"));
    }
    let mut out: Vec<RemotePasteFile> = Vec::new();
    let n = files.len();
    let ghost want = with_contents(files_view(files@), crate::maps::text_map_contents(*texts));
    for i in 0..n
        invariant
            n == files@.len(),
            want == with_contents(files_view(files@), crate::maps::text_map_contents(*texts)),
            out@.len() == i,
            forall|j: int| 0 <= j < i ==> (#[trigger] out@[j])@ == want[j],
    {
        let mut f = files[i].duplicate();
        let v = match crate::maps::text_map_get(texts, &f.name) {
            Some(t) => Some(t.clone()),
            None => None,
        };
        f.contents.value = v;
        out.push(f);
    }
    if out.len() < 2 {
        return Ok(None);
    }
    assert(files_view(out@) =~= want);
    Ok(Some(out))
}

/// JSON output lists every file of the paste unchanged but for its text: a
/// file carries a text exactly when a chosen file has its name, and then the
/// text of the last chosen file of that name.
pub proof fn law_json_texts_only_for_chosen(
    all: Seq<RemoteFileView>,
    names: Seq<Seq<char>>,
    texts: Seq<Seq<char>>,
)
    requires
        names.len() == texts.len(),
    ensures
        with_contents(all, insert_all(zip_texts(names, texts))).len() == all.len(),
        forall|i: int|
            #![trigger with_contents(all, insert_all(zip_texts(names, texts)))[i]]
            0 <= i < all.len() ==> {
                let f = with_contents(all, insert_all(zip_texts(names, texts)))[i];
                &&& f == (RemoteFileView {
                    contents: ContentsView { truncated: all[i].contents.truncated, value: f.contents.value },
                    ..all[i]
                })
                &&& f.contents.value == assoc(zip_texts(names, texts), all[i].name)
                &&& (f.contents.value is Some <==> names.contains(all[i].name))
            },
{
    let z = zip_texts(names, texts);
    let w = with_contents(all, insert_all(z));
    assert forall|i: int| 0 <= i < all.len() implies {
        let f = #[trigger] w[i];
        &&& f == (RemoteFileView {
            contents: ContentsView { truncated: all[i].contents.truncated, value: f.contents.value },
            ..all[i]
        })
        &&& f.contents.value == assoc(z, all[i].name)
        &&& (f.contents.value is Some <==> names.contains(all[i].name))
    } by {
        let k = all[i].name;
        crate::maps::law_insert_all_finds_last(z, k);
        crate::maps::lemma_assoc_some(z, k);
        if names.contains(k) {
            let j = choose|j: int| 0 <= j < names.len() && names[j] == k;
            assert(z[j].0 == k);
        }
        if exists|j: int| 0 <= j < z.len() && (#[trigger] z[j]).0 == k {
            let j = choose|j: int| 0 <= j < z.len() && (#[trigger] z[j]).0 == k;
            assert(names[j] == k);
        }
    }
}

/// The files of output: each stored name with its text, its lines numbered
/// if asked for.
pub open spec fn output_files(m: Seq<(Seq<char>, Seq<char>)>, number: bool) -> Seq<
    (Seq<char>, Seq<char>),
> {
    m.map_values(
        |e: (Seq<char>, Seq<char>)|
            (
                e.0,
                if number {
                    numbered_text(e.1)
                } else {
                    e.1
                },
            ),
    )
}

/// The files of output from the texts stored by name, in their order.
pub fn paste_files(texts: &linked_hash_map::LinkedHashMap<String, String>, number: bool) -> (r: Vec<PasteFile>)
    ensures
        paste_files_view(r@) == output_files(crate::maps::text_map_contents(*texts), number),
{
    let entries = crate::maps::text_map_entries(texts);
    let ghost m = crate::maps::text_map_contents(*texts);
    let mut out: Vec<PasteFile> = Vec::new();
    let n = entries.len();
    for i in 0..n
        invariant
            n == entries@.len(),
            m == entries@.map_values(|e: (&String, &String)| (e.0@, e.1@)),
            out@.len() == i,
            forall|j: int| 0 <= j < i ==> ((#[trigger] out@[j]).name@, out@[j].data@) == output_files(m, number)[j],
    {
        let (name, text) = entries[i];
        let data = if number {
            number_lines(text.as_str())
        } else {
            text.clone()
        };
        out.push(PasteFile { name: name.clone(), data: data });
    }
    assert(paste_files_view(out@) =~= output_files(m, number));
    out
}

// ----------------------------------------------------------------------------
// The contents of a paste, step by step
// ----------------------------------------------------------------------------

/// What the command line asks of the contents of a paste.
#[derive(Debug)]
pub struct ContentRequest {
    /// The files asked for by name.
    pub files: Vec<String>,
    /// The files asked for by position, counting from zero.
    pub range: Option<Vec<usize>>,
    /// Whether all files of a paste of several files are asked for.
    pub all: bool,
    /// Whether only the raw URLs of the files are asked for.
    pub raw_urls: bool,
    /// Whether only the URLs of the files are asked for.
    pub urls: bool,
    /// Whether the output is JSON.
    pub json: bool,
    /// Whether the lines of each file are numbered.
    pub number_lines: bool,
    /// Whether the files are written to disk rather than shown.
    pub write: bool,
}

/// The view of an optional list of positions.
pub open spec fn opt_positions(r: Option<Vec<usize>>) -> Option<Seq<usize>> {
    match r {
        Some(v) => Some(v@),
        None => None,
    }
}

/// The first step towards the contents of a paste, once its files are chosen.
pub enum ContentStep {
    /// The output is already known.
    Output(String),
    /// The chosen files; the texts of those whose contents are not known
    /// must be fetched from their raw URLs.
    Fetch(Vec<RemotePasteFile>),
}

/// What to do with the texts of the chosen files.
pub enum ContentOutput {
    /// Show this text.
    Text(String),
    /// Show the paste as JSON, listing these files (none for a paste of a
    /// single file).
    Json(Option<Vec<RemotePasteFile>>),
    /// Write these files to disk and report what was written.
    Write(Vec<PasteFile>),
}

/// The names of files, in order.
pub open spec fn file_names(fs: Seq<RemoteFileView>) -> Seq<Seq<char>> {
    fs.map_values(|f: RemoteFileView| f.name)
}

/// The fetched texts are kept under the chosen files' own names: when the
/// chosen files have distinct names and there is one text for each, the
/// files of output are the chosen files' names, in order, each with its text
/// (its lines numbered if asked for).
pub proof fn law_output_keeps_names(chosen: Seq<RemoteFileView>, texts: Seq<Seq<char>>, number: bool)
    requires
        texts.len() == chosen.len(),
        forall|i: int, j: int|
            0 <= i < j < chosen.len() ==> (#[trigger] chosen[i]).name != (#[trigger] chosen[j]).name,
    ensures
        output_files(insert_all(zip_texts(file_names(chosen), texts)), number) == Seq::new(
            chosen.len(),
            |i: int|
                (
                    chosen[i].name,
                    if number {
                        numbered_text(texts[i])
                    } else {
                        texts[i]
                    },
                ),
        ),
{
    let z = zip_texts(file_names(chosen), texts);
    assert forall|i: int, j: int| 0 <= i < j < z.len() implies (#[trigger] z[i]).0 != (#[trigger] z[j]).0 by {
        assert(z[i].0 == chosen[i].name && z[j].0 == chosen[j].name);
    }
    crate::maps::lemma_insert_all_distinct(z);
    assert(output_files(z, number) =~= Seq::new(
        chosen.len(),
        |i: int|
            (
                chosen[i].name,
                if number {
                    numbered_text(texts[i])
                } else {
                    texts[i]
                },
            ),
    ));
}

/// The text output of two or more files begins with the first file's
/// header, which shows its name as it is, followed by its text.
pub proof fn law_joined_output_starts_with_first_file(files: Seq<(Seq<char>, Seq<char>)>)
    requires
        files.len() >= 2,
    ensures
        joined_files(files).len() >= file_block(files[0].0, files[0].1).len(),
        joined_files(files).subrange(0, file_block(files[0].0, files[0].1).len() as int) == file_block(
            files[0].0,
            files[0].1,
        ),
{
    let ps = files.map_values(|f: (Seq<char>, Seq<char>)| file_block(f.0, f.1));
    crate::text::lemma_join_starts_with_first(ps, seq!['\n']);
}

impl ContentRequest {
    /// The information to work from: as it was fetched when only URLs are
    /// asked for, otherwise marked as asked for in raw form.
    pub fn info_for(&self, info: Info) -> (r: Info)
        ensures
            r@ == if self.urls {
                info@
            } else {
                InfoView { raw: true, ..info@ }
            },
    {
        if self.urls {
            info
        } else {
            info.into_raw()
        }
    }
}

/// Chooses the files of `info` that `req` asks for. When only URLs are asked
/// for, the output is their URLs, one per line; otherwise the chosen files
/// are handed back so that their texts can be fetched.
pub fn choose_contents(info: &Info, req: &ContentRequest) -> (r: Result<ContentStep, BinsError>)
    ensures
        match selected_files(
            files_view(info.files@),
            strings_view(req.files@),
            opt_positions(req.range),
            req.all,
        ) {
            Err(m) => r matches Err(BinsError::Msg(x)) && x@ == m,
            Ok(fs) => if req.raw_urls || req.urls {
                r matches Ok(ContentStep::Output(s)) && s@ == url_lines(fs)
            } else {
                r matches Ok(ContentStep::Fetch(v)) && files_view(v@) == fs
            },
        },
{
    let chosen = match select_files(duplicate_files(&info.files), &req.files, &req.range, req.all) {
        Ok(v) => v,
        Err(e) => {
            return Err(e);
        },
    };
    if req.raw_urls || req.urls {
        Ok(ContentStep::Output(urls_output(&chosen)))
    } else {
        Ok(ContentStep::Fetch(chosen))
    }
}

/// Finishes the contents of a paste from the chosen files and their texts
/// (the `i`-th text belongs to the `i`-th chosen file): the texts are stored
/// by file name, then shown as JSON, written to disk, or joined for the
/// terminal, as `req` asks.
pub fn finish_contents(
    info: &Info,
    req: &ContentRequest,
    chosen: &Vec<RemotePasteFile>,
    texts: Vec<String>,
) -> (r: Result<ContentOutput, BinsError>)
    ensures
        ({
            let m = insert_all(zip_texts(file_names(files_view(chosen@)), strings_view(texts@)));
            let all = files_view(info.files@);
            if req.json {
                &&& all.len() < 1 ==> (r matches Err(BinsError::Msg(x)) && x@
                    == "paste had no output (this is a bug)"@)
                &&& all.len() == 1 ==> (r matches Ok(ContentOutput::Json(None)))
                &&& all.len() >= 2 ==> (r matches Ok(ContentOutput::Json(Some(v))) && files_view(v@)
                    == with_contents(all, m))
            } else if req.write {
                r matches Ok(ContentOutput::Write(v)) && paste_files_view(v@) == output_files(
                    m,
                    req.number_lines,
                )
            } else {
                r matches Ok(ContentOutput::Text(s)) && s@ == joined_files(
                    output_files(m, req.number_lines),
                )
            }
        }),
{
    let mut names: Vec<String> = Vec::new();
    let n = chosen.len();
    for i in 0..n
        invariant
            n == chosen@.len(),
            names@.len() == i,
            forall|j: int| 0 <= j < i ==> (#[trigger] names@[j])@ == chosen@[j].name@,
    {
        names.push(chosen[i].name.clone());
    }
    assert(strings_view(names@) =~= file_names(files_view(chosen@)));
    let texts_by_name = files_map(names, texts);
    if req.json {
        match json_files(duplicate_files(&info.files), &texts_by_name) {
            Ok(v) => Ok(ContentOutput::Json(v)),
            Err(e) => Err(e),
        }
    } else {
        let files = paste_files(&texts_by_name, req.number_lines);
        if req.write {
            Ok(ContentOutput::Write(files))
        } else {
            Ok(ContentOutput::Text(join_paste_files(&files)))
        }
    }
}

} // verus!
