//! The configuration of `bins`: a TOML document, read through dotted key
//! paths, and the settings that are read from it.

use vstd::prelude::*;
use crate::error::BinsError;
use crate::paste_url::strings_view;
use crate::text::{
    ascii_lower, ascii_lower_char, chars_of, extend_chars, join, join_chars, lemma_split_join,
    lowercase, split_char, str_eq, string_of, to_lowercase,
};

verus! {

// ----------------------------------------------------------------------------
// Values
// ----------------------------------------------------------------------------

/// A value of a TOML document, as far as the library reads it. A float is
/// held without its number, which the library never reads.
#[derive(Debug)]
pub enum ConfigValue {
    Str(String),
    Integer(i64),
    Float,
    Boolean(bool),
    Datetime(String),
    Array(Vec<ConfigValue>),
    /// The entries of a table. A TOML table holds each key once; a lookup
    /// takes the first entry for a key.
    Table(Vec<(String, ConfigValue)>),
}

/// The value stored under `k` in the entries of a table.
pub open spec fn table_get(t: Seq<(String, ConfigValue)>, k: Seq<char>) -> Option<ConfigValue>
    decreases t.len(),
{
    if t.len() == 0 {
        None
    } else if t[0].0@ == k {
        Some(t[0].1)
    } else {
        table_get(t.drop_first(), k)
    }
}

/// Whether `c` is a decimal digit.
pub open spec fn is_digit(c: char) -> bool {
    '0' <= c && c <= '9'
}

/// The number that the digits `s` write.
pub open spec fn digits_value(s: Seq<char>) -> nat
    decreases s.len(),
{
    if s.len() == 0 {
        0
    } else {
        digits_value(s.drop_last()) * 10 + ((s.last() as u32) - ('0' as u32)) as nat
    }
}

/// Whether every character of `s` is a decimal digit.
pub open spec fn all_digits(s: Seq<char>) -> bool {
    forall|i: int| 0 <= i < s.len() ==> is_digit(#[trigger] s[i])
}

/// `str::parse::<usize>`: an optional `+` followed by at least one digit,
/// the number written fitting in a `usize`.
pub open spec fn usize_value(s: Seq<char>) -> Option<nat> {
    let d = if s.len() > 0 && s[0] == '+' {
        s.skip(1)
    } else {
        s
    };
    if d.len() == 0 || !all_digits(d) {
        None
    } else if digits_value(d) > usize::MAX {
        None
    } else {
        Some(digits_value(d))
    }
}

/// One step of a lookup: a table's value under the key, or an array's
/// element at the position the key writes.
pub open spec fn lookup_step(v: ConfigValue, key: Seq<char>) -> Option<ConfigValue> {
    match v {
        ConfigValue::Table(t) => table_get(t@, key),
        ConfigValue::Array(a) => match usize_value(key) {
            Some(i) => if i < a@.len() {
                Some(a@[i as int])
            } else {
                None
            },
            None => None,
        },
        _ => None,
    }
}

/// The value reached from `v` by following `keys`.
pub open spec fn lookup_keys_spec(v: ConfigValue, keys: Seq<Seq<char>>) -> Option<ConfigValue>
    decreases keys.len(),
{
    if keys.len() == 0 {
        Some(v)
    } else {
        match lookup_step(v, keys[0]) {
            Some(c) => lookup_keys_spec(c, keys.drop_first()),
            None => None,
        }
    }
}

/// Whether `c` may stand in a bare TOML key.
pub open spec fn is_bare_key_char(c: char) -> bool {
    ('a' <= c && c <= 'z') || ('A' <= c && c <= 'Z') || ('0' <= c && c <= '9') || c == '_' || c
        == '-'
}

/// Whether `path` is bare keys (letters, digits, `_`, `-`; at least one
/// character each) joined by dots.
pub open spec fn bare_path(path: Seq<char>) -> bool {
    &&& forall|i: int| 0 <= i < path.len() ==> #[trigger] path[i] == '.' || is_bare_key_char(path[i])
    &&& forall|i: int|
        0 <= i < split_char(path, '.').len() ==> (#[trigger] split_char(path, '.')[i]).len() > 0
}

/// The keys that `toml::Parser::lookup` reads from the dotted path `path`,
/// or `None` if it does not read a path.
pub uninterp spec fn toml_key_path(path: Seq<char>) -> Option<Seq<Seq<char>>>;

/// `toml::Parser::lookup`: reads a dotted key path (bare or quoted keys,
/// separated by dots, spaces and tabs allowed around them) into its keys.
/// The contract names the result, which depends on the path alone, and
/// states what the parser's key loop shows for a path of bare keys joined
/// by dots: it reads those keys.
#[verifier::external_body]
fn toml_path_keys(path: &str) -> (r: Option<Vec<String>>)
    ensures
        match r {
            Some(v) => toml_key_path(path@) == Some(strings_view(v@)) && (bare_path(path@)
                ==> strings_view(v@) == split_char(path@, '.')),
            None => toml_key_path(path@) is None && !bare_path(path@),
        },
{
    toml::Parser::new(path).lookup()
}

/// The value at the dotted path `path` within `v`, as `toml::Value::lookup`
/// finds it: the path is read into keys, which are then followed. A path of
/// bare keys joined by dots is read as those keys.
pub open spec fn lookup_spec(v: ConfigValue, path: Seq<char>) -> Option<ConfigValue> {
    if bare_path(path) {
        lookup_keys_spec(v, split_char(path, '.'))
    } else {
        match toml_key_path(path) {
            Some(keys) => lookup_keys_spec(v, keys),
            None => None,
        }
    }
}

/// Two bare keys joined by a dot form a bare path that reads as those keys.
pub proof fn lemma_two_keys(a: Seq<char>, b: Seq<char>)
    requires
        a.len() > 0,
        b.len() > 0,
        forall|i: int| 0 <= i < a.len() ==> is_bare_key_char(#[trigger] a[i]),
        forall|i: int| 0 <= i < b.len() ==> is_bare_key_char(#[trigger] b[i]),
    ensures
        bare_path(a + seq!['.'] + b),
        split_char(a + seq!['.'] + b, '.') == seq![a, b],
{
    let p = a + seq!['.'] + b;
    let ks = seq![a, b];
    assert(ks.drop_last() =~= seq![a]);
    assert(join(seq![a], seq!['.']) == a);
    assert(join(ks, seq!['.']) == a + seq!['.'] + b);
    assert(!a.contains('.')) by {
        if a.contains('.') {
            let j = choose|j: int| 0 <= j < a.len() && a[j] == '.';
            assert(is_bare_key_char(a[j]));
        }
    }
    assert(!b.contains('.')) by {
        if b.contains('.') {
            let j = choose|j: int| 0 <= j < b.len() && b[j] == '.';
            assert(is_bare_key_char(b[j]));
        }
    }
    lemma_split_join(ks, '.');
    assert forall|i: int| 0 <= i < p.len() implies #[trigger] p[i] == '.' || is_bare_key_char(p[i]) by {
        if i < a.len() {
            assert(p[i] == a[i]);
        } else if i > a.len() {
            assert(p[i] == b[i - a.len() - 1]);
        }
    }
}

fn digit_value(c: char) -> (r: u64)
    requires
        is_digit(c),
    ensures
        r == (c as u32) - ('0' as u32),
{
    let u: u32 = c as u32;
    (u - 48) as u64
}

/// Reads `s` as `str::parse::<usize>` does.
pub fn parse_usize(s: &Vec<char>) -> (r: Option<usize>)
    ensures
        match r {
            Some(n) => usize_value(s@) == Some(n as nat),
            None => usize_value(s@) is None,
        },
{
    let start: usize = if s.len() > 0 && s[0] == '+' {
        1
    } else {
        0
    };
    let ghost d = s@.skip(start as int);
    assert(s@.skip(0) =~= s@);
    assert(d == if s@.len() > 0 && s@[0] == '+' {
        s@.skip(1)
    } else {
        s@
    });
    if start == s.len() {
        return None;
    }
    let mut acc: u64 = 0;
    let mut i = start;
    let max: u64 = usize::MAX as u64;
    assert(d.take(0) =~= Seq::<char>::empty());
    while i < s.len()
        invariant
            start <= i <= s@.len(),
            d == s@.skip(start as int),
            d == if s@.len() > 0 && s@[0] == '+' {
                s@.skip(1)
            } else {
                s@
            },
            d.len() > 0,
            max == usize::MAX,
            forall|j: int| 0 <= j < i - start ==> is_digit(#[trigger] d[j]),
            acc == digits_value(d.take(i - start)),
            acc <= max,
        decreases s@.len() - i,
    {
        let c = s[i];
        assert(d[i - start] == c);
        if !('0' <= c && c <= '9') {
            assert(!is_digit(d[i - start]));
            return None;
        }
        let v = digit_value(c);
        assert(d.take(i + 1 - start).drop_last() =~= d.take(i - start));
        assert(d.take(i + 1 - start).last() == c);
        assert(digits_value(d.take(i + 1 - start)) == acc * 10 + v);
        if acc > (max - v) / 10 {
            assert(acc * 10 + v > max) by (nonlinear_arith)
                requires
                    acc > (max - v) / 10,
                    v <= max,
            ;
            proof {
                lemma_digits_grow(d, (i + 1 - start) as int);
            }
            return None;
        }
        assert(acc * 10 + v <= max) by (nonlinear_arith)
            requires
                acc <= (max - v) / 10,
                v <= max,
        ;
        acc = acc * 10 + v;
        i = i + 1;
    }
    assert(d.take(i - start) =~= d);
    Some(acc as usize)
}

/// Once the digits read so far write more than `usize::MAX`, so do all
/// digits.
proof fn lemma_digits_grow(d: Seq<char>, k: int)
    requires
        0 <= k <= d.len(),
        digits_value(d.take(k)) > usize::MAX,
    ensures
        digits_value(d) > usize::MAX,
    decreases d.len() - k,
{
    if k < d.len() {
        assert(d.take(k + 1).drop_last() =~= d.take(k));
        let x = digits_value(d.take(k));
        assert(x * 10 >= x) by (nonlinear_arith);
        lemma_digits_grow(d, k + 1);
    } else {
        assert(d.take(k) =~= d);
    }
}

fn table_lookup<'a>(t: &'a Vec<(String, ConfigValue)>, key: &String) -> (r: Option<&'a ConfigValue>)
    ensures
        match r {
            Some(v) => table_get(t@, key@) == Some(*v),
            None => table_get(t@, key@) is None,
        },
{
    let n = t.len();
    assert(t@.skip(0) =~= t@);
    for i in 0..n
        invariant
            n == t@.len(),
            table_get(t@, key@) == table_get(t@.skip(i as int), key@),
    {
        assert(t@.skip(i as int)[0] == t@[i as int]);
        if str_eq(t[i].0.as_str(), key.as_str()) {
            return Some(&t[i].1);
        }
        assert(t@.skip(i as int).drop_first() =~= t@.skip(i + 1));
    }
    None
}

impl ConfigValue {
    /// The value reached from this one by following `keys`: a table's value
    /// under each key, or an array's element at the position it writes.
    pub fn lookup_keys(&self, keys: &Vec<String>) -> (r: Option<&ConfigValue>)
        ensures
            match r {
                Some(v) => lookup_keys_spec(*self, strings_view(keys@)) == Some(*v),
                None => lookup_keys_spec(*self, strings_view(keys@)) is None,
            },
    {
        let ghost ks = strings_view(keys@);
        let mut cur: &ConfigValue = self;
        let n = keys.len();
        assert(ks.skip(0) =~= ks);
        for i in 0..n
            invariant
                n == keys@.len(),
                ks == strings_view(keys@),
                lookup_keys_spec(*self, ks) == lookup_keys_spec(*cur, ks.skip(i as int)),
        {
            let key = &keys[i];
            assert(ks.skip(i as int)[0] == key@);
            assert(ks.skip(i as int).drop_first() =~= ks.skip(i + 1));
            let next: Option<&ConfigValue> = match cur {
                ConfigValue::Table(t) => table_lookup(t, key),
                ConfigValue::Array(a) => {
                    let kc = chars_of(key.as_str());
                    match parse_usize(&kc) {
                        Some(idx) => if idx < a.len() {
                            Some(&a[idx])
                        } else {
                            None
                        },
                        None => None,
                    }
                },
                _ => None,
            };
            match next {
                Some(c) => {
                    cur = c;
                },
                None => {
                    return None;
                },
            }
        }
        assert(ks.skip(n as int).len() == 0);
        Some(cur)
    }

    /// The value at the dotted path `path` within this one.
    pub fn lookup(&self, path: &str) -> (r: Option<&ConfigValue>)
        ensures
            match r {
                Some(v) => lookup_spec(*self, path@) == Some(*v),
                None => lookup_spec(*self, path@) is None,
            },
    {
        match toml_path_keys(path) {
            Some(keys) => self.lookup_keys(&keys),
            None => None,
        }
    }

    /// The text of a string value.
    pub fn as_str(&self) -> (r: Option<&str>)
        ensures
            match r {
                Some(s) => *self matches ConfigValue::Str(x) && x@ == s@,
                None => !(*self is Str),
            },
    {
        match self {
            ConfigValue::Str(s) => Some(s.as_str()),
            _ => None,
        }
    }

    /// The truth of a boolean value.
    pub fn as_bool(&self) -> (r: Option<bool>)
        ensures
            match r {
                Some(b) => *self == ConfigValue::Boolean(b),
                None => !(*self is Boolean),
            },
    {
        match self {
            ConfigValue::Boolean(b) => Some(*b),
            _ => None,
        }
    }

    /// The elements of an array value.
    pub fn as_slice(&self) -> (r: Option<&[ConfigValue]>)
        ensures
            match r {
                Some(s) => *self matches ConfigValue::Array(a) && a@ == s@,
                None => !(*self is Array),
            },
    {
        match self {
            ConfigValue::Array(a) => Some(a.as_slice()),
            _ => None,
        }
    }
}

/// The text found at `path`, if it is a string.
pub open spec fn lookup_str_spec(v: ConfigValue, path: Seq<char>) -> Option<Seq<char>> {
    match lookup_spec(v, path) {
        Some(ConfigValue::Str(s)) => Some(s@),
        _ => None,
    }
}

/// The truth found at `path`, if it is a boolean.
pub open spec fn lookup_bool_spec(v: ConfigValue, path: Seq<char>) -> Option<bool> {
    match lookup_spec(v, path) {
        Some(ConfigValue::Boolean(b)) => Some(b),
        _ => None,
    }
}

/// Lookups that expect a value of a given kind.
pub trait BetterLookups {
    /// The text at `path`, if there is a string.
    fn lookup_str<'a>(&'a self, path: &str) -> Option<&'a str>;

    /// The text at `key`, if there is a string; `def` otherwise.
    fn lookup_str_or<'a>(&'a self, key: &str, def: &'a str) -> &'a str;

    /// The truth at `path`, if there is a boolean.
    fn lookup_bool(&self, path: &str) -> Option<bool>;

    /// The truth at `key`, if there is a boolean; `def` otherwise.
    fn lookup_bool_or(&self, key: &str, def: bool) -> bool;
}

impl BetterLookups for ConfigValue {
    fn lookup_str<'a>(&'a self, path: &str) -> (r: Option<&'a str>)
        ensures
            match r {
                Some(s) => lookup_str_spec(*self, path@) == Some(s@),
                None => lookup_str_spec(*self, path@) is None,
            },
    {
        match self.lookup(path) {
            Some(v) => v.as_str(),
            None => None,
        }
    }

    fn lookup_str_or<'a>(&'a self, key: &str, def: &'a str) -> (r: &'a str)
        ensures
            r@ == match lookup_str_spec(*self, key@) {
                Some(s) => s,
                None => def@,
            },
    {
        match self.lookup_str(key) {
            Some(s) => s,
            None => def,
        }
    }

    fn lookup_bool(&self, path: &str) -> (r: Option<bool>)
        ensures
            r == lookup_bool_spec(*self, path@),
    {
        match self.lookup(path) {
            Some(v) => v.as_bool(),
            None => None,
        }
    }

    fn lookup_bool_or(&self, key: &str, def: bool) -> (r: bool)
        ensures
            r == match lookup_bool_spec(*self, key@) {
                Some(b) => b,
                None => def,
            },
    {
        match self.lookup_bool(key) {
            Some(b) => b,
            None => def,
        }
    }
}

// ----------------------------------------------------------------------------
// The configuration
// ----------------------------------------------------------------------------

/// The configuration file that is written where none exists yet.
pub const DEFAULT_CONFIG_FILE: &'static str = r#"[general]
# List of file-name patterns to disallow uploading. Bins will not upload any files that match this pattern unless it is
# forced to with --force.
# disallowed_file_patterns = ["*.cfg", "*.conf", "*.key"]

# The file size limit for uploads. If any file is larger than this, bins will not upload it unless it is forced to with
# --force.
# Supports kB, MB, GB, KiB, MiB, and GiB.
# file_size_limit = "1MiB"

# List of libmagic file types to disallow. This configuration option is ignored unless bins was built with the
# "file_type_checking" feature. Bins will not upload any files matching a disallowed type unless it is forced to with
# --force.
# disallowed_file_types = ["PEM RSA private key"]

[defaults]
# If this is true, all pastes will be created as private or unlisted.
# Using the command-line option `--public` or `--private` will change this behavior.
private = true

# If this is true, all pastes will be made to accounts or with API keys defined in this file.
# Pastebin ignores this setting and the command-line argument, since Pastebin requires an API key to paste.
# Using the command-line option `--auth` or `--anon` will change this behavior.
auth = true

# Uncomment this line if you want to set a default bin to use with bins. This will make the `--bin` option optional and
# use the configured bin if the option is not specified.
# bin = ""

# If this is true, all commands will copy their output to the system clipboard.
# Using the command-line option `--copy` or `--no-copy` will change this behavior.
copy = false

[gist]
# The username to use for gist.github.com. This is ignored if access_token is empty.
username = ""

# Access token to use to log in to gist.github.com. If this is empty, an anonymous gist will be made.
# Generate a token from https://github.com/settings/tokens - only the gist permission is necessary
access_token = ""

[pastebin]
# The API key for pastebin.com. Learn more: http://pastebin.com/api
# If this is empty, all paste attempts to the pastebin bin will fail.
api_key = ""

[hastebin]
# Uncomment this line if you want to set a default hastebin server besides `http://hastebin.com`.
# Using the command-line option `--server` will override this.
# server = ""

[bitbucket]
# The username for bitbucket.org.
username = ""

# The app password for bitbucket.org. Generate one in your Bitbucket settings under App passwords.
# Only the "snippets write" permission is necessary.
app_password = ""
"#;

/// The configuration of `bins`: the TOML document of its configuration file.
#[derive(Debug)]
pub struct BinsConfiguration {
    pub root: ConfigValue,
}

/// The value reached from `v` by following `keys`, if it is a string.
pub open spec fn str_at(v: ConfigValue, keys: Seq<Seq<char>>) -> Option<Seq<char>> {
    match lookup_keys_spec(v, keys) {
        Some(ConfigValue::Str(s)) => Some(s@),
        _ => None,
    }
}

/// The value reached from `v` by following `keys`, if it is a boolean.
pub open spec fn bool_at(v: ConfigValue, keys: Seq<Seq<char>>) -> Option<bool> {
    match lookup_keys_spec(v, keys) {
        Some(ConfigValue::Boolean(b)) => Some(b),
        _ => None,
    }
}

/// The text at the keys `a`, or else the text at the keys `b`.
pub open spec fn str_or_else(v: ConfigValue, a: Seq<Seq<char>>, b: Seq<Seq<char>>) -> Option<Seq<char>> {
    match str_at(v, a) {
        Some(s) => Some(s),
        None => str_at(v, b),
    }
}

/// The truth at the keys `keys`, or `def` if there is no boolean there.
pub open spec fn bool_or(v: ConfigValue, keys: Seq<Seq<char>>, def: bool) -> bool {
    match bool_at(v, keys) {
        Some(b) => b,
        None => def,
    }
}

/// A boolean setting reads as the boolean the document holds at its keys,
/// and as the default only where the document holds no boolean there.
pub proof fn law_bool_setting_read(v: ConfigValue, keys: Seq<Seq<char>>, def: bool)
    ensures
        lookup_keys_spec(v, keys) matches Some(ConfigValue::Boolean(b)) ==> bool_or(v, keys, def) == b,
        !(lookup_keys_spec(v, keys) matches Some(ConfigValue::Boolean(_))) ==> bool_or(v, keys, def)
            == def,
{
}

/// A text setting reads as the string the document holds at its keys, and
/// as nothing where the document holds no string there.
pub proof fn law_str_setting_read(v: ConfigValue, keys: Seq<Seq<char>>)
    ensures
        lookup_keys_spec(v, keys) matches Some(ConfigValue::Str(x)) ==> str_at(v, keys) == Some(x@),
        !(lookup_keys_spec(v, keys) matches Some(ConfigValue::Str(_))) ==> str_at(v, keys) is None,
{
}

/// A text setting with a fallback reads as the string at the first keys if
/// there is one, else as the string at the second keys, else as nothing.
pub proof fn law_str_setting_fallback(v: ConfigValue, a: Seq<Seq<char>>, b: Seq<Seq<char>>)
    ensures
        lookup_keys_spec(v, a) matches Some(ConfigValue::Str(x)) ==> str_or_else(v, a, b) == Some(x@),
        lookup_keys_spec(v, b) matches Some(ConfigValue::Str(y)) ==> (!(lookup_keys_spec(v, a) matches Some(
            ConfigValue::Str(_),
        )) ==> str_or_else(v, a, b) == Some(y@)),
        !(lookup_keys_spec(v, a) matches Some(ConfigValue::Str(_))) && !(lookup_keys_spec(v, b) matches Some(
            ConfigValue::Str(_),
        )) ==> str_or_else(v, a, b) is None,
{
}

/// The view of an optional text.
pub open spec fn opt_str_view(o: Option<&str>) -> Option<Seq<char>> {
    match o {
        Some(s) => Some(s@),
        None => None,
    }
}

/// The lowercased texts of the elements of an array, or `None` if one of
/// them is not a string.
pub open spec fn lowered_strings(a: Seq<ConfigValue>) -> Option<Seq<Seq<char>>>
    decreases a.len(),
{
    if a.len() == 0 {
        Some(Seq::empty())
    } else {
        match (lowered_strings(a.drop_last()), a.last()) {
            (Some(p), ConfigValue::Str(s)) => Some(p.push(lowercase(s@))),
            _ => None,
        }
    }
}

/// The lowercased texts of the array at the keys `keys`, if there is an
/// array of strings there.
pub open spec fn lowered_array_at(v: ConfigValue, keys: Seq<Seq<char>>) -> Option<Seq<Seq<char>>> {
    match lookup_keys_spec(v, keys) {
        Some(ConfigValue::Array(a)) => lowered_strings(a@),
        _ => None,
    }
}

/// A path `<section>.<key>` of two bare keys finds what the two keys find.
proof fn lemma_section_key(v: ConfigValue, path: Seq<char>, a: Seq<char>, b: Seq<char>)
    requires
        path =~= a + seq!['.'] + b,
        a.len() > 0,
        b.len() > 0,
        forall|i: int| 0 <= i < a.len() ==> is_bare_key_char(#[trigger] a[i]),
        forall|i: int| 0 <= i < b.len() ==> is_bare_key_char(#[trigger] b[i]),
    ensures
        lookup_spec(v, path) == lookup_keys_spec(v, seq![a, b]),
{
    lemma_two_keys(a, b);
}

impl BinsConfiguration {
    /// The configuration held in the TOML document `root`.
    pub fn from_value(root: ConfigValue) -> (r: BinsConfiguration)
        ensures
            r.root == root,
    {
        BinsConfiguration { root }
    }

    /// The file-name patterns that may not be uploaded: the array at
    /// `general.disallowed_file_patterns`.
    pub fn get_general_disallowed_file_patterns(&self) -> (r: Option<&[ConfigValue]>)
        ensures
            match r {
                Some(s) => lookup_keys_spec(self.root, seq!["general"@, "disallowed_file_patterns"@])
                    matches Some(ConfigValue::Array(a)) && a@ == s@,
                None => !(lookup_keys_spec(self.root, seq!["general"@, "disallowed_file_patterns"@])
                    matches Some(ConfigValue::Array(_))),
            },
    {
        proof {
            reveal_strlit("general.disallowed_file_patterns");
            reveal_strlit("general");
            reveal_strlit("disallowed_file_patterns");
            lemma_section_key(self.root, "general.disallowed_file_patterns"@, "general"@, "disallowed_file_patterns"@);
        }
        match self.root.lookup("general.disallowed_file_patterns") {
            Some(v) => v.as_slice(),
            None => None,
        }
    }

    /// The file size limit at `general.file_size_limit`, as written: the
    /// number and the unit, if the configuration sets one.
    pub fn get_general_file_size_limit(&self) -> (r: Option<SizeParts>)
        ensures
            match r {
                Some(p) => str_at(self.root, seq!["general"@, "file_size_limit"@]) matches Some(t)
                    && p.number@ == size_number(t) && p.unit@ == size_unit(t),
                None => str_at(self.root, seq!["general"@, "file_size_limit"@]) is None,
            },
    {
        proof {
            reveal_strlit("general.file_size_limit");
            reveal_strlit("general");
            reveal_strlit("file_size_limit");
            lemma_section_key(self.root, "general.file_size_limit"@, "general"@, "file_size_limit"@);
        }
        match self.root.lookup_str("general.file_size_limit") {
            Some(t) => Some(size_parts(t)),
            None => None,
        }
    }

    /// The file types that may not be uploaded (the array at
    /// `general.disallowed_file_types`), lowercased.
    pub fn get_general_disallowed_file_types(&self) -> (r: Option<Vec<String>>)
        ensures
            match r {
                Some(v) => lowered_array_at(self.root, seq!["general"@, "disallowed_file_types"@])
                    == Some(strings_view(v@)),
                None => lowered_array_at(self.root, seq!["general"@, "disallowed_file_types"@]) is None,
            },
    {
        proof {
            reveal_strlit("general.disallowed_file_types");
            reveal_strlit("general");
            reveal_strlit("disallowed_file_types");
            lemma_section_key(self.root, "general.disallowed_file_types"@, "general"@, "disallowed_file_types"@);
        }
        let ghost keys = seq!["general"@, "disallowed_file_types"@];
        let a = match self.root.lookup("general.disallowed_file_types") {
            Some(v) => match v.as_slice() {
                Some(a) => a,
                None => {
                    return None;
                },
            },
            None => {
                return None;
            },
        };
        let mut out: Vec<String> = Vec::new();
        let n = a.len();
        assert(a@.take(0) =~= Seq::<ConfigValue>::empty());
        assert(lowered_array_at(self.root, keys) == lowered_strings(a@));
        for i in 0..n
            invariant
                n == a@.len(),
                keys == seq!["general"@, "disallowed_file_types"@],
                lowered_array_at(self.root, keys) == lowered_strings(a@),
                lowered_strings(a@.take(i as int)) == Some(strings_view(out@)),
        {
            assert(a@.take(i + 1).drop_last() =~= a@.take(i as int));
            assert(a@.take(i + 1).last() == a@[i as int]);
            match &a[i] {
                ConfigValue::Str(t) => {
                    let l = to_lowercase(t.as_str());
                    let ghost before = out@;
                    out.push(l);
                    assert(strings_view(out@) =~= strings_view(before).push(l@));
                },
                _ => {
                    proof {
                        lemma_lowered_none(a@, (i + 1) as int);
                    }
                    return None;
                },
            }
        }
        assert(a@.take(n as int) =~= a@);
        Some(out)
    }

    /// Whether pastes are private unless the command line says otherwise:
    /// `defaults.private`, `true` when the configuration does not say.
    pub fn get_defaults_private(&self) -> (r: bool)
        ensures
            r == bool_or(self.root, seq!["defaults"@, "private"@], true),
            lookup_keys_spec(self.root, seq!["defaults"@, "private"@]) matches Some(ConfigValue::Boolean(b))
                ==> r == b,
            !(lookup_keys_spec(self.root, seq!["defaults"@, "private"@]) matches Some(ConfigValue::Boolean(_)))
                ==> r == true,
    {
        proof {
            reveal_strlit("defaults.private");
            reveal_strlit("defaults");
            reveal_strlit("private");
            lemma_section_key(self.root, "defaults.private"@, "defaults"@, "private"@);
        }
        self.root.lookup_bool_or("defaults.private", true)
    }

    /// Whether pastes are made with the configured accounts:
    /// `defaults.auth`, `true` when the configuration does not say.
    pub fn get_defaults_auth(&self) -> (r: bool)
        ensures
            r == bool_or(self.root, seq!["defaults"@, "auth"@], true),
            lookup_keys_spec(self.root, seq!["defaults"@, "auth"@]) matches Some(ConfigValue::Boolean(b))
                ==> r == b,
            !(lookup_keys_spec(self.root, seq!["defaults"@, "auth"@]) matches Some(ConfigValue::Boolean(_)))
                ==> r == true,
    {
        proof {
            reveal_strlit("defaults.auth");
            reveal_strlit("defaults");
            reveal_strlit("auth");
            lemma_section_key(self.root, "defaults.auth"@, "defaults"@, "auth"@);
        }
        self.root.lookup_bool_or("defaults.auth", true)
    }

    /// The service to use when the command line names none: `defaults.bin`,
    /// or else `defaults.service`.
    pub fn get_defaults_bin(&self) -> (r: Option<&str>)
        ensures
            opt_str_view(r) == str_or_else(
                self.root,
                seq!["defaults"@, "bin"@],
                seq!["defaults"@, "service"@],
            ),
    {
        proof {
            reveal_strlit("defaults.bin");
            reveal_strlit("defaults.service");
            reveal_strlit("defaults");
            reveal_strlit("bin");
            reveal_strlit("service");
            lemma_section_key(self.root, "defaults.bin"@, "defaults"@, "bin"@);
            lemma_section_key(self.root, "defaults.service"@, "defaults"@, "service"@);
        }
        match self.root.lookup_str("defaults.bin") {
            Some(s) => Some(s),
            None => self.root.lookup_str("defaults.service"),
        }
    }

    /// Whether output is copied to the clipboard: `defaults.copy`, `false`
    /// when the configuration does not say.
    pub fn get_defaults_copy(&self) -> (r: bool)
        ensures
            r == bool_or(self.root, seq!["defaults"@, "copy"@], false),
            lookup_keys_spec(self.root, seq!["defaults"@, "copy"@]) matches Some(ConfigValue::Boolean(b))
                ==> r == b,
            !(lookup_keys_spec(self.root, seq!["defaults"@, "copy"@]) matches Some(ConfigValue::Boolean(_)))
                ==> r == false,
    {
        proof {
            reveal_strlit("defaults.copy");
            reveal_strlit("defaults");
            reveal_strlit("copy");
            lemma_section_key(self.root, "defaults.copy"@, "defaults"@, "copy"@);
        }
        self.root.lookup_bool_or("defaults.copy", false)
    }

    /// The user name for gist.github.com: `gist.username`.
    pub fn get_gist_username(&self) -> (r: Option<&str>)
        ensures
            opt_str_view(r) == str_at(self.root, seq!["gist"@, "username"@]),
            lookup_keys_spec(self.root, seq!["gist"@, "username"@]) matches Some(ConfigValue::Str(x))
                ==> r matches Some(t) && t@ == x@,
            !(lookup_keys_spec(self.root, seq!["gist"@, "username"@]) matches Some(ConfigValue::Str(_)))
                ==> r is None,
    {
        proof {
            reveal_strlit("gist.username");
            reveal_strlit("gist");
            reveal_strlit("username");
            lemma_section_key(self.root, "gist.username"@, "gist"@, "username"@);
        }
        self.root.lookup_str("gist.username")
    }

    /// The access token for gist.github.com: `gist.access_token`.
    pub fn get_gist_access_token(&self) -> (r: Option<&str>)
        ensures
            opt_str_view(r) == str_at(self.root, seq!["gist"@, "access_token"@]),
            lookup_keys_spec(self.root, seq!["gist"@, "access_token"@]) matches Some(ConfigValue::Str(x))
                ==> r matches Some(t) && t@ == x@,
            !(lookup_keys_spec(self.root, seq!["gist"@, "access_token"@]) matches Some(ConfigValue::Str(_)))
                ==> r is None,
    {
        proof {
            reveal_strlit("gist.access_token");
            reveal_strlit("gist");
            reveal_strlit("access_token");
            lemma_section_key(self.root, "gist.access_token"@, "gist"@, "access_token"@);
        }
        self.root.lookup_str("gist.access_token")
    }

    /// The API key for pastebin.com: `pastebin.api_key`.
    pub fn get_pastebin_api_key(&self) -> (r: Option<&str>)
        ensures
            opt_str_view(r) == str_at(self.root, seq!["pastebin"@, "api_key"@]),
            lookup_keys_spec(self.root, seq!["pastebin"@, "api_key"@]) matches Some(ConfigValue::Str(x))
                ==> r matches Some(t) && t@ == x@,
            !(lookup_keys_spec(self.root, seq!["pastebin"@, "api_key"@]) matches Some(ConfigValue::Str(_)))
                ==> r is None,
    {
        proof {
            reveal_strlit("pastebin.api_key");
            reveal_strlit("pastebin");
            reveal_strlit("api_key");
            lemma_section_key(self.root, "pastebin.api_key"@, "pastebin"@, "api_key"@);
        }
        self.root.lookup_str("pastebin.api_key")
    }

    /// The hastebin server to use: `hastebin.server`.
    pub fn get_hastebin_server(&self) -> (r: Option<&str>)
        ensures
            opt_str_view(r) == str_at(self.root, seq!["hastebin"@, "server"@]),
            lookup_keys_spec(self.root, seq!["hastebin"@, "server"@]) matches Some(ConfigValue::Str(x))
                ==> r matches Some(t) && t@ == x@,
            !(lookup_keys_spec(self.root, seq!["hastebin"@, "server"@]) matches Some(ConfigValue::Str(_)))
                ==> r is None,
    {
        proof {
            reveal_strlit("hastebin.server");
            reveal_strlit("hastebin");
            reveal_strlit("server");
            lemma_section_key(self.root, "hastebin.server"@, "hastebin"@, "server"@);
        }
        self.root.lookup_str("hastebin.server")
    }

    /// The user name for bitbucket.org: `bitbucket.username`.
    pub fn get_bitbucket_username(&self) -> (r: Option<&str>)
        ensures
            opt_str_view(r) == str_at(self.root, seq!["bitbucket"@, "username"@]),
            lookup_keys_spec(self.root, seq!["bitbucket"@, "username"@]) matches Some(ConfigValue::Str(x))
                ==> r matches Some(t) && t@ == x@,
            !(lookup_keys_spec(self.root, seq!["bitbucket"@, "username"@]) matches Some(ConfigValue::Str(_)))
                ==> r is None,
    {
        proof {
            reveal_strlit("bitbucket.username");
            reveal_strlit("bitbucket");
            reveal_strlit("username");
            lemma_section_key(self.root, "bitbucket.username"@, "bitbucket"@, "username"@);
        }
        self.root.lookup_str("bitbucket.username")
    }

    /// The app password for bitbucket.org: `bitbucket.app_password`.
    pub fn get_bitbucket_app_password(&self) -> (r: Option<&str>)
        ensures
            opt_str_view(r) == str_at(self.root, seq!["bitbucket"@, "app_password"@]),
            lookup_keys_spec(self.root, seq!["bitbucket"@, "app_password"@]) matches Some(ConfigValue::Str(x))
                ==> r matches Some(t) && t@ == x@,
            !(lookup_keys_spec(self.root, seq!["bitbucket"@, "app_password"@]) matches Some(ConfigValue::Str(_)))
                ==> r is None,
    {
        proof {
            reveal_strlit("bitbucket.app_password");
            reveal_strlit("bitbucket");
            reveal_strlit("app_password");
            lemma_section_key(self.root, "bitbucket.app_password"@, "bitbucket"@, "app_password"@);
        }
        self.root.lookup_str("bitbucket.app_password")
    }
}

/// A non-string element among the first `k` spoils all of them.
proof fn lemma_lowered_none(a: Seq<ConfigValue>, k: int)
    requires
        0 <= k <= a.len(),
        lowered_strings(a.take(k)) is None,
    ensures
        lowered_strings(a) is None,
    decreases a.len() - k,
{
    if k < a.len() {
        assert(a.take(k + 1).drop_last() =~= a.take(k));
        lemma_lowered_none(a, k + 1);
    } else {
        assert(a.take(k) =~= a);
    }
}

// ----------------------------------------------------------------------------
// File sizes
// ----------------------------------------------------------------------------

/// Whether `c` may be part of the number of a size.
pub open spec fn is_number_char(c: char) -> bool {
    ('0' <= c && c <= '9') || c == '.'
}

/// Whether `c` may be part of the unit of a size.
pub open spec fn is_unit_char(c: char) -> bool {
    c == 'b' || c == 'B' || c == 'k' || c == 'K' || c == 'm' || c == 'M' || c == 'g' || c == 'G'
        || c == 'i' || c == 'I'
}

/// The characters of a size text that may be part of its number, in order.
pub open spec fn size_number(t: Seq<char>) -> Seq<char>
    decreases t.len(),
{
    if t.len() == 0 {
        t
    } else if is_number_char(t.last()) {
        size_number(t.drop_last()).push(t.last())
    } else {
        size_number(t.drop_last())
    }
}

/// The characters of a size text that may be part of its unit, in order and
/// lowercased.
pub open spec fn size_unit(t: Seq<char>) -> Seq<char>
    decreases t.len(),
{
    if t.len() == 0 {
        t
    } else if is_unit_char(t.last()) {
        size_unit(t.drop_last()).push(ascii_lower(t.last()))
    } else {
        size_unit(t.drop_last())
    }
}

/// ASCII uppercase of one character: `a`..`z` become `A`..`Z`, every other
/// character is unchanged.
pub open spec fn ascii_upper(c: char) -> char {
    if 'a' <= c && c <= 'z' {
        ((c as u32) - 32) as char
    } else {
        c
    }
}

/// `s` with each character replaced by its ASCII uppercase.
pub open spec fn ascii_upper_text(s: Seq<char>) -> Seq<char> {
    s.map_values(|c: char| ascii_upper(c))
}

proof fn lemma_size_char_case(c: char)
    ensures
        is_number_char(ascii_upper(c)) == is_number_char(c),
        is_number_char(c) ==> ascii_upper(c) == c && ascii_lower(c) == c,
        is_number_char(ascii_lower(c)) == is_number_char(c),
        is_unit_char(ascii_upper(c)) == is_unit_char(c),
        is_unit_char(ascii_lower(c)) == is_unit_char(c),
        is_unit_char(c) ==> ascii_lower(ascii_upper(c)) == ascii_lower(c) && ascii_lower(ascii_lower(c))
            == ascii_lower(c),
{
}

/// A size reads the same whatever the letter case of its text: the number
/// and the unit of `t` are those of `t` with its ASCII letters all made upper
/// or lower case (so `1kib`, `1KIB` and `1KiB` all give the unit `kib`, and
/// the same multiplier).
pub proof fn law_size_ignores_case(t: Seq<char>)
    ensures
        size_number(ascii_upper_text(t)) == size_number(t),
        size_unit(ascii_upper_text(t)) == size_unit(t),
        size_number(crate::text::ascii_lower_text(t)) == size_number(t),
        size_unit(crate::text::ascii_lower_text(t)) == size_unit(t),
    decreases t.len(),
{
    if t.len() > 0 {
        let u = ascii_upper_text(t);
        let l = crate::text::ascii_lower_text(t);
        law_size_ignores_case(t.drop_last());
        assert(u.drop_last() =~= ascii_upper_text(t.drop_last()));
        assert(l.drop_last() =~= crate::text::ascii_lower_text(t.drop_last()));
        assert(u.last() == ascii_upper(t.last()));
        assert(l.last() == ascii_lower(t.last()));
        lemma_size_char_case(t.last());
    }
}

/// The number of a size text keeps exactly its digits and dots, in order,
/// and its unit exactly its unit letters, lowercased, in order: each is
/// taken piece by piece, and a single character gives itself, its
/// lowercase, or nothing.
pub proof fn law_size_parts_filter(a: Seq<char>, b: Seq<char>, c: char)
    ensures
        size_number(a + b) == size_number(a) + size_number(b),
        size_unit(a + b) == size_unit(a) + size_unit(b),
        size_number(seq![c]) == if is_number_char(c) {
            seq![c]
        } else {
            Seq::<char>::empty()
        },
        size_unit(seq![c]) == if is_unit_char(c) {
            seq![ascii_lower(c)]
        } else {
            Seq::<char>::empty()
        },
    decreases b.len(),
{
    let one = seq![c];
    assert(one.drop_last() =~= Seq::<char>::empty());
    assert(one.last() == c);
    assert(size_number(one.drop_last()) == Seq::<char>::empty());
    assert(size_unit(one.drop_last()) == Seq::<char>::empty());
    assert(size_number(one) =~= if is_number_char(c) { seq![c] } else { Seq::<char>::empty() });
    assert(size_unit(one) =~= if is_unit_char(c) { seq![ascii_lower(c)] } else { Seq::<char>::empty() });
    if b.len() == 0 {
        assert(a + b =~= a);
    } else {
        law_size_parts_filter(a, b.drop_last(), c);
        assert((a + b).drop_last() =~= a + b.drop_last());
        assert((a + b).last() == b.last());
    }
}

/// A size as written: the text of its number and its lowercased unit.
#[derive(Debug)]
pub struct SizeParts {
    pub number: String,
    pub unit: String,
}

/// Splits a size text such as `1.5 MiB` into its number (`1.5`) and its
/// lowercased unit (`mib`); every other character is dropped.
pub fn size_parts(t: &str) -> (r: SizeParts)
    ensures
        r.number@ == size_number(t@),
        r.unit@ == size_unit(t@),
{
    let cs = chars_of(t);
    let mut number: Vec<char> = Vec::new();
    let mut unit: Vec<char> = Vec::new();
    let n = cs.len();
    for i in 0..n
        invariant
            n == cs@.len(),
            cs@ == t@,
            number@ == size_number(cs@.take(i as int)),
            unit@ == size_unit(cs@.take(i as int)),
    {
        let c = cs[i];
        assert(cs@.take(i + 1).drop_last() =~= cs@.take(i as int));
        assert(cs@.take(i + 1).last() == c);
        if ('0' <= c && c <= '9') || c == '.' {
            number.push(c);
        } else if c == 'b' || c == 'B' || c == 'k' || c == 'K' || c == 'm' || c == 'M' || c == 'g'
            || c == 'G' || c == 'i' || c == 'I' {
            unit.push(ascii_lower_char(c));
        }
    }
    assert(cs@.take(n as int) =~= cs@);
    SizeParts { number: string_of(&number), unit: string_of(&unit) }
}

/// The number of bytes in one unit of a size: `b` or no unit is one byte;
/// `kb`, `mb`, `gb` are powers of ten; `kib`, `mib`, `gib` powers of two.
pub open spec fn unit_bytes(unit: Seq<char>) -> Option<u64> {
    if unit.len() == 0 || unit == "b"@ {
        Some(1)
    } else if unit == "kb"@ {
        Some(1000)
    } else if unit == "kib"@ {
        Some(1024)
    } else if unit == "mb"@ {
        Some(1000000)
    } else if unit == "mib"@ {
        Some(1048576)
    } else if unit == "gb"@ {
        Some(1000000000)
    } else if unit == "gib"@ {
        Some(1073741824)
    } else {
        None
    }
}

impl SizeParts {
    /// The number of bytes in one unit of this size, or an error that names
    /// an unknown unit.
    pub fn multiplier(&self) -> (r: Result<u64, BinsError>)
        ensures
            match unit_bytes(self.unit@) {
                Some(m) => r == Ok::<u64, BinsError>(m),
                None => r matches Err(BinsError::Msg(x)) && x@
                    == "invalid unit for max file size: \""@ + self.unit@ + "\""@,
            },
    {
        let u = self.unit.as_str();
        if u.is_empty() || str_eq(u, "b") {
            Ok(1)
        } else if str_eq(u, "kb") {
            Ok(1000)
        } else if str_eq(u, "kib") {
            Ok(1024)
        } else if str_eq(u, "mb") {
            Ok(1000000)
        } else if str_eq(u, "mib") {
            Ok(1048576)
        } else if str_eq(u, "gb") {
            Ok(1000000000)
        } else if str_eq(u, "gib") {
            Ok(1073741824)
        } else {
            let mut m = chars_of("invalid unit for max file size: \"");
            extend_chars(&mut m, &chars_of(u));
            extend_chars(&mut m, &chars_of("\""));
            Err(BinsError::Msg(string_of(&m)))
        }
    }
}

// ----------------------------------------------------------------------------
// Where the configuration lives
// ----------------------------------------------------------------------------

/// `PathBuf::push` of a relative component: a separator is put between the
/// path and the component unless the path is empty or already ends in one.
pub open spec fn push_path(base: Seq<char>, comp: Seq<char>) -> Seq<char> {
    if base.len() == 0 || base.last() == '/' {
        base + comp
    } else {
        base + seq!['/'] + comp
    }
}

fn push_component(base: &Vec<char>, comp: &str) -> (r: Vec<char>)
    ensures
        r@ == push_path(base@, comp@),
{
    let mut r: Vec<char> = Vec::new();
    extend_chars(&mut r, base);
    if !(base.len() == 0 || base[base.len() - 1] == '/') {
        r.push('/');
    }
    extend_chars(&mut r, &chars_of(comp));
    r
}

/// The places where the configuration file may be, in order of priority:
/// `bins.cfg` in the directory `XDG_CONFIG_DIR` names, if it is set; then,
/// if there is a home directory, `.config/bins.cfg` and `.bins.cfg` in it.
pub open spec fn config_paths_spec(xdg: Option<Seq<char>>, home: Option<Seq<char>>) -> Seq<Seq<char>> {
    let first = match xdg {
        Some(d) => seq![push_path(d, "bins.cfg"@)],
        None => Seq::empty(),
    };
    match home {
        Some(h) => first + seq![
            push_path(push_path(h, ".config"@), "bins.cfg"@),
            push_path(h, ".bins.cfg"@),
        ],
        None => first,
    }
}

/// The places where the configuration file may be, given the value of
/// `XDG_CONFIG_DIR` and the home directory, if there are any.
pub fn config_paths(xdg: Option<&str>, home: Option<&str>) -> (r: Vec<String>)
    ensures
        strings_view(r@) == config_paths_spec(opt_str_view(xdg), opt_str_view(home)),
{
    let mut r: Vec<String> = Vec::new();
    if let Some(d) = xdg {
        let p = push_component(&chars_of(d), "bins.cfg");
        r.push(string_of(&p));
    }
    let ghost first = strings_view(r@);
    match home {
        None => {
            assert(strings_view(r@) =~= config_paths_spec(opt_str_view(xdg), opt_str_view(home)));
            r
        },
        Some(h) => {
            let hc = chars_of(h);
            let dot_config = push_component(&hc, ".config");
            let a = push_component(&dot_config, "bins.cfg");
            let b = push_component(&hc, ".bins.cfg");
            r.push(string_of(&a));
            r.push(string_of(&b));
            assert(strings_view(r@) =~= config_paths_spec(opt_str_view(xdg), opt_str_view(home)));
            r
        },
    }
}

/// The message when the configuration file does not parse: advice, a blank
/// line, and the parser's errors, one per line.
pub open spec fn config_error_text(errors: Seq<Seq<char>>) -> Seq<char> {
    "could not parse config (try making a backup and deleting it)\n\n"@ + join(errors, seq!['\n'])
}

/// The error for a configuration file that does not parse, given the texts
/// of the parser's errors.
pub fn config_parse_error(errors: &Vec<String>) -> (r: BinsError)
    ensures
        r matches BinsError::Msg(m) && m@ == config_error_text(strings_view(errors@)),
{
    let mut pieces: Vec<Vec<char>> = Vec::new();
    let n = errors.len();
    for i in 0..n
        invariant
            n == errors@.len(),
            pieces@.len() == i,
            forall|j: int| 0 <= j < i ==> (#[trigger] pieces@[j])@ == errors@[j]@,
    {
        pieces.push(chars_of(errors[i].as_str()));
    }
    let mut nl: Vec<char> = Vec::new();
    nl.push('\n');
    let joined = join_chars(&pieces, &nl);
    assert(pieces@.map_values(|p: Vec<char>| p@) =~= strings_view(errors@));
    let mut m = chars_of("could not parse config (try making a backup and deleting it)\n\n");
    extend_chars(&mut m, &joined);
    BinsError::Msg(string_of(&m))
}

// ----------------------------------------------------------------------------
// Reading the configuration document
// ----------------------------------------------------------------------------

/// A parsed TOML value of the `toml` crate.
#[verifier::external_type_specification]
#[verifier::external_body]
pub struct ExTomlValue(toml::Value);

/// What the `toml` crate's parser makes of the document `text`: its table,
/// in the library's form, or the texts of its errors.
pub uninterp spec fn toml_document(text: Seq<char>) -> Result<ConfigValue, Seq<Seq<char>>>;

/// Converts a parsed TOML value into the library's form, variant for
/// variant; a table's entries come in the order of its keys, and a float
/// keeps no number.
#[verifier::external_body]
fn config_value_of(v: toml::Value) -> ConfigValue {
    match v {
        toml::Value::String(s) => ConfigValue::Str(s),
        toml::Value::Integer(i) => ConfigValue::Integer(i),
        toml::Value::Float(_) => ConfigValue::Float,
        toml::Value::Boolean(b) => ConfigValue::Boolean(b),
        toml::Value::Datetime(s) => ConfigValue::Datetime(s),
        toml::Value::Array(a) => ConfigValue::Array(a.into_iter().map(config_value_of).collect()),
        toml::Value::Table(t) => ConfigValue::Table(t.into_iter().map(|(k, v)| (k, config_value_of(v))).collect()),
    }
}

/// `toml::Value::from_str` (`str::parse::<toml::Value>`): parses a TOML
/// document into its table, or gives the parser's errors, each as its text.
/// The contract names the outcome, which depends on the text alone.
#[verifier::external_body]
fn toml_parse_call(text: &str) -> (r: Result<ConfigValue, Vec<String>>)
    ensures
        match r {
            Ok(v) => toml_document(text@) == Ok::<ConfigValue, Seq<Seq<char>>>(v),
            Err(es) => toml_document(text@) == Err::<ConfigValue, Seq<Seq<char>>>(strings_view(es@)),
        },
{
    match text.parse::<toml::Value>() {
        Ok(v) => Ok(config_value_of(v)),
        Err(es) => Err(es.into_iter().map(|e| e.to_string()).collect()),
    }
}

/// The configuration written in the text `text` of the configuration file:
/// its TOML document, or, if it does not parse, the error that gives advice
/// and lists the parser's errors.
pub fn parse_config_text(text: &str) -> (r: Result<BinsConfiguration, BinsError>)
    ensures
        match toml_document(text@) {
            Ok(v) => r matches Ok(c) && c.root == v,
            Err(es) => r matches Err(BinsError::Msg(m)) && m@ == config_error_text(es),
        },
{
    match toml_parse_call(text) {
        Ok(v) => Ok(BinsConfiguration::from_value(v)),
        Err(es) => Err(config_parse_error(&es)),
    }
}

} // verus!
