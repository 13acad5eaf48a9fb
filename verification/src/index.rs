//! Index files: a paste of several files is uploaded as one file per paste
//! plus an index that lists each file's name and URL. This module writes
//! the index text and reads it back.
//!
//! The index text of entries `(name_1, url_1) .. (name_n, url_n)` is
//!
//! ```text
//! <n> files
//! <as many '-' as the line above has characters>
//!
//! 1. <name_1>: <url_1>
//! ...
//! n. <name_n>: <url_n>
//! ```
//!
//! with a line break after every line.

use vstd::prelude::*;
use linked_hash_map::LinkedHashMap;
use crate::error::BinsError;
use crate::maps::{insert_all, keys_distinct, lemma_insert_all_distinct, url_map_contents, url_map_entries, url_map_insert, url_map_new};
use crate::paste_url::{parse_url, parse_url_spec, url_parse, PasteUrl, UrlView};
use crate::text::{
    blank, chars_of, decimal, decimal_chars, extend_chars, is_blank, is_whitespace,
    lemma_decimal_digits, lemma_decimal_nonempty, lemma_split_char_after_sep,
    lemma_split_char_single, split_char, split_chars, string_of,
};

verus! {

/// The files of a paste of several files: each file's name and URL, in the
/// order of the paste.
#[derive(Debug)]
pub struct Index {
    pub files: LinkedHashMap<String, PasteUrl>,
}

impl Index {
    /// The entries of the index, in order.
    pub open spec fn entries(&self) -> Seq<(Seq<char>, UrlView)> {
        url_map_contents(self.files)
    }
}

/// Each entry's name with the serialization of its URL.
pub open spec fn url_texts(e: Seq<(Seq<char>, UrlView)>) -> Seq<(Seq<char>, Seq<char>)> {
    e.map_values(|p: (Seq<char>, UrlView)| (p.0, p.1.serialization))
}

// ----------------------------------------------------------------------------
// Writing
// ----------------------------------------------------------------------------

/// `n` dashes.
pub open spec fn dashes(n: nat) -> Seq<char> {
    Seq::new(n, |i: int| '-')
}

/// The first line of the index of `n` files: `<n> files`.
pub open spec fn index_header(n: nat) -> Seq<char> {
    decimal(n) + seq![' ', 'f', 'i', 'l', 'e', 's']
}

/// The line of the `i`-th file (counting from one), without its line break:
/// `<i>. <name>: <url>`.
pub open spec fn index_line(i: nat, name: Seq<char>, url: Seq<char>) -> Seq<char> {
    decimal(i) + seq!['.', ' '] + name + seq![':', ' '] + url
}

/// The lines of all files, each followed by a line break.
pub open spec fn index_body(e: Seq<(Seq<char>, Seq<char>)>) -> Seq<char>
    decreases e.len(),
{
    if e.len() == 0 {
        Seq::empty()
    } else {
        index_body(e.drop_last()) + index_line(e.len(), e.last().0, e.last().1) + seq!['\n']
    }
}

/// The index text of the entries `e` (names with URL texts).
pub open spec fn index_text(e: Seq<(Seq<char>, Seq<char>)>) -> Seq<char> {
    let h = index_header(e.len());
    h + seq!['\n'] + dashes(h.len()) + seq!['\n', '\n'] + index_body(e)
}

impl Index {
    /// The index text of this index.
    pub fn to_string(&self) -> (r: String)
        ensures
            r@ == index_text(url_texts(self.entries())),
    {
        let entries = url_map_entries(&self.files);
        let ghost e = url_texts(self.entries());
        let n = entries.len();
        assert(e.len() == n);
        let mut header = decimal_chars(n);
        header.push(' ');
        header.push('f');
        header.push('i');
        header.push('l');
        header.push('e');
        header.push('s');
        assert(header@ =~= index_header(n as nat));
        let mut out: Vec<char> = Vec::new();
        extend_chars(&mut out, &header);
        out.push('\n');
        let hl = header.len();
        for k in 0..hl
            invariant
                hl == header@.len(),
                out@ == header@ + seq!['\n'] + dashes(k as nat),
        {
            out.push('-');
            assert(dashes((k + 1) as nat) =~= dashes(k as nat).push('-'));
        }
        out.push('\n');
        out.push('\n');
        assert(e.take(0).len() == 0);
        assert(out@ =~= header@ + seq!['\n'] + dashes(header@.len()) + seq!['\n', '\n']
            + index_body(e.take(0)));
        for i in 0..n
            invariant
                n == entries@.len(),
                e == url_texts(self.entries()),
                e == entries@.map_values(|p: (&String, &PasteUrl)| (p.0@, p.1@)).map_values(
                    |p: (Seq<char>, UrlView)| (p.0, p.1.serialization),
                ),
                e.len() == n,
                out@ == header@ + seq!['\n'] + dashes(header@.len()) + seq!['\n', '\n']
                    + index_body(e.take(i as int)),
                header@ == index_header(n as nat),
        {
            let (name, url) = entries[i];
            assert(e[i as int] == (name@, url@.serialization));
            let num = decimal_chars(i + 1);
            extend_chars(&mut out, &num);
            out.push('.');
            out.push(' ');
            let name_chars = chars_of(name.as_str());
            extend_chars(&mut out, &name_chars);
            out.push(':');
            out.push(' ');
            let url_chars = chars_of(url.as_str());
            extend_chars(&mut out, &url_chars);
            out.push('\n');
            assert(e.take(i + 1).drop_last() =~= e.take(i as int));
            assert(e.take(i + 1).last() == e[i as int]);
            assert(out@ =~= header@ + seq!['\n'] + dashes(header@.len()) + seq!['\n', '\n']
                + index_body(e.take(i + 1)));
        }
        assert(e.take(n as int) =~= e);
        string_of(&out)
    }
}

// ----------------------------------------------------------------------------
// Reading
// ----------------------------------------------------------------------------

/// The position of the first `": "` in `s`, or the length of `s` if there is
/// none.
pub open spec fn first_cs(s: Seq<char>) -> nat
    decreases s.len(),
{
    if s.len() < 2 {
        s.len()
    } else if s[0] == ':' && s[1] == ' ' {
        0
    } else {
        1 + first_cs(s.drop_first())
    }
}

/// The position of the first space in `s`, or the length of `s` if there is
/// none.
pub open spec fn first_sp(s: Seq<char>) -> nat
    decreases s.len(),
{
    if s.len() == 0 {
        0
    } else if s[0] == ' ' {
        0
    } else {
        1 + first_sp(s.drop_first())
    }
}

/// The text of a line before its first `": "` (the whole line if there is
/// none): the first piece of `line.split(": ")`.
pub open spec fn first_piece(s: Seq<char>) -> Seq<char> {
    s.take(first_cs(s) as int)
}

/// The second piece of `line.split(": ")`: the text between the first and
/// the second `": "` (or the end), if the line holds a `": "`.
pub open spec fn second_piece(s: Seq<char>) -> Option<Seq<char>> {
    if first_cs(s) == s.len() {
        None
    } else {
        let r = s.skip(first_cs(s) + 2int);
        Some(r.take(first_cs(r) as int))
    }
}

/// A file's name from the first piece of its line: the words after the
/// first, that is the text after the first space (`split(' ').skip(1)`
/// joined with spaces); empty if there is no space.
pub open spec fn entry_name(first: Seq<char>) -> Seq<char> {
    if first_sp(first) == first.len() {
        Seq::empty()
    } else {
        first.skip(first_sp(first) + 1int)
    }
}

/// The lines that do not trim to the empty string.
pub open spec fn non_blank(lines: Seq<Seq<char>>) -> Seq<Seq<char>>
    decreases lines.len(),
{
    if lines.len() == 0 {
        lines
    } else if is_blank(lines.last()) {
        non_blank(lines.drop_last())
    } else {
        non_blank(lines.drop_last()).push(lines.last())
    }
}

/// The name and URL text of every line, or `None` if a line holds no `": "`.
pub open spec fn line_pairs(lines: Seq<Seq<char>>) -> Option<Seq<(Seq<char>, Seq<char>)>>
    decreases lines.len(),
{
    if lines.len() == 0 {
        Some(Seq::empty())
    } else {
        match (line_pairs(lines.drop_last()), second_piece(lines.last())) {
            (Some(p), Some(u)) => Some(p.push((entry_name(first_piece(lines.last())), u))),
            _ => None,
        }
    }
}

/// The names and URL texts that an index text lists, or `None` if the text
/// is not an index: it has fewer than four lines, a non-blank line after the
/// third holds no `": "`, or no line after the third is non-blank.
pub open spec fn index_pairs(text: Seq<char>) -> Option<Seq<(Seq<char>, Seq<char>)>> {
    let lines = split_char(text, '\n');
    if lines.len() < 4 {
        None
    } else {
        match line_pairs(non_blank(lines.skip(3))) {
            Some(p) => if p.len() == 0 {
                None
            } else {
                Some(p)
            },
            None => None,
        }
    }
}

/// `first_cs` is a position within the sequence, and a `": "` found there
/// fits in it.
pub proof fn lemma_first_cs_bound(s: Seq<char>)
    ensures
        first_cs(s) <= s.len(),
        first_cs(s) < s.len() ==> first_cs(s) + 2 <= s.len() && s[first_cs(s) as int] == ':'
            && s[first_cs(s) + 1int] == ' ',
    decreases s.len(),
{
    if s.len() >= 2 && !(s[0] == ':' && s[1] == ' ') {
        lemma_first_cs_bound(s.drop_first());
    }
}

/// `first_sp` is a position within the sequence.
pub proof fn lemma_first_sp_bound(s: Seq<char>)
    ensures
        first_sp(s) <= s.len(),
        first_sp(s) < s.len() ==> s[first_sp(s) as int] == ' ',
    decreases s.len(),
{
    if s.len() > 0 && s[0] != ' ' {
        lemma_first_sp_bound(s.drop_first());
    }
}

/// Blank lines vanish and others stay, whether the lines come at once or in
/// two parts.
pub proof fn lemma_non_blank_append(a: Seq<Seq<char>>, b: Seq<Seq<char>>)
    ensures
        non_blank(a + b) == non_blank(a) + non_blank(b),
    decreases b.len(),
{
    if b.len() == 0 {
        assert(a + b =~= a);
    } else {
        lemma_non_blank_append(a, b.drop_last());
        assert((a + b).drop_last() =~= a + b.drop_last());
    }
}

/// A line without `": "` spoils every list of lines that starts with it.
pub proof fn lemma_line_pairs_none(a: Seq<Seq<char>>, b: Seq<Seq<char>>)
    requires
        line_pairs(a) is None,
    ensures
        line_pairs(a + b) is None,
    decreases b.len(),
{
    if b.len() == 0 {
        assert(a + b =~= a);
    } else {
        lemma_line_pairs_none(a, b.drop_last());
        assert((a + b).drop_last() =~= a + b.drop_last());
    }
}

/// A text is no index when some non-blank line after the third holds no
/// `": "`, whatever its other lines hold.
pub proof fn law_line_without_separator_is_no_index(text: Seq<char>, i: int)
    requires
        3 <= i < split_char(text, '\n').len(),
        !is_blank(split_char(text, '\n')[i]),
        forall|j: int|
            0 <= j < split_char(text, '\n')[i].len() - 1 ==> !(#[trigger] split_char(text, '\n')[i][j]
                == ':' && split_char(text, '\n')[i][j + 1] == ' '),
    ensures
        index_pairs(text) is None,
{
    let ls = split_char(text, '\n');
    let line = ls[i];
    lemma_first_cs_bound(line);
    if first_cs(line) < line.len() {
        let j = first_cs(line) as int;
        assert(line[j] == ':' && line[j + 1] == ' ');
    }
    assert(second_piece(line) is None);
    let whole = ls.skip(3);
    let k = i - 3;
    let pre = whole.take(k);
    let post = whole.skip(k + 1);
    let head = pre.push(line);
    assert(whole =~= head + post);
    assert(head.drop_last() =~= pre);
    assert(non_blank(head) == non_blank(pre).push(line));
    assert(non_blank(head).drop_last() =~= non_blank(pre));
    assert(line_pairs(non_blank(head)) is None);
    lemma_non_blank_append(head, post);
    lemma_line_pairs_none(non_blank(head), non_blank(post));
}

fn find_cs(v: &Vec<char>) -> (r: usize)
    ensures
        r == first_cs(v@),
{
    let n = v.len();
    let mut i: usize = 0;
    assert(v@.skip(0) =~= v@);
    while n - i >= 2
        invariant
            n == v@.len(),
            i <= n,
            first_cs(v@) == i + first_cs(v@.skip(i as int)),
        decreases n - i,
    {
        if v[i] == ':' && v[i + 1] == ' ' {
            return i;
        }
        assert(v@.skip(i as int).drop_first() =~= v@.skip(i + 1));
        i = i + 1;
    }
    n
}

fn find_sp(v: &Vec<char>) -> (r: usize)
    ensures
        r == first_sp(v@),
{
    let n = v.len();
    let mut i: usize = 0;
    assert(v@.skip(0) =~= v@);
    while i < n
        invariant
            n == v@.len(),
            i <= n,
            first_sp(v@) == i + first_sp(v@.skip(i as int)),
        decreases n - i,
    {
        if v[i] == ' ' {
            return i;
        }
        assert(v@.skip(i as int).drop_first() =~= v@.skip(i + 1));
        i = i + 1;
    }
    n
}

/// The characters of `v` from position `from` up to (not including) `to`.
pub fn slice_chars(v: &Vec<char>, from: usize, to: usize) -> (r: Vec<char>)
    requires
        from <= to <= v@.len(),
    ensures
        r@ == v@.subrange(from as int, to as int),
{
    let mut r: Vec<char> = Vec::new();
    let mut i = from;
    while i < to
        invariant
            from <= i <= to <= v@.len(),
            r@ == v@.subrange(from as int, i as int),
        decreases to - i,
    {
        r.push(v[i]);
        assert(v@.subrange(from as int, i + 1) =~= v@.subrange(from as int, i as int).push(v@[i as int]));
        i = i + 1;
    }
    r
}

fn line_entry(line: &Vec<char>) -> (r: Option<(Vec<char>, Vec<char>)>)
    ensures
        match r {
            Some((name, url)) => second_piece(line@) == Some(url@) && name@ == entry_name(
                first_piece(line@),
            ),
            None => second_piece(line@) is None,
        },
{
    let k = find_cs(line);
    proof {
        lemma_first_cs_bound(line@);
    }
    if k == line.len() {
        return None;
    }
    let first = slice_chars(line, 0, k);
    let rest = slice_chars(line, k + 2, line.len());
    assert(rest@ =~= line@.skip(k + 2));
    let k2 = find_cs(&rest);
    proof {
        lemma_first_cs_bound(rest@);
        lemma_first_sp_bound(first@);
    }
    let url = slice_chars(&rest, 0, k2);
    assert(url@ =~= rest@.take(k2 as int));
    assert(first@ =~= first_piece(line@));
    let s = find_sp(&first);
    let name = if s == first.len() {
        Vec::new()
    } else {
        slice_chars(&first, s + 1, first.len())
    };
    assert(name@ =~= entry_name(first_piece(line@)));
    Some((name, url))
}

/// The views of a vector of name and URL text pairs.
pub open spec fn pairs_view(v: Seq<(String, String)>) -> Seq<(Seq<char>, Seq<char>)> {
    v.map_values(|p: (String, String)| (p.0@, p.1@))
}

/// The names and URL texts that the index text `text` lists, or `None` if
/// `text` is not an index.
pub fn split_index(text: &str) -> (r: Option<Vec<(String, String)>>)
    ensures
        match r {
            Some(v) => index_pairs(text@) == Some(pairs_view(v@)),
            None => index_pairs(text@) is None,
        },
{
    let chars = chars_of(text);
    let lines = split_chars(&chars, '\n');
    let ghost ls = split_char(text@, '\n');
    if lines.len() < 4 {
        return None;
    }
    let n = lines.len();
    let mut out: Vec<(String, String)> = Vec::new();
    let mut i: usize = 3;
    while i < n
        invariant
            n == lines@.len(),
            ls == lines@.map_values(|p: Vec<char>| p@),
            ls == split_char(text@, '\n'),
            3 <= i <= n,
            line_pairs(non_blank(ls.skip(3).take(i - 3))) == Some(pairs_view(out@)),
        decreases n - i,
    {
        let ghost pre = ls.skip(3).take(i - 3);
        let ghost upto = ls.skip(3).take(i + 1 - 3);
        assert(ls[i as int] == lines@[i as int]@);
        assert(upto =~= pre.push(lines@[i as int]@));
        assert(upto.drop_last() =~= pre);
        assert(upto.last() == lines@[i as int]@);
        if !blank(&lines[i]) {
            match line_entry(&lines[i]) {
                None => {
                    proof {
                        let whole = ls.skip(3);
                        assert(non_blank(upto) == non_blank(pre).push(lines@[i as int]@));
                        assert(non_blank(upto).drop_last() == non_blank(pre));
                        assert(line_pairs(non_blank(upto)) is None);
                        assert(whole =~= upto + whole.skip(i + 1 - 3));
                        lemma_non_blank_append(upto, whole.skip(i + 1 - 3));
                        lemma_line_pairs_none(non_blank(upto), non_blank(whole.skip(i + 1 - 3)));
                        assert(non_blank(whole) == non_blank(upto) + non_blank(whole.skip(i + 1 - 3)));
                        assert(line_pairs(non_blank(whole)) is None);
                        assert(ls.len() >= 4);
                    }
                    return None;
                },
                Some((name, url)) => {
                    assert(non_blank(upto) == non_blank(pre).push(lines@[i as int]@));
                    assert(non_blank(upto).drop_last() == non_blank(pre));
                    out.push((string_of(&name), string_of(&url)));
                    assert(pairs_view(out@) =~= pairs_view(out@).drop_last().push(
                        pairs_view(out@).last(),
                    ));
                },
            }
        }
        i = i + 1;
    }
    assert(ls.skip(3).take(n - 3) =~= ls.skip(3));
    if out.len() == 0 {
        return None;
    }
    Some(out)
}

// ----------------------------------------------------------------------------
// Reading back what was written
// ----------------------------------------------------------------------------

/// A name or URL text that an index can carry: it holds no line break and
/// no `": "`.
pub open spec fn text_safe(s: Seq<char>) -> bool {
    !s.contains('\n') && first_cs(s) == s.len()
}

/// The lines of the files, without line breaks.
pub open spec fn index_lines(e: Seq<(Seq<char>, Seq<char>)>) -> Seq<Seq<char>> {
    Seq::new(e.len(), |i: int| index_line((i + 1) as nat, e[i].0, e[i].1))
}

proof fn lemma_no_char_concat(a: Seq<char>, b: Seq<char>, c: char)
    requires
        !a.contains(c),
        !b.contains(c),
    ensures
        !(a + b).contains(c),
{
    if (a + b).contains(c) {
        let i = choose|i: int| 0 <= i < (a + b).len() && (a + b)[i] == c;
        if i < a.len() {
            assert(a[i] == c);
        } else {
            assert(b[i - a.len()] == c);
        }
    }
}

proof fn lemma_decimal_has_no(n: nat, c: char)
    requires
        !('0' <= c <= '9'),
    ensures
        !decimal(n).contains(c),
{
    lemma_decimal_digits(n);
    if decimal(n).contains(c) {
        let i = choose|i: int| 0 <= i < decimal(n).len() && decimal(n)[i] == c;
        assert('0' <= decimal(n)[i] <= '9');
    }
}

/// A prefix without `':'` shifts the first `": "` by its length.
proof fn lemma_first_cs_shift(a: Seq<char>, b: Seq<char>)
    requires
        !a.contains(':'),
    ensures
        first_cs(a + b) == a.len() + first_cs(b),
    decreases a.len(),
{
    if a.len() > 0 {
        assert(a[0] != ':');
        let a2 = a.drop_first();
        assert(!a2.contains(':')) by {
            if a2.contains(':') {
                let i = choose|i: int| 0 <= i < a2.len() && a2[i] == ':';
                assert(a[i + 1] == ':');
            }
        }
        lemma_first_cs_shift(a2, b);
        assert((a + b).drop_first() =~= a2 + b);
        if (a + b).len() < 2 {
            assert(a.len() == 1 && b.len() == 0);
            assert(first_cs(b) == 0);
            assert(first_cs(a + b) == (a + b).len());
        }
    } else {
        assert(a + b =~= b);
    }
}

/// The first `": "` after a text without `": "` is the one that follows it.
proof fn lemma_first_cs_at_separator(x: Seq<char>, y: Seq<char>)
    requires
        first_cs(x) == x.len(),
    ensures
        first_cs(x + seq![':', ' '] + y) == x.len(),
    decreases x.len(),
{
    let s = x + seq![':', ' '] + y;
    if x.len() == 0 {
        assert(s[0] == ':' && s[1] == ' ');
    } else {
        assert(s[0] == x[0]);
        if x.len() >= 2 {
            assert(s[1] == x[1]);
            assert(!(x[0] == ':' && x[1] == ' '));
            assert(first_cs(x) == 1 + first_cs(x.drop_first()));
        } else {
            assert(s[1] == ':');
            assert(x.drop_first().len() == 0);
        }
        lemma_first_cs_at_separator(x.drop_first(), y);
        assert(s.drop_first() =~= x.drop_first() + seq![':', ' '] + y);
    }
}

/// A prefix without spaces shifts the first space by its length.
proof fn lemma_first_sp_shift(a: Seq<char>, b: Seq<char>)
    requires
        !a.contains(' '),
    ensures
        first_sp(a + b) == a.len() + first_sp(b),
    decreases a.len(),
{
    if a.len() > 0 {
        assert(a[0] != ' ');
        let a2 = a.drop_first();
        assert(!a2.contains(' ')) by {
            if a2.contains(' ') {
                let i = choose|i: int| 0 <= i < a2.len() && a2[i] == ' ';
                assert(a[i + 1] == ' ');
            }
        }
        lemma_first_sp_shift(a2, b);
        assert((a + b).drop_first() =~= a2 + b);
    } else {
        assert(a + b =~= b);
    }
}

/// A file's line gives back its name and URL text.
proof fn lemma_line_roundtrip(i: nat, name: Seq<char>, url: Seq<char>)
    requires
        text_safe(name),
        text_safe(url),
    ensures
        second_piece(index_line(i, name, url)) == Some(url),
        entry_name(first_piece(index_line(i, name, url))) == name,
        !is_blank(index_line(i, name, url)),
        !index_line(i, name, url).contains('\n'),
{
    let d = decimal(i);
    let x = d + seq!['.', ' '] + name;
    let line = index_line(i, name, url);
    assert(line =~= x + seq![':', ' '] + url);
    lemma_decimal_has_no(i, ':');
    lemma_decimal_has_no(i, ' ');
    lemma_decimal_has_no(i, '\n');
    lemma_no_char_concat(d, seq!['.', ' '], ':');
    assert(d + seq!['.', ' '] + name =~= (d + seq!['.', ' ']) + name);
    lemma_first_cs_shift(d + seq!['.', ' '], name);
    assert(first_cs(x) == x.len());
    lemma_first_cs_at_separator(x, url);
    assert(first_cs(line) == x.len());
    assert(line.skip(x.len() + 2int) =~= url);
    assert(url.take(first_cs(url) as int) =~= url);
    assert(first_piece(line) =~= x);
    lemma_no_char_concat(d, seq!['.'], ' ');
    assert(x =~= (d + seq!['.']) + (seq![' '] + name));
    lemma_first_sp_shift(d + seq!['.'], seq![' '] + name);
    assert(first_sp(x) == d.len() + 1);
    assert(x.skip(d.len() + 2int) =~= name);
    lemma_decimal_nonempty(i);
    lemma_decimal_digits(i);
    assert(line[0] == d[0]);
    assert(!is_whitespace(line[0]));
    lemma_no_char_concat(d, seq!['.', ' '], '\n');
    lemma_no_char_concat(d + seq!['.', ' '], name, '\n');
    lemma_no_char_concat(x, seq![':', ' '], '\n');
    lemma_no_char_concat(x + seq![':', ' '], url, '\n');
}

proof fn lemma_index_body_lines(e: Seq<(Seq<char>, Seq<char>)>)
    requires
        forall|i: int| 0 <= i < e.len() ==> text_safe(#[trigger] e[i].0) && text_safe(e[i].1),
    ensures
        split_char(index_body(e), '\n') == index_lines(e).push(Seq::<char>::empty()),
    decreases e.len(),
{
    let nl = seq!['\n'];
    if e.len() == 0 {
        assert(index_lines(e) =~= Seq::<Seq<char>>::empty());
        assert(split_char(Seq::<char>::empty(), '\n') =~= seq![Seq::<char>::empty()]);
    } else {
        let e2 = e.drop_last();
        let l = index_line(e.len(), e.last().0, e.last().1);
        assert(e.last() == e[e.len() - 1]);
        lemma_line_roundtrip(e.len(), e.last().0, e.last().1);
        lemma_split_char_single(l, '\n');
        let ln = l + nl;
        assert(ln.drop_last() =~= l);
        assert(split_char(ln, '\n') == seq![l].push(Seq::<char>::empty()));
        assert(index_lines(e) =~= index_lines(e2).push(l));
        if e2.len() == 0 {
            assert(index_body(e2) =~= Seq::<char>::empty());
            assert(index_body(e) =~= ln);
            assert(index_lines(e2).push(l) =~= seq![l]);
        } else {
            lemma_index_body_lines(e2);
            let b2 = index_body(e2);
            assert(b2.len() > 0);
            assert(b2.last() == '\n');
            lemma_split_char_after_sep(b2, ln, '\n');
            assert(index_body(e) =~= b2 + ln);
            assert(index_lines(e2).push(Seq::<char>::empty()).drop_last() =~= index_lines(e2));
            assert(index_lines(e2) + seq![l].push(Seq::<char>::empty()) =~= index_lines(e).push(
                Seq::<char>::empty(),
            ));
        }
    }
}

proof fn lemma_non_blank_all(lines: Seq<Seq<char>>)
    requires
        forall|i: int| 0 <= i < lines.len() ==> !is_blank(#[trigger] lines[i]),
    ensures
        non_blank(lines) == lines,
    decreases lines.len(),
{
    if lines.len() > 0 {
        lemma_non_blank_all(lines.drop_last());
        assert(lines.last() == lines[lines.len() - 1]);
        assert(lines.drop_last().push(lines.last()) =~= lines);
    }
}

proof fn lemma_line_pairs_lines(e: Seq<(Seq<char>, Seq<char>)>)
    requires
        forall|i: int| 0 <= i < e.len() ==> text_safe(#[trigger] e[i].0) && text_safe(e[i].1),
    ensures
        line_pairs(index_lines(e)) == Some(e),
    decreases e.len(),
{
    if e.len() == 0 {
        assert(index_lines(e) =~= Seq::<Seq<char>>::empty());
        assert(e =~= Seq::<(Seq<char>, Seq<char>)>::empty());
    } else {
        let e2 = e.drop_last();
        lemma_line_pairs_lines(e2);
        assert(index_lines(e).drop_last() =~= index_lines(e2));
        assert(e.last() == e[e.len() - 1]);
        lemma_line_roundtrip(e.len(), e.last().0, e.last().1);
        assert(index_lines(e).last() == index_line(e.len(), e.last().0, e.last().1));
        assert(e2.push((e.last().0, e.last().1)) =~= e);
    }
}

/// Reading back the index text of names and URL texts gives back exactly
/// those names and URL texts, in their order, when there is at least one
/// file and no name or URL text holds a line break or `": "`.
pub proof fn law_index_text_roundtrip(e: Seq<(Seq<char>, Seq<char>)>)
    requires
        e.len() >= 1,
        forall|i: int| 0 <= i < e.len() ==> text_safe(#[trigger] e[i].0) && text_safe(e[i].1),
    ensures
        index_pairs(index_text(e)) == Some(e),
{
    let h = index_header(e.len());
    let d = dashes(h.len());
    let nl = seq!['\n'];
    let body = index_body(e);
    lemma_decimal_has_no(e.len(), '\n');
    lemma_no_char_concat(decimal(e.len()), seq![' ', 'f', 'i', 'l', 'e', 's'], '\n');
    assert(!d.contains('\n'));
    lemma_split_char_single(h, '\n');
    lemma_split_char_single(d, '\n');
    let a1 = h + nl;
    assert(a1.drop_last() =~= h);
    assert(split_char(a1, '\n') == seq![h].push(Seq::<char>::empty()));
    lemma_split_char_after_sep(a1, d, '\n');
    let a2 = a1 + d;
    assert(split_char(a2, '\n') =~= seq![h, d]);
    let a3 = a2 + nl;
    assert(a3.drop_last() =~= a2);
    let a4 = a3 + nl;
    assert(a4.drop_last() =~= a3);
    assert(a3.len() > 0 && a3.last() == '\n');
    assert(split_char(a3, '\n') == split_char(a2, '\n').push(Seq::<char>::empty()));
    assert(a4.len() > 0 && a4.last() == '\n');
    assert(split_char(a4, '\n') == split_char(a3, '\n').push(Seq::<char>::empty()));
    assert(split_char(a4, '\n') =~= seq![h, d, Seq::<char>::empty(), Seq::<char>::empty()]);
    lemma_split_char_after_sep(a4, body, '\n');
    assert(index_text(e) =~= a4 + body);
    lemma_index_body_lines(e);
    let lines = split_char(index_text(e), '\n');
    let ls = index_lines(e);
    assert(lines =~= seq![h, d, Seq::<char>::empty()] + ls.push(Seq::<char>::empty()));
    assert(lines.skip(3) =~= ls.push(Seq::<char>::empty()));
    assert forall|i: int| 0 <= i < ls.len() implies !is_blank(#[trigger] ls[i]) by {
        lemma_line_roundtrip((i + 1) as nat, e[i].0, e[i].1);
    }
    lemma_non_blank_all(ls);
    assert(is_blank(Seq::<char>::empty()));
    assert(ls.push(Seq::<char>::empty()).drop_last() =~= ls);
    assert(non_blank(lines.skip(3)) == ls);
    lemma_line_pairs_lines(e);
}

// ----------------------------------------------------------------------------
// Building
// ----------------------------------------------------------------------------

/// Reading back the index text of an index's entries (distinct names, at
/// least one file, no name or URL serialization holding a line break or
/// `": "`) lists the same names with the same URL texts, and the index read
/// from it holds those names in the same order, each with the URL parsed
/// from its serialization.
pub proof fn law_index_roundtrip(e: Seq<(Seq<char>, UrlView)>)
    requires
        e.len() >= 1,
        keys_distinct(e),
        forall|i: int|
            0 <= i < e.len() ==> text_safe(#[trigger] e[i].0) && text_safe(e[i].1.serialization),
    ensures
        index_pairs(index_text(url_texts(e))) == Some(url_texts(e)),
        insert_all(parsed_entries(url_texts(e))) == parsed_entries(url_texts(e)),
        parsed_entries(url_texts(e)).len() == e.len(),
        forall|i: int|
            0 <= i < e.len() ==> (#[trigger] parsed_entries(url_texts(e))[i]) == (
                e[i].0,
                url_parse(e[i].1.serialization)->Ok_0,
            ),
{
    let t = url_texts(e);
    assert forall|i: int| 0 <= i < t.len() implies text_safe(#[trigger] t[i].0) && text_safe(
        t[i].1,
    ) by {
        assert(t[i] == (e[i].0, e[i].1.serialization));
    }
    law_index_text_roundtrip(t);
    let pe = parsed_entries(t);
    assert(keys_distinct(pe)) by {
        assert forall|i: int, j: int| 0 <= i < j < pe.len() implies (#[trigger] pe[i]).0 != (
        #[trigger] pe[j]).0 by {
            assert(pe[i].0 == e[i].0 && pe[j].0 == e[j].0);
        }
    }
    lemma_insert_all_distinct(pe);
}

/// Names paired with URLs, as far as both lists go.
pub open spec fn zip_urls(names: Seq<String>, urls: Seq<PasteUrl>) -> Seq<(Seq<char>, UrlView)> {
    let n = if names.len() <= urls.len() {
        names.len()
    } else {
        urls.len()
    };
    Seq::new(n, |i: int| (names[i]@, urls[i]@))
}

/// Whether every URL text of `p` parses.
pub open spec fn all_urls_parse(p: Seq<(Seq<char>, Seq<char>)>) -> bool {
    forall|i: int| 0 <= i < p.len() ==> (#[trigger] url_parse(p[i].1)) is Ok
}

/// The names of `p` with their URL texts parsed.
pub open spec fn parsed_entries(p: Seq<(Seq<char>, Seq<char>)>) -> Seq<(Seq<char>, UrlView)> {
    p.map_values(|e: (Seq<char>, Seq<char>)| (e.0, url_parse(e.1)->Ok_0))
}

/// Whether every outcome in `urls` is a URL.
pub open spec fn all_ok(urls: Seq<Result<PasteUrl, BinsError>>) -> bool {
    forall|i: int| 0 <= i < urls.len() ==> (#[trigger] urls[i]) is Ok
}

/// The URLs of outcomes that are all URLs.
pub open spec fn oks(urls: Seq<Result<PasteUrl, BinsError>>) -> Seq<PasteUrl> {
    urls.map_values(|u: Result<PasteUrl, BinsError>| u->Ok_0)
}

/// An index built from distinct names, one URL for each, lists every name
/// with the URL at its position, in the order given.
pub proof fn law_from_pairs_keeps_order(names: Seq<String>, urls: Seq<PasteUrl>)
    requires
        names.len() == urls.len(),
        forall|i: int, j: int| 0 <= i < j < names.len() ==> (#[trigger] names[i])@ != (#[trigger] names[j])@,
    ensures
        insert_all(zip_urls(names, urls)) == zip_urls(names, urls),
        zip_urls(names, urls).len() == names.len(),
        forall|i: int| 0 <= i < names.len() ==> #[trigger] zip_urls(names, urls)[i] == (names[i]@, urls[i]@),
{
    let z = zip_urls(names, urls);
    assert(keys_distinct(z)) by {
        assert forall|i: int, j: int| 0 <= i < j < z.len() implies (#[trigger] z[i]).0 != (#[trigger] z[j]).0 by {
            assert(z[i].0 == names[i]@ && z[j].0 == names[j]@);
        }
    }
    lemma_insert_all_distinct(z);
}

impl Index {
    /// The index that maps each name to the URL at the same position, as far
    /// as both lists go. A later file of the same name replaces an earlier
    /// one and takes the later place.
    pub fn from_pairs(names: Vec<String>, urls: Vec<PasteUrl>) -> (r: Index)
        ensures
            r.entries() == insert_all(zip_urls(names@, urls@)),
    {
        let mut m = url_map_new();
        let n = if names.len() <= urls.len() {
            names.len()
        } else {
            urls.len()
        };
        let ghost z = zip_urls(names@, urls@);
        assert(z.take(0) =~= Seq::<(Seq<char>, UrlView)>::empty());
        for i in 0..n
            invariant
                n <= names@.len(),
                n <= urls@.len(),
                z == zip_urls(names@, urls@),
                z.len() == n,
                url_map_contents(m) == insert_all(z.take(i as int)),
        {
            let k = names[i].clone();
            let v = urls[i].duplicate();
            url_map_insert(&mut m, k, v);
            assert(z.take(i + 1).drop_last() =~= z.take(i as int));
            assert(z.take(i + 1).last() == z[i as int]);
        }
        assert(z.take(n as int) =~= z);
        Index { files: m }
    }

    /// The index of names and parsed URLs: an invalid index if any URL did
    /// not parse, otherwise the names mapped to the URLs as `from_pairs` maps
    /// them.
    pub fn from_parsed(names: Vec<String>, urls: Vec<Result<PasteUrl, BinsError>>) -> (r: Result<
        Index,
        BinsError,
    >)
        ensures
            all_ok(urls@) ==> (r matches Ok(idx) && idx.entries() == insert_all(
                zip_urls(names@, oks(urls@)),
            )),
            !all_ok(urls@) ==> (r matches Err(BinsError::InvalidIndex)),
    {
        let mut ok: Vec<PasteUrl> = Vec::new();
        let n = urls.len();
        for i in 0..n
            invariant
                n == urls@.len(),
                ok@.len() == i,
                forall|j: int| 0 <= j < i ==> (#[trigger] urls@[j]) is Ok,
                forall|j: int| 0 <= j < i ==> (#[trigger] ok@[j])@ == urls@[j]->Ok_0@,
        {
            match &urls[i] {
                Ok(u) => {
                    ok.push(u.duplicate());
                },
                Err(_) => {
                    return Err(BinsError::InvalidIndex);
                },
            }
        }
        let r = Index::from_pairs(names, ok);
        assert(zip_urls(names@, ok@) =~= zip_urls(names@, oks(urls@)));
        Ok(r)
    }

    /// Reads an index text: the names it lists, each mapped to its URL. It is
    /// an invalid index if the text does not list files, or if a URL does not
    /// parse.
    pub fn parse(text: &str) -> (r: Result<Index, BinsError>)
        ensures
            match index_pairs(text@) {
                None => r matches Err(BinsError::InvalidIndex),
                Some(p) => if all_urls_parse(p) {
                    r matches Ok(idx) && idx.entries() == insert_all(parsed_entries(p))
                } else {
                    r matches Err(BinsError::InvalidIndex)
                },
            },
    {
        let pairs = match split_index(text) {
            None => {
                return Err(BinsError::InvalidIndex);
            },
            Some(p) => p,
        };
        let ghost p = pairs_view(pairs@);
        let mut names: Vec<String> = Vec::new();
        let mut urls: Vec<Result<PasteUrl, BinsError>> = Vec::new();
        let n = pairs.len();
        for i in 0..n
            invariant
                n == pairs@.len(),
                p == pairs_view(pairs@),
                names@.len() == i,
                urls@.len() == i,
                forall|j: int| 0 <= j < i ==> (#[trigger] names@[j])@ == p[j].0,
                forall|j: int| 0 <= j < i ==> parse_url_spec(p[j].1, #[trigger] urls@[j]),
        {
            names.push(pairs[i].0.clone());
            urls.push(parse_url(pairs[i].1.as_str()));
        }
        let ghost urls_v = urls@;
        let ghost names_v = names@;
        let r = Index::from_parsed(names, urls);
        proof {
            if all_urls_parse(p) {
                assert forall|j: int| 0 <= j < urls_v.len() implies (#[trigger] urls_v[j]) is Ok by {
                    assert(url_parse(p[j].1) is Ok);
                    assert(parse_url_spec(p[j].1, urls_v[j]));
                }
                assert(zip_urls(names_v, oks(urls_v)) =~= parsed_entries(p)) by {
                    assert forall|j: int| 0 <= j < p.len() implies zip_urls(names_v, oks(urls_v))[j]
                        == parsed_entries(p)[j] by {
                        assert(parse_url_spec(p[j].1, urls_v[j]));
                        assert(url_parse(p[j].1) is Ok);
                    }
                }
            } else {
                let j = choose|j: int| 0 <= j < p.len() && !(#[trigger] url_parse(p[j].1) is Ok);
                assert(parse_url_spec(p[j].1, urls_v[j]));
                assert(!(urls_v[j] is Ok));
            }
        }
        r
    }
}

} // verus!
