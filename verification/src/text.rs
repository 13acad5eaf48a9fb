//! Character-level text utilities: conversion between strings and character
//! vectors, decimal rendering of numbers, whitespace classification, and the
//! splitting and joining of character sequences.

use vstd::prelude::*;

verus! {

// ----------------------------------------------------------------------------
// Strings and character vectors
// ----------------------------------------------------------------------------

/// The characters of `s`, in order.
pub fn chars_of(s: &str) -> (r: Vec<char>)
    ensures
        r@ == s@,
{
    broadcast use vstd::string::group_string_axioms;
    let mut r: Vec<char> = Vec::new();
    for c in it: s.chars()
        invariant
            r@ == it.seq().take(it.index() as int),
            it.seq() == s@,
    {
        r.push(c);
    }
    r
}

/// `String::push`: appends one character to the end of the string.
#[verifier::external_body]
pub(crate) fn push_char(s: &mut String, c: char)
    ensures
        final(s)@ == old(s)@.push(c),
{
    s.push(c)
}

/// A string holding exactly the characters of `v`.
pub fn string_of(v: &Vec<char>) -> (r: String)
    ensures
        r@ == v@,
{
    let mut r = String::new();
    let n = v.len();
    for i in 0..n
        invariant
            n == v@.len(),
            r@ == v@.take(i as int),
    {
        push_char(&mut r, v[i]);
        assert(v@.take(i + 1) == v@.take(i as int).push(v@[i as int]));
    }
    assert(v@.take(n as int) == v@);
    r
}

/// Appends the characters of `t` to `v`.
pub fn extend_chars(v: &mut Vec<char>, t: &Vec<char>)
    ensures
        final(v)@ == old(v)@ + t@,
{
    let n = t.len();
    for i in 0..n
        invariant
            n == t@.len(),
            v@ == old(v)@ + t@.take(i as int),
    {
        v.push(t[i]);
        assert(t@.take(i + 1) == t@.take(i as int).push(t@[i as int]));
    }
    assert(t@.take(n as int) == t@);
}

/// Whether two character vectors are equal.
pub fn chars_eq(a: &Vec<char>, b: &Vec<char>) -> (r: bool)
    ensures
        r == (a@ == b@),
{
    if a.len() != b.len() {
        return false;
    }
    let n = a.len();
    for i in 0..n
        invariant
            n == a@.len(),
            n == b@.len(),
            forall|j: int| 0 <= j < i ==> a@[j] == b@[j],
    {
        if a[i] != b[i] {
            return false;
        }
    }
    assert(a@ =~= b@);
    true
}

/// Whether two strings hold the same characters.
pub fn str_eq(a: &str, b: &str) -> (r: bool)
    ensures
        r == (a@ == b@),
{
    let x = chars_of(a);
    let y = chars_of(b);
    chars_eq(&x, &y)
}

// ----------------------------------------------------------------------------
// Lowercasing
// ----------------------------------------------------------------------------

/// The result of `str::to_lowercase` on a string with the characters `s`
/// (the Unicode `Lowercase` mapping, applied character by character with its
/// context rules).
pub uninterp spec fn lowercase(s: Seq<char>) -> Seq<char>;

/// Whether every character of `s` is ASCII.
pub open spec fn is_ascii_text(s: Seq<char>) -> bool {
    forall|i: int| 0 <= i < s.len() ==> (#[trigger] s[i] as u32) < 128
}

/// `s` with each character replaced by its ASCII lowercase.
pub open spec fn ascii_lower_text(s: Seq<char>) -> Seq<char> {
    s.map_values(|c: char| ascii_lower(c))
}

/// `str::to_lowercase`: the lowercase equivalent of `s`, as a new string.
/// The contract names the result, which is determined by the characters of
/// `s`. Of an ASCII string it states what the documentation of
/// `str::to_ascii_lowercase` says of `to_lowercase`: it lowercases ASCII
/// characters as that function does (`A`..`Z` to `a`..`z`, others unchanged).
/// What it does to other characters is left to the name.
#[verifier::external_body]
pub(crate) fn to_lowercase(s: &str) -> (r: String)
    ensures
        r@ == lowercase(s@),
        is_ascii_text(s@) ==> r@ == ascii_lower_text(s@),
{
    s.to_lowercase()
}

/// ASCII lowercase of one character: `A`..`Z` become `a`..`z`, every other
/// character is unchanged.
pub open spec fn ascii_lower(c: char) -> char {
    if 'A' <= c && c <= 'Z' {
        ((c as u32) + 32) as char
    } else {
        c
    }
}

/// ASCII lowercase of one character.
pub fn ascii_lower_char(c: char) -> (r: char)
    ensures
        r == ascii_lower(c),
{
    if 'A' <= c && c <= 'Z' {
        let u: u8 = c as u8;
        let l: u8 = u + 32;
        l as char
    } else {
        c
    }
}

// ----------------------------------------------------------------------------
// Decimal numbers
// ----------------------------------------------------------------------------

/// The decimal digit character for `d` (`0 <= d < 10`).
pub open spec fn digit_char(d: int) -> char {
    if d == 0 {
        '0'
    } else if d == 1 {
        '1'
    } else if d == 2 {
        '2'
    } else if d == 3 {
        '3'
    } else if d == 4 {
        '4'
    } else if d == 5 {
        '5'
    } else if d == 6 {
        '6'
    } else if d == 7 {
        '7'
    } else if d == 8 {
        '8'
    } else {
        '9'
    }
}

/// The decimal rendering of `n`, without sign or leading zeros, as `Display`
/// writes an unsigned integer.
pub open spec fn decimal(n: nat) -> Seq<char>
    decreases n,
{
    if n < 10 {
        seq![digit_char(n as int)]
    } else {
        decimal(n / 10).push(digit_char((n % 10) as int))
    }
}

fn digit(d: usize) -> (c: char)
    requires
        d < 10,
    ensures
        c == digit_char(d as int),
{
    if d == 0 {
        '0'
    } else if d == 1 {
        '1'
    } else if d == 2 {
        '2'
    } else if d == 3 {
        '3'
    } else if d == 4 {
        '4'
    } else if d == 5 {
        '5'
    } else if d == 6 {
        '6'
    } else if d == 7 {
        '7'
    } else if d == 8 {
        '8'
    } else {
        '9'
    }
}

/// The decimal rendering of `n` as characters.
pub fn decimal_chars(n: usize) -> (r: Vec<char>)
    ensures
        r@ == decimal(n as nat),
    decreases n,
{
    if n < 10 {
        let mut v: Vec<char> = Vec::new();
        v.push(digit(n));
        v
    } else {
        let mut v = decimal_chars(n / 10);
        v.push(digit(n % 10));
        v
    }
}

/// A decimal rendering is never empty.
pub proof fn lemma_decimal_nonempty(n: nat)
    ensures
        decimal(n).len() >= 1,
    decreases n,
{
    if n >= 10 {
        lemma_decimal_nonempty(n / 10);
    }
}

/// Larger numbers never have shorter decimal renderings.
pub proof fn lemma_decimal_len_monotonic(a: nat, b: nat)
    requires
        a <= b,
    ensures
        decimal(a).len() <= decimal(b).len(),
    decreases b,
{
    if b >= 10 {
        if a >= 10 {
            lemma_decimal_len_monotonic(a / 10, b / 10);
        } else {
            lemma_decimal_nonempty(b / 10);
        }
    }
}

/// No decimal rendering holds a character outside `0`..`9`.
pub proof fn lemma_decimal_digits(n: nat)
    ensures
        forall|i: int| 0 <= i < decimal(n).len() ==> '0' <= #[trigger] decimal(n)[i] <= '9',
    decreases n,
{
    if n >= 10 {
        lemma_decimal_digits(n / 10);
        let d = decimal(n / 10);
        assert forall|i: int| 0 <= i < decimal(n).len() implies '0' <= #[trigger] decimal(n)[i]
            <= '9' by {
            if i < d.len() {
                assert(decimal(n)[i] == d[i]);
            }
        }
    }
}

// ----------------------------------------------------------------------------
// Whitespace
// ----------------------------------------------------------------------------

/// `char::is_whitespace`: the Unicode `White_Space` property.
pub open spec fn is_whitespace(c: char) -> bool {
    ||| ('\u{0009}' <= c && c <= '\u{000D}')
    ||| c == ' '
    ||| c == '\u{0085}'
    ||| c == '\u{00A0}'
    ||| c == '\u{1680}'
    ||| ('\u{2000}' <= c && c <= '\u{200A}')
    ||| c == '\u{2028}'
    ||| c == '\u{2029}'
    ||| c == '\u{202F}'
    ||| c == '\u{205F}'
    ||| c == '\u{3000}'
}

/// Whether `c` has the Unicode `White_Space` property.
pub fn is_whitespace_char(c: char) -> (r: bool)
    ensures
        r == is_whitespace(c),
{
    ('\u{0009}' <= c && c <= '\u{000D}') || c == ' ' || c == '\u{0085}' || c == '\u{00A0}'
        || c == '\u{1680}' || ('\u{2000}' <= c && c <= '\u{200A}') || c == '\u{2028}' || c
        == '\u{2029}' || c == '\u{202F}' || c == '\u{205F}' || c == '\u{3000}'
}

/// Whether `s` trims to the empty string: every character is whitespace.
pub open spec fn is_blank(s: Seq<char>) -> bool {
    forall|i: int| 0 <= i < s.len() ==> is_whitespace(#[trigger] s[i])
}

/// Whether `s.trim().is_empty()`.
pub fn blank(s: &Vec<char>) -> (r: bool)
    ensures
        r == is_blank(s@),
{
    let n = s.len();
    for i in 0..n
        invariant
            n == s@.len(),
            forall|j: int| 0 <= j < i ==> is_whitespace(#[trigger] s@[j]),
    {
        if !is_whitespace_char(s[i]) {
            return false;
        }
    }
    true
}

// ----------------------------------------------------------------------------
// Splitting and joining
// ----------------------------------------------------------------------------

/// The pieces of `s` between occurrences of `sep`, as `str::split` with a
/// character pattern yields them: there is always at least one piece.
pub open spec fn split_char(s: Seq<char>, sep: char) -> Seq<Seq<char>>
    decreases s.len(),
{
    if s.len() == 0 {
        seq![Seq::<char>::empty()]
    } else {
        let p = split_char(s.drop_last(), sep);
        if s.last() == sep {
            p.push(Seq::<char>::empty())
        } else {
            p.update(p.len() - 1, p.last().push(s.last()))
        }
    }
}

/// `split_char` never yields an empty list of pieces.
pub proof fn lemma_split_char_nonempty(s: Seq<char>, sep: char)
    ensures
        split_char(s, sep).len() >= 1,
    decreases s.len(),
{
    if s.len() > 0 {
        lemma_split_char_nonempty(s.drop_last(), sep);
    }
}

/// A text without `sep` is one piece.
pub proof fn lemma_split_char_single(b: Seq<char>, sep: char)
    requires
        !b.contains(sep),
    ensures
        split_char(b, sep) == seq![b],
    decreases b.len(),
{
    if b.len() > 0 {
        let p = b.drop_last();
        assert(!p.contains(sep)) by {
            if p.contains(sep) {
                let i = choose|i: int| 0 <= i < p.len() && p[i] == sep;
                assert(b[i] == sep);
            }
        }
        lemma_split_char_single(p, sep);
        assert(b.last() == b[b.len() - 1]);
        assert(b.last() != sep);
        assert(p.push(b.last()) =~= b);
        assert(seq![p].update(0, p.push(b.last())) =~= seq![b]);
    } else {
        assert(b =~= Seq::<char>::empty());
    }
}

/// After a text that ends with `sep`, the pieces of what follows start a new
/// piece: the empty last piece of the first part gives way to them.
pub proof fn lemma_split_char_after_sep(a: Seq<char>, b: Seq<char>, sep: char)
    requires
        a.len() > 0,
        a.last() == sep,
    ensures
        split_char(a + b, sep) == split_char(a, sep).drop_last() + split_char(b, sep),
    decreases b.len(),
{
    lemma_split_char_nonempty(a.drop_last(), sep);
    if b.len() == 0 {
        assert(a + b =~= a);
        assert(split_char(a, sep) == split_char(a.drop_last(), sep).push(Seq::<char>::empty()));
        assert(split_char(a, sep).drop_last().push(Seq::<char>::empty()) =~= split_char(a, sep));
    } else {
        let b2 = b.drop_last();
        lemma_split_char_after_sep(a, b2, sep);
        lemma_split_char_nonempty(b2, sep);
        assert((a + b).drop_last() =~= a + b2);
        assert((a + b).last() == b.last());
        let pa = split_char(a, sep).drop_last();
        let pb = split_char(b2, sep);
        if b.last() == sep {
            assert(pa + pb.push(Seq::<char>::empty()) =~= (pa + pb).push(Seq::<char>::empty()));
        } else {
            assert(pa + pb.update(pb.len() - 1, pb.last().push(b.last())) =~= (pa + pb).update(
                (pa + pb).len() - 1,
                (pa + pb).last().push(b.last()),
            ));
        }
    }
}

/// No piece holds the separator.
pub proof fn lemma_split_char_pieces(s: Seq<char>, sep: char)
    ensures
        forall|i: int| 0 <= i < split_char(s, sep).len() ==> !(#[trigger] split_char(s, sep)[i]).contains(sep),
    decreases s.len(),
{
    if s.len() == 0 {
        assert(!Seq::<char>::empty().contains(sep));
    } else {
        let p = split_char(s.drop_last(), sep);
        lemma_split_char_pieces(s.drop_last(), sep);
        lemma_split_char_nonempty(s.drop_last(), sep);
        let q = split_char(s, sep);
        assert forall|i: int| 0 <= i < q.len() implies !(#[trigger] q[i]).contains(sep) by {
            if s.last() == sep {
                if i == p.len() {
                    assert(q[i] =~= Seq::<char>::empty());
                } else {
                    assert(q[i] == p[i]);
                }
            } else if i == p.len() - 1 {
                let w = p.last().push(s.last());
                assert(q[i] == w);
                assert(!p[i].contains(sep));
                if w.contains(sep) {
                    let j = choose|j: int| 0 <= j < w.len() && w[j] == sep;
                    if j < p[i].len() {
                        assert(p[i][j] == sep);
                    }
                }
            } else {
                assert(q[i] == p[i]);
            }
        }
    }
}

/// Pieces without the separator, joined with it, split back into the same
/// pieces.
pub proof fn lemma_split_join(ps: Seq<Seq<char>>, sep: char)
    requires
        ps.len() >= 1,
        forall|i: int| 0 <= i < ps.len() ==> !(#[trigger] ps[i]).contains(sep),
    ensures
        split_char(join(ps, seq![sep]), sep) == ps,
    decreases ps.len(),
{
    if ps.len() == 1 {
        lemma_split_char_single(ps[0], sep);
        assert(seq![ps[0]] =~= ps);
    } else {
        let p2 = ps.drop_last();
        assert(forall|i: int| 0 <= i < p2.len() ==> p2[i] == ps[i]);
        lemma_split_join(p2, sep);
        let a = join(p2, seq![sep]) + seq![sep];
        assert(a.drop_last() =~= join(p2, seq![sep]));
        assert(split_char(a, sep) == p2.push(Seq::<char>::empty()));
        assert(ps.last() == ps[ps.len() - 1]);
        lemma_split_char_single(ps.last(), sep);
        lemma_split_char_after_sep(a, ps.last(), sep);
        assert(join(ps, seq![sep]) =~= a + ps.last());
        assert(p2.push(Seq::<char>::empty()).drop_last() =~= p2);
        assert(p2 + seq![ps.last()] =~= ps);
    }
}

/// The pieces of `s` between occurrences of `sep`.
pub fn split_chars(s: &Vec<char>, sep: char) -> (r: Vec<Vec<char>>)
    ensures
        r@.map_values(|p: Vec<char>| p@) == split_char(s@, sep),
{
    let mut pieces: Vec<Vec<char>> = Vec::new();
    let mut cur: Vec<char> = Vec::new();
    let n = s.len();
    for i in 0..n
        invariant
            n == s@.len(),
            pieces@.map_values(|p: Vec<char>| p@).push(cur@) == split_char(s@.take(i as int), sep),
    {
        proof {
            lemma_split_char_nonempty(s@.take(i as int), sep);
            assert(s@.take(i + 1).drop_last() == s@.take(i as int));
        }
        let c = s[i];
        if c == sep {
            let done = cur;
            pieces.push(done);
            cur = Vec::new();
            assert(pieces@.map_values(|p: Vec<char>| p@).push(cur@) =~= split_char(
                s@.take(i + 1),
                sep,
            ));
        } else {
            let ghost before = pieces@.map_values(|p: Vec<char>| p@).push(cur@);
            cur.push(c);
            assert(pieces@.map_values(|p: Vec<char>| p@).push(cur@) =~= before.update(
                before.len() - 1,
                before.last().push(c),
            ));
        }
    }
    assert(s@.take(n as int) == s@);
    pieces.push(cur);
    pieces
}

/// `pieces` joined with `sep` between consecutive pieces.
pub open spec fn join(pieces: Seq<Seq<char>>, sep: Seq<char>) -> Seq<char>
    decreases pieces.len(),
{
    if pieces.len() == 0 {
        Seq::<char>::empty()
    } else if pieces.len() == 1 {
        pieces[0]
    } else {
        join(pieces.drop_last(), sep) + sep + pieces.last()
    }
}

/// A join of at least one piece begins with the first piece.
pub proof fn lemma_join_starts_with_first(ps: Seq<Seq<char>>, sep: Seq<char>)
    requires
        ps.len() >= 1,
    ensures
        join(ps, sep).len() >= ps[0].len(),
        join(ps, sep).subrange(0, ps[0].len() as int) == ps[0],
    decreases ps.len(),
{
    if ps.len() > 1 {
        lemma_join_starts_with_first(ps.drop_last(), sep);
        let j = join(ps.drop_last(), sep);
        assert(ps.drop_last()[0] == ps[0]);
        assert((j + sep + ps.last()).subrange(0, ps[0].len() as int) =~= j.subrange(0, ps[0].len() as int));
    }
}

/// `pieces` joined with `sep`.
pub fn join_chars(pieces: &Vec<Vec<char>>, sep: &Vec<char>) -> (r: Vec<char>)
    ensures
        r@ == join(pieces@.map_values(|p: Vec<char>| p@), sep@),
{
    let ghost ps = pieces@.map_values(|p: Vec<char>| p@);
    let mut r: Vec<char> = Vec::new();
    let n = pieces.len();
    for i in 0..n
        invariant
            n == pieces@.len(),
            ps == pieces@.map_values(|p: Vec<char>| p@),
            r@ == join(ps.take(i as int), sep@),
    {
        assert(ps.take(i + 1).drop_last() == ps.take(i as int));
        if i > 0 {
            extend_chars(&mut r, sep);
        }
        extend_chars(&mut r, &pieces[i]);
        assert(ps.take(i + 1).last() == pieces@[i as int]@);
        if i == 0 {
            assert(r@ =~= join(ps.take(1), sep@));
        }
    }
    assert(ps.take(n as int) == ps);
    r
}

} // verus!
