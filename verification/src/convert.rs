//! Block-level conversion: the per-line classification predicates and the
//! per-block converters. Each converter validates the raw text of one
//! accumulated block and renders it as an HTML fragment; on malformed input
//! it hands the text back unchanged, so that the caller can fall back to a
//! paragraph rather than lose content.

use vstd::prelude::*;
use crate::chars::{
    char_views, find_from, is_digit, is_digit_char, is_ws, is_ws_char, join_lines,
    lemma_find_from, lemma_join_push, split_lines, str_to_chars, chars_to_string, split_chars,
    subvec, trim_chars, trim_ws, find_char, line_clean, lines_clean, lemma_split_join,
    lemma_trim_fixed,
};
use crate::inline::{append_chars, convert_chars, text_spec};

verus! {

// ------------------------------------------------------------------
// Line classification
// ------------------------------------------------------------------

/// The line opens an unordered-list item: `"- "`.
pub open spec fn starts_unord(s: Seq<char>) -> bool {
    s.len() >= 2 && s[0] == '-' && s[1] == ' '
}

/// The line opens an ordered-list item on the fast path: a literal `"1. "`.
pub open spec fn starts_ord1(s: Seq<char>) -> bool {
    s.len() >= 3 && s[0] == '1' && s[1] == '.' && s[2] == ' '
}

/// The line is a code fence: it opens with three backticks.
pub open spec fn starts_fence(s: Seq<char>) -> bool {
    s.len() >= 3 && s[0] == '`' && s[1] == '`' && s[2] == '`'
}

/// The line opens a quote: `"> "`.
pub open spec fn starts_quote(s: Seq<char>) -> bool {
    s.len() >= 2 && s[0] == '>' && s[1] == ' '
}

/// The number of `#` characters the text opens with.
pub open spec fn hash_run(s: Seq<char>) -> int
    decreases s.len(),
{
    if s.len() > 0 && s[0] == '#' {
        1 + hash_run(s.drop_first())
    } else {
        0
    }
}

/// The number of ASCII digits the text opens with.
pub open spec fn digit_run(s: Seq<char>) -> int
    decreases s.len(),
{
    if s.len() > 0 && is_digit(s[0]) {
        1 + digit_run(s.drop_first())
    } else {
        0
    }
}

/// The number of backticks the text opens with.
pub open spec fn tick_run(s: Seq<char>) -> int
    decreases s.len(),
{
    if s.len() > 0 && s[0] == '`' {
        1 + tick_run(s.drop_first())
    } else {
        0
    }
}

proof fn lemma_hash_run_split(s: Seq<char>, i: int)
    requires
        0 <= i <= s.len(),
        forall|j: int| 0 <= j < i ==> s[j] == '#',
    ensures
        hash_run(s) == i + hash_run(s.skip(i)),
    decreases i,
{
    if i == 0 {
        assert(s.skip(0) =~= s);
    } else {
        assert(s[0] == '#');
        lemma_hash_run_split(s.drop_first(), i - 1);
        assert(s.drop_first().skip(i - 1) =~= s.skip(i));
    }
}

proof fn lemma_digit_run_split(s: Seq<char>, i: int)
    requires
        0 <= i <= s.len(),
        forall|j: int| 0 <= j < i ==> is_digit(s[j]),
    ensures
        digit_run(s) == i + digit_run(s.skip(i)),
    decreases i,
{
    if i == 0 {
        assert(s.skip(0) =~= s);
    } else {
        assert(is_digit(s[0]));
        lemma_digit_run_split(s.drop_first(), i - 1);
        assert(s.drop_first().skip(i - 1) =~= s.skip(i));
    }
}

proof fn lemma_tick_run_split(s: Seq<char>, i: int)
    requires
        0 <= i <= s.len(),
        forall|j: int| 0 <= j < i ==> s[j] == '`',
    ensures
        tick_run(s) == i + tick_run(s.skip(i)),
    decreases i,
{
    if i == 0 {
        assert(s.skip(0) =~= s);
    } else {
        assert(s[0] == '`');
        lemma_tick_run_split(s.drop_first(), i - 1);
        assert(s.drop_first().skip(i - 1) =~= s.skip(i));
    }
}

/// Counts the leading `#` characters of `v`.
fn count_hashes(v: &Vec<char>) -> (r: usize)
    ensures
        r == hash_run(v@),
        r <= v@.len(),
{
    let mut i: usize = 0;
    while i < v.len() && v[i] == '#'
        invariant
            i <= v@.len(),
            forall|j: int| 0 <= j < i ==> v@[j] == '#',
        decreases v@.len() - i,
    {
        i += 1;
    }
    proof {
        lemma_hash_run_split(v@, i as int);
        if i < v@.len() {
            assert(v@.skip(i as int)[0] == v@[i as int]);
            assert(hash_run(v@.skip(i as int)) == 0);
        } else {
            assert(v@.skip(i as int) =~= Seq::<char>::empty());
        }
    }
    i
}

/// Counts the leading ASCII digits of `v`.
fn count_digits(v: &Vec<char>) -> (r: usize)
    ensures
        r == digit_run(v@),
        r <= v@.len(),
{
    let mut i: usize = 0;
    while i < v.len() && is_digit_char(v[i])
        invariant
            i <= v@.len(),
            forall|j: int| 0 <= j < i ==> is_digit(v@[j]),
        decreases v@.len() - i,
    {
        i += 1;
    }
    proof {
        lemma_digit_run_split(v@, i as int);
        if i < v@.len() {
            assert(v@.skip(i as int)[0] == v@[i as int]);
            assert(digit_run(v@.skip(i as int)) == 0);
        } else {
            assert(v@.skip(i as int) =~= Seq::<char>::empty());
        }
    }
    i
}

/// Counts the leading backticks of `v`.
fn count_ticks(v: &Vec<char>) -> (r: usize)
    ensures
        r == tick_run(v@),
        r <= v@.len(),
{
    let mut i: usize = 0;
    while i < v.len() && v[i] == '`'
        invariant
            i <= v@.len(),
            forall|j: int| 0 <= j < i ==> v@[j] == '`',
        decreases v@.len() - i,
    {
        i += 1;
    }
    proof {
        lemma_tick_run_split(v@, i as int);
        if i < v@.len() {
            assert(v@.skip(i as int)[0] == v@[i as int]);
            assert(tick_run(v@.skip(i as int)) == 0);
        } else {
            assert(v@.skip(i as int) =~= Seq::<char>::empty());
        }
    }
    i
}

/// The line is a heading: one to six `#`, then a space.
pub open spec fn is_heading_spec(s: Seq<char>) -> bool {
    1 <= hash_run(s) <= 6 && hash_run(s) < s.len() && s[hash_run(s)] == ' '
}

/// Whether a text is all whitespace from `from` on.
pub open spec fn all_ws_from(s: Seq<char>, from: int) -> bool {
    forall|j: int| from <= j < s.len() ==> is_ws(#[trigger] s[j])
}

/// The image pattern `![alt](src)`, with nothing but whitespace trailing:
/// `alt` runs to the first `]`, which must be followed directly by `(`, and
/// `src` runs to the first `)` after that.
pub open spec fn image_parse(s: Seq<char>) -> Option<(Seq<char>, Seq<char>)> {
    if s.len() >= 2 && s[0] == '!' && s[1] == '[' {
        match find_from(s, ']', 2) {
            Some(i) => {
                if i + 1 < s.len() && s[i + 1] == '(' {
                    match find_from(s, ')', i + 2) {
                        Some(j) => {
                            if all_ws_from(s, j + 1) {
                                Some((s.subrange(2, i), s.subrange(i + 2, j)))
                            } else {
                                None
                            }
                        },
                        None => None,
                    }
                } else {
                    None
                }
            },
            None => None,
        }
    } else {
        None
    }
}

pub fn is_unord_list_item(md: &str) -> (r: bool)
    ensures
        r == starts_unord(md@),
{
    let v = str_to_chars(md);
    v.len() >= 2 && v[0] == '-' && v[1] == ' '
}

pub fn is_ord_list_item(md: &str) -> (r: bool)
    ensures
        r == starts_ord1(md@),
{
    let v = str_to_chars(md);
    v.len() >= 3 && v[0] == '1' && v[1] == '.' && v[2] == ' '
}

pub fn is_heading(md: &str) -> (r: bool)
    ensures
        r == is_heading_spec(md@),
{
    let v = str_to_chars(md);
    let k = count_hashes(&v);
    k >= 1 && k <= 6 && k < v.len() && v[k] == ' '
}

pub fn is_quote(md: &str) -> (r: bool)
    ensures
        r == starts_quote(md@),
{
    let v = str_to_chars(md);
    v.len() >= 2 && v[0] == '>' && v[1] == ' '
}

/// Whether every character of `v` from `from` on is whitespace.
fn check_all_ws(v: &Vec<char>, from: usize) -> (r: bool)
    requires
        from <= v@.len(),
    ensures
        r == all_ws_from(v@, from as int),
{
    let mut i: usize = from;
    while i < v.len()
        invariant
            from <= i <= v@.len(),
            forall|j: int| from <= j < i ==> is_ws(#[trigger] v@[j]),
        decreases v@.len() - i,
    {
        if !is_ws_char(v[i]) {
            return false;
        }
        i += 1;
    }
    true
}

/// Scans `v` for the image pattern, returning the bounds of `alt` and
/// `src` as `image_parse` names them.
fn image_scan(v: &Vec<char>) -> (r: Option<(usize, usize)>)
    ensures
        match r {
            Some(ij) => {
                let (i, j) = ij;
                2 <= i < v@.len() && i + 2 <= j < v@.len()
                    && image_parse(v@) == Some((v@.subrange(2, i as int),
                        v@.subrange(i as int + 2, j as int)))
            },
            None => image_parse(v@) is None,
        },
{
    if !(v.len() >= 2 && v[0] == '!' && v[1] == '[') {
        return None;
    }
    let i = match find_char(v, ']', 2) {
        Some(i) => i,
        None => {
            return None;
        },
    };
    if !(i + 1 < v.len() && v[i + 1] == '(') {
        return None;
    }
    let j = match find_char(v, ')', i + 2) {
        Some(j) => j,
        None => {
            return None;
        },
    };
    if !check_all_ws(v, j + 1) {
        return None;
    }
    Some((i, j))
}

pub fn is_image(md: &str) -> (r: bool)
    ensures
        r == (image_parse(md@) is Some),
{
    let v = str_to_chars(md);
    image_scan(&v).is_some()
}

// ------------------------------------------------------------------
// HTML shapes
// ------------------------------------------------------------------

/// The digit character of a heading level between one and six.
pub open spec fn level_char(k: int) -> char {
    if k == 1 { '1' }
    else if k == 2 { '2' }
    else if k == 3 { '3' }
    else if k == 4 { '4' }
    else if k == 5 { '5' }
    else if k == 6 { '6' }
    else { '0' }
}

/// `<h{k}>…</h{k}>`.
pub open spec fn heading_html(k: int, body: Seq<char>) -> Seq<char> {
    seq!['<', 'h', level_char(k), '>'] + body + seq!['<', '/', 'h', level_char(k), '>']
}

/// The heading fragment for raw block text `s`, if `s` is well formed: one
/// to six `#`, a space, then inline text, converted and trimmed.
pub open spec fn heading_spec(s: Seq<char>) -> Option<Seq<char>> {
    let k = hash_run(s);
    if 1 <= k <= 6 && k < s.len() && s[k] == ' ' {
        Some(heading_html(k, trim_ws(text_spec(s.skip(k + 1)))))
    } else {
        None
    }
}

/// `<blockquote>…</blockquote>`.
pub open spec fn blockquote_html(body: Seq<char>) -> Seq<char> {
    seq!['<', 'b', 'l', 'o', 'c', 'k', 'q', 'u', 'o', 't', 'e', '>'] + body
        + seq!['<', '/', 'b', 'l', 'o', 'c', 'k', 'q', 'u', 'o', 't', 'e', '>']
}

/// The quote fragment for raw block text `s`, if `s` opens with `"> "`:
/// the rest converted as inline text and trimmed.
pub open spec fn quote_spec(s: Seq<char>) -> Option<Seq<char>> {
    if starts_quote(s) {
        Some(blockquote_html(trim_ws(text_spec(s.skip(2)))))
    } else {
        None
    }
}

/// The lines of `s` concatenated with nothing between them.
pub open spec fn concat_lines(ls: Seq<Seq<char>>) -> Seq<char>
    decreases ls.len(),
{
    if ls.len() == 0 {
        Seq::empty()
    } else {
        ls[0] + concat_lines(ls.drop_first())
    }
}

/// `<p>…</p>`.
pub open spec fn para_html(body: Seq<char>) -> Seq<char> {
    seq!['<', 'p', '>'] + body + seq!['<', '/', 'p', '>']
}

/// The paragraph fragment for raw block text `s`: its lines joined, the
/// whole converted as inline text, trimmed, and wrapped in `<p>` tags.
/// Paragraph conversion never fails.
pub open spec fn para_spec(s: Seq<char>) -> Seq<char> {
    para_html(trim_ws(text_spec(concat_lines(split_lines(s)))))
}

// ------------------------------------------------------------------
// Converters
// ------------------------------------------------------------------

/// The inline conversion of one block's text, as a string.
pub fn text(md: &str) -> (r: String)
    ensures
        r@ == text_spec(md@),
{
    let v = str_to_chars(md);
    let o = convert_chars(&v);
    chars_to_string(&o)
}

fn heading_digit(k: usize) -> (r: char)
    requires
        1 <= k <= 6,
    ensures
        r == level_char(k as int),
{
    match k {
        1 => '1',
        2 => '2',
        3 => '3',
        4 => '4',
        5 => '5',
        _ => '6',
    }
}

pub fn heading<'a>(md: &'a str) -> (r: Result<String, &'a str>)
    ensures
        match r {
            Ok(h) => heading_spec(md@) == Some(h@),
            Err(e) => heading_spec(md@) is None && e@ == md@,
        },
{
    let v = str_to_chars(md);
    let k = count_hashes(&v);
    if k < 1 || k > 6 {
        return Err(md);
    }
    if k >= v.len() || v[k] != ' ' {
        return Err(md);
    }
    let rest = subvec(&v, k + 1, v.len());
    proof {
        assert(v@.subrange(k as int + 1, v@.len() as int) =~= v@.skip(k as int + 1));
    }
    let conv = convert_chars(&rest);
    let t = trim_chars(&conv);
    let d = heading_digit(k);
    let mut out: Vec<char> = Vec::new();
    out.push('<');
    out.push('h');
    out.push(d);
    out.push('>');
    proof {
        assert(out@ =~= seq!['<', 'h', level_char(k as int), '>']);
    }
    append_chars(&mut out, &t);
    let ghost mid = out@;
    out.push('<');
    out.push('/');
    out.push('h');
    out.push(d);
    out.push('>');
    proof {
        assert(out@ =~= mid + seq!['<', '/', 'h', level_char(k as int), '>']);
        assert(out@ =~= heading_html(k as int, t@));
    }
    Ok(chars_to_string(&out))
}

pub fn quote<'a>(md: &'a str) -> (r: Result<String, &'a str>)
    ensures
        match r {
            Ok(h) => quote_spec(md@) == Some(h@),
            Err(e) => quote_spec(md@) is None && e@ == md@,
        },
{
    let v = str_to_chars(md);
    if !(v.len() >= 2 && v[0] == '>' && v[1] == ' ') {
        return Err(md);
    }
    let rest = subvec(&v, 2, v.len());
    proof {
        assert(v@.subrange(2, v@.len() as int) =~= v@.skip(2));
    }
    let conv = convert_chars(&rest);
    let t = trim_chars(&conv);
    let mut out: Vec<char> = Vec::new();
    out.push('<');
    out.push('b');
    out.push('l');
    out.push('o');
    out.push('c');
    out.push('k');
    out.push('q');
    out.push('u');
    out.push('o');
    out.push('t');
    out.push('e');
    out.push('>');
    proof {
        assert(out@ =~= seq!['<', 'b', 'l', 'o', 'c', 'k', 'q', 'u', 'o', 't', 'e', '>']);
    }
    append_chars(&mut out, &t);
    let ghost mid = out@;
    out.push('<');
    out.push('/');
    out.push('b');
    out.push('l');
    out.push('o');
    out.push('c');
    out.push('k');
    out.push('q');
    out.push('u');
    out.push('o');
    out.push('t');
    out.push('e');
    out.push('>');
    proof {
        assert(out@ =~= mid + seq!['<', '/', 'b', 'l', 'o', 'c', 'k', 'q', 'u', 'o', 't', 'e', '>']);
        assert(out@ =~= blockquote_html(t@));
    }
    Ok(chars_to_string(&out))
}

/// The lines of `v` concatenated, with nothing between them.
fn concat_lines_exec(ls: &Vec<Vec<char>>) -> (r: Vec<char>)
    ensures
        r@ == concat_lines(char_views(ls@)),
{
    let mut r: Vec<char> = Vec::new();
    let mut i: usize = 0;
    proof {
        assert(char_views(ls@).skip(0) =~= char_views(ls@));
    }
    while i < ls.len()
        invariant
            i <= ls@.len(),
            concat_lines(char_views(ls@)) == r@ + concat_lines(char_views(ls@).skip(i as int)),
        decreases ls@.len() - i,
    {
        let ghost rest = char_views(ls@).skip(i as int);
        let ghost prev = r@;
        append_chars(&mut r, &ls[i]);
        proof {
            assert(rest.len() > 0 && rest[0] == ls@[i as int]@);
            assert(rest.drop_first() =~= char_views(ls@).skip(i as int + 1));
            assert(prev + (rest[0] + concat_lines(rest.drop_first()))
                =~= r@ + concat_lines(char_views(ls@).skip(i as int + 1)));
        }
        i += 1;
    }
    proof {
        assert(char_views(ls@).skip(ls@.len() as int) =~= Seq::<Seq<char>>::empty());
        assert(r@ + Seq::<char>::empty() =~= r@);
    }
    r
}

pub fn paragraph<'a>(md: &'a str) -> (r: Result<String, &'a str>)
    ensures
        match r {
            Ok(h) => h@ == para_spec(md@),
            Err(_) => false,
        },
{
    let v = str_to_chars(md);
    let ls = split_chars(&v);
    let joined = concat_lines_exec(&ls);
    let conv = convert_chars(&joined);
    let t = trim_chars(&conv);
    let mut out: Vec<char> = Vec::new();
    out.push('<');
    out.push('p');
    out.push('>');
    proof {
        assert(out@ =~= seq!['<', 'p', '>']);
    }
    append_chars(&mut out, &t);
    let ghost mid = out@;
    out.push('<');
    out.push('/');
    out.push('p');
    out.push('>');
    proof {
        assert(out@ =~= mid + seq!['<', '/', 'p', '>']);
        assert(out@ =~= para_html(t@));
    }
    Ok(chars_to_string(&out))
}

// ------------------------------------------------------------------
// Lists
// ------------------------------------------------------------------

/// `<li>…</li>` for one item's raw text, converted and trimmed.
pub open spec fn li_html(content: Seq<char>) -> Seq<char> {
    seq!['<', 'l', 'i', '>'] + trim_ws(text_spec(content)) + seq!['<', '/', 'l', 'i', '>']
}

pub open spec fn all_unord(ls: Seq<Seq<char>>) -> bool {
    forall|i: int| 0 <= i < ls.len() ==> starts_unord(#[trigger] ls[i])
}

/// The items of an unordered list, each line's `"- "` stripped.
pub open spec fn unord_items(ls: Seq<Seq<char>>) -> Seq<char>
    decreases ls.len(),
{
    if ls.len() == 0 {
        Seq::empty()
    } else {
        li_html(ls[0].skip(2)) + unord_items(ls.drop_first())
    }
}

/// The unordered-list fragment for raw block text `s`, if every line of it
/// opens with `"- "`.
pub open spec fn unord_spec(s: Seq<char>) -> Option<Seq<char>> {
    let ls = split_lines(s);
    if all_unord(ls) {
        Some(seq!['<', 'u', 'l', '>'] + unord_items(ls) + seq!['<', '/', 'u', 'l', '>'])
    } else {
        None
    }
}

/// An ordered-list line: one or more digits, then `". "`.
pub open spec fn valid_ord_line(l: Seq<char>) -> bool {
    let d = digit_run(l);
    d >= 1 && d + 1 < l.len() && l[d] == '.' && l[d + 1] == ' '
}

pub open spec fn all_ord(ls: Seq<Seq<char>>) -> bool {
    forall|i: int| 0 <= i < ls.len() ==> valid_ord_line(#[trigger] ls[i])
}

/// The items of an ordered list, each line's digits and `". "` stripped.
pub open spec fn ord_items(ls: Seq<Seq<char>>) -> Seq<char>
    decreases ls.len(),
{
    if ls.len() == 0 {
        Seq::empty()
    } else {
        li_html(ls[0].skip(digit_run(ls[0]) + 2)) + ord_items(ls.drop_first())
    }
}

/// The ordered-list fragment for raw block text `s`, if every line of it
/// opens with digits and `". "`. The digits' value is not checked, so the
/// numbering need not be sequential.
pub open spec fn ord_spec(s: Seq<char>) -> Option<Seq<char>> {
    let ls = split_lines(s);
    if all_ord(ls) {
        Some(seq!['<', 'o', 'l', '>'] + ord_items(ls) + seq!['<', '/', 'o', 'l', '>'])
    } else {
        None
    }
}

fn check_all_unord(ls: &Vec<Vec<char>>) -> (r: bool)
    ensures
        r == all_unord(char_views(ls@)),
{
    let mut i: usize = 0;
    while i < ls.len()
        invariant
            i <= ls@.len(),
            forall|j: int| 0 <= j < i ==> starts_unord(#[trigger] char_views(ls@)[j]),
        decreases ls@.len() - i,
    {
        let line = &ls[i];
        if !(line.len() >= 2 && line[0] == '-' && line[1] == ' ') {
            proof {
                assert(!starts_unord(char_views(ls@)[i as int]));
            }
            return false;
        }
        proof {
            assert(starts_unord(char_views(ls@)[i as int]));
        }
        i += 1;
    }
    true
}

fn check_all_ord(ls: &Vec<Vec<char>>) -> (r: bool)
    ensures
        r == all_ord(char_views(ls@)),
{
    let mut i: usize = 0;
    while i < ls.len()
        invariant
            i <= ls@.len(),
            forall|j: int| 0 <= j < i ==> valid_ord_line(#[trigger] char_views(ls@)[j]),
        decreases ls@.len() - i,
    {
        let line = &ls[i];
        let d = count_digits(line);
        if !(d >= 1 && line.len() - d >= 2 && line[d] == '.' && line[d + 1] == ' ') {
            proof {
                assert(!valid_ord_line(char_views(ls@)[i as int]));
            }
            return false;
        }
        proof {
            assert(valid_ord_line(char_views(ls@)[i as int]));
        }
        i += 1;
    }
    true
}

fn unord_items_exec(ls: &Vec<Vec<char>>) -> (r: Vec<char>)
    requires
        all_unord(char_views(ls@)),
    ensures
        r@ == unord_items(char_views(ls@)),
{
    let mut r: Vec<char> = Vec::new();
    let mut i: usize = 0;
    proof {
        assert(char_views(ls@).skip(0) =~= char_views(ls@));
    }
    while i < ls.len()
        invariant
            i <= ls@.len(),
            all_unord(char_views(ls@)),
            unord_items(char_views(ls@)) == r@ + unord_items(char_views(ls@).skip(i as int)),
        decreases ls@.len() - i,
    {
        let ghost rest = char_views(ls@).skip(i as int);
        let ghost prev = r@;
        let line = &ls[i];
        proof {
            assert(starts_unord(char_views(ls@)[i as int]));
        }
        let content = subvec(line, 2, line.len());
        proof {
            assert(line@.subrange(2, line@.len() as int) =~= line@.skip(2));
        }
        let conv = convert_chars(&content);
        let t = trim_chars(&conv);
        r.push('<');
        r.push('l');
        r.push('i');
        r.push('>');
        proof {
            assert(r@ =~= prev + seq!['<', 'l', 'i', '>']);
        }
        append_chars(&mut r, &t);
        let ghost mid = r@;
        r.push('<');
        r.push('/');
        r.push('l');
        r.push('i');
        r.push('>');
        proof {
            assert(r@ =~= mid + seq!['<', '/', 'l', 'i', '>']);
            assert(r@ =~= prev + li_html(line@.skip(2)));
            assert(rest[0] == line@);
            assert(rest.drop_first() =~= char_views(ls@).skip(i as int + 1));
            assert(prev + (li_html(rest[0].skip(2)) + unord_items(rest.drop_first()))
                =~= r@ + unord_items(char_views(ls@).skip(i as int + 1)));
        }
        i += 1;
    }
    proof {
        assert(char_views(ls@).skip(ls@.len() as int) =~= Seq::<Seq<char>>::empty());
        assert(r@ + Seq::<char>::empty() =~= r@);
    }
    r
}

fn ord_items_exec(ls: &Vec<Vec<char>>) -> (r: Vec<char>)
    requires
        all_ord(char_views(ls@)),
    ensures
        r@ == ord_items(char_views(ls@)),
{
    let mut r: Vec<char> = Vec::new();
    let mut i: usize = 0;
    proof {
        assert(char_views(ls@).skip(0) =~= char_views(ls@));
    }
    while i < ls.len()
        invariant
            i <= ls@.len(),
            all_ord(char_views(ls@)),
            ord_items(char_views(ls@)) == r@ + ord_items(char_views(ls@).skip(i as int)),
        decreases ls@.len() - i,
    {
        let ghost rest = char_views(ls@).skip(i as int);
        let ghost prev = r@;
        let line = &ls[i];
        proof {
            assert(valid_ord_line(char_views(ls@)[i as int]));
        }
        let d = count_digits(line);
        let n = line.len();
        proof {
            assert(char_views(ls@)[i as int] == line@);
            assert(digit_run(line@) + 1 < line@.len());
            assert(d as int + 2 <= n as int);
        }
        let content = subvec(line, d + 2, n);
        proof {
            assert(line@.subrange(d as int + 2, line@.len() as int) =~= line@.skip(d as int + 2));
        }
        let conv = convert_chars(&content);
        let t = trim_chars(&conv);
        r.push('<');
        r.push('l');
        r.push('i');
        r.push('>');
        proof {
            assert(r@ =~= prev + seq!['<', 'l', 'i', '>']);
        }
        append_chars(&mut r, &t);
        let ghost mid = r@;
        r.push('<');
        r.push('/');
        r.push('l');
        r.push('i');
        r.push('>');
        proof {
            assert(r@ =~= mid + seq!['<', '/', 'l', 'i', '>']);
            assert(r@ =~= prev + li_html(line@.skip(digit_run(line@) + 2)));
            assert(rest[0] == line@);
            assert(rest.drop_first() =~= char_views(ls@).skip(i as int + 1));
            assert(prev + (li_html(rest[0].skip(digit_run(rest[0]) + 2)) + ord_items(rest.drop_first()))
                =~= r@ + ord_items(char_views(ls@).skip(i as int + 1)));
        }
        i += 1;
    }
    proof {
        assert(char_views(ls@).skip(ls@.len() as int) =~= Seq::<Seq<char>>::empty());
        assert(r@ + Seq::<char>::empty() =~= r@);
    }
    r
}

pub fn unord_list<'a>(md: &'a str) -> (r: Result<String, &'a str>)
    ensures
        match r {
            Ok(h) => unord_spec(md@) == Some(h@),
            Err(e) => unord_spec(md@) is None && e@ == md@,
        },
{
    let v = str_to_chars(md);
    let ls = split_chars(&v);
    if !check_all_unord(&ls) {
        return Err(md);
    }
    let items = unord_items_exec(&ls);
    let mut out: Vec<char> = Vec::new();
    out.push('<');
    out.push('u');
    out.push('l');
    out.push('>');
    proof {
        assert(out@ =~= seq!['<', 'u', 'l', '>']);
    }
    append_chars(&mut out, &items);
    let ghost mid = out@;
    out.push('<');
    out.push('/');
    out.push('u');
    out.push('l');
    out.push('>');
    proof {
        assert(out@ =~= mid + seq!['<', '/', 'u', 'l', '>']);
    }
    Ok(chars_to_string(&out))
}

pub fn ord_list<'a>(md: &'a str) -> (r: Result<String, &'a str>)
    ensures
        match r {
            Ok(h) => ord_spec(md@) == Some(h@),
            Err(e) => ord_spec(md@) is None && e@ == md@,
        },
{
    let v = str_to_chars(md);
    let ls = split_chars(&v);
    if !check_all_ord(&ls) {
        return Err(md);
    }
    let items = ord_items_exec(&ls);
    let mut out: Vec<char> = Vec::new();
    out.push('<');
    out.push('o');
    out.push('l');
    out.push('>');
    proof {
        assert(out@ =~= seq!['<', 'o', 'l', '>']);
    }
    append_chars(&mut out, &items);
    let ghost mid = out@;
    out.push('<');
    out.push('/');
    out.push('o');
    out.push('l');
    out.push('>');
    proof {
        assert(out@ =~= mid + seq!['<', '/', 'o', 'l', '>']);
    }
    Ok(chars_to_string(&out))
}

// ------------------------------------------------------------------
// Code blocks
// ------------------------------------------------------------------

/// The language tag of an opening fence line: everything after the leading
/// backticks, trimmed.
pub open spec fn fence_lang(l: Seq<char>) -> Seq<char> {
    trim_ws(l.skip(tick_run(l)))
}

/// `<pre><code class="language-{lang}">{body}</code></pre>`.
pub open spec fn code_block_html(lang: Seq<char>, body: Seq<char>) -> Seq<char> {
    seq!['<', 'p', 'r', 'e', '>', '<', 'c', 'o', 'd', 'e', ' ', 'c', 'l', 'a', 's', 's', '=',
        '"', 'l', 'a', 'n', 'g', 'u', 'a', 'g', 'e', '-'] + lang + seq!['"', '>'] + body
        + seq!['<', '/', 'c', 'o', 'd', 'e', '>', '<', '/', 'p', 'r', 'e', '>']
}

/// The code-block fragment for raw block text `s`, if it is fenced: the
/// first and last lines open with three backticks, the first carries a
/// non-empty language tag, and the lines between them are the body, kept
/// verbatim with no inline conversion.
pub open spec fn code_block_spec(s: Seq<char>) -> Option<Seq<char>> {
    let ls = split_lines(s);
    if ls.len() >= 2 && starts_fence(ls[0]) && starts_fence(ls.last())
        && fence_lang(ls[0]).len() > 0 {
        Some(code_block_html(fence_lang(ls[0]), join_lines(ls.subrange(1, ls.len() - 1))))
    } else {
        None
    }
}

/// Code-block round trip, in general: for any non-empty language tag and
/// any body lines, the block made of the opening fence line, the body
/// lines, and a closing fence converts to exactly
/// `<pre><code class="language-{lang}">{body}</code></pre>`, with the body
/// byte-for-byte verbatim — no escaping and no inline conversion.
pub proof fn lemma_code_block_verbatim(lang: Seq<char>, body: Seq<Seq<char>>)
    requires
        lang.len() > 0,
        lang[0] != '`',
        trim_ws(lang) == lang,
        forall|j: int| 0 <= j < lang.len() ==> lang[j] != '\n',
        lines_clean(body),
    ensures
        code_block_spec(
            join_lines(seq![seq!['`', '`', '`'] + lang] + body + seq![seq!['`', '`', '`']]),
        ) == Some(code_block_html(lang, join_lines(body))),
{
    let fence = seq!['`', '`', '`'];
    let f0 = fence + lang;
    let ls = seq![f0] + body + seq![fence];
    lemma_trim_fixed(lang);
    assert(line_clean(f0)) by {
        assert(forall|j: int| 0 <= j < f0.len()
            ==> f0[j] == (if j < 3 { fence[j] } else { lang[j - 3] }));
        assert(f0.last() == lang.last());
    }
    assert(line_clean(fence));
    assert(lines_clean(ls)) by {
        assert(forall|i: int| 1 <= i < 1 + body.len() ==> ls[i] == body[i - 1]);
        assert(ls[0] == f0 && ls[ls.len() - 1] == fence);
    }
    assert(ls.last() == fence);
    lemma_split_join(ls);
    assert(ls.len() >= 2);
    assert(starts_fence(ls[0]));
    assert(starts_fence(ls.last()));
    assert(f0[3] == lang[0]);
    lemma_tick_run_split(f0, 3);
    assert(f0.skip(3)[0] == lang[0]);
    assert(tick_run(f0.skip(3)) == 0);
    assert(tick_run(f0) == 3);
    assert(f0.skip(3) =~= lang);
    assert(fence_lang(ls[0]) == lang);
    assert(ls.subrange(1, ls.len() - 1) =~= body);
}

fn is_fence_line(l: &Vec<char>) -> (r: bool)
    ensures
        r == starts_fence(l@),
{
    l.len() >= 3 && l[0] == '`' && l[1] == '`' && l[2] == '`'
}

/// The middle lines joined with newlines: `ls[from..to]`.
fn join_range(ls: &Vec<Vec<char>>, from: usize, to: usize) -> (r: Vec<char>)
    requires
        from <= to <= ls@.len(),
    ensures
        r@ == join_lines(char_views(ls@).subrange(from as int, to as int)),
{
    let mut r: Vec<char> = Vec::new();
    let mut i: usize = from;
    proof {
        assert(char_views(ls@).subrange(from as int, from as int) =~= Seq::<Seq<char>>::empty());
    }
    while i < to
        invariant
            from <= i <= to <= ls@.len(),
            r@ == join_lines(char_views(ls@).subrange(from as int, i as int)),
        decreases to - i,
    {
        let ghost done = char_views(ls@).subrange(from as int, i as int);
        if i > from {
            r.push('\n');
        }
        append_chars(&mut r, &ls[i]);
        proof {
            lemma_join_push(done, char_views(ls@)[i as int]);
            assert(done.push(char_views(ls@)[i as int])
                =~= char_views(ls@).subrange(from as int, i as int + 1));
            if i > from {
                assert(r@ =~= join_lines(done) + seq!['\n'] + char_views(ls@)[i as int]);
            } else {
                assert(r@ =~= char_views(ls@)[i as int]);
            }
        }
        i += 1;
    }
    r
}

pub fn code_block<'a>(md: &'a str) -> (r: Result<String, &'a str>)
    ensures
        match r {
            Ok(h) => code_block_spec(md@) == Some(h@),
            Err(e) => code_block_spec(md@) is None && e@ == md@,
        },
{
    let v = str_to_chars(md);
    let ls = split_chars(&v);
    if ls.len() < 2 {
        return Err(md);
    }
    proof {
        assert(char_views(ls@)[0] == ls@[0]@);
        assert(char_views(ls@).last() == ls@.last()@);
    }
    if !is_fence_line(&ls[0]) {
        return Err(md);
    }
    if !is_fence_line(&ls[ls.len() - 1]) {
        return Err(md);
    }
    let t = count_ticks(&ls[0]);
    let lang_raw = subvec(&ls[0], t, ls[0].len());
    proof {
        assert(ls@[0]@.subrange(t as int, ls@[0]@.len() as int) =~= ls@[0]@.skip(t as int));
    }
    let lang = trim_chars(&lang_raw);
    if lang.len() == 0 {
        return Err(md);
    }
    let body = join_range(&ls, 1, ls.len() - 1);
    let mut out: Vec<char> = Vec::new();
    out.push('<');
    out.push('p');
    out.push('r');
    out.push('e');
    out.push('>');
    out.push('<');
    out.push('c');
    out.push('o');
    out.push('d');
    out.push('e');
    out.push(' ');
    out.push('c');
    out.push('l');
    out.push('a');
    out.push('s');
    out.push('s');
    out.push('=');
    out.push('"');
    out.push('l');
    out.push('a');
    out.push('n');
    out.push('g');
    out.push('u');
    out.push('a');
    out.push('g');
    out.push('e');
    out.push('-');
    proof {
        assert(out@ =~= seq!['<', 'p', 'r', 'e', '>', '<', 'c', 'o', 'd', 'e', ' ', 'c', 'l',
            'a', 's', 's', '=', '"', 'l', 'a', 'n', 'g', 'u', 'a', 'g', 'e', '-']);
    }
    append_chars(&mut out, &lang);
    let ghost mid1 = out@;
    out.push('"');
    out.push('>');
    proof {
        assert(out@ =~= mid1 + seq!['"', '>']);
    }
    append_chars(&mut out, &body);
    let ghost mid2 = out@;
    out.push('<');
    out.push('/');
    out.push('c');
    out.push('o');
    out.push('d');
    out.push('e');
    out.push('>');
    out.push('<');
    out.push('/');
    out.push('p');
    out.push('r');
    out.push('e');
    out.push('>');
    proof {
        assert(out@ =~= mid2 + seq!['<', '/', 'c', 'o', 'd', 'e', '>', '<', '/', 'p', 'r', 'e',
            '>']);
        assert(out@ =~= code_block_html(lang@, body@));
    }
    Ok(chars_to_string(&out))
}

// ------------------------------------------------------------------
// Images
// ------------------------------------------------------------------

/// `<img src="{src}" alt="{alt}"/>`; neither part is inline-converted or
/// escaped.
pub open spec fn img_html(alt: Seq<char>, src: Seq<char>) -> Seq<char> {
    seq!['<', 'i', 'm', 'g', ' ', 's', 'r', 'c', '=', '"'] + src
        + seq!['"', ' ', 'a', 'l', 't', '=', '"'] + alt + seq!['"', '/', '>']
}

/// The image fragment for raw block text `s`, if it matches `![alt](src)`
/// with nothing but whitespace trailing.
pub open spec fn image_spec(s: Seq<char>) -> Option<Seq<char>> {
    match image_parse(s) {
        Some((alt, src)) => Some(img_html(alt, src)),
        None => None,
    }
}

/// Every well-formed image line `![alt](src)` — `alt` free of `]`, `src`
/// free of `)` — converts to exactly `<img src="src" alt="alt"/>`, with
/// neither part inline-processed or escaped.
pub proof fn lemma_image_line(alt: Seq<char>, src: Seq<char>)
    requires
        forall|i: int| 0 <= i < alt.len() ==> alt[i] != ']',
        forall|i: int| 0 <= i < src.len() ==> src[i] != ')',
    ensures
        image_spec(seq!['!', '['] + alt + seq![']', '('] + src + seq![')'])
            == Some(img_html(alt, src)),
{
    let s = seq!['!', '['] + alt + seq![']', '('] + src + seq![')'];
    let ka = 2 + alt.len() as int;
    let kb = ka + 2 + src.len() as int;
    assert(s.len() == kb + 1);
    assert(s[0] == '!' && s[1] == '[');
    assert(forall|j: int| 2 <= j < ka ==> s[j] == alt[j - 2]);
    assert(s[ka] == ']' && s[ka + 1] == '(');
    assert(forall|j: int| ka + 2 <= j < kb ==> s[j] == src[j - (ka + 2)]);
    assert(s[kb] == ')');
    lemma_find_from(s, ']', 2);
    match find_from(s, ']', 2) {
        Some(i) => {
            assert(!(i < ka)) by {
                if i < ka {
                    assert(s[i] == alt[i - 2]);
                }
            }
            assert(!(i > ka)) by {
                if i > ka {
                    assert(s[ka] != ']');
                }
            }
            assert(i == ka);
        },
        None => {
            assert(s[ka] == ']');
            assert(false);
        },
    }
    lemma_find_from(s, ')', ka + 2);
    match find_from(s, ')', ka + 2) {
        Some(j) => {
            assert(!(j < kb)) by {
                if j < kb {
                    assert(s[j] == src[j - (ka + 2)]);
                }
            }
            assert(!(j > kb)) by {
                if j > kb {
                    assert(s[kb] != ')');
                }
            }
            assert(j == kb);
        },
        None => {
            assert(s[kb] == ')');
            assert(false);
        },
    }
    assert(all_ws_from(s, kb + 1));
    assert(s.subrange(2, ka) =~= alt);
    assert(s.subrange(ka + 2, kb) =~= src);
}

pub fn image<'a>(md: &'a str) -> (r: Result<String, &'a str>)
    ensures
        match r {
            Ok(h) => image_spec(md@) == Some(h@),
            Err(e) => image_spec(md@) is None && e@ == md@,
        },
{
    let v = str_to_chars(md);
    let scan = image_scan(&v);
    match scan {
        None => Err(md),
        Some((i, j)) => {
            let alt = subvec(&v, 2, i);
            let src = subvec(&v, i + 2, j);
            let mut out: Vec<char> = Vec::new();
            out.push('<');
            out.push('i');
            out.push('m');
            out.push('g');
            out.push(' ');
            out.push('s');
            out.push('r');
            out.push('c');
            out.push('=');
            out.push('"');
            proof {
                assert(out@ =~= seq!['<', 'i', 'm', 'g', ' ', 's', 'r', 'c', '=', '"']);
            }
            append_chars(&mut out, &src);
            let ghost mid1 = out@;
            out.push('"');
            out.push(' ');
            out.push('a');
            out.push('l');
            out.push('t');
            out.push('=');
            out.push('"');
            proof {
                assert(out@ =~= mid1 + seq!['"', ' ', 'a', 'l', 't', '=', '"']);
            }
            append_chars(&mut out, &alt);
            let ghost mid2 = out@;
            out.push('"');
            out.push('/');
            out.push('>');
            proof {
                assert(out@ =~= mid2 + seq!['"', '/', '>']);
                assert(out@ =~= img_html(alt@, src@));
            }
            Ok(chars_to_string(&out))
        },
    }
}

} // verus!
