//! Character-level utilities shared by the inline converter and the block
//! converters: whitespace and digit predicates, conversion between `&str`
//! and `Vec<char>`, searching, trimming, and line splitting and joining.

use vstd::prelude::*;

verus! {

/// The characters that Rust's `char::is_whitespace` recognizes.
pub open spec fn is_ws(c: char) -> bool {
    c == ' ' || c == '\t' || c == '\n' || c == '\u{b}' || c == '\u{c}' || c == '\r'
        || c == '\u{85}' || c == '\u{a0}' || c == '\u{1680}' || c == '\u{2000}'
        || c == '\u{2001}' || c == '\u{2002}' || c == '\u{2003}' || c == '\u{2004}'
        || c == '\u{2005}' || c == '\u{2006}' || c == '\u{2007}' || c == '\u{2008}'
        || c == '\u{2009}' || c == '\u{200a}' || c == '\u{2028}' || c == '\u{2029}'
        || c == '\u{202f}' || c == '\u{205f}' || c == '\u{3000}'
}

pub fn is_ws_char(c: char) -> (r: bool)
    ensures
        r == is_ws(c),
{
    match c {
        ' ' | '\t' | '\n' | '\u{b}' | '\u{c}' | '\r' | '\u{85}' | '\u{a0}' | '\u{1680}'
        | '\u{2000}' | '\u{2001}' | '\u{2002}' | '\u{2003}' | '\u{2004}' | '\u{2005}'
        | '\u{2006}' | '\u{2007}' | '\u{2008}' | '\u{2009}' | '\u{200a}' | '\u{2028}'
        | '\u{2029}' | '\u{202f}' | '\u{205f}' | '\u{3000}' => true,
        _ => false,
    }
}

/// The ten ASCII digits.
pub open spec fn is_digit(c: char) -> bool {
    c == '0' || c == '1' || c == '2' || c == '3' || c == '4' || c == '5' || c == '6'
        || c == '7' || c == '8' || c == '9'
}

pub fn is_digit_char(c: char) -> (r: bool)
    ensures
        r == is_digit(c),
{
    match c {
        '0' | '1' | '2' | '3' | '4' | '5' | '6' | '7' | '8' | '9' => true,
        _ => false,
    }
}

/// The characters of a string slice, in order.
pub fn str_to_chars(s: &str) -> (r: Vec<char>)
    ensures
        r@ == s@,
{
    let n = s.unicode_len();
    let mut r: Vec<char> = Vec::new();
    let mut i: usize = 0;
    while i < n
        invariant
            i <= n,
            n == s@.len(),
            r@ == s@.take(i as int),
        decreases n - i,
    {
        let c = s.get_char(i);
        r.push(c);
        proof {
            assert(s@.take(i as int).push(s@[i as int]) =~= s@.take(i as int + 1));
        }
        i += 1;
    }
    proof {
        assert(s@.take(n as int) =~= s@);
    }
    r
}

/// Relies on `String`'s `FromIterator<char>` implementation: collecting
/// chars yields the string holding exactly those characters in order.
#[verifier::external_body]
pub fn chars_to_string(v: &Vec<char>) -> (r: String)
    ensures
        r@ == v@,
{
    v.iter().collect()
}

/// A copy of `v[from..to]`.
pub fn subvec(v: &Vec<char>, from: usize, to: usize) -> (r: Vec<char>)
    requires
        from <= to <= v@.len(),
    ensures
        r@ == v@.subrange(from as int, to as int),
{
    let mut r: Vec<char> = Vec::new();
    let mut i: usize = from;
    while i < to
        invariant
            from <= i <= to <= v@.len(),
            r@ == v@.subrange(from as int, i as int),
        decreases to - i,
    {
        r.push(v[i]);
        proof {
            assert(v@.subrange(from as int, i as int).push(v@[i as int])
                =~= v@.subrange(from as int, i as int + 1));
        }
        i += 1;
    }
    r
}

/// The first position at or after `from` holding `c`, if any.
pub open spec fn find_from(s: Seq<char>, c: char, from: int) -> Option<int>
    decreases s.len() - from,
{
    if from >= s.len() || from < 0 {
        None
    } else if s[from] == c {
        Some(from)
    } else {
        find_from(s, c, from + 1)
    }
}

pub proof fn lemma_find_from(s: Seq<char>, c: char, from: int)
    requires
        0 <= from,
    ensures
        match find_from(s, c, from) {
            Some(i) => from <= i < s.len() && s[i] == c
                && forall|j: int| from <= j < i ==> s[j] != c,
            None => forall|j: int| from <= j < s.len() ==> s[j] != c,
        },
    decreases s.len() - from,
{
    if from < s.len() && s[from] != c {
        lemma_find_from(s, c, from + 1);
    }
}

pub fn find_char(v: &Vec<char>, c: char, from: usize) -> (r: Option<usize>)
    requires
        from <= v@.len(),
    ensures
        match r {
            Some(i) => find_from(v@, c, from as int) == Some(i as int) && from <= i < v@.len(),
            None => find_from(v@, c, from as int) is None,
        },
{
    let mut i: usize = from;
    while i < v.len()
        invariant
            from <= i <= v@.len(),
            find_from(v@, c, from as int) == find_from(v@, c, i as int),
        decreases v@.len() - i,
    {
        if v[i] == c {
            return Some(i);
        }
        i += 1;
    }
    None
}

/// `s` with leading whitespace removed.
pub open spec fn trim_front(s: Seq<char>) -> Seq<char>
    decreases s.len(),
{
    if s.len() > 0 && is_ws(s[0]) {
        trim_front(s.drop_first())
    } else {
        s
    }
}

/// `s` with trailing whitespace removed.
pub open spec fn trim_back(s: Seq<char>) -> Seq<char>
    decreases s.len(),
{
    if s.len() > 0 && is_ws(s.last()) {
        trim_back(s.drop_last())
    } else {
        s
    }
}

/// `s` with both leading and trailing whitespace removed, as Rust's
/// `str::trim` does.
pub open spec fn trim_ws(s: Seq<char>) -> Seq<char> {
    trim_back(trim_front(s))
}

pub fn trim_chars(v: &Vec<char>) -> (r: Vec<char>)
    ensures
        r@ == trim_ws(v@),
{
    let n = v.len();
    proof {
        assert(v@.skip(0) =~= v@);
    }
    let mut a: usize = 0;
    while a < n && is_ws_char(v[a])
        invariant
            a <= n,
            n == v@.len(),
            trim_front(v@) == trim_front(v@.skip(a as int)),
        decreases n - a,
    {
        proof {
            assert(v@.skip(a as int).drop_first() =~= v@.skip(a as int + 1));
        }
        a += 1;
    }
    proof {
        if a < n {
            assert(trim_front(v@.skip(a as int)) == v@.skip(a as int));
        } else {
            assert(v@.skip(a as int) =~= Seq::<char>::empty());
        }
        assert(trim_front(v@) == v@.skip(a as int));
        assert(v@.skip(a as int) =~= v@.subrange(a as int, n as int));
    }
    let mut b: usize = n;
    while b > a && is_ws_char(v[b - 1])
        invariant
            a <= b <= n,
            n == v@.len(),
            trim_front(v@) == v@.subrange(a as int, n as int),
            trim_back(v@.subrange(a as int, n as int)) == trim_back(v@.subrange(a as int, b as int)),
        decreases b,
    {
        proof {
            assert(v@.subrange(a as int, b as int).drop_last()
                =~= v@.subrange(a as int, b as int - 1));
        }
        b -= 1;
    }
    proof {
        if b > a {
            assert(trim_back(v@.subrange(a as int, b as int)) == v@.subrange(a as int, b as int));
        } else {
            assert(v@.subrange(a as int, b as int) =~= Seq::<char>::empty());
        }
        assert(trim_ws(v@) == v@.subrange(a as int, b as int));
    }
    subvec(v, a, b)
}

/// One step of line splitting: `cur` holds the characters of the line being
/// read, `i` the position of the next character.
pub open spec fn split_acc(s: Seq<char>, i: int, cur: Seq<char>) -> Seq<Seq<char>>
    decreases s.len() - i,
{
    if i < 0 || i >= s.len() {
        if cur.len() > 0 {
            seq![cur]
        } else {
            Seq::empty()
        }
    } else if s[i] == '\n' {
        seq![strip_tail_cr(cur)] + split_acc(s, i + 1, Seq::empty())
    } else {
        split_acc(s, i + 1, cur.push(s[i]))
    }
}

/// A carriage return directly before a newline is dropped from the line.
pub open spec fn strip_tail_cr(l: Seq<char>) -> Seq<char> {
    if l.len() > 0 && l.last() == '\r' {
        l.drop_last()
    } else {
        l
    }
}

/// The lines of `s`, as Rust's `str::lines` yields them: pieces split at
/// `'\n'`, with a `'\r'` directly before the `'\n'` dropped, and no empty
/// final piece after a trailing newline.
pub open spec fn split_lines(s: Seq<char>) -> Seq<Seq<char>> {
    split_acc(s, 0, Seq::empty())
}

/// The views of a sequence of character vectors.
pub open spec fn char_views(ls: Seq<Vec<char>>) -> Seq<Seq<char>> {
    ls.map_values(|l: Vec<char>| l@)
}

/// The views of a sequence of strings.
pub open spec fn str_views(ls: Seq<String>) -> Seq<Seq<char>> {
    ls.map_values(|s: String| s@)
}

pub fn split_chars(v: &Vec<char>) -> (r: Vec<Vec<char>>)
    ensures
        char_views(r@) == split_lines(v@),
{
    let mut r: Vec<Vec<char>> = Vec::new();
    let mut cur: Vec<char> = Vec::new();
    let mut i: usize = 0;
    while i < v.len()
        invariant
            i <= v@.len(),
            split_lines(v@) == char_views(r@) + split_acc(v@, i as int, cur@),
        decreases v@.len() - i,
    {
        let c = v[i];
        if c == '\n' {
            let ghost prev = cur@;
            if cur.len() > 0 && cur[cur.len() - 1] == '\r' {
                cur.pop();
            }
            proof {
                assert(cur@ == strip_tail_cr(prev));
            }
            r.push(cur);
            cur = Vec::new();
            proof {
                assert(char_views(r@) =~= char_views(r@.drop_last()) + seq![strip_tail_cr(prev)]);
                assert(char_views(r@.drop_last()) + seq![strip_tail_cr(prev)]
                    + split_acc(v@, i as int + 1, Seq::empty())
                    =~= char_views(r@.drop_last())
                    + (seq![strip_tail_cr(prev)] + split_acc(v@, i as int + 1, Seq::empty())));
            }
        } else {
            cur.push(c);
        }
        i += 1;
    }
    if cur.len() > 0 {
        r.push(cur);
        proof {
            assert(char_views(r@) =~= char_views(r@.drop_last()) + seq![r@.last()@]);
        }
    } else {
        proof {
            assert(char_views(r@) + Seq::<Seq<char>>::empty() =~= char_views(r@));
        }
    }
    r
}

/// A line as a line source yields it: free of newlines, and not ending in
/// a carriage return.
pub open spec fn line_clean(l: Seq<char>) -> bool {
    (forall|j: int| 0 <= j < l.len() ==> l[j] != '\n') && (l.len() == 0 || l.last() != '\r')
}

pub open spec fn lines_clean(ls: Seq<Seq<char>>) -> bool {
    forall|i: int| 0 <= i < ls.len() ==> line_clean(#[trigger] ls[i])
}

proof fn lemma_split_acc_shift(a: Seq<char>, b: Seq<char>, i: int, cur: Seq<char>)
    requires
        0 <= i,
    ensures
        split_acc(a + b, a.len() + i, cur) == split_acc(b, i, cur),
    decreases b.len() - i,
{
    if i >= b.len() {
        assert(a.len() + i >= (a + b).len());
    } else {
        assert((a + b)[a.len() + i] == b[i]);
        if b[i] == '\n' {
            lemma_split_acc_shift(a, b, i + 1, Seq::empty());
        } else {
            lemma_split_acc_shift(a, b, i + 1, cur.push(b[i]));
        }
    }
}

proof fn lemma_split_acc_line(l: Seq<char>, t: Seq<char>, cur: Seq<char>)
    requires
        forall|j: int| 0 <= j < l.len() ==> l[j] != '\n',
    ensures
        split_acc(l + t, 0, cur) == split_acc(t, 0, cur + l),
    decreases l.len(),
{
    if l.len() == 0 {
        assert(l + t =~= t);
        assert(cur + l =~= cur);
    } else {
        assert((l + t)[0] == l[0]);
        assert(l + t =~= seq![l[0]] + (l.drop_first() + t));
        lemma_split_acc_shift(seq![l[0]], l.drop_first() + t, 0, cur.push(l[0]));
        assert(forall|j: int| 0 <= j < l.drop_first().len() ==> l.drop_first()[j] == l[j + 1]);
        lemma_split_acc_line(l.drop_first(), t, cur.push(l[0]));
        assert(cur.push(l[0]) + l.drop_first() =~= cur + l);
    }
}

/// Splitting undoes joining: lines free of newlines and carriage-return
/// endings, the last of them non-empty, come back unchanged from
/// `split_lines` of their joined text.
pub proof fn lemma_split_join(ls: Seq<Seq<char>>)
    requires
        ls.len() > 0,
        lines_clean(ls),
        ls.last().len() > 0,
    ensures
        split_lines(join_lines(ls)) == ls,
    decreases ls.len(),
{
    assert(line_clean(ls[0]));
    if ls.len() == 1 {
        lemma_split_acc_line(ls[0], Seq::empty(), Seq::empty());
        assert(ls[0] + Seq::<char>::empty() =~= ls[0]);
        assert(Seq::<char>::empty() + ls[0] =~= ls[0]);
        assert(ls.last() == ls[0]);
        assert(split_acc(Seq::empty(), 0, ls[0]) == seq![ls[0]]);
        assert(seq![ls[0]] =~= ls);
    } else {
        let rest = ls.drop_first();
        let tail = seq!['\n'] + join_lines(rest);
        assert(join_lines(ls) =~= ls[0] + tail);
        lemma_split_acc_line(ls[0], tail, Seq::empty());
        assert(Seq::<char>::empty() + ls[0] =~= ls[0]);
        assert(tail[0] == '\n');
        assert(strip_tail_cr(ls[0]) == ls[0]);
        lemma_split_acc_shift(seq!['\n'], join_lines(rest), 0, Seq::empty());
        assert(split_acc(tail, 1, Seq::empty()) == split_lines(join_lines(rest)));
        assert(lines_clean(rest)) by {
            assert(forall|i: int| 0 <= i < rest.len() ==> rest[i] == ls[i + 1]);
        }
        assert(rest.last() == ls.last());
        lemma_split_join(rest);
        assert(split_lines(join_lines(ls)) == seq![ls[0]] + rest);
        assert(seq![ls[0]] + rest =~= ls);
    }
}

proof fn lemma_trim_front_len(s: Seq<char>)
    ensures
        trim_front(s).len() <= s.len(),
    decreases s.len(),
{
    if s.len() > 0 && is_ws(s[0]) {
        lemma_trim_front_len(s.drop_first());
    }
}

proof fn lemma_trim_back_len(s: Seq<char>)
    ensures
        trim_back(s).len() <= s.len(),
    decreases s.len(),
{
    if s.len() > 0 && is_ws(s.last()) {
        lemma_trim_back_len(s.drop_last());
    }
}

/// A non-empty text that trimming leaves unchanged neither begins nor ends
/// with whitespace.
pub proof fn lemma_trim_fixed(s: Seq<char>)
    requires
        trim_ws(s) == s,
        s.len() > 0,
    ensures
        !is_ws(s[0]),
        !is_ws(s.last()),
{
    lemma_trim_front_len(s);
    lemma_trim_back_len(trim_front(s));
    if is_ws(s[0]) {
        lemma_trim_front_len(s.drop_first());
        assert(false);
    }
    assert(trim_front(s) == s);
    if is_ws(s.last()) {
        lemma_trim_back_len(s.drop_last());
        assert(false);
    }
}

/// The lines joined with single newline characters between them.
pub open spec fn join_lines(ls: Seq<Seq<char>>) -> Seq<char>
    decreases ls.len(),
{
    if ls.len() == 0 {
        Seq::empty()
    } else if ls.len() == 1 {
        ls[0]
    } else {
        ls[0] + seq!['\n'] + join_lines(ls.drop_first())
    }
}

pub proof fn lemma_join_push(ls: Seq<Seq<char>>, l: Seq<char>)
    ensures
        join_lines(ls.push(l)) == if ls.len() == 0 {
            l
        } else {
            (join_lines(ls) + seq!['\n'] + l)
        },
    decreases ls.len(),
{
    if ls.len() == 0 {
        assert(join_lines(ls.push(l)) == ls.push(l)[0]);
        assert(ls.push(l)[0] == l);
    } else if ls.len() == 1 {
        assert(ls.push(l).drop_first() =~= seq![l]);
        assert(ls.push(l)[0] == ls[0]);
        assert(join_lines(seq![l]) == l);
        assert(join_lines(ls.push(l)) == ls[0] + seq!['\n'] + l);
    } else {
        lemma_join_push(ls.drop_first(), l);
        assert(ls.push(l).drop_first() =~= ls.drop_first().push(l));
        assert(join_lines(ls.push(l))
            == ls[0] + seq!['\n'] + (join_lines(ls.drop_first()) + seq!['\n'] + l));
        assert(ls[0] + seq!['\n'] + (join_lines(ls.drop_first()) + seq!['\n'] + l)
            =~= (ls[0] + seq!['\n'] + join_lines(ls.drop_first())) + seq!['\n'] + l);
    }
}

pub fn join_strings(lines: &Vec<String>) -> (r: String)
    ensures
        r@ == join_lines(str_views(lines@)),
{
    let mut r = String::new();
    let mut i: usize = 0;
    while i < lines.len()
        invariant
            i <= lines@.len(),
            r@ == join_lines(str_views(lines@).take(i as int)),
        decreases lines@.len() - i,
    {
        if i > 0 {
            r.append("\n");
            proof {
                reveal_strlit("\n");
                assert("\n"@ =~= seq!['\n']);
            }
        }
        r.append(lines[i].as_str());
        proof {
            lemma_join_push(str_views(lines@).take(i as int), lines@[i as int]@);
            assert(str_views(lines@).take(i as int).push(lines@[i as int]@)
                =~= str_views(lines@).take(i as int + 1));
        }
        i += 1;
    }
    proof {
        assert(str_views(lines@).take(lines@.len() as int) =~= str_views(lines@));
    }
    r
}

} // verus!
