//! The inline converter: turns the raw Markdown text of one block into HTML.
//!
//! Angle brackets are escaped first, so that a literal `<` or `>` in the
//! source is never read as markup; the escaped text is then scanned left to
//! right. A scan keeps a stack of open spans (code span, italic, bold, link
//! text, link target): each character either extends the innermost open
//! span, opens a nested one, or closes the innermost one, emitting its HTML
//! into the enclosing span. A span still open at the end of the input is
//! unterminated: it degrades to its literal text, opening delimiter
//! included, so that a formatting typo never drops content.

use vstd::prelude::*;

verus! {

// ------------------------------------------------------------------
// Escaping
// ------------------------------------------------------------------

/// What one source character contributes to the escaped text.
pub open spec fn esc_char(c: char) -> Seq<char> {
    if c == '<' {
        seq!['&', 'l', 't', ';']
    } else if c == '>' {
        seq!['&', 'g', 't', ';']
    } else {
        seq![c]
    }
}

/// `s` with `<` and `>` replaced by `&lt;` and `&gt;`.
pub open spec fn escape_seq(s: Seq<char>) -> Seq<char>
    decreases s.len(),
{
    if s.len() == 0 {
        Seq::empty()
    } else {
        esc_char(s[0]) + escape_seq(s.drop_first())
    }
}

pub proof fn lemma_escape_push(s: Seq<char>, c: char)
    ensures
        escape_seq(s.push(c)) == escape_seq(s) + esc_char(c),
    decreases s.len(),
{
    reveal_with_fuel(escape_seq, 3);
    if s.len() == 0 {
        assert(s.push(c).drop_first() =~= Seq::<char>::empty());
        assert(s.push(c)[0] == c);
        assert(esc_char(c) + Seq::<char>::empty() =~= esc_char(c));
        assert(Seq::<char>::empty() + esc_char(c) =~= esc_char(c));
    } else {
        lemma_escape_push(s.drop_first(), c);
        assert(s.push(c).drop_first() =~= s.drop_first().push(c));
        assert(s.push(c)[0] == s[0]);
        assert(esc_char(s[0]) + (escape_seq(s.drop_first()) + esc_char(c))
            =~= (esc_char(s[0]) + escape_seq(s.drop_first())) + esc_char(c));
    }
}

pub fn escape_chars(v: &Vec<char>) -> (r: Vec<char>)
    ensures
        r@ == escape_seq(v@),
{
    let mut r: Vec<char> = Vec::new();
    let mut i: usize = 0;
    proof {
        assert(v@.take(0) =~= Seq::<char>::empty());
    }
    while i < v.len()
        invariant
            i <= v@.len(),
            r@ == escape_seq(v@.take(i as int)),
        decreases v@.len() - i,
    {
        let c = v[i];
        let ghost prev = r@;
        if c == '<' {
            r.push('&');
            r.push('l');
            r.push('t');
            r.push(';');
        } else if c == '>' {
            r.push('&');
            r.push('g');
            r.push('t');
            r.push(';');
        } else {
            r.push(c);
        }
        proof {
            assert(r@ =~= prev + esc_char(v@[i as int]));
            lemma_escape_push(v@.take(i as int), v@[i as int]);
            assert(v@.take(i as int).push(v@[i as int]) =~= v@.take(i as int + 1));
        }
        i += 1;
    }
    proof {
        assert(v@.take(v@.len() as int) =~= v@);
    }
    r
}

/// `s` with `&lt;` and `&gt;` turned back into `<` and `>`, scanning left
/// to right; code spans render their content literally, so the entities the
/// escaping pass put there are undone.
pub open spec fn unescape_seq(s: Seq<char>) -> Seq<char>
    decreases s.len(),
{
    if s.len() == 0 {
        Seq::empty()
    } else if s.len() >= 4 && s[0] == '&' && s[1] == 'l' && s[2] == 't' && s[3] == ';' {
        seq!['<'] + unescape_seq(s.skip(4))
    } else if s.len() >= 4 && s[0] == '&' && s[1] == 'g' && s[2] == 't' && s[3] == ';' {
        seq!['>'] + unescape_seq(s.skip(4))
    } else {
        seq![s[0]] + unescape_seq(s.drop_first())
    }
}

pub fn unescape_chars(v: &Vec<char>) -> (r: Vec<char>)
    ensures
        r@ == unescape_seq(v@),
{
    let mut r: Vec<char> = Vec::new();
    let mut i: usize = 0;
    proof {
        assert(v@.skip(0) =~= v@);
    }
    while i < v.len()
        invariant
            i <= v@.len(),
            unescape_seq(v@) == r@ + unescape_seq(v@.skip(i as int)),
        decreases v@.len() - i,
    {
        let ghost rest = v@.skip(i as int);
        let ghost prev = r@;
        if v.len() - i >= 4 && v[i] == '&' && (v[i + 1] == 'l' || v[i + 1] == 'g')
            && v[i + 2] == 't' && v[i + 3] == ';' {
            if v[i + 1] == 'l' {
                r.push('<');
            } else {
                r.push('>');
            }
            proof {
                assert(rest.len() >= 4 && rest[0] == '&' && rest[2] == 't' && rest[3] == ';');
                assert(rest.skip(4) =~= v@.skip(i as int + 4));
                assert(unescape_seq(rest) == seq![r@.last()] + unescape_seq(v@.skip(i as int + 4)));
                assert(prev + unescape_seq(rest)
                    =~= r@ + unescape_seq(v@.skip(i as int + 4)));
            }
            i += 4;
        } else {
            r.push(v[i]);
            proof {
                assert(rest.len() >= 1 && rest[0] == v@[i as int]);
                if rest.len() >= 4 && rest[0] == '&' && rest[2] == 't' && rest[3] == ';' {
                    assert(rest[1] != 'l' && rest[1] != 'g');
                }
                assert(rest.drop_first() =~= v@.skip(i as int + 1));
                assert(unescape_seq(rest) == seq![rest[0]] + unescape_seq(v@.skip(i as int + 1)));
                assert(prev + unescape_seq(rest)
                    =~= r@ + unescape_seq(v@.skip(i as int + 1)));
            }
            i += 1;
        }
    }
    proof {
        assert(v@.skip(v@.len() as int) =~= Seq::<char>::empty());
    }
    r
}

// ------------------------------------------------------------------
// The scan state: a stack of open spans
// ------------------------------------------------------------------

/// An open span during the scan, with the converted HTML gathered so far
/// for its contents. `LinkAfter` is a link whose `]` was just read and that
/// now expects `(`; `LinkHref` is reading the target after `](`.
pub enum SpecSpan {
    Code { content: Seq<char> },
    Italic { body: Seq<char> },
    Bold { body: Seq<char> },
    LinkText { body: Seq<char> },
    LinkAfter { text: Seq<char> },
    LinkHref { text: Seq<char>, href: Seq<char> },
}

/// The whole state of a scan: the open spans, innermost last, and the HTML
/// already emitted at the top level.
pub struct Scan {
    pub stack: Seq<SpecSpan>,
    pub out: Seq<char>,
}

pub open spec fn init_scan() -> Scan {
    Scan { stack: Seq::empty(), out: Seq::empty() }
}

pub open spec fn tag_code_open() -> Seq<char> {
    seq!['<', 'c', 'o', 'd', 'e', '>']
}

pub open spec fn tag_code_close() -> Seq<char> {
    seq!['<', '/', 'c', 'o', 'd', 'e', '>']
}

pub open spec fn tag_i_open() -> Seq<char> {
    seq!['<', 'i', '>']
}

pub open spec fn tag_i_close() -> Seq<char> {
    seq!['<', '/', 'i', '>']
}

pub open spec fn tag_b_open() -> Seq<char> {
    seq!['<', 'b', '>']
}

pub open spec fn tag_b_close() -> Seq<char> {
    seq!['<', '/', 'b', '>']
}

pub open spec fn tag_a_open() -> Seq<char> {
    seq!['<', 'a', ' ', 'h', 'r', 'e', 'f', '=', '"']
}

pub open spec fn tag_a_mid() -> Seq<char> {
    seq!['"', '>']
}

pub open spec fn tag_a_close() -> Seq<char> {
    seq!['<', '/', 'a', '>']
}

/// `<code>…</code>`, with the escaping pass undone inside.
pub open spec fn code_html(content: Seq<char>) -> Seq<char> {
    tag_code_open() + unescape_seq(content) + tag_code_close()
}

/// `<i>…</i>`.
pub open spec fn italic_html(body: Seq<char>) -> Seq<char> {
    tag_i_open() + body + tag_i_close()
}

/// `<b>…</b>`.
pub open spec fn bold_html(body: Seq<char>) -> Seq<char> {
    tag_b_open() + body + tag_b_close()
}

/// `<a href="…">…</a>`.
pub open spec fn link_html(text: Seq<char>, href: Seq<char>) -> Seq<char> {
    tag_a_open() + href + tag_a_mid() + text + tag_a_close()
}

/// The literal text an unterminated span degrades to, opening delimiter
/// included.
pub open spec fn unwind_span(f: SpecSpan) -> Seq<char> {
    match f {
        SpecSpan::Code { content } => seq!['`'] + content,
        SpecSpan::Italic { body } => seq!['_'] + body,
        SpecSpan::Bold { body } => seq!['*'] + body,
        SpecSpan::LinkText { body } => seq!['['] + body,
        SpecSpan::LinkAfter { text } => seq!['['] + text + seq![']'],
        SpecSpan::LinkHref { text, href } => seq!['['] + text + seq![']', '('] + href,
    }
}

/// The span with `s` appended to the text it is gathering.
pub open spec fn span_append(f: SpecSpan, s: Seq<char>) -> SpecSpan {
    match f {
        SpecSpan::Code { content } => SpecSpan::Code { content: content + s },
        SpecSpan::Italic { body } => SpecSpan::Italic { body: body + s },
        SpecSpan::Bold { body } => SpecSpan::Bold { body: body + s },
        SpecSpan::LinkText { body } => SpecSpan::LinkText { body: body + s },
        SpecSpan::LinkAfter { text } => SpecSpan::LinkAfter { text: text + s },
        SpecSpan::LinkHref { text, href } => SpecSpan::LinkHref { text, href: href + s },
    }
}

/// `s` handed to the innermost open span, or to the top-level output when
/// no span is open.
pub open spec fn emit(st: Scan, s: Seq<char>) -> Scan {
    if st.stack.len() == 0 {
        Scan { stack: st.stack, out: st.out + s }
    } else {
        Scan {
            stack: st.stack.update(st.stack.len() - 1, span_append(st.stack.last(), s)),
            out: st.out,
        }
    }
}

pub open spec fn push_span(st: Scan, f: SpecSpan) -> Scan {
    Scan { stack: st.stack.push(f), out: st.out }
}

/// The innermost span closed: popped, and `s` emitted into what encloses it.
pub open spec fn pop_emit(st: Scan, s: Seq<char>) -> Scan {
    emit(Scan { stack: st.stack.drop_last(), out: st.out }, s)
}

pub open spec fn set_top(st: Scan, f: SpecSpan) -> Scan {
    Scan { stack: st.stack.update(st.stack.len() - 1, f), out: st.out }
}

/// One character of the scan. Dispatch depends on the innermost open span:
/// a code span is opaque (only a closing backtick ends it); italic and bold
/// nest each other and links; link text nests code, italic and bold; after
/// `]` only an immediate `(` carries the link on, any other character gives
/// the link up as literal text and is itself dropped; a link target runs to
/// the first `)`.
pub open spec fn step(st: Scan, c: char) -> Scan {
    if st.stack.len() == 0 {
        if c == '`' {
            push_span(st, SpecSpan::Code { content: Seq::empty() })
        } else if c == '_' {
            push_span(st, SpecSpan::Italic { body: Seq::empty() })
        } else if c == '*' {
            push_span(st, SpecSpan::Bold { body: Seq::empty() })
        } else if c == '[' {
            push_span(st, SpecSpan::LinkText { body: Seq::empty() })
        } else {
            emit(st, seq![c])
        }
    } else {
        match st.stack.last() {
            SpecSpan::Code { content } => {
                if c == '`' {
                    pop_emit(st, code_html(content))
                } else {
                    emit(st, seq![c])
                }
            },
            SpecSpan::Italic { body } => {
                if c == '_' {
                    pop_emit(st, italic_html(body))
                } else if c == '*' {
                    push_span(st, SpecSpan::Bold { body: Seq::empty() })
                } else if c == '[' {
                    push_span(st, SpecSpan::LinkText { body: Seq::empty() })
                } else {
                    emit(st, seq![c])
                }
            },
            SpecSpan::Bold { body } => {
                if c == '*' {
                    pop_emit(st, bold_html(body))
                } else if c == '_' {
                    push_span(st, SpecSpan::Italic { body: Seq::empty() })
                } else if c == '[' {
                    push_span(st, SpecSpan::LinkText { body: Seq::empty() })
                } else {
                    emit(st, seq![c])
                }
            },
            SpecSpan::LinkText { body } => {
                if c == ']' {
                    set_top(st, SpecSpan::LinkAfter { text: body })
                } else if c == '`' {
                    push_span(st, SpecSpan::Code { content: Seq::empty() })
                } else if c == '_' {
                    push_span(st, SpecSpan::Italic { body: Seq::empty() })
                } else if c == '*' {
                    push_span(st, SpecSpan::Bold { body: Seq::empty() })
                } else {
                    emit(st, seq![c])
                }
            },
            SpecSpan::LinkAfter { text } => {
                if c == '(' {
                    set_top(st, SpecSpan::LinkHref { text, href: Seq::empty() })
                } else {
                    pop_emit(st, seq!['['] + text + seq![']'])
                }
            },
            SpecSpan::LinkHref { text, href } => {
                if c == ')' {
                    pop_emit(st, link_html(text, href))
                } else {
                    emit(st, seq![c])
                }
            },
        }
    }
}

/// The scan state after reading all of `s`.
pub open spec fn run(st: Scan, s: Seq<char>) -> Scan
    decreases s.len(),
{
    if s.len() == 0 {
        st
    } else {
        run(step(st, s[0]), s.drop_first())
    }
}

pub proof fn lemma_run_push(st: Scan, s: Seq<char>, c: char)
    ensures
        run(st, s.push(c)) == step(run(st, s), c),
    decreases s.len(),
{
    reveal_with_fuel(run, 3);
    if s.len() == 0 {
        assert(s.push(c).drop_first() =~= Seq::<char>::empty());
        assert(s.push(c)[0] == c);
    } else {
        assert(s.push(c)[0] == s[0]);
        assert(s.push(c).drop_first() =~= s.drop_first().push(c));
        lemma_run_push(step(st, s[0]), s.drop_first(), c);
        assert(run(st, s.push(c)) == run(step(st, s[0]), s.drop_first().push(c)));
        assert(run(st, s) == run(step(st, s[0]), s.drop_first()));
    }
}

/// End of input: spans still open unwind, innermost first, each one's
/// literal text handed to the span that encloses it.
pub open spec fn finish(st: Scan) -> Seq<char>
    decreases st.stack.len(),
{
    if st.stack.len() == 0 {
        st.out
    } else {
        finish(pop_emit(st, unwind_span(st.stack.last())))
    }
}

/// The HTML of one block's raw text: angle brackets escaped, then inline
/// markup (code spans, italic, bold, links) read left to right, with every
/// unterminated delimiter degrading to literal text.
pub open spec fn text_spec(s: Seq<char>) -> Seq<char> {
    finish(run(init_scan(), escape_seq(s)))
}

// ------------------------------------------------------------------
// Laws of the inline conversion
// ------------------------------------------------------------------

/// The characters that can open or close an inline span.
pub open spec fn is_delim(c: char) -> bool {
    c == '`' || c == '_' || c == '*' || c == '['
}

/// Text free of inline delimiters.
pub open spec fn has_no_delims(s: Seq<char>) -> bool {
    forall|i: int| 0 <= i < s.len() ==> !is_delim(#[trigger] s[i])
}

pub proof fn lemma_escape_append(a: Seq<char>, b: Seq<char>)
    ensures
        escape_seq(a + b) == escape_seq(a) + escape_seq(b),
    decreases a.len(),
{
    if a.len() == 0 {
        assert(a + b =~= b);
        assert(Seq::<char>::empty() + escape_seq(b) =~= escape_seq(b));
    } else {
        lemma_escape_append(a.drop_first(), b);
        assert((a + b).drop_first() =~= a.drop_first() + b);
        assert((a + b)[0] == a[0]);
        assert(esc_char(a[0]) + (escape_seq(a.drop_first()) + escape_seq(b))
            =~= (esc_char(a[0]) + escape_seq(a.drop_first())) + escape_seq(b));
    }
}

/// Escaping is idempotent: text that has been escaped once, entities such
/// as `&lt;` included, passes through a second escaping pass unchanged, so
/// conversion never double-escapes what the single pass before the scan
/// produced.
proof fn lemma_escape_esc_char(c: char)
    ensures
        escape_seq(esc_char(c)) == esc_char(c),
{
    reveal_with_fuel(escape_seq, 6);
    if c == '<' || c == '>' {
        let e = esc_char(c);
        assert(e.len() == 4);
        assert(e.drop_first() =~= e.subrange(1, 4));
        assert(e.drop_first().drop_first() =~= e.subrange(2, 4));
        assert(e.drop_first().drop_first().drop_first() =~= e.subrange(3, 4));
        assert(e.drop_first().drop_first().drop_first().drop_first() =~= Seq::<char>::empty());
        assert(escape_seq(e) =~= e);
    } else {
        assert(esc_char(c) =~= seq![c]);
        assert(seq![c].drop_first() =~= Seq::<char>::empty());
        assert(escape_seq(seq![c]) =~= seq![c]);
    }
}

/// Escaping is idempotent: text that has been escaped once, entities such
/// as `&lt;` included, passes through a second escaping pass unchanged, so
/// conversion never double-escapes what the single pass before the scan
/// produced.
pub proof fn lemma_escape_idempotent(s: Seq<char>)
    ensures
        escape_seq(escape_seq(s)) == escape_seq(s),
    decreases s.len(),
{
    if s.len() == 0 {
    } else {
        lemma_escape_idempotent(s.drop_first());
        lemma_escape_append(esc_char(s[0]), escape_seq(s.drop_first()));
        lemma_escape_esc_char(s[0]);
    }
}

proof fn lemma_escape_no_delims(s: Seq<char>)
    requires
        has_no_delims(s),
    ensures
        has_no_delims(escape_seq(s)),
    decreases s.len(),
{
    if s.len() > 0 {
        assert(has_no_delims(s.drop_first())) by {
            assert(forall|i: int| 0 <= i < s.drop_first().len()
                ==> s.drop_first()[i] == s[i + 1]);
        }
        lemma_escape_no_delims(s.drop_first());
        let e = esc_char(s[0]);
        assert(has_no_delims(e)) by {
            if s[0] == '<' || s[0] == '>' {
                assert(e[0] == '&' && e[1] == 'l' || e[1] == 'g');
                assert(forall|i: int| 0 <= i < e.len() ==> !is_delim(#[trigger] e[i]));
            } else {
                assert(e =~= seq![s[0]]);
            }
        }
        assert(forall|i: int| 0 <= i < escape_seq(s).len()
            ==> !is_delim(#[trigger] escape_seq(s)[i])) by {
            assert(escape_seq(s) == e + escape_seq(s.drop_first()));
            assert(forall|i: int| 0 <= i < e.len()
                ==> (e + escape_seq(s.drop_first()))[i] == e[i]);
            assert(forall|i: int| e.len() <= i < escape_seq(s).len()
                ==> (e + escape_seq(s.drop_first()))[i] == escape_seq(s.drop_first())[i - e.len()]);
        }
    }
}

proof fn lemma_run_copies_plain(out: Seq<char>, t: Seq<char>)
    requires
        has_no_delims(t),
    ensures
        run((Scan { stack: Seq::empty(), out: out }), t)
            == (Scan { stack: Seq::empty(), out: out + t }),
    decreases t.len(),
{
    let st = Scan { stack: Seq::<SpecSpan>::empty(), out: out };
    if t.len() == 0 {
        assert(out + t =~= out);
    } else {
        assert(!is_delim(t[0]));
        assert(out + seq![t[0]] =~= out.push(t[0]));
        assert(step(st, t[0]) == Scan { stack: Seq::<SpecSpan>::empty(), out: out.push(t[0]) });
        assert(has_no_delims(t.drop_first())) by {
            assert(forall|i: int| 0 <= i < t.drop_first().len()
                ==> t.drop_first()[i] == t[i + 1]);
        }
        lemma_run_copies_plain(out.push(t[0]), t.drop_first());
        assert(out.push(t[0]) + t.drop_first() =~= out + t);
    }
}

/// Text with no inline delimiters converts to itself, with only `<` and
/// `>` escaped and every other character unchanged.
pub proof fn lemma_text_plain(s: Seq<char>)
    requires
        has_no_delims(s),
    ensures
        text_spec(s) == escape_seq(s),
{
    lemma_escape_no_delims(s);
    lemma_run_copies_plain(Seq::empty(), escape_seq(s));
    assert(Seq::<char>::empty() + escape_seq(s) =~= escape_seq(s));
    assert(finish(Scan { stack: Seq::empty(), out: escape_seq(s) }) == escape_seq(s));
}

proof fn lemma_run_append(st: Scan, a: Seq<char>, b: Seq<char>)
    ensures
        run(st, a + b) == run(run(st, a), b),
    decreases a.len(),
{
    if a.len() == 0 {
        assert(a + b =~= b);
    } else {
        assert((a + b)[0] == a[0]);
        assert((a + b).drop_first() =~= a.drop_first() + b);
        lemma_run_append(step(st, a[0]), a.drop_first(), b);
    }
}

proof fn lemma_run_in_bold(out: Seq<char>, body: Seq<char>, t: Seq<char>)
    requires
        has_no_delims(t),
    ensures
        run((Scan { stack: seq![SpecSpan::Bold { body: body }], out: out }), t)
            == (Scan { stack: seq![SpecSpan::Bold { body: body + t }], out: out }),
    decreases t.len(),
{
    if t.len() == 0 {
        assert(body + t =~= body);
        assert(seq![SpecSpan::Bold { body: body + t }] =~= seq![SpecSpan::Bold { body: body }]);
    } else {
        let st = Scan { stack: seq![SpecSpan::Bold { body: body }], out: out };
        assert(!is_delim(t[0]));
        assert(step(st, t[0]).stack
            =~= seq![SpecSpan::Bold { body: body + seq![t[0]] }]);
        assert(has_no_delims(t.drop_first())) by {
            assert(forall|i: int| 0 <= i < t.drop_first().len()
                ==> t.drop_first()[i] == t[i + 1]);
        }
        lemma_run_in_bold(out, body + seq![t[0]], t.drop_first());
        assert((body + seq![t[0]]) + t.drop_first() =~= body + t);
    }
}

proof fn lemma_run_in_italic(out: Seq<char>, body: Seq<char>, t: Seq<char>)
    requires
        has_no_delims(t),
    ensures
        run((Scan { stack: seq![SpecSpan::Italic { body: body }], out: out }), t)
            == (Scan { stack: seq![SpecSpan::Italic { body: body + t }], out: out }),
    decreases t.len(),
{
    if t.len() == 0 {
        assert(body + t =~= body);
        assert(seq![SpecSpan::Italic { body: body + t }]
            =~= seq![SpecSpan::Italic { body: body }]);
    } else {
        let st = Scan { stack: seq![SpecSpan::Italic { body: body }], out: out };
        assert(!is_delim(t[0]));
        assert(step(st, t[0]).stack
            =~= seq![SpecSpan::Italic { body: body + seq![t[0]] }]);
        assert(has_no_delims(t.drop_first())) by {
            assert(forall|i: int| 0 <= i < t.drop_first().len()
                ==> t.drop_first()[i] == t[i + 1]);
        }
        lemma_run_in_italic(out, body + seq![t[0]], t.drop_first());
        assert((body + seq![t[0]]) + t.drop_first() =~= body + t);
    }
}

/// Bold round trip: for any text with no inline delimiters, the text
/// between one opening and one closing asterisk converts to exactly
/// `<b>…</b>` around the escaped text.
pub proof fn lemma_bold_round_trip(t: Seq<char>)
    requires
        has_no_delims(t),
    ensures
        text_spec(seq!['*'] + t + seq!['*']) == bold_html(escape_seq(t)),
{
    reveal_with_fuel(run, 2);
    let s = seq!['*'] + t + seq!['*'];
    lemma_escape_append(seq!['*'] + t, seq!['*']);
    lemma_escape_append(seq!['*'], t);
    lemma_escape_esc_char('*');
    assert(esc_char('*') == seq!['*']);
    assert(escape_seq(s) == (seq!['*'] + escape_seq(t)) + seq!['*']);
    lemma_escape_no_delims(t);
    let st1 = step(init_scan(), '*');
    assert(st1.stack =~= seq![SpecSpan::Bold { body: Seq::<char>::empty() }]);
    assert(run(init_scan(), seq!['*']) == st1) by {
        assert(seq!['*'].drop_first() =~= Seq::<char>::empty());
    }
    lemma_run_append(init_scan(), seq!['*'], escape_seq(t));
    lemma_run_in_bold(Seq::empty(), Seq::empty(), escape_seq(t));
    assert(Seq::<char>::empty() + escape_seq(t) =~= escape_seq(t));
    let st2 = Scan { stack: seq![SpecSpan::Bold { body: escape_seq(t) }], out: Seq::empty() };
    assert(run(init_scan(), seq!['*'] + escape_seq(t)) == st2);
    lemma_run_append(init_scan(), seq!['*'] + escape_seq(t), seq!['*']);
    assert(run(st2, seq!['*']) == step(st2, '*')) by {
        assert(seq!['*'].drop_first() =~= Seq::<char>::empty());
    }
    let st3 = step(st2, '*');
    assert(st3.stack =~= Seq::<SpecSpan>::empty());
    assert(st3.out =~= bold_html(escape_seq(t)));
    assert(run(init_scan(), escape_seq(s)) == st3);
    assert(finish(st3) == st3.out);
}

/// Italic round trip: for any text with no inline delimiters, the text
/// between one opening and one closing underscore converts to exactly
/// `<i>…</i>` around the escaped text.
pub proof fn lemma_italic_round_trip(t: Seq<char>)
    requires
        has_no_delims(t),
    ensures
        text_spec(seq!['_'] + t + seq!['_']) == italic_html(escape_seq(t)),
{
    reveal_with_fuel(run, 2);
    let s = seq!['_'] + t + seq!['_'];
    lemma_escape_append(seq!['_'] + t, seq!['_']);
    lemma_escape_append(seq!['_'], t);
    lemma_escape_esc_char('_');
    assert(esc_char('_') == seq!['_']);
    assert(escape_seq(s) == (seq!['_'] + escape_seq(t)) + seq!['_']);
    lemma_escape_no_delims(t);
    let st1 = step(init_scan(), '_');
    assert(st1.stack =~= seq![SpecSpan::Italic { body: Seq::<char>::empty() }]);
    assert(run(init_scan(), seq!['_']) == st1) by {
        assert(seq!['_'].drop_first() =~= Seq::<char>::empty());
    }
    lemma_run_append(init_scan(), seq!['_'], escape_seq(t));
    lemma_run_in_italic(Seq::empty(), Seq::empty(), escape_seq(t));
    assert(Seq::<char>::empty() + escape_seq(t) =~= escape_seq(t));
    let st2 = Scan { stack: seq![SpecSpan::Italic { body: escape_seq(t) }], out: Seq::empty() };
    assert(run(init_scan(), seq!['_'] + escape_seq(t)) == st2);
    lemma_run_append(init_scan(), seq!['_'] + escape_seq(t), seq!['_']);
    assert(run(st2, seq!['_']) == step(st2, '_')) by {
        assert(seq!['_'].drop_first() =~= Seq::<char>::empty());
    }
    let st3 = step(st2, '_');
    assert(st3.stack =~= Seq::<SpecSpan>::empty());
    assert(st3.out =~= italic_html(escape_seq(t)));
    assert(run(init_scan(), escape_seq(s)) == st3);
    assert(finish(st3) == st3.out);
}

/// Unterminated delimiter passthrough: an opening asterisk never closed
/// degrades to the literal text, asterisk included, with only the escaping
/// applied.
pub proof fn lemma_bold_unterminated(t: Seq<char>)
    requires
        has_no_delims(t),
    ensures
        text_spec(seq!['*'] + t) == seq!['*'] + escape_seq(t),
{
    reveal_with_fuel(run, 2);
    reveal_with_fuel(finish, 3);
    let s = seq!['*'] + t;
    lemma_escape_append(seq!['*'], t);
    lemma_escape_esc_char('*');
    assert(esc_char('*') == seq!['*']);
    assert(escape_seq(s) == seq!['*'] + escape_seq(t));
    lemma_escape_no_delims(t);
    let st1 = step(init_scan(), '*');
    assert(st1.stack =~= seq![SpecSpan::Bold { body: Seq::<char>::empty() }]);
    assert(run(init_scan(), seq!['*']) == st1) by {
        assert(seq!['*'].drop_first() =~= Seq::<char>::empty());
    }
    lemma_run_append(init_scan(), seq!['*'], escape_seq(t));
    lemma_run_in_bold(Seq::empty(), Seq::empty(), escape_seq(t));
    assert(Seq::<char>::empty() + escape_seq(t) =~= escape_seq(t));
    let st2 = Scan { stack: seq![SpecSpan::Bold { body: escape_seq(t) }], out: Seq::empty() };
    assert(run(init_scan(), escape_seq(s)) == st2);
    let st3 = pop_emit(st2, unwind_span(st2.stack.last()));
    assert(st3.stack =~= Seq::<SpecSpan>::empty());
    assert(st3.out =~= seq!['*'] + escape_seq(t));
    assert(finish(st2) == finish(st3));
    assert(finish(st3) == st3.out);
}

// ------------------------------------------------------------------
// The executable scan
// ------------------------------------------------------------------

/// Executable counterpart of `SpecSpan`.
pub enum Span {
    Code { content: Vec<char> },
    Italic { body: Vec<char> },
    Bold { body: Vec<char> },
    LinkText { body: Vec<char> },
    LinkAfter { text: Vec<char> },
    LinkHref { text: Vec<char>, href: Vec<char> },
}

impl View for Span {
    type V = SpecSpan;

    open spec fn view(&self) -> SpecSpan {
        match self {
            Span::Code { content } => SpecSpan::Code { content: content@ },
            Span::Italic { body } => SpecSpan::Italic { body: body@ },
            Span::Bold { body } => SpecSpan::Bold { body: body@ },
            Span::LinkText { body } => SpecSpan::LinkText { body: body@ },
            Span::LinkAfter { text } => SpecSpan::LinkAfter { text: text@ },
            Span::LinkHref { text, href } => SpecSpan::LinkHref { text: text@, href: href@ },
        }
    }
}

/// The abstract scan state that a stack and an output buffer stand for.
pub open spec fn abs_scan(stack: Seq<Span>, out: Seq<char>) -> Scan {
    Scan { stack: stack.map_values(|f: Span| f@), out: out }
}

pub fn append_chars(dst: &mut Vec<char>, src: &Vec<char>)
    ensures
        final(dst)@ == old(dst)@ + src@,
{
    let mut i: usize = 0;
    proof {
        assert(old(dst)@ + src@.take(0) =~= old(dst)@);
    }
    while i < src.len()
        invariant
            i <= src@.len(),
            dst@ == old(dst)@ + src@.take(i as int),
        decreases src@.len() - i,
    {
        dst.push(src[i]);
        proof {
            assert((old(dst)@ + src@.take(i as int)).push(src@[i as int])
                =~= old(dst)@ + src@.take(i as int + 1));
        }
        i += 1;
    }
    proof {
        assert(old(dst)@ + src@.take(src@.len() as int) =~= old(dst)@ + src@);
    }
}

fn span_append_exec(f: Span, s: &Vec<char>) -> (r: Span)
    ensures
        r@ == span_append(f@, s@),
{
    match f {
        Span::Code { content } => {
            let mut content = content;
            append_chars(&mut content, s);
            Span::Code { content }
        },
        Span::Italic { body } => {
            let mut body = body;
            append_chars(&mut body, s);
            Span::Italic { body }
        },
        Span::Bold { body } => {
            let mut body = body;
            append_chars(&mut body, s);
            Span::Bold { body }
        },
        Span::LinkText { body } => {
            let mut body = body;
            append_chars(&mut body, s);
            Span::LinkText { body }
        },
        Span::LinkAfter { text } => {
            let mut text = text;
            append_chars(&mut text, s);
            Span::LinkAfter { text }
        },
        Span::LinkHref { text, href } => {
            let mut href = href;
            append_chars(&mut href, s);
            Span::LinkHref { text, href }
        },
    }
}

fn tag_code_open_chars() -> (r: Vec<char>)
    ensures
        r@ == tag_code_open(),
{
    let mut r: Vec<char> = Vec::new();
    r.push('<');
    r.push('c');
    r.push('o');
    r.push('d');
    r.push('e');
    r.push('>');
    proof {
        assert(r@ =~= tag_code_open());
    }
    r
}

fn tag_code_close_chars() -> (r: Vec<char>)
    ensures
        r@ == tag_code_close(),
{
    let mut r: Vec<char> = Vec::new();
    r.push('<');
    r.push('/');
    r.push('c');
    r.push('o');
    r.push('d');
    r.push('e');
    r.push('>');
    proof {
        assert(r@ =~= tag_code_close());
    }
    r
}

/// `<code>…</code>` for a closed code span.
fn code_html_chars(content: &Vec<char>) -> (r: Vec<char>)
    ensures
        r@ == code_html(content@),
{
    let mut r = tag_code_open_chars();
    let u = unescape_chars(content);
    append_chars(&mut r, &u);
    let close = tag_code_close_chars();
    append_chars(&mut r, &close);
    r
}

/// `<i>…</i>` for a closed italic span.
fn italic_html_chars(body: &Vec<char>) -> (r: Vec<char>)
    ensures
        r@ == italic_html(body@),
{
    let mut r: Vec<char> = Vec::new();
    r.push('<');
    r.push('i');
    r.push('>');
    proof {
        assert(r@ =~= tag_i_open());
    }
    append_chars(&mut r, body);
    let mut close: Vec<char> = Vec::new();
    close.push('<');
    close.push('/');
    close.push('i');
    close.push('>');
    proof {
        assert(close@ =~= tag_i_close());
    }
    append_chars(&mut r, &close);
    r
}

/// `<b>…</b>` for a closed bold span.
fn bold_html_chars(body: &Vec<char>) -> (r: Vec<char>)
    ensures
        r@ == bold_html(body@),
{
    let mut r: Vec<char> = Vec::new();
    r.push('<');
    r.push('b');
    r.push('>');
    proof {
        assert(r@ =~= tag_b_open());
    }
    append_chars(&mut r, body);
    let mut close: Vec<char> = Vec::new();
    close.push('<');
    close.push('/');
    close.push('b');
    close.push('>');
    proof {
        assert(close@ =~= tag_b_close());
    }
    append_chars(&mut r, &close);
    r
}

/// `<a href="…">…</a>` for a closed link.
fn link_html_chars(text: &Vec<char>, href: &Vec<char>) -> (r: Vec<char>)
    ensures
        r@ == link_html(text@, href@),
{
    let mut r: Vec<char> = Vec::new();
    r.push('<');
    r.push('a');
    r.push(' ');
    r.push('h');
    r.push('r');
    r.push('e');
    r.push('f');
    r.push('=');
    r.push('"');
    proof {
        assert(r@ =~= tag_a_open());
    }
    append_chars(&mut r, href);
    let ghost mid_start = r@;
    r.push('"');
    r.push('>');
    proof {
        assert(r@ =~= mid_start + tag_a_mid());
        assert(r@ =~= (tag_a_open() + href@) + tag_a_mid());
    }
    append_chars(&mut r, text);
    let mut close: Vec<char> = Vec::new();
    close.push('<');
    close.push('/');
    close.push('a');
    close.push('>');
    proof {
        assert(close@ =~= tag_a_close());
    }
    append_chars(&mut r, &close);
    r
}

/// `[text]` for a link given up after its `]`.
fn bracketed_chars(text: &Vec<char>) -> (r: Vec<char>)
    ensures
        r@ == seq!['['] + text@ + seq![']'],
{
    let mut r: Vec<char> = Vec::new();
    r.push('[');
    proof {
        assert(r@ =~= seq!['[']);
    }
    append_chars(&mut r, text);
    let ghost before = r@;
    r.push(']');
    proof {
        assert(r@ =~= before + seq![']']);
    }
    r
}

/// The literal text an unterminated span degrades to.
fn unwind_span_chars(f: Span) -> (r: Vec<char>)
    ensures
        r@ == unwind_span(f@),
{
    match f {
        Span::Code { content } => {
            let mut r: Vec<char> = Vec::new();
            r.push('`');
            proof {
                assert(r@ =~= seq!['`']);
            }
            append_chars(&mut r, &content);
            r
        },
        Span::Italic { body } => {
            let mut r: Vec<char> = Vec::new();
            r.push('_');
            proof {
                assert(r@ =~= seq!['_']);
            }
            append_chars(&mut r, &body);
            r
        },
        Span::Bold { body } => {
            let mut r: Vec<char> = Vec::new();
            r.push('*');
            proof {
                assert(r@ =~= seq!['*']);
            }
            append_chars(&mut r, &body);
            r
        },
        Span::LinkText { body } => {
            let mut r: Vec<char> = Vec::new();
            r.push('[');
            proof {
                assert(r@ =~= seq!['[']);
            }
            append_chars(&mut r, &body);
            r
        },
        Span::LinkAfter { text } => {
            bracketed_chars(&text)
        },
        Span::LinkHref { text, href } => {
            let mut r = bracketed_chars(&text);
            r.push('(');
            proof {
                assert(r@ =~= (seq!['['] + text@) + seq![']', '(']);
            }
            append_chars(&mut r, &href);
            r
        },
    }
}

fn emit_chars(stack: &mut Vec<Span>, out: &mut Vec<char>, s: &Vec<char>)
    ensures
        abs_scan(final(stack)@, final(out)@) == emit(abs_scan(old(stack)@, old(out)@), s@),
{
    if stack.len() == 0 {
        append_chars(out, s);
    } else {
        let f = stack.pop().unwrap();
        let f2 = span_append_exec(f, s);
        stack.push(f2);
        proof {
            let prev = old(stack)@;
            assert(stack@ =~= prev.update(prev.len() - 1, stack@.last()));
            assert(stack@.map_values(|f: Span| f@)
                =~= prev.map_values(|f: Span| f@)
                    .update(prev.len() - 1, span_append(prev.last()@, s@)));
        }
    }
}

/// A single character pushed as its own vector, for `emit_chars`.
fn single_char(c: char) -> (r: Vec<char>)
    ensures
        r@ == seq![c],
{
    let mut r: Vec<char> = Vec::new();
    r.push(c);
    proof {
        assert(r@ =~= seq![c]);
    }
    r
}

/// One character of the executable scan; mirrors `step`.
fn step_scan(stack: &mut Vec<Span>, out: &mut Vec<char>, c: char)
    ensures
        abs_scan(final(stack)@, final(out)@) == step(abs_scan(old(stack)@, old(out)@), c),
{
    proof {
        assert(old(stack)@.map_values(|f: Span| f@).len() == old(stack)@.len());
    }
    if stack.len() == 0 {
        if c == '`' {
            stack.push(Span::Code { content: Vec::new() });
        } else if c == '_' {
            stack.push(Span::Italic { body: Vec::new() });
        } else if c == '*' {
            stack.push(Span::Bold { body: Vec::new() });
        } else if c == '[' {
            stack.push(Span::LinkText { body: Vec::new() });
        } else {
            let s = single_char(c);
            append_chars(out, &s);
            proof {
                assert(out@ =~= old(out)@.push(c));
            }
        }
        proof {
            if c == '`' || c == '_' || c == '*' || c == '[' {
                assert(stack@ =~= old(stack)@.push(stack@.last()));
                assert(stack@.map_values(|f: Span| f@)
                    =~= old(stack)@.map_values(|f: Span| f@).push(stack@.last()@));
            }
        }
    } else {
        let ghost prev = old(stack)@;
        let ghost prev_abs = abs_scan(old(stack)@, old(out)@);
        proof {
            assert(prev.map_values(|f: Span| f@).last() == prev.last()@);
        }
        let f = stack.pop().unwrap();
        proof {
            assert(stack@ =~= prev.drop_last());
            assert(stack@.map_values(|f: Span| f@)
                =~= prev.map_values(|f: Span| f@).drop_last());
        }
        match f {
            Span::Code { content } => {
                if c == '`' {
                    let h = code_html_chars(&content);
                    emit_chars(stack, out, &h);
                } else {
                    let mut content = content;
                    let ghost c0 = content@;
                    content.push(c);
                    stack.push(Span::Code { content });
                    proof {
                        assert(c0 + seq![c] =~= content@);
                        assert(stack@ =~= prev.update(prev.len() - 1, stack@.last()));
                        assert(stack@.map_values(|f: Span| f@)
                            =~= prev.map_values(|f: Span| f@)
                                .update(prev.len() - 1, span_append(prev.last()@, seq![c])));
                    }
                }
            },
            Span::Italic { body } => {
                if c == '_' {
                    let h = italic_html_chars(&body);
                    emit_chars(stack, out, &h);
                } else if c == '*' {
                    stack.push(Span::Italic { body });
                    stack.push(Span::Bold { body: Vec::new() });
                    proof {
                        assert(stack@ =~= prev.push(stack@.last()));
                        assert(stack@.map_values(|f: Span| f@)
                            =~= prev.map_values(|f: Span| f@).push(stack@.last()@));
                    }
                } else if c == '[' {
                    stack.push(Span::Italic { body });
                    stack.push(Span::LinkText { body: Vec::new() });
                    proof {
                        assert(stack@ =~= prev.push(stack@.last()));
                        assert(stack@.map_values(|f: Span| f@)
                            =~= prev.map_values(|f: Span| f@).push(stack@.last()@));
                    }
                } else {
                    let mut body = body;
                    let ghost b0 = body@;
                    body.push(c);
                    stack.push(Span::Italic { body });
                    proof {
                        assert(b0 + seq![c] =~= body@);
                        assert(stack@ =~= prev.update(prev.len() - 1, stack@.last()));
                        assert(stack@.map_values(|f: Span| f@)
                            =~= prev.map_values(|f: Span| f@)
                                .update(prev.len() - 1, span_append(prev.last()@, seq![c])));
                    }
                }
            },
            Span::Bold { body } => {
                if c == '*' {
                    let h = bold_html_chars(&body);
                    emit_chars(stack, out, &h);
                } else if c == '_' {
                    stack.push(Span::Bold { body });
                    stack.push(Span::Italic { body: Vec::new() });
                    proof {
                        assert(stack@ =~= prev.push(stack@.last()));
                        assert(stack@.map_values(|f: Span| f@)
                            =~= prev.map_values(|f: Span| f@).push(stack@.last()@));
                    }
                } else if c == '[' {
                    stack.push(Span::Bold { body });
                    stack.push(Span::LinkText { body: Vec::new() });
                    proof {
                        assert(stack@ =~= prev.push(stack@.last()));
                        assert(stack@.map_values(|f: Span| f@)
                            =~= prev.map_values(|f: Span| f@).push(stack@.last()@));
                    }
                } else {
                    let mut body = body;
                    let ghost b0 = body@;
                    body.push(c);
                    stack.push(Span::Bold { body });
                    proof {
                        assert(b0 + seq![c] =~= body@);
                        assert(stack@ =~= prev.update(prev.len() - 1, stack@.last()));
                        assert(stack@.map_values(|f: Span| f@)
                            =~= prev.map_values(|f: Span| f@)
                                .update(prev.len() - 1, span_append(prev.last()@, seq![c])));
                    }
                }
            },
            Span::LinkText { body } => {
                if c == ']' {
                    stack.push(Span::LinkAfter { text: body });
                    proof {
                        assert(stack@ =~= prev.update(prev.len() - 1, stack@.last()));
                        assert(stack@.map_values(|f: Span| f@)
                            =~= prev.map_values(|f: Span| f@)
                                .update(prev.len() - 1, stack@.last()@));
                    }
                } else if c == '`' {
                    stack.push(Span::LinkText { body });
                    stack.push(Span::Code { content: Vec::new() });
                    proof {
                        assert(stack@ =~= prev.push(stack@.last()));
                        assert(stack@.map_values(|f: Span| f@)
                            =~= prev.map_values(|f: Span| f@).push(stack@.last()@));
                    }
                } else if c == '_' {
                    stack.push(Span::LinkText { body });
                    stack.push(Span::Italic { body: Vec::new() });
                    proof {
                        assert(stack@ =~= prev.push(stack@.last()));
                        assert(stack@.map_values(|f: Span| f@)
                            =~= prev.map_values(|f: Span| f@).push(stack@.last()@));
                    }
                } else if c == '*' {
                    stack.push(Span::LinkText { body });
                    stack.push(Span::Bold { body: Vec::new() });
                    proof {
                        assert(stack@ =~= prev.push(stack@.last()));
                        assert(stack@.map_values(|f: Span| f@)
                            =~= prev.map_values(|f: Span| f@).push(stack@.last()@));
                    }
                } else {
                    let mut body = body;
                    let ghost b0 = body@;
                    body.push(c);
                    stack.push(Span::LinkText { body });
                    proof {
                        assert(b0 + seq![c] =~= body@);
                        assert(stack@ =~= prev.update(prev.len() - 1, stack@.last()));
                        assert(stack@.map_values(|f: Span| f@)
                            =~= prev.map_values(|f: Span| f@)
                                .update(prev.len() - 1, span_append(prev.last()@, seq![c])));
                    }
                }
            },
            Span::LinkAfter { text } => {
                if c == '(' {
                    stack.push(Span::LinkHref { text, href: Vec::new() });
                    proof {
                        assert(stack@ =~= prev.update(prev.len() - 1, stack@.last()));
                        assert(stack@.map_values(|f: Span| f@)
                            =~= prev.map_values(|f: Span| f@)
                                .update(prev.len() - 1, stack@.last()@));
                    }
                } else {
                    let h = bracketed_chars(&text);
                    emit_chars(stack, out, &h);
                }
            },
            Span::LinkHref { text, href } => {
                if c == ')' {
                    let h = link_html_chars(&text, &href);
                    emit_chars(stack, out, &h);
                } else {
                    let mut href = href;
                    let ghost h0 = href@;
                    href.push(c);
                    stack.push(Span::LinkHref { text, href });
                    proof {
                        assert(h0 + seq![c] =~= href@);
                        assert(stack@ =~= prev.update(prev.len() - 1, stack@.last()));
                        assert(stack@.map_values(|f: Span| f@)
                            =~= prev.map_values(|f: Span| f@)
                                .update(prev.len() - 1, span_append(prev.last()@, seq![c])));
                    }
                }
            },
        }
    }
}

/// The inline conversion, on character vectors.
pub fn convert_chars(input: &Vec<char>) -> (r: Vec<char>)
    ensures
        r@ == text_spec(input@),
{
    let esc = escape_chars(input);
    let mut stack: Vec<Span> = Vec::new();
    let mut out: Vec<char> = Vec::new();
    let mut i: usize = 0;
    proof {
        assert(stack@.map_values(|f: Span| f@) =~= Seq::<SpecSpan>::empty());
        assert(abs_scan(stack@, out@) == init_scan());
        assert(esc@.take(0) =~= Seq::<char>::empty());
        assert(run(init_scan(), esc@.take(0)) == init_scan());
    }
    while i < esc.len()
        invariant
            i <= esc@.len(),
            esc@ == escape_seq(input@),
            abs_scan(stack@, out@) == run(init_scan(), esc@.take(i as int)),
        decreases esc@.len() - i,
    {
        step_scan(&mut stack, &mut out, esc[i]);
        proof {
            lemma_run_push(init_scan(), esc@.take(i as int), esc@[i as int]);
            assert(esc@.take(i as int).push(esc@[i as int]) =~= esc@.take(i as int + 1));
        }
        i += 1;
    }
    proof {
        assert(esc@.take(esc@.len() as int) =~= esc@);
    }
    while stack.len() > 0
        invariant
            finish(abs_scan(stack@, out@)) == text_spec(input@),
        decreases stack@.len(),
    {
        let ghost prev = stack@;
        proof {
            assert(prev.map_values(|f: Span| f@).last() == prev.last()@);
        }
        let f = stack.pop().unwrap();
        proof {
            assert(stack@ =~= prev.drop_last());
            assert(stack@.map_values(|f: Span| f@)
                =~= prev.map_values(|f: Span| f@).drop_last());
        }
        let u = unwind_span_chars(f);
        emit_chars(&mut stack, &mut out, &u);
    }
    proof {
        assert(stack@.map_values(|f: Span| f@).len() == 0);
    }
    out
}

} // verus!
