//! The block classifier: a state machine over input lines.
//!
//! The parser consumes lines one at a time, classifies each against the
//! block-start patterns, and accumulates lines of the same kind in a
//! buffer. On a block boundary the buffer is converted under the old kind
//! and emitted as one HTML fragment; a block whose own validation fails is
//! converted as a paragraph instead, so no input is ever dropped. Inside a
//! code block lines are kept verbatim until a closing fence; when the input
//! ends inside an unterminated code block, the buffered lines are replayed
//! through the classifier with the abandoned fence read as ordinary text,
//! so the block's contents still reach the output.

use vstd::prelude::*;
use crate::chars::{join_lines, str_to_chars, str_views};
use crate::chars::join_strings;
use crate::convert::{
    code_block, code_block_spec, heading, heading_spec, image, image_parse, image_spec,
    is_heading, is_heading_spec, is_image, is_ord_list_item, is_quote, is_unord_list_item,
    ord_list, ord_spec, para_spec, paragraph, quote, quote_spec, starts_fence, starts_ord1,
    starts_quote, starts_unord, unord_list, unord_spec,
};

verus! {

/// The conversion error for text that cannot be consumed at all: the input
/// was empty.
#[derive(Debug, Clone, Copy, PartialEq, Eq, Structural)]
pub enum ParseError {
    EmptyText,
}

/// The kind of the block being accumulated.
#[derive(Debug, Clone, Copy, PartialEq, Eq, Structural)]
pub enum BlockKind {
    UnordList,
    OrdList,
    CodeBlock,
    Heading,
    Quote,
    Image,
    Paragraph,
}

/// The abstract state of a parser: the lines still to be read, the lines
/// buffered for the open block, the open block's kind (`None` when idle),
/// and whether an unterminated code block has already been replayed.
#[verifier::ext_equal]
pub struct ParserModel {
    pub remaining: Seq<Seq<char>>,
    pub buf: Seq<Seq<char>>,
    pub state: Option<BlockKind>,
    pub recovered: bool,
}

/// The classification of one non-empty line, first match winning. A line
/// that looks like a heading or an image but fails the full pattern is a
/// paragraph line. After a replay, a fence line is ordinary text.
pub open spec fn classify_line(line: Seq<char>, recovered: bool) -> BlockKind {
    if starts_unord(line) {
        BlockKind::UnordList
    } else if starts_ord1(line) {
        BlockKind::OrdList
    } else if starts_fence(line) && !recovered {
        BlockKind::CodeBlock
    } else if line.len() > 0 && line[0] == '#' {
        if is_heading_spec(line) {
            BlockKind::Heading
        } else {
            BlockKind::Paragraph
        }
    } else if starts_quote(line) {
        BlockKind::Quote
    } else if line.len() > 0 && line[0] == '!' {
        if image_parse(line) is Some {
            BlockKind::Image
        } else {
            BlockKind::Paragraph
        }
    } else {
        BlockKind::Paragraph
    }
}

/// The result of the converter when `Ok`, and the paragraph fallback when
/// the block's own validation refuses the text.
pub open spec fn or_para(r: Option<Seq<char>>, md: Seq<char>) -> Seq<char> {
    match r {
        Some(h) => h,
        None => para_spec(md),
    }
}

/// One buffer converted under its block kind, falling back to a paragraph
/// on a malformed block.
pub open spec fn convert_block(kind: BlockKind, md: Seq<char>) -> Seq<char> {
    match kind {
        BlockKind::UnordList => or_para(unord_spec(md), md),
        BlockKind::OrdList => or_para(ord_spec(md), md),
        BlockKind::CodeBlock => or_para(code_block_spec(md), md),
        BlockKind::Heading => or_para(heading_spec(md), md),
        BlockKind::Quote => or_para(quote_spec(md), md),
        BlockKind::Image => or_para(image_spec(md), md),
        BlockKind::Paragraph => para_spec(md),
    }
}

pub open spec fn all_lines_empty(ls: Seq<Seq<char>>) -> bool {
    forall|i: int| 0 <= i < ls.len() ==> (#[trigger] ls[i]).len() == 0
}

/// The fragment a flush emits: none when the parser is idle or the buffer
/// holds no text, otherwise the buffer joined and converted under the open
/// kind.
pub open spec fn flush_frag(state: Option<BlockKind>, buf: Seq<Seq<char>>) -> Option<
    Seq<char>,
> {
    match state {
        None => None,
        Some(k) => {
            if all_lines_empty(buf) {
                None
            } else {
                Some(convert_block(k, join_lines(buf)))
            }
        },
    }
}

/// One line consumed: the new state, and the fragment flushed on a block
/// boundary, if any. Inside a code block every line is kept verbatim until
/// a closing fence; a blank line ends a paragraph and otherwise starts a
/// fresh (still empty) paragraph buffer; any other line extends the block
/// of its own kind or closes the previous block and opens a new one.
pub open spec fn line_step(m: ParserModel) -> (ParserModel, Option<Seq<char>>)
    recommends
        m.remaining.len() > 0,
{
    let line = m.remaining[0];
    let rest = m.remaining.drop_first();
    if m.state == Some(BlockKind::CodeBlock) {
        if starts_fence(line) {
            (
                ParserModel {
                    remaining: rest,
                    buf: Seq::empty(),
                    state: None,
                    recovered: m.recovered,
                },
                flush_frag(m.state, m.buf.push(line)),
            )
        } else {
            (
                ParserModel {
                    remaining: rest,
                    buf: m.buf.push(line),
                    state: m.state,
                    recovered: m.recovered,
                },
                None,
            )
        }
    } else if line.len() == 0 {
        if m.state == Some(BlockKind::Paragraph) {
            (
                ParserModel {
                    remaining: rest,
                    buf: Seq::empty(),
                    state: Some(BlockKind::Paragraph),
                    recovered: m.recovered,
                },
                flush_frag(m.state, m.buf),
            )
        } else {
            (
                ParserModel {
                    remaining: rest,
                    buf: seq![line],
                    state: Some(BlockKind::Paragraph),
                    recovered: m.recovered,
                },
                flush_frag(m.state, m.buf),
            )
        }
    } else {
        let k = classify_line(line, m.recovered);
        if m.state == Some(k) {
            (
                ParserModel {
                    remaining: rest,
                    buf: m.buf.push(line),
                    state: m.state,
                    recovered: m.recovered,
                },
                None,
            )
        } else {
            (
                ParserModel {
                    remaining: rest,
                    buf: seq![line],
                    state: Some(k),
                    recovered: m.recovered,
                },
                flush_frag(m.state, m.buf),
            )
        }
    }
}

/// All the fragments a parser in state `m` will still emit, in order. At
/// the end of the input an open block is flushed; an unterminated code
/// block is instead replayed line by line, its fence read as ordinary
/// text.
pub open spec fn fragments_from(m: ParserModel) -> Seq<Seq<char>>
    decreases
        (if m.recovered { 0int } else { 1int }),
        m.remaining.len() + m.buf.len(),
        m.remaining.len(),
{
    if m.remaining.len() == 0 {
        if m.state == Some(BlockKind::CodeBlock) && !m.recovered {
            fragments_from(
                ParserModel {
                    remaining: m.buf,
                    buf: Seq::empty(),
                    state: None,
                    recovered: true,
                },
            )
        } else {
            match flush_frag(m.state, m.buf) {
                Some(f) => seq![f],
                None => Seq::empty(),
            }
        }
    } else {
        let stepped = line_step(m);
        match stepped.1 {
            Some(f) => seq![f] + fragments_from(stepped.0),
            None => fragments_from(stepped.0),
        }
    }
}

/// The state of a parser that has read no lines yet.
pub open spec fn init_model(lines: Seq<Seq<char>>) -> ParserModel {
    ParserModel { remaining: lines, buf: Seq::empty(), state: None, recovered: false }
}

/// An unterminated code block at the end of the input is not flushed but
/// replayed: the fragments still to come are exactly those of a fresh
/// parse over the buffered lines — the abandoned fence and everything
/// gathered after it — with fence lines now read as ordinary content.
pub proof fn lemma_unterminated_replay(m: ParserModel)
    requires
        m.remaining.len() == 0,
        m.state == Some(BlockKind::CodeBlock),
        !m.recovered,
    ensures
        fragments_from(m) == fragments_from(
            ParserModel { remaining: m.buf, buf: Seq::empty(), state: None, recovered: true },
        ),
{
}

/// Whether any non-blank text is still held: a non-empty line to be read,
/// or a non-empty line buffered for an open block.
pub open spec fn has_content(m: ParserModel) -> bool {
    (exists|i: int| 0 <= i < m.remaining.len() && (#[trigger] m.remaining[i]).len() > 0)
        || (m.state is Some && !all_lines_empty(m.buf))
}

/// No content is ever dropped as empty output: a parser state that still
/// holds any non-blank text — the buffer of an unterminated code block at
/// the end of the input included — emits at least one more fragment.
pub proof fn lemma_content_is_emitted(m: ParserModel)
    requires
        has_content(m),
    ensures
        fragments_from(m).len() >= 1,
    decreases
        (if m.recovered { 0int } else { 1int }),
        m.remaining.len() + m.buf.len(),
        m.remaining.len(),
{
    if m.remaining.len() == 0 {
        assert(m.state is Some && !all_lines_empty(m.buf));
        if m.state == Some(BlockKind::CodeBlock) && !m.recovered {
            let m2 = ParserModel {
                remaining: m.buf,
                buf: Seq::empty(),
                state: None,
                recovered: true,
            };
            assert(exists|i: int| 0 <= i < m.buf.len() && (#[trigger] m.buf[i]).len() > 0);
            let w = choose|i: int| 0 <= i < m.buf.len() && (#[trigger] m.buf[i]).len() > 0;
            assert(m2.remaining[w].len() > 0);
            assert(has_content(m2));
            lemma_content_is_emitted(m2);
        } else {
            assert(flush_frag(m.state, m.buf) is Some);
        }
    } else {
        let stepped = line_step(m);
        let line = m.remaining[0];
        let rest = m.remaining.drop_first();
        assert(forall|i: int| 0 <= i < rest.len() ==> rest[i] == m.remaining[i + 1]);
        if stepped.1 is None {
            assert(has_content(stepped.0)) by {
                if m.state == Some(BlockKind::CodeBlock) {
                    if starts_fence(line) {
                        assert(m.buf.push(line)[m.buf.len() as int] == line);
                        assert(!all_lines_empty(m.buf.push(line)));
                        assert(false);
                    }
                    if m.state is Some && !all_lines_empty(m.buf) {
                        let w = choose|w: int|
                            0 <= w < m.buf.len() && (#[trigger] m.buf[w]).len() > 0;
                        assert(m.buf.push(line)[w] == m.buf[w]);
                        assert(!all_lines_empty(stepped.0.buf));
                    } else {
                        let i = choose|i: int|
                            0 <= i < m.remaining.len() && (#[trigger] m.remaining[i]).len() > 0;
                        if i == 0 {
                            assert(m.buf.push(line)[m.buf.len() as int] == line);
                            assert(!all_lines_empty(stepped.0.buf));
                        } else {
                            assert(rest[i - 1].len() > 0);
                        }
                    }
                } else if line.len() == 0 {
                    // A flush that yields nothing means the buffer held no
                    // text, so the witness is a later line.
                    if m.state is Some && !all_lines_empty(m.buf) {
                        assert(flush_frag(m.state, m.buf) is Some);
                        assert(false);
                    }
                    let i = choose|i: int|
                        0 <= i < m.remaining.len() && (#[trigger] m.remaining[i]).len() > 0;
                    assert(i != 0);
                    assert(rest[i - 1].len() > 0);
                } else {
                    let k = classify_line(line, m.recovered);
                    if m.state == Some(k) {
                        assert(m.buf.push(line)[m.buf.len() as int] == line);
                        assert(!all_lines_empty(stepped.0.buf));
                    } else {
                        assert(stepped.0.buf == seq![line]);
                        assert(stepped.0.buf[0].len() > 0);
                        assert(!all_lines_empty(stepped.0.buf));
                    }
                }
            }
            lemma_content_is_emitted(stepped.0);
        }
    }
}

/// All the fragments of a document given as its lines.
pub open spec fn parse_doc(lines: Seq<Seq<char>>) -> Seq<Seq<char>> {
    fragments_from(init_model(lines))
}

/// The block classifier over a fixed sequence of input lines. Each call of
/// `next` consumes lines until a block boundary and returns that block's
/// fragment, or `None` once the input is exhausted.
pub struct Parser {
    pub lines: Vec<String>,
    pub pos: usize,
    pub buf: Vec<String>,
    pub state: Option<BlockKind>,
    pub recovered: bool,
}

impl Parser {
    /// The abstract state this parser stands for.
    pub open spec fn model(&self) -> ParserModel {
        ParserModel {
            remaining: str_views(self.lines@).skip(self.pos as int),
            buf: str_views(self.buf@),
            state: self.state,
            recovered: self.recovered,
        }
    }

    /// The read position never passes the end of the input.
    pub open spec fn wf(&self) -> bool {
        self.pos <= self.lines@.len()
    }

    /// A parser over the given lines; each line is expected without its
    /// trailing newline, as a line source yields them.
    pub fn new(md_lines: Vec<String>) -> (r: Parser)
        ensures
            r.wf(),
            r.model() == init_model(str_views(md_lines@)),
    {
        let r = Parser {
            lines: md_lines,
            pos: 0,
            buf: Vec::new(),
            state: None,
            recovered: false,
        };
        proof {
            assert(str_views(r.lines@).skip(0) =~= str_views(r.lines@));
            assert(str_views(r.buf@) =~= Seq::<Seq<char>>::empty());
        }
        r
    }
}

/// Whether the text opens with the character `c`.
fn starts_with_char(s: &str, c: char) -> (r: bool)
    ensures
        r == (s@.len() > 0 && s@[0] == c),
{
    let n = s.unicode_len();
    n > 0 && s.get_char(0) == c
}

/// Whether the line is a code fence.
fn is_fence_str(s: &str) -> (r: bool)
    ensures
        r == starts_fence(s@),
{
    let v = str_to_chars(s);
    v.len() >= 3 && v[0] == '`' && v[1] == '`' && v[2] == '`'
}

/// The executable classification of one non-empty line.
fn classify(line: &str, recovered: bool) -> (k: BlockKind)
    ensures
        k == classify_line(line@, recovered),
{
    if is_unord_list_item(line) {
        BlockKind::UnordList
    } else if is_ord_list_item(line) {
        BlockKind::OrdList
    } else if is_fence_str(line) && !recovered {
        BlockKind::CodeBlock
    } else if starts_with_char(line, '#') {
        if is_heading(line) {
            BlockKind::Heading
        } else {
            BlockKind::Paragraph
        }
    } else if is_quote(line) {
        BlockKind::Quote
    } else if starts_with_char(line, '!') {
        if is_image(line) {
            BlockKind::Image
        } else {
            BlockKind::Paragraph
        }
    } else {
        BlockKind::Paragraph
    }
}

fn all_buf_empty(buf: &Vec<String>) -> (r: bool)
    ensures
        r == all_lines_empty(str_views(buf@)),
{
    let mut i: usize = 0;
    while i < buf.len()
        invariant
            i <= buf@.len(),
            forall|j: int| 0 <= j < i ==> (#[trigger] str_views(buf@)[j]).len() == 0,
        decreases buf@.len() - i,
    {
        if !buf[i].as_str().is_empty() {
            proof {
                assert(str_views(buf@)[i as int].len() != 0);
            }
            return false;
        }
        i += 1;
    }
    true
}

/// One buffer converted under its kind, with the paragraph fallback.
fn convert_block_exec(k: BlockKind, md: &str) -> (r: String)
    ensures
        r@ == convert_block(k, md@),
{
    let res = match k {
        BlockKind::UnordList => unord_list(md),
        BlockKind::OrdList => ord_list(md),
        BlockKind::CodeBlock => code_block(md),
        BlockKind::Heading => heading(md),
        BlockKind::Quote => quote(md),
        BlockKind::Image => image(md),
        BlockKind::Paragraph => paragraph(md),
    };
    match res {
        Ok(h) => h,
        Err(e) => {
            match paragraph(e) {
                Ok(h) => h,
                Err(_) => String::new(),
            }
        },
    }
}

impl Parser {
    /// Converts and clears the buffer, sets the new state, and returns the
    /// flushed fragment, if there was one.
    fn flush(&mut self, new_state: Option<BlockKind>) -> (r: Option<String>)
        ensures
            final(self).lines == old(self).lines,
            final(self).pos == old(self).pos,
            final(self).buf@.len() == 0,
            final(self).state == new_state,
            final(self).recovered == old(self).recovered,
            match r {
                Some(f) => flush_frag(old(self).state, str_views(old(self).buf@)) == Some(f@),
                None => flush_frag(old(self).state, str_views(old(self).buf@)) is None,
            },
    {
        let empty = all_buf_empty(&self.buf);
        let r: Option<String> = if empty {
            None
        } else {
            match self.state {
                None => None,
                Some(k) => {
                    let md = join_strings(&self.buf);
                    Some(convert_block_exec(k, md.as_str()))
                },
            }
        };
        self.buf = Vec::new();
        self.state = new_state;
        proof {
            assert(str_views(self.buf@) =~= Seq::<Seq<char>>::empty());
        }
        r
    }

    /// The next HTML fragment: lines are consumed until a block boundary,
    /// the completed block is converted, and its fragment returned; `None`
    /// once the input is exhausted and nothing is left to flush. The
    /// fragments of all the calls together are exactly `fragments_from`
    /// of the starting state, in order.
    #[verifier::loop_isolation(false)]
    pub fn next(&mut self) -> (r: Option<String>)
        requires
            old(self).wf(),
        ensures
            final(self).wf(),
            match r {
                Some(f) => fragments_from(old(self).model())
                    == seq![f@] + fragments_from(final(self).model()),
                None => fragments_from(old(self).model()).len() == 0
                    && fragments_from(final(self).model()).len() == 0,
            },
    {
        loop
            invariant
                self.wf(),
                fragments_from(self.model()) == fragments_from(old(self).model()),
            decreases
                (if self.recovered { 0int } else { 1int }),
                self.lines@.len() - self.pos + self.buf@.len(),
                self.lines@.len() - self.pos,
        {
            let ghost m0 = self.model();
            if self.pos < self.lines.len() {
                let line = self.lines[self.pos].clone();
                proof {
                    assert(m0.remaining.len() > 0);
                    assert(m0.remaining[0] == line@);
                    assert(m0.remaining.drop_first()
                        =~= str_views(self.lines@).skip(self.pos as int + 1));
                }
                let in_code = match self.state {
                    Some(BlockKind::CodeBlock) => true,
                    _ => false,
                };
                if in_code {
                    if is_fence_str(line.as_str()) {
                        self.buf.push(line);
                        self.pos += 1;
                        proof {
                            assert(str_views(self.buf@) =~= m0.buf.push(m0.remaining[0]));
                        }
                        let f = self.flush(None);
                        proof {
                            assert(line_step(m0).0 =~~= self.model());
                        }
                        if let Some(h) = f {
                            return Some(h);
                        }
                    } else {
                        self.buf.push(line);
                        self.pos += 1;
                        proof {
                            assert(str_views(self.buf@) =~= m0.buf.push(m0.remaining[0]));
                            assert(line_step(m0).0 =~~= self.model());
                        }
                    }
                } else if line.as_str().is_empty() {
                    let in_para = match self.state {
                        Some(BlockKind::Paragraph) => true,
                        _ => false,
                    };
                    if in_para {
                        self.pos += 1;
                        let f = self.flush(Some(BlockKind::Paragraph));
                        proof {
                            assert(line_step(m0).0 =~~= self.model());
                        }
                        if let Some(h) = f {
                            return Some(h);
                        }
                    } else {
                        self.pos += 1;
                        let f = self.flush(Some(BlockKind::Paragraph));
                        self.buf.push(line);
                        proof {
                            assert(str_views(self.buf@) =~= seq![m0.remaining[0]]);
                            assert(line_step(m0).0 =~~= self.model());
                        }
                        if let Some(h) = f {
                            return Some(h);
                        }
                    }
                } else {
                    let k = classify(line.as_str(), self.recovered);
                    let same = match self.state {
                        Some(s) => s == k,
                        None => false,
                    };
                    if same {
                        self.buf.push(line);
                        self.pos += 1;
                        proof {
                            assert(str_views(self.buf@) =~= m0.buf.push(m0.remaining[0]));
                            assert(line_step(m0).0 =~~= self.model());
                        }
                    } else {
                        self.pos += 1;
                        let f = self.flush(Some(k));
                        self.buf.push(line);
                        proof {
                            assert(str_views(self.buf@) =~= seq![m0.remaining[0]]);
                            assert(line_step(m0).0 =~~= self.model());
                        }
                        if let Some(h) = f {
                            return Some(h);
                        }
                    }
                }
            } else {
                proof {
                    assert(m0.remaining.len() == 0);
                }
                let in_code = match self.state {
                    Some(BlockKind::CodeBlock) => true,
                    _ => false,
                };
                if in_code && !self.recovered {
                    core::mem::swap(&mut self.lines, &mut self.buf);
                    self.buf.clear();
                    self.pos = 0;
                    self.state = None;
                    self.recovered = true;
                    proof {
                        assert(str_views(self.lines@).skip(0) =~= str_views(self.lines@));
                        assert(str_views(self.buf@) =~= Seq::<Seq<char>>::empty());
                        assert(self.model() =~~= (ParserModel {
                            remaining: m0.buf,
                            buf: Seq::empty(),
                            state: None,
                            recovered: true,
                        }));
                    }
                } else {
                    let f = self.flush(None);
                    proof {
                        assert(str_views(self.lines@).skip(self.pos as int).len() == 0);
                        assert(fragments_from(self.model()).len() == 0);
                        if f is Some {
                            assert(seq![f->Some_0@] + fragments_from(self.model())
                                =~= seq![f->Some_0@]);
                        }
                    }
                    return f;
                }
            }
        }
    }
}

} // verus!
