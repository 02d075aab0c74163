use blogmd::parser::Parser;

fn lines(ls: &[&str]) -> Vec<String> {
    ls.iter().map(|l| l.to_string()).collect()
}

fn all_fragments(ls: &[&str]) -> Vec<String> {
    let mut p = Parser::new(lines(ls));
    let mut out = Vec::new();
    while let Some(f) = p.next() {
        out.push(f);
    }
    out
}

#[test]
fn heading_then_paragraph() {
    let frags = all_fragments(&["# Title", "", "Body text.", ""]);
    assert_eq!(frags, vec!["<h1>Title</h1>".to_string(), "<p>Body text.</p>".to_string()]);
}

#[test]
fn list_at_end_of_input() {
    let frags = all_fragments(&["- a", "- b"]);
    assert_eq!(frags, vec!["<ul><li>a</li><li>b</li></ul>".to_string()]);
}

#[test]
fn ordered_list_fast_path() {
    // Only a literal "1. " starts an ordered-list line; a later "2. " line
    // is read as a paragraph.
    let frags = all_fragments(&["1. a", "1. b"]);
    assert_eq!(frags, vec!["<ol><li>a</li><li>b</li></ol>".to_string()]);
    let frags = all_fragments(&["1. a", "2. b"]);
    assert_eq!(frags, vec!["<ol><li>a</li></ol>".to_string(), "<p>2. b</p>".to_string()]);
}

#[test]
fn fenced_code_block() {
    let frags = all_fragments(&["```rust", "let x = 1;", "```"]);
    assert_eq!(
        frags,
        vec!["<pre><code class=\"language-rust\">let x = 1;</code></pre>".to_string()]
    );
}

#[test]
fn code_block_keeps_markup_lines_verbatim() {
    let frags = all_fragments(&["```md", "# not a heading", "- not a list", "```"]);
    assert_eq!(
        frags,
        vec!["<pre><code class=\"language-md\"># not a heading\n- not a list</code></pre>"
            .to_string()]
    );
}

#[test]
fn unterminated_code_block_is_replayed() {
    // The buffered lines are not lost: they are reprocessed as ordinary
    // content, the abandoned fence included.
    let frags = all_fragments(&["```rust", "let x = 1;"]);
    assert_eq!(frags, vec!["<p><code></code>`rustlet x = 1;</p>".to_string()]);
}

#[test]
fn unterminated_code_block_replays_block_structure() {
    let frags = all_fragments(&["```rust", "- a", "- b"]);
    assert_eq!(
        frags,
        vec![
            "<p><code></code>`rust</p>".to_string(),
            "<ul><li>a</li><li>b</li></ul>".to_string(),
        ]
    );
}

#[test]
fn quote_line() {
    let frags = all_fragments(&["> wisdom"]);
    assert_eq!(frags, vec!["<blockquote>wisdom</blockquote>".to_string()]);
}

#[test]
fn image_line() {
    let frags = all_fragments(&["![alt](src)"]);
    assert_eq!(frags, vec!["<img src=\"src\" alt=\"alt\"/>".to_string()]);
}

#[test]
fn malformed_heading_falls_back_to_paragraph() {
    let frags = all_fragments(&["#not a heading"]);
    assert_eq!(frags, vec!["<p>#not a heading</p>".to_string()]);
}

#[test]
fn malformed_image_falls_back_to_paragraph() {
    // The line is reclassified as a paragraph, so its text goes through
    // inline conversion, where `[a](b)` reads as a link.
    let frags = all_fragments(&["![a](b) trailing"]);
    assert_eq!(frags, vec!["<p>!<a href=\"b\">a</a> trailing</p>".to_string()]);
}

#[test]
fn blank_input_yields_nothing() {
    assert_eq!(all_fragments(&[]), Vec::<String>::new());
    assert_eq!(all_fragments(&["", "", ""]), Vec::<String>::new());
}

#[test]
fn consecutive_blocks_of_different_kinds() {
    let frags = all_fragments(&["# T", "- a", "> q", "text"]);
    assert_eq!(
        frags,
        vec![
            "<h1>T</h1>".to_string(),
            "<ul><li>a</li></ul>".to_string(),
            "<blockquote>q</blockquote>".to_string(),
            "<p>text</p>".to_string(),
        ]
    );
}

#[test]
fn paragraph_over_several_lines() {
    let frags = all_fragments(&["one", "two", "", "three"]);
    assert_eq!(frags, vec!["<p>onetwo</p>".to_string(), "<p>three</p>".to_string()]);
}
