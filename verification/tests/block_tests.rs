use blogmd::convert::{
    code_block, heading, image, is_heading, is_image, is_ord_list_item, is_quote,
    is_unord_list_item, ord_list, paragraph, quote, unord_list,
};

#[test]
fn classify_unordered_item() {
    assert!(is_unord_list_item("- a"));
    assert!(!is_unord_list_item("-a"));
    assert!(!is_unord_list_item("a"));
    assert!(!is_unord_list_item(""));
}

#[test]
fn classify_ordered_item() {
    assert!(is_ord_list_item("1. a"));
    assert!(!is_ord_list_item("2. a"));
    assert!(!is_ord_list_item("1.a"));
    assert!(!is_ord_list_item(""));
}

#[test]
fn classify_heading() {
    assert!(is_heading("# x"));
    assert!(is_heading("###### x"));
    assert!(!is_heading("####### x"));
    assert!(!is_heading("#x"));
    assert!(!is_heading("x"));
    assert!(!is_heading(""));
    // At least one hash is required: a bare space does not open a heading.
    assert!(!is_heading(" x"));
    assert!(!is_heading(" "));
}

#[test]
fn classify_quote() {
    assert!(is_quote("> x"));
    assert!(!is_quote(">x"));
    assert!(!is_quote("x"));
}

#[test]
fn classify_image() {
    assert!(is_image("![a](b)"));
    assert!(is_image("![a](b)  "));
    assert!(!is_image("![a](b) x"));
    assert!(!is_image("![a](b"));
    assert!(!is_image("![a]"));
    assert!(!is_image("[a](b)"));
    assert!(!is_image(""));
}

#[test]
fn heading_levels() {
    assert_eq!(heading("# Title"), Ok("<h1>Title</h1>".to_string()));
    assert_eq!(heading("### Three"), Ok("<h3>Three</h3>".to_string()));
    assert_eq!(heading("###### Six"), Ok("<h6>Six</h6>".to_string()));
}

#[test]
fn heading_with_inline_markup() {
    assert_eq!(heading("# a *b*"), Ok("<h1>a <b>b</b></h1>".to_string()));
}

#[test]
fn heading_malformed() {
    assert_eq!(heading("####### seven"), Err("####### seven"));
    assert_eq!(heading("#x"), Err("#x"));
    assert_eq!(heading("no hash"), Err("no hash"));
    assert_eq!(heading("##"), Err("##"));
}

#[test]
fn quote_block() {
    assert_eq!(quote("> words"), Ok("<blockquote>words</blockquote>".to_string()));
    assert_eq!(quote("words"), Err("words"));
}

#[test]
fn unordered_list() {
    assert_eq!(unord_list("- a\n- b"), Ok("<ul><li>a</li><li>b</li></ul>".to_string()));
    assert_eq!(unord_list("- only"), Ok("<ul><li>only</li></ul>".to_string()));
}

#[test]
fn unordered_list_malformed() {
    assert_eq!(unord_list("- a\nb"), Err("- a\nb"));
}

#[test]
fn empty_list_text_gives_empty_list() {
    // No lines at all: the per-line validation holds vacuously.
    assert_eq!(unord_list(""), Ok("<ul></ul>".to_string()));
    assert_eq!(ord_list(""), Ok("<ol></ol>".to_string()));
}

#[test]
fn ordered_list() {
    assert_eq!(ord_list("1. a\n2. b"), Ok("<ol><li>a</li><li>b</li></ol>".to_string()));
    // Any digit run is accepted; the numbering is not checked.
    assert_eq!(ord_list("10. a\n7. b"), Ok("<ol><li>a</li><li>b</li></ol>".to_string()));
}

#[test]
fn ordered_list_malformed() {
    assert_eq!(ord_list("1. a\nx"), Err("1. a\nx"));
    assert_eq!(ord_list(". a"), Err(". a"));
}

#[test]
fn code_block_round_trip() {
    assert_eq!(
        code_block("```rust\nlet x = 1;\n```"),
        Ok("<pre><code class=\"language-rust\">let x = 1;</code></pre>".to_string())
    );
}

#[test]
fn code_block_body_is_verbatim() {
    // No escaping and no inline conversion inside the body.
    assert_eq!(
        code_block("```html\n<b>*x*</b>\n```"),
        Ok("<pre><code class=\"language-html\"><b>*x*</b></code></pre>".to_string())
    );
    assert_eq!(
        code_block("```c\na\nb\n```"),
        Ok("<pre><code class=\"language-c\">a\nb</code></pre>".to_string())
    );
}

#[test]
fn code_block_malformed() {
    // A fence without a language tag is refused.
    assert_eq!(code_block("```\nx\n```"), Err("```\nx\n```"));
    // No closing fence.
    assert_eq!(code_block("```rust\nx"), Err("```rust\nx"));
    // Not a fence at all.
    assert_eq!(code_block("plain"), Err("plain"));
}

#[test]
fn image_exact_output() {
    assert_eq!(image("![alt](src)"), Ok("<img src=\"src\" alt=\"alt\"/>".to_string()));
}

#[test]
fn image_parts_are_not_converted() {
    // Neither alt nor src is inline-processed or escaped.
    assert_eq!(image("![*a*](u_v)"), Ok("<img src=\"u_v\" alt=\"*a*\"/>".to_string()));
}

#[test]
fn image_trailing_whitespace_allowed() {
    assert_eq!(image("![a](b)  "), Ok("<img src=\"b\" alt=\"a\"/>".to_string()));
}

#[test]
fn image_malformed() {
    assert_eq!(image("![a](b) x"), Err("![a](b) x"));
    assert_eq!(image("![a](b"), Err("![a](b"));
    assert_eq!(image("![a]x(b)"), Err("![a]x(b)"));
    assert_eq!(image("[a](b)"), Err("[a](b)"));
}

#[test]
fn paragraph_block() {
    assert_eq!(paragraph("hello"), Ok("<p>hello</p>".to_string()));
    // Lines are joined with nothing between them.
    assert_eq!(paragraph("a\nb"), Ok("<p>ab</p>".to_string()));
    assert_eq!(paragraph("  padded  "), Ok("<p>padded</p>".to_string()));
}

#[test]
fn paragraph_with_markup() {
    assert_eq!(paragraph("a *b* c"), Ok("<p>a <b>b</b> c</p>".to_string()));
    assert_eq!(paragraph("x < y"), Ok("<p>x &lt; y</p>".to_string()));
}
