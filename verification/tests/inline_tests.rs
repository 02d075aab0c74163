use blogmd::convert::text;

#[test]
fn plain_text_passes_through() {
    assert_eq!(text("hello world"), "hello world");
    assert_eq!(text(""), "");
    assert_eq!(text("just. some, text!"), "just. some, text!");
}

#[test]
fn angle_brackets_are_escaped() {
    assert_eq!(text("a<b>c"), "a&lt;b&gt;c");
    assert_eq!(text("<html>"), "&lt;html&gt;");
}

#[test]
fn existing_entities_are_not_double_escaped() {
    assert_eq!(text("&lt;"), "&lt;");
    assert_eq!(text("a&lt;b&gt;c"), "a&lt;b&gt;c");
}

#[test]
fn code_span_round_trip() {
    assert_eq!(text("`code`"), "<code>code</code>");
}

#[test]
fn bold_round_trip() {
    assert_eq!(text("*b*"), "<b>b</b>");
}

#[test]
fn italic_round_trip() {
    assert_eq!(text("_i_"), "<i>i</i>");
}

#[test]
fn nested_bold_italic() {
    assert_eq!(text("*_bi_*"), "<b><i>bi</i></b>");
}

#[test]
fn unterminated_bold_passes_through() {
    assert_eq!(text("*bold"), "*bold");
}

#[test]
fn unterminated_italic_passes_through() {
    assert_eq!(text("_it"), "_it");
}

#[test]
fn unterminated_code_passes_through() {
    assert_eq!(text("`code"), "`code");
}

#[test]
fn code_span_contents_are_literal() {
    // The `<` inside a code span is un-escaped back to a literal character.
    assert_eq!(text("`<`"), "<code><</code>");
    // An unterminated code span keeps the escaped form.
    assert_eq!(text("`<"), "`&lt;");
    // No markup is recognized inside a code span.
    assert_eq!(text("`*x*`"), "<code>*x*</code>");
}

#[test]
fn link_round_trip() {
    assert_eq!(text("[t](u)"), "<a href=\"u\">t</a>");
    assert_eq!(
        text("see [the post](http://example.com) here"),
        "see <a href=\"http://example.com\">the post</a> here"
    );
}

#[test]
fn link_without_target_passes_through() {
    // `]` not followed by `(`: the consumed text degrades to a literal,
    // and the peeked character is dropped.
    assert_eq!(text("[t]"), "[t]");
    assert_eq!(text("[t]x"), "[t]");
    // Missing closing parenthesis.
    assert_eq!(text("[t](u"), "[t](u");
}

#[test]
fn markup_nested_in_link_text() {
    assert_eq!(text("[*b*](u)"), "<a href=\"u\"><b>b</b></a>");
}

#[test]
fn bold_containing_link() {
    assert_eq!(text("*[t](u)*"), "<b><a href=\"u\">t</a></b>");
}
