use rereader::html::{collect_block_text, extract_text, is_block, same_chars, text_of_parsed, title_from_texts, HtmlEvent, ParsedHtml};
use rereader::text::to_chars;

fn open(t: &str) -> HtmlEvent {
    HtmlEvent::Open(t.to_string())
}

fn text(t: &str) -> Vec<HtmlEvent> {
    vec![HtmlEvent::Text(t.to_string()), HtmlEvent::Close]
}

fn walk(events: Vec<HtmlEvent>) -> String {
    collect_block_text(&events).iter().collect()
}

#[test]
fn extract_text_reads_heading_and_block_text() {
    let html = "<html><head><title>Doc</title></head><body><h2>Chapter  One</h2><p>First para.</p>\
                <p>Second<br>line</p><hr><div>End</div></body></html>";
    let (heading, body) = extract_text(html);
    assert_eq!(heading, "Doc");
    assert_eq!(body, "Chapter  One\nFirst para.\nSecond\n\nline\n───\nEnd");
}

#[test]
fn extract_text_normalises_heading_whitespace() {
    let (heading, body) = extract_text("<body><h1> A \n <i>B</i>  </h1><p>x</p></body>");
    assert_eq!(heading, "A B");
    assert_eq!(body, "A\nB\nx");
}

#[test]
fn extract_text_without_heading_gives_empty_heading() {
    let (heading, body) = extract_text("<p>just <b>text</b></p>");
    assert_eq!(heading, "");
    assert_eq!(body, "just text");
}

#[test]
fn extract_text_without_body_uses_all_text() {
    let (heading, body) = extract_text("<html><head><title>Hi</title></head><frameset></frameset></html>");
    assert_eq!(heading, "Hi");
    assert_eq!(body, "Hi");
}

#[test]
fn inline_elements_do_not_break_lines() {
    let mut ev = vec![open("body"), open("p")];
    ev.extend(text("a "));
    ev.push(open("em"));
    ev.extend(text("b"));
    ev.push(HtmlEvent::Close);
    ev.push(HtmlEvent::Close);
    ev.push(open("li"));
    ev.extend(text("c"));
    ev.push(HtmlEvent::Close);
    ev.push(HtmlEvent::Close);
    assert_eq!(walk(ev), "a b\nc");
}

#[test]
fn break_and_rule_skip_their_contents() {
    let mut ev = vec![open("body")];
    ev.extend(text("x"));
    ev.push(open("br"));
    ev.extend(text("hidden"));
    ev.push(HtmlEvent::Close);
    ev.extend(text("y"));
    ev.push(open("hr"));
    ev.push(HtmlEvent::Close);
    ev.extend(text("z"));
    ev.push(HtmlEvent::Close);
    assert_eq!(walk(ev), "x\n\ny\n───\nz");
}

#[test]
fn comments_add_nothing() {
    let mut ev = vec![open("body"), HtmlEvent::Other, HtmlEvent::Close];
    ev.extend(text("  t  "));
    ev.push(HtmlEvent::Close);
    assert_eq!(walk(ev), "t");
}

#[test]
fn parsed_document_without_body_uses_root_texts() {
    let p = ParsedHtml { heading: Some(vec!["  Big ".to_string(), "Title".to_string()]), body: None };
    let roots = vec!["one\n\n\n".to_string(), "two".to_string()];
    let (h, b) = text_of_parsed(&p, &roots);
    assert_eq!(h, "Big Title");
    assert_eq!(b, "one\n\ntwo");
}

#[test]
fn parsed_document_with_body_ignores_root_texts() {
    let mut ev = vec![open("body")];
    ev.extend(text("inside"));
    ev.push(HtmlEvent::Close);
    let p = ParsedHtml { heading: None, body: Some(ev) };
    let (h, b) = text_of_parsed(&p, &vec!["outside".to_string()]);
    assert_eq!(h, "");
    assert_eq!(b, "inside");
}

#[test]
fn block_tags() {
    for t in ["p", "div", "br", "h1", "h6", "li", "tr", "hr", "section", "article", "header", "footer", "blockquote", "pre", "table"] {
        assert!(is_block(&to_chars(t)), "{t}");
    }
    for t in ["span", "b", "body", "td", "h7", ""] {
        assert!(!is_block(&to_chars(t)), "{t}");
    }
    assert!(same_chars(&to_chars("ab"), &['a', 'b']));
    assert!(!same_chars(&to_chars("ab"), &['a']));
}

#[test]
fn title_from_text_nodes() {
    assert_eq!(title_from_texts(&vec!["Part".to_string(), "\n One ".to_string()]), "Part One");
    assert_eq!(title_from_texts(&vec![]), "");
}
