//! Plain text from (X)HTML: the chapter heading, and the body text with a
//! line break at every block boundary.
//!
//! Parsing is scraper's (html5ever): its result reaches the logic here as
//! plain values, the text of the first heading and a walk over the body
//! element in document order.

use ego_tree::iter::Edge;
use scraper::{Html, Node, Selector};
use vstd::prelude::*;

use crate::text::{collapse_blanks, collapse_blanks_spec, concat_all, from_chars, join, to_chars, words};
use crate::text::{join_with_space, lemma_words, lemma_words_join, lemma_words_split, split_words};

verus! {

// ── what the parser hands over ──────────────────────────────────────────

/// One step of a walk over a subtree in document order: every node is
/// opened and later closed, and its descendants are walked in between.
pub enum HtmlEvent {
    /// An element opens; its local name.
    Open(String),
    /// A text node opens; its text.
    Text(String),
    /// Another kind of node (comment, doctype, ...) opens.
    Other,
    /// The most recently opened node that is still open closes.
    Close,
}

/// The model of an [`HtmlEvent`].
pub enum EventView {
    Open(Seq<char>),
    Text(Seq<char>),
    Other,
    Close,
}

impl View for HtmlEvent {
    type V = EventView;

    open spec fn view(&self) -> EventView {
        match self {
            HtmlEvent::Open(s) => EventView::Open(s@),
            HtmlEvent::Text(s) => EventView::Text(s@),
            HtmlEvent::Other => EventView::Other,
            HtmlEvent::Close => EventView::Close,
        }
    }
}

/// What the parser reports of a document.
pub struct ParsedHtml {
    /// The text nodes of the first `h1`–`h6` or `title` element, if any.
    pub heading: Option<Vec<String>>,
    /// The walk over the first `body` element, if any.
    pub body: Option<Vec<HtmlEvent>>,
}

/// The model of a [`ParsedHtml`].
pub struct ParsedView {
    pub heading: Option<Seq<Seq<char>>>,
    pub body: Option<Seq<EventView>>,
}

/// The views of a vector of strings.
pub open spec fn strs(v: Seq<String>) -> Seq<Seq<char>> {
    v.map_values(|s: String| s@)
}

/// The views of a vector of events.
pub open spec fn evs(v: Seq<HtmlEvent>) -> Seq<EventView> {
    v.map_values(|e: HtmlEvent| e@)
}

impl View for ParsedHtml {
    type V = ParsedView;

    open spec fn view(&self) -> ParsedView {
        ParsedView {
            heading: match self.heading {
                Some(v) => Some(strs(v@)),
                None => None,
            },
            body: match self.body {
                Some(v) => Some(evs(v@)),
                None => None,
            },
        }
    }
}

/// What scraper reports of the document `html` with the selectors
/// `heading_css` and `body_css` (see [`parse_html`]).
pub uninterp spec fn parsed_html(html: Seq<char>, heading_css: Seq<char>, body_css: Seq<char>) -> ParsedView;

/// Parses `html` as a document with `scraper::Html::parse_document` and
/// reports the text nodes (`ElementRef::text`) of the first element that
/// the selector `heading_css` picks (`Selector::parse`, `Html::select`), and
/// the `traverse` walk of the first element that `body_css` picks; nothing
/// where a selector does not parse or picks nothing. The contract claims
/// only that the report is a function of the three arguments; what HTML
/// parsing yields is scraper's and is not stated.
#[verifier::external_body]
fn parse_html(html: &str, heading_css: &str, body_css: &str) -> (r: ParsedHtml)
    ensures
        r@ == parsed_html(html@, heading_css@, body_css@),
{
    let doc = Html::parse_document(html);
    let first = |css: &str| Selector::parse(css).ok().and_then(|s| doc.select(&s).next());
    let heading = first(heading_css).map(|h| h.text().map(String::from).collect());
    let body = first(body_css).map(|b| b.traverse().map(|e| match e {
        Edge::Open(n) => match n.value() {
            Node::Element(el) => HtmlEvent::Open(el.name().to_string()),
            Node::Text(t) => HtmlEvent::Text(t.to_string()),
            _ => HtmlEvent::Other,
        },
        Edge::Close(_) => HtmlEvent::Close,
    }).collect());
    ParsedHtml { heading, body }
}

/// What scraper reports as the text under the root element of `html` (see
/// [`root_texts`]).
pub uninterp spec fn root_texts_of(html: Seq<char>) -> Seq<Seq<char>>;

/// Parses `html` as a document with `scraper::Html::parse_document` and
/// lists the text nodes under its root element (`ElementRef::text` of
/// `Html::root_element`). The contract claims only that the list is a
/// function of `html`.
#[verifier::external_body]
fn root_texts(html: &str) -> (r: Vec<String>)
    ensures
        strs(r@) == root_texts_of(html@),
{
    Html::parse_document(html).root_element().text().map(String::from).collect()
}

/// A child of the `body` element (or of the root element when there is no
/// body), as the MOBI chapter splitter needs it.
pub enum TopNode {
    /// An element: its local name, its text nodes and its serialised HTML.
    Element { name: String, texts: Vec<String>, html: String },
    /// A text node.
    Text(String),
    /// Another kind of node.
    Other,
}

/// The model of a [`TopNode`].
pub enum TopNodeView {
    Element { name: Seq<char>, texts: Seq<Seq<char>>, html: Seq<char> },
    Text(Seq<char>),
    Other,
}

impl View for TopNode {
    type V = TopNodeView;

    open spec fn view(&self) -> TopNodeView {
        match self {
            TopNode::Element { name, texts, html } => TopNodeView::Element {
                name: name@,
                texts: strs(texts@),
                html: html@,
            },
            TopNode::Text(t) => TopNodeView::Text(t@),
            TopNode::Other => TopNodeView::Other,
        }
    }
}

/// The views of a vector of top-level nodes.
pub open spec fn tops(v: Seq<TopNode>) -> Seq<TopNodeView> {
    v.map_values(|n: TopNode| n@)
}

/// What scraper reports of the children of the element of `html` that
/// `body_css` picks (see [`body_children`]).
pub uninterp spec fn body_children_of(html: Seq<char>, body_css: Seq<char>) -> Option<Seq<TopNodeView>>;

/// What scraper reports of the children of the root element of `html` (see
/// [`root_children`]).
pub uninterp spec fn root_children_of(html: Seq<char>) -> Seq<TopNodeView>;

/// Parses `html` with `scraper::Html::parse_document` and lists the
/// children of the first element that the selector `body_css` picks
/// (`Selector::parse`, `Html::select`), or `None` if there is none: for an
/// element its local name, its text nodes (`ElementRef::text`) and its
/// serialisation (`ElementRef::html`); for a text node its text. The
/// contract claims only that the list is a function of the arguments.
#[verifier::external_body]
pub(crate) fn body_children(html: &str, body_css: &str) -> (r: Option<Vec<TopNode>>)
    ensures
        match r {
            Some(v) => body_children_of(html@, body_css@) == Some(tops(v@)),
            None => body_children_of(html@, body_css@) is None,
        },
{
    let doc = Html::parse_document(html);
    let body = Selector::parse(body_css).ok().and_then(|s| doc.select(&s).next());
    body.map(|b| b.children().map(|c| match (scraper::ElementRef::wrap(c), c.value()) {
            (Some(el), _) => TopNode::Element {
                name: el.value().name().to_string(),
                texts: el.text().map(String::from).collect(),
                html: el.html(),
            },
            (None, Node::Text(t)) => TopNode::Text(t.to_string()),
            _ => TopNode::Other,
        }).collect())
}

/// Parses `html` with `scraper::Html::parse_document` and lists the
/// children of its root element (`Html::root_element`), as
/// [`body_children`] does. The contract claims only that the list is a
/// function of `html`.
#[verifier::external_body]
pub(crate) fn root_children(html: &str) -> (r: Vec<TopNode>)
    ensures
        tops(r@) == root_children_of(html@),
{
    let doc = Html::parse_document(html);
    doc.root_element().children().map(|c| match (scraper::ElementRef::wrap(c), c.value()) {
        (Some(el), _) => TopNode::Element {
            name: el.value().name().to_string(),
            texts: el.text().map(String::from).collect(),
            html: el.html(),
        },
        (None, Node::Text(t)) => TopNode::Text(t.to_string()),
        _ => TopNode::Other,
    }).collect()
}

// ── tags ────────────────────────────────────────────────────────────────

/// The tags after which text continues on a new line.
pub open spec fn is_block_tag(t: Seq<char>) -> bool {
    ||| t == seq!['p']
    ||| t == seq!['d', 'i', 'v']
    ||| t == seq!['b', 'r']
    ||| t == seq!['h', '1']
    ||| t == seq!['h', '2']
    ||| t == seq!['h', '3']
    ||| t == seq!['h', '4']
    ||| t == seq!['h', '5']
    ||| t == seq!['h', '6']
    ||| t == seq!['l', 'i']
    ||| t == seq!['t', 'r']
    ||| t == seq!['h', 'r']
    ||| t == seq!['s', 'e', 'c', 't', 'i', 'o', 'n']
    ||| t == seq!['a', 'r', 't', 'i', 'c', 'l', 'e']
    ||| t == seq!['h', 'e', 'a', 'd', 'e', 'r']
    ||| t == seq!['f', 'o', 'o', 't', 'e', 'r']
    ||| t == seq!['b', 'l', 'o', 'c', 'k', 'q', 'u', 'o', 't', 'e']
    ||| t == seq!['p', 'r', 'e']
    ||| t == seq!['t', 'a', 'b', 'l', 'e']
}

/// Whether `a` holds exactly the characters of `b`.
pub fn same_chars(a: &Vec<char>, b: &[char]) -> (r: bool)
    ensures
        r == (a@ == b@),
{
    if a.len() != b.len() {
        return false;
    }
    let mut i: usize = 0;
    while i < a.len()
        invariant
            i <= a.len(),
            a.len() == b.len(),
            forall|j: int| 0 <= j < i ==> a@[j] == b@[j],
        decreases a.len() - i,
    {
        if a[i] != b[i] {
            return false;
        }
        i += 1;
    }
    assert(a@ =~= b@);
    true
}

/// Whether `t` is one of the block tags.
pub fn is_block(t: &Vec<char>) -> (r: bool)
    ensures
        r == is_block_tag(t@),
{
    let t_p: [char; 1] = ['p'];
    assert(t_p@ =~= seq!['p']);
    let t_div: [char; 3] = ['d', 'i', 'v'];
    assert(t_div@ =~= seq!['d', 'i', 'v']);
    let t_br: [char; 2] = ['b', 'r'];
    assert(t_br@ =~= seq!['b', 'r']);
    let t_h1: [char; 2] = ['h', '1'];
    assert(t_h1@ =~= seq!['h', '1']);
    let t_h2: [char; 2] = ['h', '2'];
    assert(t_h2@ =~= seq!['h', '2']);
    let t_h3: [char; 2] = ['h', '3'];
    assert(t_h3@ =~= seq!['h', '3']);
    let t_h4: [char; 2] = ['h', '4'];
    assert(t_h4@ =~= seq!['h', '4']);
    let t_h5: [char; 2] = ['h', '5'];
    assert(t_h5@ =~= seq!['h', '5']);
    let t_h6: [char; 2] = ['h', '6'];
    assert(t_h6@ =~= seq!['h', '6']);
    let t_li: [char; 2] = ['l', 'i'];
    assert(t_li@ =~= seq!['l', 'i']);
    let t_tr: [char; 2] = ['t', 'r'];
    assert(t_tr@ =~= seq!['t', 'r']);
    let t_hr: [char; 2] = ['h', 'r'];
    assert(t_hr@ =~= seq!['h', 'r']);
    let t_section: [char; 7] = ['s', 'e', 'c', 't', 'i', 'o', 'n'];
    assert(t_section@ =~= seq!['s', 'e', 'c', 't', 'i', 'o', 'n']);
    let t_article: [char; 7] = ['a', 'r', 't', 'i', 'c', 'l', 'e'];
    assert(t_article@ =~= seq!['a', 'r', 't', 'i', 'c', 'l', 'e']);
    let t_header: [char; 6] = ['h', 'e', 'a', 'd', 'e', 'r'];
    assert(t_header@ =~= seq!['h', 'e', 'a', 'd', 'e', 'r']);
    let t_footer: [char; 6] = ['f', 'o', 'o', 't', 'e', 'r'];
    assert(t_footer@ =~= seq!['f', 'o', 'o', 't', 'e', 'r']);
    let t_blockquote: [char; 10] = ['b', 'l', 'o', 'c', 'k', 'q', 'u', 'o', 't', 'e'];
    assert(t_blockquote@ =~= seq!['b', 'l', 'o', 'c', 'k', 'q', 'u', 'o', 't', 'e']);
    let t_pre: [char; 3] = ['p', 'r', 'e'];
    assert(t_pre@ =~= seq!['p', 'r', 'e']);
    let t_table: [char; 5] = ['t', 'a', 'b', 'l', 'e'];
    assert(t_table@ =~= seq!['t', 'a', 'b', 'l', 'e']);
    same_chars(t, &t_p)
        || same_chars(t, &t_div)
        || same_chars(t, &t_br)
        || same_chars(t, &t_h1)
        || same_chars(t, &t_h2)
        || same_chars(t, &t_h3)
        || same_chars(t, &t_h4)
        || same_chars(t, &t_h5)
        || same_chars(t, &t_h6)
        || same_chars(t, &t_li)
        || same_chars(t, &t_tr)
        || same_chars(t, &t_hr)
        || same_chars(t, &t_section)
        || same_chars(t, &t_article)
        || same_chars(t, &t_header)
        || same_chars(t, &t_footer)
        || same_chars(t, &t_blockquote)
        || same_chars(t, &t_pre)
        || same_chars(t, &t_table)
}

// ── walking the body ────────────────────────────────────────────────────

/// The state of a walk: the text so far, for each open node whether it is
/// a block element, and how deep the walk is inside a skipped subtree.
#[verifier::ext_equal]
pub struct Walk {
    pub out: Seq<char>,
    pub open: Seq<bool>,
    pub skip: nat,
}

/// Whether `s` ends with a newline.
pub open spec fn ends_nl(s: Seq<char>) -> bool {
    s.len() > 0 && s.last() == '\n'
}

/// Text that needs a newline before a block starts: non-empty and not
/// already at the start of a line.
pub open spec fn needs_break(s: Seq<char>) -> bool {
    s.len() > 0 && !ends_nl(s)
}

/// A horizontal rule as text: three box-drawing dashes and a newline.
pub open spec fn rule_text() -> Seq<char> {
    seq!['\u{2500}', '\u{2500}', '\u{2500}', '\n']
}

/// One step of the walk. Text is copied; a block element starts on a new
/// line and ends with a newline; `br` is a newline and `hr` a rule on a
/// line of its own, and what is inside either is skipped.
pub open spec fn walk_step(w: Walk, e: EventView) -> Walk {
    if w.skip > 0 {
        match e {
            EventView::Close => Walk { out: w.out, open: w.open, skip: (w.skip - 1) as nat },
            _ => Walk { out: w.out, open: w.open, skip: w.skip + 1 },
        }
    } else {
        match e {
            EventView::Text(t) => Walk { out: w.out + t, open: w.open.push(false), skip: 0 },
            EventView::Other => Walk { out: w.out, open: w.open.push(false), skip: 0 },
            EventView::Open(tag) => {
                let block = is_block_tag(tag);
                let out1 = if block && needs_break(w.out) {
                    w.out.push('\n')
                } else {
                    w.out
                };
                if tag == seq!['b', 'r'] {
                    Walk { out: out1.push('\n'), open: w.open, skip: 1 }
                } else if tag == seq!['h', 'r'] {
                    let out2 = if needs_break(out1) {
                        out1.push('\n')
                    } else {
                        out1
                    };
                    Walk { out: out2 + rule_text(), open: w.open, skip: 1 }
                } else {
                    Walk { out: out1, open: w.open.push(block), skip: 0 }
                }
            },
            EventView::Close => {
                if w.open.len() == 0 {
                    w
                } else {
                    let out1 = if w.open.last() && !ends_nl(w.out) {
                        w.out.push('\n')
                    } else {
                        w.out
                    };
                    Walk { out: out1, open: w.open.drop_last(), skip: 0 }
                }
            },
        }
    }
}

/// The walk over the events in order, from no text and nothing open.
pub open spec fn walk_events(es: Seq<EventView>) -> Walk
    decreases es.len(),
{
    if es.len() == 0 {
        Walk { out: Seq::empty(), open: Seq::empty(), skip: 0 }
    } else {
        walk_step(walk_events(es.drop_last()), es.last())
    }
}

/// How many nodes the events leave open: each event but a close opens one.
pub open spec fn depth(es: Seq<EventView>) -> int
    decreases es.len(),
{
    if es.len() == 0 {
        0
    } else {
        depth(es.drop_last()) + match es.last() {
            EventView::Close => -1int,
            _ => 1int,
        }
    }
}

/// The events close every node they open, and no node opened before them.
pub open spec fn balanced(es: Seq<EventView>) -> bool {
    &&& depth(es) == 0
    &&& forall|k: int| 0 <= k <= es.len() ==> depth(#[trigger] es.take(k)) >= 0
}

/// Walking never takes back text: the text after more events starts with
/// the text before them.
pub proof fn lemma_walk_extends(es: Seq<EventView>, more: Seq<EventView>)
    ensures
        walk_events(es + more).out.len() >= walk_events(es).out.len(),
        walk_events(es + more).out.take(walk_events(es).out.len() as int) == walk_events(es).out,
    decreases more.len(),
{
    if more.len() == 0 {
        assert(es + more == es);
    } else {
        let m = more.drop_last();
        lemma_walk_extends(es, m);
        assert((es + more).drop_last() == es + m);
        let a = walk_events(es).out;
        let b = walk_events(es + m).out;
        let c = walk_events(es + more).out;
        assert(c.len() >= b.len() && c.take(b.len() as int) == b);
        assert(c.take(a.len() as int) == b.take(a.len() as int));
    }
}

/// Walking events that close what they open, from outside any skipped
/// subtree, ends with the same nodes open as before and outside any
/// skipped subtree.
proof fn lemma_walk_inner(pre: Seq<EventView>, es: Seq<EventView>)
    requires
        walk_events(pre).skip == 0,
        forall|k: int| 0 <= k <= es.len() ==> depth(#[trigger] es.take(k)) >= 0,
    ensures
        ({
            let o = walk_events(pre).open;
            let w = walk_events(pre + es);
            &&& w.open.len() >= o.len()
            &&& w.open.take(o.len() as int) == o
            &&& w.open.len() - o.len() + w.skip == depth(es)
        }),
    decreases es.len(),
{
    let o = walk_events(pre).open;
    if es.len() == 0 {
        assert(pre + es == pre);
        assert(o.take(o.len() as int) == o);
    } else {
        let d = es.drop_last();
        assert forall|k: int| 0 <= k <= d.len() implies depth(#[trigger] d.take(k)) >= 0 by {
            assert(d.take(k) == es.take(k));
        }
        lemma_walk_inner(pre, d);
        assert((pre + es).drop_last() == pre + d);
        assert((pre + es).last() == es.last());
        assert(es.take(es.len() as int) == es);
        assert(d.take(d.len() as int) == d);
        let w = walk_events(pre + d);
        let w2 = walk_events(pre + es);
        assert(w.open.push(true).take(o.len() as int) == w.open.take(o.len() as int));
        assert(w.open.push(false).take(o.len() as int) == w.open.take(o.len() as int));
        if w.open.len() > o.len() {
            assert(w.open.drop_last().take(o.len() as int) == w.open.take(o.len() as int));
        }
    }
}

/// A block element ends its line: when a block element (other than `br`
/// and `hr`, which are handled on their own) closes after children that
/// close what they open, the text so far ends with a newline, so whatever
/// the walk adds next starts on a new line; text that follows directly is
/// added right after that newline.
pub proof fn lemma_block_ends_line(
    pre: Seq<EventView>,
    tag: Seq<char>,
    inner: Seq<EventView>,
    t: Seq<char>,
    more: Seq<EventView>,
)
    requires
        walk_events(pre).skip == 0,
        is_block_tag(tag),
        tag != seq!['b', 'r'],
        tag != seq!['h', 'r'],
        balanced(inner),
    ensures
        ({
            let upto = pre.push(EventView::Open(tag)) + inner.push(EventView::Close);
            let x = walk_events(upto).out;
            &&& ends_nl(x)
            &&& walk_events(upto.push(EventView::Text(t))).out == x + t
            &&& walk_events(upto + more).out.take(x.len() as int) == x
        }),
{
    let p1 = pre.push(EventView::Open(tag));
    assert(p1.drop_last() == pre);
    let o = walk_events(pre).open;
    assert(walk_events(p1).open == o.push(true));
    lemma_walk_inner(p1, inner);
    let w = walk_events(p1 + inner);
    assert(w.open.len() == o.len() + 1);
    assert(w.open =~= o.push(true));
    let upto = p1 + inner.push(EventView::Close);
    assert(upto == (p1 + inner).push(EventView::Close));
    assert(upto.drop_last() == p1 + inner);
    assert(upto.push(EventView::Text(t)).drop_last() == upto);
    lemma_walk_extends(upto, more);
}

/// Inside a skipped subtree the walk adds no text and opens nothing: events
/// that never close more than they open only move the skip depth.
proof fn lemma_walk_skipped(pre: Seq<EventView>, es: Seq<EventView>)
    requires
        walk_events(pre).skip >= 1,
        forall|k: int| 0 <= k <= es.len() ==> depth(#[trigger] es.take(k)) >= 0,
    ensures
        walk_events(pre + es) == (Walk {
            out: walk_events(pre).out,
            open: walk_events(pre).open,
            skip: (walk_events(pre).skip + depth(es)) as nat,
        }),
    decreases es.len(),
{
    if es.len() == 0 {
        assert(pre + es == pre);
    } else {
        let d = es.drop_last();
        assert forall|k: int| 0 <= k <= d.len() implies depth(#[trigger] d.take(k)) >= 0 by {
            assert(d.take(k) == es.take(k));
        }
        lemma_walk_skipped(pre, d);
        assert((pre + es).drop_last() == pre + d);
        assert((pre + es).last() == es.last());
        assert(es.take(es.len() as int) == es);
        assert(d.take(d.len() as int) == d);
    }
}

/// A block element starts on a new line. Text before it ends its line
/// with at most one added newline; `br` then adds a line break, and `hr` a
/// rule on a line of its own; the children of `br` and `hr` add nothing,
/// and after them the walk goes on as before they opened.
pub proof fn lemma_block_starts_line(pre: Seq<EventView>, tag: Seq<char>, inner: Seq<EventView>)
    requires
        walk_events(pre).skip == 0,
        is_block_tag(tag),
    ensures
        ({
            let x = walk_events(pre).out;
            let y = walk_events(pre.push(EventView::Open(tag))).out;
            &&& y.len() >= x.len()
            &&& y.take(x.len() as int) == x
            &&& tag != seq!['b', 'r'] && tag != seq!['h', 'r'] ==> (y.len() == 0 || ends_nl(y)) && y.len()
                <= x.len() + 1
            &&& tag == seq!['b', 'r'] ==> ends_nl(y) && (y.len() == 1 || ends_nl(y.drop_last())) && y.len()
                <= x.len() + 2
            &&& tag == seq!['h', 'r'] ==> y.len() >= 4 && y.skip(y.len() - 4) == rule_text() && (y.len()
                == 4 || ends_nl(y.take(y.len() - 4))) && y.len() <= x.len() + 5
            &&& (tag == seq!['b', 'r'] || tag == seq!['h', 'r']) && balanced(inner) ==> walk_events(
                pre.push(EventView::Open(tag)) + inner.push(EventView::Close),
            ) == (Walk { out: y, open: walk_events(pre).open, skip: 0 })
        }),
{
    let p1 = pre.push(EventView::Open(tag));
    assert(p1.drop_last() == pre);
    let x = walk_events(pre).out;
    let y = walk_events(p1).out;
    let x1 = if needs_break(x) {
        x.push('\n')
    } else {
        x
    };
    assert(x1.take(x.len() as int) == x);
    assert(x1.len() == 0 || ends_nl(x1));
    if tag == seq!['b', 'r'] {
        assert(y == x1.push('\n'));
        assert(y.drop_last() == x1);
        assert(y.take(x.len() as int) == x1.take(x.len() as int));
    } else if tag == seq!['h', 'r'] {
        assert(y == x1 + rule_text());
        assert(y.skip(y.len() - 4) == rule_text());
        assert(y.take(y.len() - 4) == x1);
        assert(y.take(x.len() as int) == x1.take(x.len() as int));
    }
    if (tag == seq!['b', 'r'] || tag == seq!['h', 'r']) && balanced(inner) {
        lemma_walk_skipped(p1, inner);
        let q = p1 + inner.push(EventView::Close);
        assert(q.drop_last() == p1 + inner);
        assert(q.last() == EventView::Close);
    }
}

/// Appends the characters of `s` to `out`.
fn push_str(out: &mut Vec<char>, s: &String)
    ensures
        final(out)@ == old(out)@ + s@,
{
    let mut cs = to_chars(s.as_str());
    out.append(&mut cs);
}

/// The text of the walked subtree, with newlines at block boundaries,
/// before blank lines are collapsed.
fn collect_text(events: &Vec<HtmlEvent>) -> (r: Vec<char>)
    ensures
        r@ == walk_events(evs(events@)).out,
{
    let ghost es = evs(events@);
    let mut out: Vec<char> = Vec::new();
    let mut open: Vec<bool> = Vec::new();
    let mut skip: usize = 0;
    let mut i: usize = 0;
    let t_br: [char; 2] = ['b', 'r'];
    let t_hr: [char; 2] = ['h', 'r'];
    assert(t_br@ =~= seq!['b', 'r']);
    assert(t_hr@ =~= seq!['h', 'r']);
    assert(es.take(0) == Seq::<EventView>::empty());
    while i < events.len()
        invariant
            i <= events.len(),
            es == evs(events@),
            t_br@ == seq!['b', 'r'],
            t_hr@ == seq!['h', 'r'],
            skip <= i,
            walk_events(es.take(i as int)) == (Walk { out: out@, open: open@, skip: skip as nat }),
        decreases events.len() - i,
    {
        assert(es.take(i + 1).drop_last() == es.take(i as int));
        assert(es.take(i + 1).last() == events@[i as int]@);
        let e = &events[i];
        let ghost w0 = Walk { out: out@, open: open@, skip: skip as nat };
        if skip > 0 {
            match e {
                HtmlEvent::Close => {
                    skip -= 1;
                },
                _ => {
                    skip += 1;
                },
            }
        } else {
            match e {
                HtmlEvent::Text(t) => {
                    push_str(&mut out, t);
                    open.push(false);
                },
                HtmlEvent::Other => {
                    open.push(false);
                },
                HtmlEvent::Open(name) => {
                    let tag = to_chars(name.as_str());
                    let block = is_block(&tag);
                    if block && out.len() > 0 && out[out.len() - 1] != '\n' {
                        out.push('\n');
                    }
                    if same_chars(&tag, &t_br) {
                        out.push('\n');
                        skip = 1;
                    } else if same_chars(&tag, &t_hr) {
                        if out.len() > 0 && out[out.len() - 1] != '\n' {
                            out.push('\n');
                        }
                        out.push('\u{2500}');
                        out.push('\u{2500}');
                        out.push('\u{2500}');
                        out.push('\n');
                        skip = 1;
                    } else {
                        open.push(block);
                    }
                },
                HtmlEvent::Close => {
                    if open.len() > 0 {
                        let was_block = open.pop().unwrap();
                        if was_block && !(out.len() > 0 && out[out.len() - 1] == '\n') {
                            out.push('\n');
                        }
                    }
                },
            }
        }
        assert(walk_step(w0, e@) =~= (Walk { out: out@, open: open@, skip: skip as nat }));
        i += 1;
    }
    assert(es.take(events.len() as int) == es);
    out
}

/// The text of the walked subtree with newlines at block boundaries, runs
/// of blank lines collapsed and surrounding whitespace trimmed.
pub fn collect_block_text(events: &Vec<HtmlEvent>) -> (r: Vec<char>)
    ensures
        r@ == collapse_blanks_spec(walk_events(evs(events@)).out),
{
    let raw = collect_text(events);
    collapse_blanks(&raw)
}

// ── heading and body text ───────────────────────────────────────────────

/// A title from text nodes: joined with spaces, then its words joined with
/// single spaces.
pub open spec fn title_text(texts: Seq<Seq<char>>) -> Seq<char> {
    join(words(join(texts, seq![' '])), seq![' '])
}

/// The words of each text in turn.
pub open spec fn words_of_all(texts: Seq<Seq<char>>) -> Seq<Seq<char>>
    decreases texts.len(),
{
    if texts.len() == 0 {
        Seq::empty()
    } else {
        words_of_all(texts.drop_last()) + words(texts.last())
    }
}

proof fn lemma_words_of_join(texts: Seq<Seq<char>>)
    ensures
        words(join(texts, seq![' '])) == words_of_all(texts),
    decreases texts.len(),
{
    if texts.len() == 1 {
        assert(texts.drop_last() == Seq::<Seq<char>>::empty());
        assert(words_of_all(texts.drop_last()) == Seq::<Seq<char>>::empty());
        assert(Seq::<Seq<char>>::empty() + words(texts[0]) == words(texts[0]));
    } else if texts.len() > 1 {
        let d = texts.drop_last();
        lemma_words_of_join(d);
        let j = join(d, seq![' ']);
        assert(j + seq![' '] + texts.last() == j.push(' ') + texts.last());
        lemma_words_split(j, ' ', texts.last());
    }
}

/// A heading's title is made of the words of its text nodes, node after
/// node, with one space between each two: no word is split, no words of
/// two nodes are run together, and no whitespace is left over.
pub proof fn lemma_title_words(texts: Seq<Seq<char>>)
    ensures
        words(title_text(texts)) == words_of_all(texts),
        title_text(texts) == join(words_of_all(texts), seq![' ']),
{
    lemma_words_of_join(texts);
    let ws = words(join(texts, seq![' ']));
    lemma_words(join(texts, seq![' ']));
    lemma_words_join(ws);
}

/// The heading of a parsed document, or nothing.
pub open spec fn heading_of(p: ParsedView) -> Seq<char> {
    match p.heading {
        Some(t) => title_text(t),
        None => Seq::empty(),
    }
}

/// The body text of a parsed document: the walk over the body, or all the
/// text under the root (`root_texts`) when there is no body, with blank
/// lines collapsed.
pub open spec fn body_text_of(p: ParsedView, root_texts: Seq<Seq<char>>) -> Seq<char> {
    match p.body {
        Some(es) => collapse_blanks_spec(walk_events(es).out),
        None => collapse_blanks_spec(concat_all(root_texts)),
    }
}

/// The body text of the document `html`.
pub open spec fn document_text(html: Seq<char>) -> Seq<char> {
    body_text_of(parsed_html(html, heading_selector(), body_selector()), root_texts_of(html))
}

/// The heading of the document `html`.
pub open spec fn document_heading(html: Seq<char>) -> Seq<char> {
    heading_of(parsed_html(html, heading_selector(), body_selector()))
}

/// The elements whose text titles a chapter.
pub open spec fn heading_selector() -> Seq<char> {
    "h1, h2, h3, h4, h5, h6, title"@
}

/// The element whose text is a chapter's text.
pub open spec fn body_selector() -> Seq<char> {
    "body"@
}

/// The characters of each string.
fn chars_of_all(v: &Vec<String>) -> (r: Vec<Vec<char>>)
    ensures
        r@.map_values(|p: Vec<char>| p@) == strs(v@),
{
    let mut r: Vec<Vec<char>> = Vec::new();
    let mut i: usize = 0;
    while i < v.len()
        invariant
            i <= v.len(),
            r@.map_values(|p: Vec<char>| p@) == strs(v@).take(i as int),
        decreases v.len() - i,
    {
        let c = to_chars(v[i].as_str());
        let ghost before = r@;
        r.push(c);
        assert(r@.map_values(|p: Vec<char>| p@) =~= before.map_values(|p: Vec<char>| p@).push(c@));
        assert(strs(v@).take(i + 1) =~= strs(v@).take(i as int).push(v@[i as int]@));
        i += 1;
    }
    assert(strs(v@).take(v.len() as int) =~= strs(v@));
    r
}

/// A title from text nodes, with whitespace normalised to single spaces.
pub fn title_from_texts(texts: &Vec<String>) -> (r: String)
    ensures
        r@ == title_text(strs(texts@)),
{
    let parts = chars_of_all(texts);
    let joined = join_with_space(&parts);
    let ws = split_words(&joined);
    let title = join_with_space(&ws);
    from_chars(title.as_slice())
}

/// All the strings one after the other.
fn concat_strings(v: &Vec<String>) -> (r: Vec<char>)
    ensures
        r@ == concat_all(strs(v@)),
{
    let mut r: Vec<char> = Vec::new();
    let mut i: usize = 0;
    while i < v.len()
        invariant
            i <= v.len(),
            r@ == concat_all(strs(v@).take(i as int)),
        decreases v.len() - i,
    {
        assert(strs(v@).take(i + 1).drop_last() == strs(v@).take(i as int));
        assert(strs(v@).take(i + 1).last() == v@[i as int]@);
        push_str(&mut r, &v[i]);
        i += 1;
    }
    assert(strs(v@).take(v.len() as int) == strs(v@));
    r
}

/// The heading and the body text of a parsed document: the heading is the
/// first heading's text with whitespace normalised (empty if there is
/// none); the body text has a line break at every block boundary, runs of
/// blank lines collapsed and no surrounding whitespace.
/// `root_texts` is the text under the root element; it is only read when
/// the document has no body.
pub fn text_of_parsed(p: &ParsedHtml, root_texts: &Vec<String>) -> (r: (String, String))
    ensures
        r.0@ == heading_of(p@),
        r.1@ == body_text_of(p@, strs(root_texts@)),
{
    let heading = match &p.heading {
        Some(texts) => title_from_texts(texts),
        None => String::new(),
    };
    let body = match &p.body {
        Some(events) => collect_block_text(events),
        None => {
            let raw = concat_strings(root_texts);
            collapse_blanks(&raw)
        },
    };
    (heading, from_chars(body.as_slice()))
}

/// The heading and the body text of the (X)HTML document `html`.
pub fn extract_text(html: &str) -> (r: (String, String))
    ensures
        r.0@ == document_heading(html@),
        r.1@ == document_text(html@),
{
    let parsed = parse_html(html, "h1, h2, h3, h4, h5, h6, title", "body");
    let texts = match &parsed.body {
        Some(_) => Vec::new(),
        None => root_texts(html),
    };
    text_of_parsed(&parsed, &texts)
}

} // verus!
