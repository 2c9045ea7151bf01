//! Books as lists of chapters, built from the documents of an EPUB or from
//! the single HTML document of a MOBI file, and the current reading
//! position among the chapters.

use vstd::prelude::*;

use crate::html::{
    body_children, body_children_of, body_selector, document_heading, document_text,
    extract_text, root_children, root_children_of, same_chars,
    title_from_texts, title_text, tops, TopNode, TopNodeView,
};
use crate::text::{all_ws, from_chars, is_blank, to_chars, trim, trim_chars};
use crate::wrap::{string_views, wrap_text, wrap_text_spec};

verus! {

// ── chapters ────────────────────────────────────────────────────────────

/// A single chapter / section extracted from the ebook.
pub struct Chapter {
    pub title: String,
    /// Clean plain-text content.
    pub text: String,
}

/// The model of a [`Chapter`].
pub struct ChapterView {
    pub title: Seq<char>,
    pub text: Seq<char>,
}

impl View for Chapter {
    type V = ChapterView;

    open spec fn view(&self) -> ChapterView {
        ChapterView { title: self.title@, text: self.text@ }
    }
}

impl Chapter {
    /// The chapter's text split into lines wrapped to `width` columns.
    pub fn wrapped_lines(&self, width: usize) -> (r: Vec<String>)
        ensures
            string_views(r@) == wrap_text_spec(self.text@, width as nat),
    {
        wrap_text(self.text.as_str(), width)
    }
}

/// The first 60 characters of `t` (all of them if there are fewer).
pub open spec fn preview(t: Seq<char>) -> Seq<char> {
    if t.len() <= 60 {
        t
    } else {
        t.take(60)
    }
}

/// The heading, or when it is empty the trimmed first 60 characters of the
/// text.
pub open spec fn fallback_title_spec(heading: Seq<char>, text: Seq<char>) -> Seq<char> {
    if heading.len() == 0 {
        trim(preview(text))
    } else {
        heading
    }
}

/// A chapter title: the heading, or when it is empty the beginning of the
/// text.
pub fn fallback_title(heading: String, text: &str) -> (r: String)
    ensures
        r@ == fallback_title_spec(heading@, text@),
{
    if heading.as_str().is_empty() {
        let cs = to_chars(text);
        let n: usize = if cs.len() <= 60 {
            cs.len()
        } else {
            60
        };
        let mut first: Vec<char> = Vec::new();
        let mut i: usize = 0;
        while i < n
            invariant
                i <= n <= cs.len(),
                first@ == cs@.take(i as int),
            decreases n - i,
        {
            first.push(cs[i]);
            i += 1;
        }
        assert(first@ == preview(text@));
        let t = trim_chars(&first);
        from_chars(t.as_slice())
    } else {
        heading
    }
}

/// The chapter made of an (X)HTML document: its body text, titled by its
/// first heading or the beginning of the text.
pub open spec fn chapter_of_html(html: Seq<char>) -> ChapterView {
    let text = document_text(html);
    ChapterView { title: fallback_title_spec(document_heading(html), text), text }
}

/// The views of a vector of chapters.
pub open spec fn chapter_views(v: Seq<Chapter>) -> Seq<ChapterView> {
    v.map_values(|c: Chapter| c@)
}

/// The chapter made of the document `html`.
fn chapter_from_html(html: &str) -> (r: Chapter)
    ensures
        r@ == chapter_of_html(html@),
{
    let (heading, text) = extract_text(html);
    let title = fallback_title(heading, text.as_str());
    Chapter { title, text }
}

// ── EPUB ────────────────────────────────────────────────────────────────

/// What an EPUB file holds, as read from its container.
pub struct EpubBook {
    /// The package metadata in document order: each item's property
    /// (`title`, `creator`, ...) and value.
    pub metadata: Vec<(String, String)>,
    /// The content of each spine item in reading order, if it could be read.
    pub documents: Vec<Option<String>>,
}

/// The views of metadata items.
pub open spec fn meta_views(v: Seq<(String, String)>) -> Seq<(Seq<char>, Seq<char>)> {
    v.map_values(|p: (String, String)| (p.0@, p.1@))
}

/// The value of the first metadata item with property `prop`.
pub open spec fn first_value(md: Seq<(Seq<char>, Seq<char>)>, prop: Seq<char>) -> Option<Seq<char>>
    decreases md.len(),
{
    if md.len() == 0 {
        None
    } else if md[0].0 == prop {
        Some(md[0].1)
    } else {
        first_value(md.drop_first(), prop)
    }
}

/// The value of the first metadata item with property `prop`.
pub fn first_metadata(md: &Vec<(String, String)>, prop: &str) -> (r: Option<String>)
    ensures
        match r {
            Some(v) => first_value(meta_views(md@), prop@) == Some(v@),
            None => first_value(meta_views(md@), prop@) is None,
        },
{
    let ghost mv = meta_views(md@);
    let p = prop.to_owned();
    let mut i: usize = 0;
    assert(mv.skip(0) == mv);
    while i < md.len()
        invariant
            i <= md.len(),
            mv == meta_views(md@),
            p@ == prop@,
            first_value(mv, prop@) == first_value(mv.skip(i as int), prop@),
        decreases md.len() - i,
    {
        assert(mv.skip(i as int)[0] == (md@[i as int].0@, md@[i as int].1@));
        if md[i].0 == p {
            return Some(md[i].1.clone());
        }
        assert(mv.skip(i as int).drop_first() == mv.skip(i + 1));
        i += 1;
    }
    None
}

/// The views of the documents.
pub open spec fn doc_views(v: Seq<Option<String>>) -> Seq<Option<Seq<char>>> {
    v.map_values(|d: Option<String>| match d {
        Some(s) => Some(s@),
        None => None,
    })
}

/// The chapters of the EPUB documents in order: one for each document that
/// could be read and holds more than whitespace.
pub open spec fn epub_chapters(docs: Seq<Option<Seq<char>>>) -> Seq<ChapterView>
    decreases docs.len(),
{
    if docs.len() == 0 {
        Seq::empty()
    } else {
        let prev = epub_chapters(docs.drop_last());
        match docs.last() {
            Some(h) => if all_ws(h) {
                prev
            } else {
                prev.push(chapter_of_html(h))
            },
            None => prev,
        }
    }
}

/// The title of an EPUB: its first `title` metadata, else the file name,
/// else "Unknown".
pub open spec fn epub_title(b: EpubBook, file_stem: Option<String>) -> Seq<char> {
    match first_value(meta_views(b.metadata@), "title"@) {
        Some(t) => t,
        None => match file_stem {
            Some(s) => s@,
            None => "Unknown"@,
        },
    }
}

/// The author of an EPUB: its first `creator` metadata, else empty.
pub open spec fn epub_author(b: EpubBook) -> Seq<char> {
    match first_value(meta_views(b.metadata@), "creator"@) {
        Some(a) => a,
        None => Seq::empty(),
    }
}

/// A string's view, or nothing.
pub open spec fn or_empty(s: Option<String>) -> Seq<char> {
    match s {
        Some(t) => t@,
        None => Seq::empty(),
    }
}

// ── MOBI ────────────────────────────────────────────────────────────────

/// What a MOBI file holds.
pub struct MobiBook {
    pub title: String,
    pub author: Option<String>,
    /// The whole book as one HTML document.
    pub html: String,
}

/// The nodes a MOBI document is split over: the children of its body, or
/// of its root element when it has no body.
pub open spec fn top_nodes_of(html: Seq<char>) -> Seq<TopNodeView> {
    match body_children_of(html, body_selector()) {
        Some(ns) => ns,
        None => root_children_of(html),
    }
}

/// Whether `t` is the name of a heading that starts a MOBI chapter.
pub open spec fn is_chapter_heading(t: Seq<char>) -> bool {
    t == seq!['h', '1'] || t == seq!['h', '2'] || t == seq!['h', '3']
}

/// Splitting a MOBI document: the chapters so far, the title of the one
/// being gathered and its HTML.
#[verifier::ext_equal]
pub struct Split {
    pub chapters: Seq<ChapterView>,
    pub title: Seq<char>,
    pub html: Seq<char>,
}

/// Whether a chapter is being gathered: it has a title or more than
/// whitespace.
pub open spec fn pending(s: Split) -> bool {
    !all_ws(s.html) || s.title.len() > 0
}

/// The chapters with the one being gathered added, if it has any text.
pub open spec fn flushed(s: Split) -> Seq<ChapterView> {
    let text = document_text(s.html);
    if all_ws(text) {
        s.chapters
    } else {
        s.chapters.push(
            ChapterView { title: fallback_title_spec(s.title, text), text: text },
        )
    }
}

/// One step of splitting: a heading ends the chapter being gathered and
/// starts one titled by its text; every element and text node adds to the
/// chapter being gathered.
pub open spec fn split_step(s: Split, n: TopNodeView) -> Split {
    match n {
        TopNodeView::Element { name, texts, html } => {
            let s1 = if is_chapter_heading(name) {
                if pending(s) {
                    Split { chapters: flushed(s), title: title_text(texts), html: Seq::empty() }
                } else {
                    Split { chapters: s.chapters, title: title_text(texts), html: s.html }
                }
            } else {
                s
            };
            Split { chapters: s1.chapters, title: s1.title, html: s1.html + html }
        },
        TopNodeView::Text(t) => Split { chapters: s.chapters, title: s.title, html: s.html + t },
        TopNodeView::Other => s,
    }
}

/// Splitting applied to the nodes in order.
pub open spec fn split_fold(ns: Seq<TopNodeView>) -> Split
    decreases ns.len(),
{
    if ns.len() == 0 {
        Split { chapters: Seq::empty(), title: Seq::empty(), html: Seq::empty() }
    } else {
        split_step(split_fold(ns.drop_last()), ns.last())
    }
}

/// The chapters of a MOBI document: split at its `h1`–`h3` headings; when
/// that gives none, the whole document as one chapter if it has any text.
pub open spec fn mobi_chapters(html: Seq<char>) -> Seq<ChapterView> {
    let s = split_fold(top_nodes_of(html));
    let chs = if pending(s) {
        flushed(s)
    } else {
        s.chapters
    };
    if chs.len() > 0 {
        chs
    } else {
        let c = chapter_of_html(html);
        if all_ws(c.text) {
            Seq::empty()
        } else {
            seq![c]
        }
    }
}

/// Every chapter has more than whitespace in it.
pub open spec fn all_have_text(chs: Seq<ChapterView>) -> bool {
    forall|k: int| 0 <= k < chs.len() ==> !all_ws(#[trigger] chs[k].text)
}

proof fn lemma_flushed_have_text(s: Split)
    requires
        all_have_text(s.chapters),
    ensures
        all_have_text(flushed(s)),
{
    let f = flushed(s);
    assert forall|k: int| 0 <= k < f.len() implies !all_ws(#[trigger] f[k].text) by {
        if k < s.chapters.len() {
            assert(f[k] == s.chapters[k]);
        }
    }
}

proof fn lemma_split_fold_have_text(ns: Seq<TopNodeView>)
    ensures
        all_have_text(split_fold(ns).chapters),
    decreases ns.len(),
{
    if ns.len() > 0 {
        let s = split_fold(ns.drop_last());
        lemma_split_fold_have_text(ns.drop_last());
        lemma_flushed_have_text(s);
    }
}

/// A MOBI book's chapters all have text: a heading with nothing after it
/// before the next one gives no chapter.
pub proof fn lemma_mobi_chapters_have_text(html: Seq<char>)
    ensures
        all_have_text(mobi_chapters(html)),
{
    let s = split_fold(top_nodes_of(html));
    lemma_split_fold_have_text(top_nodes_of(html));
    lemma_flushed_have_text(s);
}

/// What a top-level node adds to the HTML of the chapter being gathered:
/// an element's HTML, a text node's text, nothing for another node.
pub open spec fn node_html(n: TopNodeView) -> Seq<char> {
    match n {
        TopNodeView::Element { name, texts, html } => html,
        TopNodeView::Text(t) => t,
        TopNodeView::Other => Seq::empty(),
    }
}

/// What the nodes add, one after the other.
pub open spec fn nodes_html(ns: Seq<TopNodeView>) -> Seq<char>
    decreases ns.len(),
{
    if ns.len() == 0 {
        Seq::empty()
    } else {
        nodes_html(ns.drop_last()) + node_html(ns.last())
    }
}

/// Whether `n` is an `h1`–`h3` element, which starts a chapter.
pub open spec fn is_heading_node(n: TopNodeView) -> bool {
    match n {
        TopNodeView::Element { name, texts, html } => is_chapter_heading(name),
        _ => false,
    }
}

/// Splitting loses nothing between headings: after any nodes `pre`, nodes
/// that are not `h1`–`h3` headings (elements and text nodes alike) are
/// gathered whole, in order, into the chapter being built, and leave the
/// finished chapters and the title alone.
pub proof fn lemma_split_gathers(pre: Seq<TopNodeView>, rest: Seq<TopNodeView>)
    requires
        forall|k: int| 0 <= k < rest.len() ==> !is_heading_node(#[trigger] rest[k]),
    ensures
        split_fold(pre + rest) == (Split {
            chapters: split_fold(pre).chapters,
            title: split_fold(pre).title,
            html: split_fold(pre).html + nodes_html(rest),
        }),
    decreases rest.len(),
{
    if rest.len() == 0 {
        assert(pre + rest == pre);
        assert(split_fold(pre).html + nodes_html(rest) == split_fold(pre).html);
        assert(split_fold(pre) =~= (Split {
            chapters: split_fold(pre).chapters,
            title: split_fold(pre).title,
            html: split_fold(pre).html + nodes_html(rest),
        }));
    } else {
        let r = rest.drop_last();
        assert forall|k: int| 0 <= k < r.len() implies !is_heading_node(#[trigger] r[k]) by {
            assert(r[k] == rest[k]);
        }
        lemma_split_gathers(pre, r);
        assert((pre + rest).drop_last() == pre + r);
        assert((pre + rest).last() == rest.last());
        assert(!is_heading_node(rest[rest.len() - 1]));
        assert(split_fold(pre).html + nodes_html(r) + node_html(rest.last()) == split_fold(pre).html
            + nodes_html(rest));
    }
}

proof fn lemma_nodes_html_skip(ns: Seq<TopNodeView>, k: int)
    requires
        0 <= k < ns.len(),
    ensures
        nodes_html(ns.skip(k)) == nodes_html(ns.drop_last().skip(k)) + node_html(ns.last()),
{
    assert(ns.skip(k).drop_last() == ns.drop_last().skip(k));
    assert(ns.skip(k).last() == ns.last());
}

/// The index of the last `h1`–`h3` heading among the nodes, or -1.
pub open spec fn last_heading(ns: Seq<TopNodeView>) -> int
    decreases ns.len(),
{
    if ns.len() == 0 {
        -1
    } else if is_heading_node(ns.last()) {
        ns.len() - 1
    } else {
        last_heading(ns.drop_last())
    }
}

/// The title a heading node gives: the words of its text.
pub open spec fn heading_title(n: TopNodeView) -> Seq<char> {
    match n {
        TopNodeView::Element { name, texts, html } => title_text(texts),
        _ => Seq::empty(),
    }
}

/// The chapter being built: before any heading, it is untitled, nothing is
/// finished yet and it holds everything the nodes add. After a heading it
/// is titled by the last heading, and holds exactly what the nodes add from
/// some node on, that heading included.
pub proof fn lemma_split_current(ns: Seq<TopNodeView>)
    ensures
        ({
            let s = split_fold(ns);
            let j = last_heading(ns);
            &&& -1 <= j < ns.len()
            &&& j < 0 ==> s.title.len() == 0 && s.chapters.len() == 0 && s.html == nodes_html(ns)
            &&& j >= 0 ==> s.title == heading_title(ns[j]) && exists|k: int|
                0 <= k <= j && s.html == nodes_html(#[trigger] ns.skip(k))
        }),
    decreases ns.len(),
{
    if ns.len() > 0 {
        let d = ns.drop_last();
        lemma_split_current(d);
        let sd = split_fold(d);
        let jd = last_heading(d);
        let n = ns.last();
        let last = ns.len() - 1;
        lemma_nodes_html_skip(ns, last);
        assert(d.skip(last).len() == 0);
        assert(nodes_html(d.skip(last)) == Seq::<char>::empty());
        assert(ns[last] == n);
        if jd >= 0 {
            assert(ns[jd] == d[jd]);
        }
        let k: int = if jd >= 0 {
            choose|k: int| 0 <= k <= jd && sd.html == nodes_html(#[trigger] d.skip(k))
        } else {
            0
        };
        assert(d.skip(0) == d);
        assert(ns.skip(0) == ns);
        lemma_nodes_html_skip(ns, k);
        if is_heading_node(n) {
            if pending(sd) {
                assert(split_fold(ns).html == nodes_html(ns.skip(last)));
            } else {
                assert(split_fold(ns).html == nodes_html(ns.skip(k)));
            }
        } else {
            match n {
                TopNodeView::Other => {
                    assert(sd.html + node_html(n) == sd.html);
                },
                _ => {},
            }
            assert(split_fold(ns).html == nodes_html(ns.skip(k)));
        }
    }
}

/// Appends the characters of `s` to `out`.
fn push_chars(out: &mut Vec<char>, s: &str)
    ensures
        final(out)@ == old(out)@ + s@,
{
    let mut cs = to_chars(s);
    out.append(&mut cs);
}

/// Adds the chapter being gathered, if it has any text.
fn flush(chapters: &mut Vec<Chapter>, title: String, html: &Vec<char>)
    ensures
        chapter_views(final(chapters)@) == flushed(
            Split { chapters: chapter_views(old(chapters)@), title: title@, html: html@ },
        ),
{
    let h = from_chars(html.as_slice());
    let (_, text) = extract_text(h.as_str());
    let tc = to_chars(text.as_str());
    if !is_blank(&tc) {
        let t = fallback_title(title, text.as_str());
        let ghost before = chapter_views(chapters@);
        let c = Chapter { title: t, text };
        chapters.push(c);
        assert(chapter_views(chapters@) =~= before.push(c@));
    }
}

/// Whether the element name starts a MOBI chapter.
fn is_heading_name(name: &String) -> (r: bool)
    ensures
        r == is_chapter_heading(name@),
{
    let t = to_chars(name.as_str());
    let h1: [char; 2] = ['h', '1'];
    let h2: [char; 2] = ['h', '2'];
    let h3: [char; 2] = ['h', '3'];
    assert(h1@ =~= seq!['h', '1']);
    assert(h2@ =~= seq!['h', '2']);
    assert(h3@ =~= seq!['h', '3']);
    same_chars(&t, &h1) || same_chars(&t, &h2) || same_chars(&t, &h3)
}

/// Splits a MOBI HTML document into pseudo-chapters at its `h1`–`h3`
/// headings.
pub fn split_mobi_into_chapters(html: &str) -> (r: Vec<Chapter>)
    ensures
        chapter_views(r@) == mobi_chapters(html@),
{
    let nodes = match body_children(html, "body") {
        Some(ns) => ns,
        None => root_children(html),
    };
    let ghost ns = tops(nodes@);
    let mut chapters: Vec<Chapter> = Vec::new();
    let mut current_title = String::new();
    let mut current_html: Vec<char> = Vec::new();
    let mut i: usize = 0;
    assert(ns.take(0) == Seq::<TopNodeView>::empty());
    while i < nodes.len()
        invariant
            i <= nodes.len(),
            ns == tops(nodes@),
            ns == top_nodes_of(html@),
            split_fold(ns.take(i as int)) == (Split {
                chapters: chapter_views(chapters@),
                title: current_title@,
                html: current_html@,
            }),
        decreases nodes.len() - i,
    {
        assert(ns.take(i + 1).drop_last() == ns.take(i as int));
        assert(ns.take(i + 1).last() == nodes@[i as int]@);
        let ghost s0 = Split {
            chapters: chapter_views(chapters@),
            title: current_title@,
            html: current_html@,
        };
        match &nodes[i] {
            TopNode::Element { name, texts, html: el_html } => {
                if is_heading_name(name) {
                    let blank = is_blank(&current_html);
                    if !blank || !current_title.as_str().is_empty() {
                        let mut taken = String::new();
                        std::mem::swap(&mut taken, &mut current_title);
                        flush(&mut chapters, taken, &current_html);
                        current_html = Vec::new();
                    }
                    current_title = title_from_texts(texts);
                }
                push_chars(&mut current_html, el_html.as_str());
            },
            TopNode::Text(t) => {
                push_chars(&mut current_html, t.as_str());
            },
            TopNode::Other => {},
        }
        assert(split_step(s0, nodes@[i as int]@) =~= (Split {
            chapters: chapter_views(chapters@),
            title: current_title@,
            html: current_html@,
        }));
        i += 1;
    }
    assert(ns.take(nodes.len() as int) == ns);
    if !is_blank(&current_html) || !current_title.as_str().is_empty() {
        flush(&mut chapters, current_title, &current_html);
    }
    if chapters.len() == 0 {
        let c = chapter_from_html(html);
        let tc = to_chars(c.text.as_str());
        if !is_blank(&tc) {
            chapters.push(c);
            assert(chapter_views(chapters@) =~= seq![c@]);
        }
    }
    chapters
}

// ── the reader ──────────────────────────────────────────────────────────

/// Why a file could not be opened as a book.
#[derive(PartialEq, Eq, Structural, Debug, Clone, Copy)]
pub enum OpenError {
    /// The EPUB has no document with readable content.
    EpubNoContent,
    /// The file is not a MOBI file either.
    MobiUnreadable,
    /// The MOBI file has no readable content.
    MobiNoContent,
}

/// What the first step of opening a file gives.
pub enum Opening {
    /// The file is an EPUB with readable content.
    Book(Reader),
    /// The file is to be read as a MOBI file next.
    ReadAsMobi,
}

/// Holds parsed chapter content and tracks the current reading position.
pub struct Reader {
    pub title: String,
    pub author: String,
    chapters: Vec<Chapter>,
    chapter_idx: usize,
}

impl Reader {
    /// The chapters, in reading order.
    pub closed spec fn chapters_view(&self) -> Seq<ChapterView> {
        chapter_views(self.chapters@)
    }

    /// The index of the current chapter.
    pub closed spec fn index(&self) -> int {
        self.chapter_idx as int
    }

    /// The book's title.
    pub closed spec fn title_view(&self) -> Seq<char> {
        self.title@
    }

    /// The book's author.
    pub closed spec fn author_view(&self) -> Seq<char> {
        self.author@
    }

    /// The book's title.
    pub fn title(&self) -> (r: &String)
        ensures
            r@ == self.title_view(),
    {
        &self.title
    }

    /// The book's author (empty if unknown).
    pub fn author(&self) -> (r: &String)
        ensures
            r@ == self.author_view(),
    {
        &self.author
    }

    /// A chapter index is a machine-sized natural number.
    pub proof fn lemma_index_range(&self)
        ensures
            0 <= self.index() <= usize::MAX,
    {
    }

    /// The reader is at one of its chapters (so it has at least one).
    pub open spec fn wf(&self) -> bool {
        0 <= self.index() < self.chapters_view().len()
    }

    /// A reader at the first of the chapters, which must not be empty.
    fn at_start(title: String, author: String, chapters: Vec<Chapter>) -> (r: Reader)
        requires
            chapters.len() > 0,
        ensures
            r.wf(),
            r.title_view() == title@,
            r.author_view() == author@,
            r.chapters_view() == chapter_views(chapters@),
            r.index() == 0,
    {
        Reader { title, author, chapters, chapter_idx: 0 }
    }

    /// The book made of the documents of an EPUB: one chapter for each
    /// document with readable content, titled by its first heading or the
    /// beginning of its text. The book is titled by its `title` metadata,
    /// else by `file_stem` (the file name without extension), else
    /// "Unknown". Fails when there is no readable document.
    pub fn from_epub(book: EpubBook, file_stem: Option<String>) -> (r: Result<Reader, OpenError>)
        ensures
            match r {
                Ok(rd) => {
                    &&& epub_chapters(doc_views(book.documents@)).len() > 0
                    &&& rd.wf()
                    &&& rd.chapters_view() == epub_chapters(doc_views(book.documents@))
                    &&& rd.title_view() == epub_title(book, file_stem)
                    &&& rd.author_view() == epub_author(book)
                    &&& rd.index() == 0
                },
                Err(e) => e == OpenError::EpubNoContent && epub_chapters(
                    doc_views(book.documents@),
                ).len() == 0,
            },
    {
        let title = match first_metadata(&book.metadata, "title") {
            Some(t) => t,
            None => match file_stem {
                Some(s) => s,
                None => "Unknown".to_owned(),
            },
        };
        let author = match first_metadata(&book.metadata, "creator") {
            Some(a) => a,
            None => String::new(),
        };
        let docs = &book.documents;
        let ghost dv = doc_views(docs@);
        let mut chapters: Vec<Chapter> = Vec::new();
        let mut i: usize = 0;
        assert(dv.take(0) == Seq::<Option<Seq<char>>>::empty());
        while i < docs.len()
            invariant
                i <= docs.len(),
                dv == doc_views(docs@),
                chapter_views(chapters@) == epub_chapters(dv.take(i as int)),
            decreases docs.len() - i,
        {
            assert(dv.take(i + 1).drop_last() == dv.take(i as int));
            assert(dv.take(i + 1).last() == dv[i as int]);
            match &docs[i] {
                Some(h) => {
                    let hc = to_chars(h.as_str());
                    if !is_blank(&hc) {
                        let c = chapter_from_html(h.as_str());
                        let ghost before = chapter_views(chapters@);
                        chapters.push(c);
                        assert(chapter_views(chapters@) =~= before.push(c@));
                    }
                },
                None => {},
            }
            i += 1;
        }
        assert(dv.take(docs.len() as int) == dv);
        if chapters.len() == 0 {
            return Err(OpenError::EpubNoContent);
        }
        Ok(Reader::at_start(title, author, chapters))
    }

    /// The book made of the HTML document of a MOBI file, split into
    /// chapters at its `h1`–`h3` headings. Fails when it has no readable
    /// content.
    pub fn from_mobi(book: MobiBook) -> (r: Result<Reader, OpenError>)
        ensures
            match r {
                Ok(rd) => {
                    &&& mobi_chapters(book.html@).len() > 0
                    &&& rd.wf()
                    &&& rd.chapters_view() == mobi_chapters(book.html@)
                    &&& rd.title_view() == book.title@
                    &&& rd.author_view() == or_empty(book.author)
                    &&& rd.index() == 0
                },
                Err(e) => e == OpenError::MobiNoContent && mobi_chapters(book.html@).len() == 0,
            },
    {
        let chapters = split_mobi_into_chapters(book.html.as_str());
        if chapters.len() == 0 {
            return Err(OpenError::MobiNoContent);
        }
        let author = match book.author {
            Some(a) => a,
            None => String::new(),
        };
        Ok(Reader::at_start(book.title, author, chapters))
    }

    /// The first step of opening a file: the book, if the file is an EPUB
    /// (`epub` is what its container holds, `None` if it is not one) with
    /// readable content; otherwise the file is to be read as a MOBI file
    /// and given to [`Reader::open_mobi`].
    pub fn open(epub: Option<EpubBook>, file_stem: Option<String>) -> (r: Opening)
        ensures
            ({
                let from_epub = match epub {
                    Some(b) => epub_chapters(doc_views(b.documents@)).len() > 0,
                    None => false,
                };
                match r {
                    Opening::Book(rd) => {
                        &&& from_epub
                        &&& rd.wf()
                        &&& rd.index() == 0
                        &&& rd.chapters_view() == epub_chapters(doc_views(epub->0.documents@))
                        &&& rd.title_view() == epub_title(epub->0, file_stem)
                        &&& rd.author_view() == epub_author(epub->0)
                    },
                    Opening::ReadAsMobi => !from_epub,
                }
            }),
    {
        if let Some(book) = epub {
            if let Ok(reader) = Reader::from_epub(book, file_stem) {
                return Opening::Book(reader);
            }
        }
        Opening::ReadAsMobi
    }

    /// The second step of opening a file that is not a readable EPUB: the
    /// book made of `mobi`, what the file holds as a MOBI file (`None` if it
    /// is not one).
    pub fn open_mobi(mobi: Option<MobiBook>) -> (r: Result<Reader, OpenError>)
        ensures
            match r {
                Ok(rd) => {
                    &&& mobi is Some
                    &&& rd.wf()
                    &&& rd.index() == 0
                    &&& rd.chapters_view() == mobi_chapters(mobi->0.html@)
                    &&& rd.title_view() == mobi->0.title@
                    &&& rd.author_view() == or_empty(mobi->0.author)
                },
                Err(e) => {
                    &&& mobi is None ==> e == OpenError::MobiUnreadable
                    &&& mobi is Some ==> e == OpenError::MobiNoContent && mobi_chapters(
                        mobi->0.html@,
                    ).len() == 0
                },
            },
    {
        match mobi {
            Some(book) => Reader::from_mobi(book),
            None => Err(OpenError::MobiUnreadable),
        }
    }

    pub fn chapter_count(&self) -> (r: usize)
        ensures
            r == self.chapters_view().len(),
    {
        self.chapters.len()
    }

    pub fn current_chapter_index(&self) -> (r: usize)
        ensures
            r == self.index(),
    {
        self.chapter_idx
    }

    pub fn current_chapter(&self) -> (r: Option<&Chapter>)
        ensures
            match r {
                Some(c) => 0 <= self.index() < self.chapters_view().len() && c@
                    == self.chapters_view()[self.index()],
                None => !(self.index() < self.chapters_view().len()),
            },
    {
        if self.chapter_idx < self.chapters.len() {
            Some(&self.chapters[self.chapter_idx])
        } else {
            None
        }
    }

    /// Moves to chapter `idx` if there is one; otherwise nothing changes.
    pub fn set_chapter(&mut self, idx: usize)
        ensures
            old(self).wf() ==> final(self).wf(),
            final(self).chapters_view() == old(self).chapters_view(),
            final(self).title_view() == old(self).title_view(),
            final(self).author_view() == old(self).author_view(),
            final(self).index() == if idx < old(self).chapters_view().len() {
                idx as int
            } else {
                old(self).index()
            },
    {
        if idx < self.chapters.len() {
            self.chapter_idx = idx;
        }
    }

    /// Moves to the next chapter if there is one, and says whether it did.
    pub fn next_chapter(&mut self) -> (moved: bool)
        ensures
            old(self).wf() ==> final(self).wf(),
            final(self).chapters_view() == old(self).chapters_view(),
            final(self).title_view() == old(self).title_view(),
            final(self).author_view() == old(self).author_view(),
            moved == (old(self).index() + 1 < old(self).chapters_view().len()),
            final(self).index() == if moved {
                old(self).index() + 1
            } else {
                old(self).index()
            },
    {
        if self.chapters.len() > 0 && self.chapter_idx < self.chapters.len() - 1 {
            self.chapter_idx += 1;
            true
        } else {
            false
        }
    }

    /// Moves to the previous chapter if there is one, and says whether it
    /// did.
    pub fn prev_chapter(&mut self) -> (moved: bool)
        ensures
            old(self).wf() ==> final(self).wf(),
            final(self).chapters_view() == old(self).chapters_view(),
            final(self).title_view() == old(self).title_view(),
            final(self).author_view() == old(self).author_view(),
            moved == (old(self).index() > 0),
            final(self).index() == if moved {
                old(self).index() - 1
            } else {
                old(self).index()
            },
    {
        if self.chapter_idx > 0 {
            self.chapter_idx -= 1;
            true
        } else {
            false
        }
    }
}

} // verus!
