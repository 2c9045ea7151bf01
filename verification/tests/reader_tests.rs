use rereader::reader::{fallback_title, first_metadata, split_mobi_into_chapters, Chapter, EpubBook, MobiBook, OpenError, Opening, Reader};

fn meta(items: &[(&str, &str)]) -> Vec<(String, String)> {
    items.iter().map(|(p, v)| (p.to_string(), v.to_string())).collect()
}

fn epub(docs: Vec<Option<&str>>) -> EpubBook {
    EpubBook {
        metadata: meta(&[("language", "en"), ("title", "Book"), ("creator", "Ann"), ("title", "Second")]),
        documents: docs.into_iter().map(|d| d.map(String::from)).collect(),
    }
}

fn stem() -> Option<String> {
    Some("file".to_string())
}

#[test]
fn fallback_title_prefers_heading() {
    assert_eq!(fallback_title("Head".to_string(), "text"), "Head");
    assert_eq!(fallback_title(String::new(), "  text  "), "text");
    let long = "x".repeat(70);
    assert_eq!(fallback_title(String::new(), &long), "x".repeat(60));
    assert_eq!(fallback_title(String::new(), ""), "");
}

#[test]
fn mobi_splits_at_headings() {
    let html = "<html><body><p>Intro</p><h1>One</h1><p>Alpha</p><h2>Two</h2><p>Beta</p></body></html>";
    let chs: Vec<(String, String)> = split_mobi_into_chapters(html).into_iter().map(|c| (c.title, c.text)).collect();
    assert_eq!(
        chs,
        vec![
            ("Intro".to_string(), "Intro".to_string()),
            ("One".to_string(), "One\nAlpha".to_string()),
            ("Two".to_string(), "Two\nBeta".to_string()),
        ]
    );
}

#[test]
fn mobi_h4_does_not_split() {
    let html = "<body><h4>Sub</h4><p>a</p><h3>Three</h3><p>b</p></body>";
    let chs: Vec<(String, String)> = split_mobi_into_chapters(html).into_iter().map(|c| (c.title, c.text)).collect();
    assert_eq!(
        chs,
        vec![("Sub\na".to_string(), "Sub\na".to_string()), ("Three".to_string(), "Three\nb".to_string())]
    );
}

#[test]
fn mobi_skips_chapters_without_text() {
    let html = "<body><h1></h1><h1>Real</h1><p>text</p></body>";
    let chs: Vec<(String, String)> = split_mobi_into_chapters(html).into_iter().map(|c| (c.title, c.text)).collect();
    assert_eq!(chs, vec![("Real".to_string(), "Real\ntext".to_string())]);
}

#[test]
fn mobi_without_headings_is_one_chapter() {
    let chs: Vec<Chapter> = split_mobi_into_chapters("<body>plain words</body>");
    assert_eq!(chs.len(), 1);
    assert_eq!(chs[0].title, "plain words");
    assert_eq!(chs[0].text, "plain words");
    assert!(split_mobi_into_chapters("<body>  </body>").is_empty());
}

#[test]
fn epub_keeps_readable_documents_in_order() {
    let mut r = Reader::from_epub(epub(vec![
        Some("<body><h1>First</h1><p>one</p></body>"),
        None,
        Some("   "),
        Some("<body><p>second text</p></body>"),
    ]), stem())
    .unwrap();
    assert_eq!(r.chapter_count(), 2);
    assert_eq!(r.current_chapter_index(), 0);
    assert_eq!(r.title(), "Book");
    assert_eq!(r.author(), "Ann");
    let c = r.current_chapter().unwrap();
    assert_eq!((c.title.as_str(), c.text.as_str()), ("First", "First\none"));
    assert!(r.next_chapter());
    let c = r.current_chapter().unwrap();
    assert_eq!((c.title.as_str(), c.text.as_str()), ("second text", "second text"));
}

#[test]
fn epub_document_without_text_is_still_a_chapter() {
    let r = Reader::from_epub(epub(vec![Some("<body><img src='x'></body>")]), stem()).unwrap();
    assert_eq!(r.chapter_count(), 1);
    assert_eq!(r.current_chapter().unwrap().text, "");
}

#[test]
fn epub_title_falls_back_to_file_name_then_unknown() {
    let mut b = epub(vec![Some("<p>x</p>")]);
    b.metadata = meta(&[("language", "en")]);
    assert_eq!(Reader::from_epub(b, stem()).unwrap().title(), "file");
    let mut b = epub(vec![Some("<p>x</p>")]);
    b.metadata = Vec::new();
    let r = Reader::from_epub(b, None).unwrap();
    assert_eq!(r.title(), "Unknown");
    assert_eq!(r.author(), "");
}

#[test]
fn first_metadata_picks_the_first_match() {
    let md = meta(&[("title", "A"), ("creator", "C"), ("title", "B")]);
    assert_eq!(first_metadata(&md, "title"), Some("A".to_string()));
    assert_eq!(first_metadata(&md, "creator"), Some("C".to_string()));
    assert_eq!(first_metadata(&md, "language"), None);
}

#[test]
fn epub_without_content_is_refused() {
    assert_eq!(Reader::from_epub(epub(vec![None, Some(" \n ")]), stem()).err(), Some(OpenError::EpubNoContent));
}

#[test]
fn open_asks_for_mobi_when_not_a_readable_epub() {
    assert!(matches!(Reader::open(None, stem()), Opening::ReadAsMobi));
    assert!(matches!(Reader::open(Some(epub(vec![None])), stem()), Opening::ReadAsMobi));
    let mobi = MobiBook { title: "M".to_string(), author: None, html: "<body><h1>A</h1><p>b</p></body>".to_string() };
    let r = Reader::open_mobi(Some(mobi)).unwrap();
    assert_eq!(r.title(), "M");
    assert_eq!(r.chapter_count(), 1);
    assert_eq!(r.current_chapter().unwrap().text, "A\nb");
}

#[test]
fn open_prefers_epub() {
    match Reader::open(Some(epub(vec![Some("<p>e</p>")])), stem()) {
        Opening::Book(r) => {
            assert_eq!(r.title(), "Book");
            assert_eq!(r.author(), "Ann");
        }
        Opening::ReadAsMobi => panic!("expected an EPUB book"),
    }
}

#[test]
fn open_errors() {
    assert_eq!(Reader::open_mobi(None).err(), Some(OpenError::MobiUnreadable));
    let empty = MobiBook { title: "M".to_string(), author: None, html: "<html><body></body></html>".to_string() };
    assert_eq!(Reader::open_mobi(Some(empty)).err(), Some(OpenError::MobiNoContent));
    let empty = MobiBook { title: "M".to_string(), author: None, html: String::new() };
    assert_eq!(Reader::from_mobi(empty).err(), Some(OpenError::MobiNoContent));
}

#[test]
fn navigation_stays_within_the_book() {
    let mut r = Reader::from_epub(epub(vec![Some("<p>a</p>"), Some("<p>b</p>"), Some("<p>c</p>")]), stem()).unwrap();
    assert!(!r.prev_chapter());
    assert_eq!(r.current_chapter_index(), 0);
    assert!(r.next_chapter());
    assert!(r.next_chapter());
    assert_eq!(r.current_chapter().unwrap().text, "c");
    assert!(!r.next_chapter());
    assert_eq!(r.current_chapter_index(), 2);
    assert!(r.prev_chapter());
    assert_eq!(r.current_chapter_index(), 1);
    r.set_chapter(7);
    assert_eq!(r.current_chapter_index(), 1);
    r.set_chapter(0);
    assert_eq!(r.current_chapter_index(), 0);
}

#[test]
fn chapter_wraps_its_text() {
    let c = Chapter { title: "t".to_string(), text: "aa bb cc\n\ndd".to_string() };
    assert_eq!(c.wrapped_lines(5), vec!["aa bb", "cc", "", "dd"]);
}

#[test]
fn mobi_without_body_splits_the_root_children() {
    let html = "<html><head><title>T</title></head><frameset></frameset></html>";
    let chs: Vec<(String, String)> = split_mobi_into_chapters(html).into_iter().map(|c| (c.title, c.text)).collect();
    assert_eq!(chs, vec![("T".to_string(), "T".to_string())]);
}
