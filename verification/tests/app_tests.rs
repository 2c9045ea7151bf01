use rereader::app::{key_action, Action, App, Key};
use rereader::reader::{EpubBook, Reader};
use rereader::state::StateManager;

fn book_of(documents: Vec<Option<String>>) -> Reader {
    Reader::from_epub(
        EpubBook {
            metadata: vec![("title".to_string(), "Book".to_string()), ("creator".to_string(), "Ann".to_string())],
            documents,
        },
        None,
    )
    .unwrap()
}

fn book() -> Reader {
    book_of(vec![
        Some("<body><p>l1</p><p>l2</p><p>l3</p><p>l4</p><p>l5</p></body>".to_string()),
        Some("<body><h1>Two</h1><p>m1</p><p>m2</p></body>".to_string()),
    ])
}

fn long_book() -> Reader {
    let paras: String = (1..=30).map(|i| format!("<p>line {i}</p>")).collect();
    book_of(vec![Some(format!("<body>{paras}</body>"))])
}

#[test]
fn d_and_u_scroll_a_page_like_page_down_and_page_up() {
    let mut app = App::open("/books/long.epub".to_string(), long_book(), StateManager::new("p".to_string(), None));
    assert_eq!(app.max_scroll(), 29);
    assert!(!app.handle_key(Key::Char('d')));
    assert_eq!(app.scroll_offset(), 20);
    app.handle_key(Key::Char('d'));
    assert_eq!(app.scroll_offset(), 29);
    app.handle_key(Key::Char('u'));
    assert_eq!(app.scroll_offset(), 9);
    app.handle_key(Key::Char('u'));
    assert_eq!(app.scroll_offset(), 0);
    app.handle_key(Key::PageDown);
    assert_eq!(app.scroll_offset(), 20);
    app.handle_key(Key::PageUp);
    assert_eq!(app.scroll_offset(), 0);
    assert!(key_action(&Key::Char('d')) == key_action(&Key::PageDown));
    assert!(key_action(&Key::Char('u')) == key_action(&Key::PageUp));
    assert_eq!(app.chapter_index(), 0);
}

fn fresh() -> App {
    App::open("/books/a.epub".to_string(), book(), StateManager::new("p".to_string(), None))
}

#[test]
fn opens_at_the_start_without_saved_position() {
    let app = fresh();
    assert_eq!(app.chapter_index(), 0);
    assert_eq!(app.scroll_offset(), 0);
    assert_eq!(app.chapter_count(), 2);
    assert_eq!(app.title(), "Book");
    assert_eq!(app.author(), "Ann");
    assert_eq!(app.max_scroll(), 4);
    assert_eq!(app.current_chapter().unwrap().text, "l1\nl2\nl3\nl4\nl5");
}

#[test]
fn keys_scroll_within_the_chapter() {
    let mut app = fresh();
    assert!(!app.handle_key(Key::Char('j')));
    assert_eq!(app.scroll_offset(), 1);
    app.handle_key(Key::Char('G'));
    assert_eq!(app.scroll_offset(), 4);
    app.handle_key(Key::Down);
    assert_eq!(app.scroll_offset(), 4);
    app.handle_key(Key::Char('k'));
    assert_eq!(app.scroll_offset(), 3);
    app.handle_key(Key::Char('u'));
    assert_eq!(app.scroll_offset(), 0);
    app.handle_key(Key::Char('d'));
    assert_eq!(app.scroll_offset(), 4);
    app.handle_key(Key::Home);
    assert_eq!(app.scroll_offset(), 0);
    app.handle_key(Key::PageDown);
    assert_eq!(app.scroll_offset(), 4);
    app.handle_key(Key::PageUp);
    assert_eq!(app.scroll_offset(), 0);
    app.handle_key(Key::End);
    assert_eq!(app.scroll_offset(), 4);
    app.handle_key(Key::Char('g'));
    assert_eq!(app.scroll_offset(), 0);
}

#[test]
fn keys_change_chapter() {
    let mut app = fresh();
    app.handle_key(Key::Char('j'));
    app.handle_key(Key::Char('n'));
    assert_eq!((app.chapter_index(), app.scroll_offset()), (1, 0));
    assert_eq!(app.current_chapter().unwrap().title, "Two");
    app.handle_key(Key::Right);
    assert_eq!((app.chapter_index(), app.scroll_offset()), (1, 0));
    app.handle_key(Key::Char('p'));
    assert_eq!((app.chapter_index(), app.scroll_offset()), (0, 4));
    app.handle_key(Key::Left);
    assert_eq!((app.chapter_index(), app.scroll_offset()), (0, 4));
    app.handle_key(Key::Char('N'));
    assert_eq!(app.chapter_index(), 1);
    app.handle_key(Key::Char('P'));
    assert_eq!(app.chapter_index(), 0);
}

#[test]
fn quit_keys_and_other_keys() {
    let mut app = fresh();
    assert!(app.handle_key(Key::Char('q')));
    assert!(app.handle_key(Key::Esc));
    assert!(!app.handle_key(Key::Char('x')));
    assert!(!app.handle_key(Key::Other));
    assert_eq!((app.chapter_index(), app.scroll_offset()), (0, 0));
    assert!(key_action(&Key::Char('q')) == Action::Quit);
    assert!(key_action(&Key::PageDown) == Action::ScrollDown(20));
    assert!(key_action(&Key::Char('Q')) == Action::Nothing);
}

#[test]
fn reopening_restores_the_saved_position() {
    let mut app = fresh();
    app.handle_key(Key::Char('n'));
    app.handle_key(Key::Char('j'));
    app.save_state(42);
    let saved = app.state_manager().load("/books/a.epub").unwrap();
    assert_eq!((saved.chapter_index, saved.scroll_offset, saved.title.as_str(), saved.timestamp), (1, 1, "Book", 42));
    let mgr = StateManager::new("p".to_string(), Some(rereader::state::ProgressDb::from_entries(vec![(
        "/books/a.epub".to_string(),
        saved,
    )])));
    let again = App::open("/books/a.epub".to_string(), book(), mgr);
    assert_eq!((again.chapter_index(), again.scroll_offset()), (1, 1));
}

#[test]
fn saved_position_for_another_book_is_ignored() {
    let mut m = StateManager::new("p".to_string(), None);
    m.save("/books/b.epub", 1, 1, "B", 0);
    let app = App::open("/books/a.epub".to_string(), book(), m);
    assert_eq!((app.chapter_index(), app.scroll_offset()), (0, 0));
}

#[test]
fn saved_chapter_past_the_end_starts_at_the_top() {
    let mut m = StateManager::new("p".to_string(), None);
    m.save("/books/a.epub", 9, 3, "Book", 0);
    let app = App::open("/books/a.epub".to_string(), book(), m);
    assert_eq!((app.chapter_index(), app.scroll_offset()), (0, 0));
}

#[test]
fn saved_scroll_past_the_end_is_clamped() {
    let mut m = StateManager::new("p".to_string(), None);
    m.save("/books/a.epub", 0, 99, "Book", 0);
    let app = App::open("/books/a.epub".to_string(), book(), m);
    assert_eq!((app.chapter_index(), app.scroll_offset()), (0, 4));
}

#[test]
fn visible_lines_start_at_the_scroll_position() {
    let mut app = fresh();
    app.scroll_down(3);
    assert_eq!(app.visible_lines(80).unwrap(), vec!["l4", "l5"]);
    app.scroll = 50;
    assert_eq!(app.visible_lines(80).unwrap(), vec!["l5"]);
}

#[test]
fn direct_scrolling() {
    let mut app = fresh();
    app.page_down();
    assert_eq!(app.scroll_offset(), 4);
    app.scroll_up(10);
    assert_eq!(app.scroll_offset(), 0);
    app.scroll_to_bottom();
    assert_eq!(app.scroll_offset(), 4);
    app.page_up();
    assert_eq!(app.scroll_offset(), 0);
    app.next_chapter();
    app.scroll_to_bottom();
    assert_eq!(app.scroll_offset(), 2);
    app.prev_chapter();
    app.scroll_to_top();
    assert_eq!((app.chapter_index(), app.scroll_offset()), (0, 0));
}
