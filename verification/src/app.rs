//! The reading session: the open book, the scroll position in the current
//! chapter, key handling, and saving and restoring the reading position.

use vstd::prelude::*;

use crate::reader::{Chapter, ChapterView, Reader};
use crate::state::{EntryView, StateManager};
use crate::wrap::{string_views, wrap_text_spec, wrapped_line_count};

verus! {

/// The width at which chapters are wrapped to count scroll positions.
pub const SCROLL_WIDTH: usize = 80;

/// `a` less `b`, or zero if `b` is larger.
pub open spec fn sat_sub(a: int, b: int) -> int {
    if a >= b {
        a - b
    } else {
        0
    }
}

/// The smaller of `a` and `b`.
pub open spec fn min(a: int, b: int) -> int {
    if a <= b {
        a
    } else {
        b
    }
}

/// The last line the view may scroll to in chapter `idx`: one less than
/// the number of lines of the chapter wrapped to 80 columns (zero when
/// there is no such chapter or no line).
pub open spec fn max_scroll_at(chapters: Seq<ChapterView>, idx: int) -> int {
    if 0 <= idx < chapters.len() {
        sat_sub(wrap_text_spec(chapters[idx].text, SCROLL_WIDTH as nat).len() as int, 1)
    } else {
        0
    }
}

/// The last line the view may scroll to in the reader's current chapter.
pub open spec fn max_scroll_for(r: Reader) -> int {
    max_scroll_at(r.chapters_view(), r.index())
}

/// The chapter saved for `key`, if it is one of the `count` chapters, else
/// the first.
pub open spec fn restored_index(p: Map<Seq<char>, EntryView>, key: Seq<char>, count: int) -> int {
    if p.contains_key(key) && p[key].chapter_index < count {
        p[key].chapter_index as int
    } else {
        0
    }
}

/// The scroll offset saved for `key`, if its chapter is one of the `count`
/// chapters, else zero.
pub open spec fn restored_scroll(p: Map<Seq<char>, EntryView>, key: Seq<char>, count: int) -> int {
    if p.contains_key(key) && p[key].chapter_index < count {
        p[key].scroll_offset as int
    } else {
        0
    }
}

/// A key press, as far as the reader tells keys apart.
pub enum Key {
    Char(char),
    Esc,
    Up,
    Down,
    Left,
    Right,
    PageUp,
    PageDown,
    Home,
    End,
    Other,
}

/// What a key asks for.
#[derive(PartialEq, Eq, Structural)]
pub enum Action {
    Quit,
    ScrollDown(usize),
    ScrollUp(usize),
    Top,
    Bottom,
    NextChapter,
    PrevChapter,
    Nothing,
}

/// The keybindings: `q`/Esc quit, `j`/Down and `k`/Up scroll a line,
/// `d`/PageDown and `u`/PageUp scroll a page (twenty lines), `g`/Home and
/// `G`/End go to the top and bottom, `n`/`N`/Right and `p`/`P`/Left change
/// chapter.
pub open spec fn key_action_spec(key: Key) -> Action {
    match key {
        Key::Char(c) => if c == 'q' {
            Action::Quit
        } else if c == 'j' {
            Action::ScrollDown(1)
        } else if c == 'k' {
            Action::ScrollUp(1)
        } else if c == 'd' {
            Action::ScrollDown(20)
        } else if c == 'u' {
            Action::ScrollUp(20)
        } else if c == 'g' {
            Action::Top
        } else if c == 'G' {
            Action::Bottom
        } else if c == 'n' || c == 'N' {
            Action::NextChapter
        } else if c == 'p' || c == 'P' {
            Action::PrevChapter
        } else {
            Action::Nothing
        },
        Key::Esc => Action::Quit,
        Key::Down => Action::ScrollDown(1),
        Key::Up => Action::ScrollUp(1),
        Key::PageDown => Action::ScrollDown(20),
        Key::PageUp => Action::ScrollUp(20),
        Key::Home => Action::Top,
        Key::End => Action::Bottom,
        Key::Right => Action::NextChapter,
        Key::Left => Action::PrevChapter,
        Key::Other => Action::Nothing,
    }
}

/// What `key` asks for.
pub fn key_action(key: &Key) -> (a: Action)
    ensures
        a == key_action_spec(*key),
{
    match key {
        Key::Char(c) => {
            let c = *c;
            if c == 'q' {
                Action::Quit
            } else if c == 'j' {
                Action::ScrollDown(1)
            } else if c == 'k' {
                Action::ScrollUp(1)
            } else if c == 'd' {
                Action::ScrollDown(20)
            } else if c == 'u' {
                Action::ScrollUp(20)
            } else if c == 'g' {
                Action::Top
            } else if c == 'G' {
                Action::Bottom
            } else if c == 'n' || c == 'N' {
                Action::NextChapter
            } else if c == 'p' || c == 'P' {
                Action::PrevChapter
            } else {
                Action::Nothing
            }
        },
        Key::Esc => Action::Quit,
        Key::Down => Action::ScrollDown(1),
        Key::Up => Action::ScrollUp(1),
        Key::PageDown => Action::ScrollDown(20),
        Key::PageUp => Action::ScrollUp(20),
        Key::Home => Action::Top,
        Key::End => Action::Bottom,
        Key::Right => Action::NextChapter,
        Key::Left => Action::PrevChapter,
        Key::Other => Action::Nothing,
    }
}

/// The reading session.
pub struct App {
    pub reader: Reader,
    /// The saved positions of all books.
    pub state_mgr: StateManager,
    /// The key under which this book's position is saved (its canonical
    /// path).
    pub epub_path: String,
    /// The first line shown of the current chapter.
    pub scroll: usize,
}

/// The position saved for a session at `timestamp`.
pub open spec fn saved_entry(app: App, timestamp: u64) -> EntryView {
    EntryView {
        chapter_index: app.rd().index() as usize,
        scroll_offset: app.scroll_pos() as usize,
        title: app.rd().title_view(),
        timestamp,
    }
}

/// `b` is `a` with only the scroll position changed.
pub open spec fn only_scrolled(a: App, b: App) -> bool {
    &&& b.rd() == a.rd()
    &&& b.positions() == a.positions()
    &&& b.key() == a.key()
    &&& b.path() == a.path()
}

/// `b` reads the same book as `a`, with the same saved positions.
pub open spec fn same_book(a: App, b: App) -> bool {
    &&& b.rd().chapters_view() == a.rd().chapters_view()
    &&& b.rd().title_view() == a.rd().title_view()
    &&& b.rd().author_view() == a.rd().author_view()
    &&& b.positions() == a.positions()
    &&& b.key() == a.key()
    &&& b.path() == a.path()
}

/// What moving to the next chapter does: to its top if there is one, else
/// nothing.
pub open spec fn after_next(a: App, b: App) -> bool {
    &&& same_book(a, b)
    &&& if a.rd().index() + 1 < a.rd().chapters_view().len() {
        b.rd().index() == a.rd().index() + 1 && b.scroll_pos() == 0
    } else {
        b.rd().index() == a.rd().index() && b.scroll_pos() == a.scroll_pos()
    }
}

/// What moving to the previous chapter does: to its bottom if there is
/// one, else nothing.
pub open spec fn after_prev(a: App, b: App) -> bool {
    &&& same_book(a, b)
    &&& if a.rd().index() > 0 {
        b.rd().index() == a.rd().index() - 1 && b.scroll_pos() == max_scroll_at(
            a.rd().chapters_view(),
            a.rd().index() - 1,
        )
    } else {
        b.rd().index() == a.rd().index() && b.scroll_pos() == a.scroll_pos()
    }
}

/// What an action does to the session `a`, giving `b`.
pub open spec fn after_action(a: App, b: App, act: Action) -> bool {
    match act {
        Action::Quit => only_scrolled(a, b) && b.scroll_pos() == a.scroll_pos(),
        Action::Nothing => only_scrolled(a, b) && b.scroll_pos() == a.scroll_pos(),
        Action::ScrollDown(n) => only_scrolled(a, b) && b.scroll_pos() == min(
            a.scroll_pos() + n,
            max_scroll_for(a.rd()),
        ),
        Action::ScrollUp(n) => only_scrolled(a, b) && b.scroll_pos() == sat_sub(a.scroll_pos(), n as int),
        Action::Top => only_scrolled(a, b) && b.scroll_pos() == 0,
        Action::Bottom => only_scrolled(a, b) && b.scroll_pos() == max_scroll_for(a.rd()),
        Action::NextChapter => after_next(a, b),
        Action::PrevChapter => after_prev(a, b),
    }
}

impl App {
    /// The reader.
    pub open spec fn rd(&self) -> Reader {
        self.reader
    }

    /// The scroll position: the first line shown of the current chapter.
    pub open spec fn scroll_pos(&self) -> int {
        self.scroll as int
    }

    /// The saved positions.
    pub open spec fn positions(&self) -> Map<Seq<char>, EntryView> {
        self.state_mgr.positions()
    }

    /// Where the saved positions are stored.
    pub open spec fn path(&self) -> Seq<char> {
        self.state_mgr.path_view()
    }

    /// The key under which this book's position is saved.
    pub open spec fn key(&self) -> Seq<char> {
        self.epub_path@
    }

    /// The reader is at one of its chapters and the view is within it.
    pub open spec fn wf(&self) -> bool {
        &&& self.rd().wf()
        &&& 0 <= self.scroll_pos() <= max_scroll_for(self.rd())
    }

    /// Starts a session on `reader`, restoring the position saved for
    /// `epub_path` (the book's canonical path) if its chapter exists: the
    /// saved chapter, and the saved scroll offset up to the chapter's last
    /// line. Otherwise the session starts at the top of the first chapter.
    pub fn open(epub_path: String, reader: Reader, state_mgr: StateManager) -> (r: App)
        ensures
            ({
                let count = reader.chapters_view().len() as int;
                let idx = restored_index(state_mgr.positions(), epub_path@, count);
                &&& r.rd().chapters_view() == reader.chapters_view()
                &&& r.rd().title_view() == reader.title_view()
                &&& r.rd().author_view() == reader.author_view()
                &&& r.rd().index() == if idx < count {
                    idx
                } else {
                    reader.index()
                }
                &&& r.scroll_pos() == min(
                    restored_scroll(state_mgr.positions(), epub_path@, count),
                    max_scroll_for(r.rd()),
                )
                &&& r.positions() == state_mgr.positions()
                &&& r.path() == state_mgr.path_view()
                &&& r.key() == epub_path@
                &&& reader.wf() ==> r.wf()
            }),
    {
        let count = reader.chapter_count();
        let (chapter_idx, scroll) = match state_mgr.load(epub_path.as_str()) {
            Some(entry) => if entry.chapter_index < count {
                (entry.chapter_index, entry.scroll_offset)
            } else {
                (0, 0)
            },
            None => (0, 0),
        };
        let mut app = App { reader, state_mgr, epub_path, scroll: 0 };
        app.reader.set_chapter(chapter_idx);
        let max = app.max_scroll();
        app.scroll = if scroll <= max {
            scroll
        } else {
            max
        };
        app
    }

    /// Records the current position (chapter, scroll offset and the book's
    /// title) for this book, stamped with `timestamp`.
    pub fn save_state(&mut self, timestamp: u64)
        ensures
            final(self).rd() == old(self).rd(),
            final(self).scroll_pos() == old(self).scroll_pos(),
            final(self).key() == old(self).key(),
            final(self).path() == old(self).path(),
            final(self).positions() == old(self).positions().insert(
                old(self).key(),
                saved_entry(*old(self), timestamp),
            ),
    {
        let idx = self.reader.current_chapter_index();
        let title = self.reader.title();
        self.state_mgr.save(self.epub_path.as_str(), idx, self.scroll, title.as_str(), timestamp);
    }

    /// Handles one key press, and says whether it asks to quit.
    pub fn handle_key(&mut self, key: Key) -> (quit: bool)
        requires
            match key_action_spec(key) {
                Action::ScrollDown(n) => old(self).scroll_pos() + n <= usize::MAX,
                _ => true,
            },
        ensures
            quit == (key_action_spec(key) == Action::Quit),
            after_action(*old(self), *final(self), key_action_spec(key)),
            old(self).wf() ==> final(self).wf(),
    {
        match key_action(&key) {
            Action::Quit => {
                return true;
            },
            Action::ScrollDown(n) => self.scroll_down(n),
            Action::ScrollUp(n) => self.scroll_up(n),
            Action::Top => self.scroll_to_top(),
            Action::Bottom => self.scroll_to_bottom(),
            Action::NextChapter => self.next_chapter(),
            Action::PrevChapter => self.prev_chapter(),
            Action::Nothing => {},
        }
        false
    }

    /// The last line the view may scroll to in the current chapter.
    pub fn max_scroll(&self) -> (r: usize)
        ensures
            r == max_scroll_for(self.rd()),
    {
        match self.reader.current_chapter() {
            Some(c) => {
                let len = wrapped_line_count(c.text.as_str(), SCROLL_WIDTH);
                if len >= 1 {
                    len - 1
                } else {
                    0
                }
            },
            None => 0,
        }
    }

    pub fn scroll_up(&mut self, n: usize)
        ensures
            only_scrolled(*old(self), *final(self)),
            final(self).scroll_pos() == sat_sub(old(self).scroll_pos(), n as int),
            old(self).wf() ==> final(self).wf(),
    {
        self.scroll = if self.scroll >= n {
            self.scroll - n
        } else {
            0
        };
    }

    pub fn scroll_down(&mut self, n: usize)
        requires
            old(self).scroll_pos() + n <= usize::MAX,
        ensures
            only_scrolled(*old(self), *final(self)),
            final(self).scroll_pos() == min(old(self).scroll_pos() + n, max_scroll_for(old(self).rd())),
            old(self).wf() ==> final(self).wf(),
    {
        let max = self.max_scroll();
        let s = self.scroll + n;
        self.scroll = if s <= max {
            s
        } else {
            max
        };
    }

    pub fn scroll_to_top(&mut self)
        ensures
            only_scrolled(*old(self), *final(self)),
            final(self).scroll_pos() == 0,
            old(self).wf() ==> final(self).wf(),
    {
        self.scroll = 0;
    }

    pub fn scroll_to_bottom(&mut self)
        ensures
            only_scrolled(*old(self), *final(self)),
            final(self).scroll_pos() == max_scroll_for(old(self).rd()),
            old(self).wf() ==> final(self).wf(),
    {
        self.scroll = self.max_scroll();
    }

    pub fn page_up(&mut self)
        ensures
            only_scrolled(*old(self), *final(self)),
            final(self).scroll_pos() == sat_sub(old(self).scroll_pos(), 20),
            old(self).wf() ==> final(self).wf(),
    {
        self.scroll_up(20);
    }

    pub fn page_down(&mut self)
        requires
            old(self).scroll_pos() + 20 <= usize::MAX,
        ensures
            only_scrolled(*old(self), *final(self)),
            final(self).scroll_pos() == min(old(self).scroll_pos() + 20, max_scroll_for(old(self).rd())),
            old(self).wf() ==> final(self).wf(),
    {
        self.scroll_down(20);
    }

    // ── chapter navigation ──────────────────────────────────────────

    /// Moves to the top of the next chapter, if there is one.
    pub fn next_chapter(&mut self)
        ensures
            after_next(*old(self), *final(self)),
            old(self).wf() ==> final(self).wf(),
    {
        if self.reader.next_chapter() {
            self.scroll = 0;
        }
    }

    /// Moves to the bottom of the previous chapter, if there is one.
    pub fn prev_chapter(&mut self)
        ensures
            after_prev(*old(self), *final(self)),
            old(self).wf() ==> final(self).wf(),
    {
        if self.reader.prev_chapter() {
            self.scroll = self.max_scroll();
        }
    }

    // ── accessors ───────────────────────────────────────────────────

    pub fn current_chapter(&self) -> (r: Option<&Chapter>)
        ensures
            match r {
                Some(c) => 0 <= self.rd().index() < self.rd().chapters_view().len() && c@
                    == self.rd().chapters_view()[self.rd().index()],
                None => !(self.rd().index() < self.rd().chapters_view().len()),
            },
    {
        self.reader.current_chapter()
    }

    pub fn chapter_index(&self) -> (r: usize)
        ensures
            r == self.rd().index(),
    {
        self.reader.current_chapter_index()
    }

    pub fn chapter_count(&self) -> (r: usize)
        ensures
            r == self.rd().chapters_view().len(),
    {
        self.reader.chapter_count()
    }

    pub fn title(&self) -> (r: &str)
        ensures
            r@ == self.rd().title_view(),
    {
        self.reader.title().as_str()
    }

    pub fn author(&self) -> (r: &str)
        ensures
            r@ == self.rd().author_view(),
    {
        self.reader.author().as_str()
    }

    /// The current scroll position.
    pub fn scroll_offset(&self) -> (r: usize)
        ensures
            r == self.scroll_pos(),
    {
        self.scroll
    }

    /// The saved positions, for writing them out.
    pub fn state_manager(&self) -> (r: &StateManager)
        ensures
            r.positions() == self.positions(),
            r.path_view() == self.path(),
    {
        &self.state_mgr
    }

    /// The lines of the current chapter wrapped to `width` columns, from
    /// the scroll position on (from the last line if the position is past
    /// it); `None` when there is no current chapter.
    pub fn visible_lines(&self, width: usize) -> (r: Option<Vec<String>>)
        ensures
            match r {
                Some(ls) => {
                    let chs = self.rd().chapters_view();
                    let i = self.rd().index();
                    let all = wrap_text_spec(chs[i].text, width as nat);
                    &&& 0 <= i < chs.len()
                    &&& string_views(ls@) == all.skip(min(self.scroll_pos(), sat_sub(all.len() as int, 1)))
                },
                None => !(self.rd().index() < self.rd().chapters_view().len()),
            },
    {
        match self.reader.current_chapter() {
            Some(c) => {
                let mut lines = c.wrapped_lines(width);
                let total = lines.len();
                let last = if total >= 1 {
                    total - 1
                } else {
                    0
                };
                let start = if self.scroll <= last {
                    self.scroll
                } else {
                    last
                };
                let ghost all = lines@;
                let rest = lines.split_off(start);
                assert(string_views(rest@) =~= string_views(all).skip(start as int));
                Some(rest)
            },
            None => None,
        }
    }
}

// ── laws ────────────────────────────────────────────────────────────────

/// Progress is restored where it was saved: a session that saves its
/// position and is then reopened on the same book finds the same chapter
/// and the same scroll position.
pub proof fn lemma_reopen_restores_position(app: App, reader: Reader, timestamp: u64)
    requires
        app.wf(),
        reader.chapters_view() == app.rd().chapters_view(),
    ensures
        ({
            let p = app.positions().insert(app.key(), saved_entry(app, timestamp));
            let count = reader.chapters_view().len() as int;
            let idx = restored_index(p, app.key(), count);
            &&& idx < count
            &&& idx == app.rd().index()
            &&& min(restored_scroll(p, app.key(), count), max_scroll_at(reader.chapters_view(), idx))
                == app.scroll_pos()
        }),
{
    app.rd().lemma_index_range();
}

/// Moving to the next chapter and back returns to the chapter one was
/// reading.
pub proof fn lemma_next_then_prev(a: App, b: App, c: App)
    requires
        a.rd().index() + 1 < a.rd().chapters_view().len(),
        after_next(a, b),
        after_prev(b, c),
    ensures
        c.rd().index() == a.rd().index(),
        c.rd().chapters_view() == a.rd().chapters_view(),
{
    a.rd().lemma_index_range();
}

/// The keybindings: each arrow or page key does what its letter key does
/// (Up/`k` scroll up a line, Down/`j` down a line, PageUp/`u` up a page,
/// PageDown/`d` down a page, Home/`g` to the top, End/`G` to the bottom,
/// Right/`n`/`N` to the next chapter, Left/`p`/`P` to the previous one,
/// Esc/`q` quit), and what each does to a session `a`, giving `b`.
pub proof fn lemma_keybindings(a: App, b: App)
    ensures
        key_action_spec(Key::Up) == key_action_spec(Key::Char('k')),
        key_action_spec(Key::Down) == key_action_spec(Key::Char('j')),
        key_action_spec(Key::PageUp) == key_action_spec(Key::Char('u')),
        key_action_spec(Key::PageDown) == key_action_spec(Key::Char('d')),
        key_action_spec(Key::Home) == key_action_spec(Key::Char('g')),
        key_action_spec(Key::End) == key_action_spec(Key::Char('G')),
        key_action_spec(Key::Right) == key_action_spec(Key::Char('n')),
        key_action_spec(Key::Right) == key_action_spec(Key::Char('N')),
        key_action_spec(Key::Left) == key_action_spec(Key::Char('p')),
        key_action_spec(Key::Left) == key_action_spec(Key::Char('P')),
        key_action_spec(Key::Esc) == key_action_spec(Key::Char('q')),
        key_action_spec(Key::Char('q')) == Action::Quit,
        after_action(a, b, key_action_spec(Key::Char('k'))) ==> only_scrolled(a, b) && b.scroll_pos()
            == sat_sub(a.scroll_pos(), 1),
        after_action(a, b, key_action_spec(Key::Char('j'))) ==> only_scrolled(a, b) && b.scroll_pos()
            == min(a.scroll_pos() + 1, max_scroll_for(a.rd())),
        after_action(a, b, key_action_spec(Key::Char('u'))) ==> only_scrolled(a, b) && b.scroll_pos()
            == sat_sub(a.scroll_pos(), 20),
        after_action(a, b, key_action_spec(Key::Char('d'))) ==> only_scrolled(a, b) && b.scroll_pos()
            == min(a.scroll_pos() + 20, max_scroll_for(a.rd())),
        after_action(a, b, key_action_spec(Key::Char('g'))) ==> only_scrolled(a, b) && b.scroll_pos() == 0,
        after_action(a, b, key_action_spec(Key::Char('G'))) ==> only_scrolled(a, b) && b.scroll_pos()
            == max_scroll_for(a.rd()),
        after_action(a, b, key_action_spec(Key::Char('n'))) ==> after_next(a, b),
        after_action(a, b, key_action_spec(Key::Char('p'))) ==> after_prev(a, b),
{
}

} // verus!
