//! Saved reading positions, one per book, keyed by the book's canonical
//! path. Reading and writing the progress file is the caller's part; this
//! module keeps the positions themselves.

use vstd::prelude::*;

verus! {

/// Per-file progress entry.
pub struct ProgressEntry {
    pub chapter_index: usize,
    pub scroll_offset: usize,
    pub title: String,
    pub timestamp: u64,
}

/// The model of a [`ProgressEntry`].
pub struct EntryView {
    pub chapter_index: usize,
    pub scroll_offset: usize,
    pub title: Seq<char>,
    pub timestamp: u64,
}

impl View for ProgressEntry {
    type V = EntryView;

    open spec fn view(&self) -> EntryView {
        EntryView {
            chapter_index: self.chapter_index,
            scroll_offset: self.scroll_offset,
            title: self.title@,
            timestamp: self.timestamp,
        }
    }
}

impl ProgressEntry {
    /// A copy of the entry.
    pub fn copy(&self) -> (r: ProgressEntry)
        ensures
            r@ == self@,
    {
        ProgressEntry {
            chapter_index: self.chapter_index,
            scroll_offset: self.scroll_offset,
            title: self.title.clone(),
            timestamp: self.timestamp,
        }
    }
}

/// The views of key/entry pairs.
pub open spec fn pair_views(v: Seq<(String, ProgressEntry)>) -> Seq<(Seq<char>, EntryView)> {
    v.map_values(|p: (String, ProgressEntry)| (p.0@, p.1@))
}

/// The map that the pairs describe, a later pair for a key replacing an
/// earlier one.
pub open spec fn pairs_map(ps: Seq<(Seq<char>, EntryView)>) -> Map<Seq<char>, EntryView>
    decreases ps.len(),
{
    if ps.len() == 0 {
        Map::empty()
    } else {
        pairs_map(ps.drop_last()).insert(ps.last().0, ps.last().1)
    }
}

/// No key occurs twice.
pub open spec fn keys_distinct(ps: Seq<(Seq<char>, EntryView)>) -> bool {
    forall|i: int, j: int| 0 <= i < j < ps.len() ==> #[trigger] ps[i].0 != #[trigger] ps[j].0
}

proof fn lemma_pairs_map_keys(ps: Seq<(Seq<char>, EntryView)>, k: Seq<char>)
    ensures
        pairs_map(ps).contains_key(k) <==> exists|i: int| 0 <= i < ps.len() && #[trigger] ps[i].0 == k,
    decreases ps.len(),
{
    if ps.len() > 0 {
        lemma_pairs_map_keys(ps.drop_last(), k);
        if exists|i: int| 0 <= i < ps.len() && #[trigger] ps[i].0 == k {
            let i = choose|i: int| 0 <= i < ps.len() && #[trigger] ps[i].0 == k;
            if i < ps.len() - 1 {
                assert(ps.drop_last()[i].0 == k);
            }
        }
        if exists|i: int| 0 <= i < ps.len() - 1 && #[trigger] ps.drop_last()[i].0 == k {
            let i = choose|i: int| 0 <= i < ps.len() - 1 && #[trigger] ps.drop_last()[i].0 == k;
            assert(ps[i].0 == k);
        }
    }
}

proof fn lemma_pairs_map_at(ps: Seq<(Seq<char>, EntryView)>, i: int)
    requires
        keys_distinct(ps),
        0 <= i < ps.len(),
    ensures
        pairs_map(ps).contains_key(ps[i].0),
        pairs_map(ps)[ps[i].0] == ps[i].1,
    decreases ps.len(),
{
    if i < ps.len() - 1 {
        let p = ps.drop_last();
        assert forall|a: int, b: int| 0 <= a < b < p.len() implies #[trigger] p[a].0 != #[trigger] p[b].0 by {
            assert(p[a] == ps[a] && p[b] == ps[b]);
        }
        lemma_pairs_map_at(p, i);
        assert(p[i] == ps[i]);
        assert(ps[i].0 != ps[ps.len() - 1].0);
    }
}

proof fn lemma_pairs_map_update(ps: Seq<(Seq<char>, EntryView)>, i: int, e: EntryView)
    requires
        keys_distinct(ps),
        0 <= i < ps.len(),
    ensures
        keys_distinct(ps.update(i, (ps[i].0, e))),
        pairs_map(ps.update(i, (ps[i].0, e))) == pairs_map(ps).insert(ps[i].0, e),
    decreases ps.len(),
{
    let q = ps.update(i, (ps[i].0, e));
    assert forall|a: int, b: int| 0 <= a < b < q.len() implies #[trigger] q[a].0 != #[trigger] q[b].0 by {
        assert(q[a].0 == ps[a].0 && q[b].0 == ps[b].0);
    }
    let p = ps.drop_last();
    assert forall|a: int, b: int| 0 <= a < b < p.len() implies #[trigger] p[a].0 != #[trigger] p[b].0 by {
        assert(p[a] == ps[a] && p[b] == ps[b]);
    }
    if i == ps.len() - 1 {
        assert(q.drop_last() == p);
        lemma_pairs_map_keys(p, ps[i].0);
        assert(pairs_map(q) =~= pairs_map(ps).insert(ps[i].0, e));
    } else {
        lemma_pairs_map_update(p, i, e);
        assert(q.drop_last() == p.update(i, (p[i].0, e)));
        assert(ps[i].0 != ps.last().0);
        assert(pairs_map(q) =~= pairs_map(ps).insert(ps[i].0, e));
    }
}

/// The saved positions of all books.
///
/// Held as a list of (key, entry) pairs with distinct keys: vstd states
/// `HashMap`'s behaviour only for key types that obey its key model, and
/// gives `String` no such fact, so a map keyed by path would leave every
/// lookup unproved.
pub struct ProgressDb {
    entries: Vec<(String, ProgressEntry)>,
}

impl ProgressDb {
    #[verifier::type_invariant]
    spec fn inv(self) -> bool {
        keys_distinct(pair_views(self.entries@))
    }

    /// The saved positions, by key.
    pub closed spec fn positions(&self) -> Map<Seq<char>, EntryView> {
        pairs_map(pair_views(self.entries@))
    }

    /// No saved positions.
    pub fn new() -> (r: ProgressDb)
        ensures
            r.positions() == Map::<Seq<char>, EntryView>::empty(),
    {
        ProgressDb { entries: Vec::new() }
    }

    /// The position saved for `key`, if any.
    pub fn get(&self, key: &String) -> (r: Option<&ProgressEntry>)
        ensures
            match r {
                Some(e) => self.positions().contains_key(key@) && e@ == self.positions()[key@],
                None => !self.positions().contains_key(key@),
            },
    {
        proof {
            use_type_invariant(self);
        }
        let ghost ps = pair_views(self.entries@);
        let mut i: usize = 0;
        while i < self.entries.len()
            invariant
                i <= self.entries.len(),
                ps == pair_views(self.entries@),
                keys_distinct(ps),
                forall|j: int| 0 <= j < i ==> #[trigger] ps[j].0 != key@,
            decreases self.entries.len() - i,
        {
            if self.entries[i].0 == *key {
                proof {
                    lemma_pairs_map_at(ps, i as int);
                }
                return Some(&self.entries[i].1);
            }
            assert(ps[i as int].0 == self.entries@[i as int].0@);
            i += 1;
        }
        proof {
            lemma_pairs_map_keys(ps, key@);
        }
        None
    }

    /// Saves `entry` for `key`, replacing what was saved for it.
    pub fn insert(&mut self, key: String, entry: ProgressEntry)
        ensures
            final(self).positions() == old(self).positions().insert(key@, entry@),
    {
        proof {
            use_type_invariant(&*self);
        }
        let ghost ps = pair_views(self.entries@);
        let mut i: usize = 0;
        while i < self.entries.len()
            invariant
                i <= self.entries.len(),
                ps == pair_views(self.entries@),
                keys_distinct(ps),
                pairs_map(ps) == old(self).positions(),
                forall|j: int| 0 <= j < i ==> #[trigger] ps[j].0 != key@,
            decreases self.entries.len() - i,
        {
            if self.entries[i].0 == key {
                assert(ps[i as int].0 == key@);
                proof {
                    lemma_pairs_map_update(ps, i as int, entry@);
                }
                let ghost ev = entry@;
                let mut entries: Vec<(String, ProgressEntry)> = Vec::new();
        std::mem::swap(&mut entries, &mut self.entries);
                entries.set(i, (key, entry));
                assert(pair_views(entries@) =~= ps.update(i as int, (ps[i as int].0, ev)));
                self.entries = entries;
                return;
            }
            assert(ps[i as int].0 == self.entries@[i as int].0@);
            i += 1;
        }
        proof {
            lemma_pairs_map_keys(ps, key@);
        }
        let ghost kv = key@;
        let ghost ev = entry@;
        let mut entries: Vec<(String, ProgressEntry)> = Vec::new();
        std::mem::swap(&mut entries, &mut self.entries);
        entries.push((key, entry));
        assert(pair_views(entries@) =~= ps.push((kv, ev)));
        assert(pair_views(entries@).drop_last() == ps);
        assert forall|a: int, b: int|
            0 <= a < b < pair_views(entries@).len() implies #[trigger] pair_views(entries@)[a].0
            != #[trigger] pair_views(entries@)[b].0 by {
            if b == ps.len() {
                assert(pair_views(entries@)[a] == ps[a]);
            } else {
                assert(pair_views(entries@)[a] == ps[a] && pair_views(entries@)[b] == ps[b]);
            }
        }
        self.entries = entries;
    }

    /// The saved positions as key/entry pairs, each key once.
    pub fn entries(&self) -> (r: &Vec<(String, ProgressEntry)>)
        ensures
            keys_distinct(pair_views(r@)),
            pairs_map(pair_views(r@)) == self.positions(),
    {
        proof {
            use_type_invariant(self);
        }
        &self.entries
    }

    /// The positions given as key/entry pairs, a later pair for a key
    /// replacing an earlier one.
    pub fn from_entries(pairs: Vec<(String, ProgressEntry)>) -> (r: ProgressDb)
        ensures
            r.positions() == pairs_map(pair_views(pairs@)),
    {
        let ghost pv = pair_views(pairs@);
        let mut db = ProgressDb::new();
        let mut i: usize = 0;
        assert(pv.take(0) == Seq::<(Seq<char>, EntryView)>::empty());
        while i < pairs.len()
            invariant
                i <= pairs.len(),
                pv == pair_views(pairs@),
                db.positions() == pairs_map(pv.take(i as int)),
            decreases pairs.len() - i,
        {
            assert(pv.take(i + 1).drop_last() == pv.take(i as int));
            assert(pv.take(i + 1).last() == (pairs@[i as int].0@, pairs@[i as int].1@));
            let key = pairs[i].0.clone();
            let entry = pairs[i].1.copy();
            db.insert(key, entry);
            i += 1;
        }
        assert(pv.take(pairs.len() as int) == pv);
        db
    }
}

/// Manages reading-position persistence.
pub struct StateManager {
    db_path: String,
    db: ProgressDb,
}

impl StateManager {
    /// The saved positions.
    pub closed spec fn positions(&self) -> Map<Seq<char>, EntryView> {
        self.db.positions()
    }

    /// Where the positions are stored.
    pub closed spec fn path_view(&self) -> Seq<char> {
        self.db_path@
    }

    /// A manager for the progress file at `db_path` holding `db`, what was
    /// read from it; nothing saved when it could not be read.
    pub fn new(db_path: String, db: Option<ProgressDb>) -> (r: StateManager)
        ensures
            r.path_view() == db_path@,
            r.positions() == match db {
                Some(d) => d.positions(),
                None => Map::<Seq<char>, EntryView>::empty(),
            },
    {
        let db = match db {
            Some(d) => d,
            None => ProgressDb::new(),
        };
        StateManager { db_path, db }
    }

    /// Look up the saved position for the book with key `key`.
    /// Returns `None` if no position was ever saved.
    pub fn load(&self, key: &str) -> (r: Option<ProgressEntry>)
        ensures
            match r {
                Some(e) => self.positions().contains_key(key@) && e@ == self.positions()[key@],
                None => !self.positions().contains_key(key@),
            },
    {
        let k = key.to_owned();
        match self.db.get(&k) {
            Some(e) => Some(e.copy()),
            None => None,
        }
    }

    /// Records the current reading position of the book with key `key`,
    /// replacing the one saved before.
    pub fn save(
        &mut self,
        key: &str,
        chapter_index: usize,
        scroll_offset: usize,
        title: &str,
        timestamp: u64,
    )
        ensures
            final(self).path_view() == old(self).path_view(),
            final(self).positions() == old(self).positions().insert(
                key@,
                EntryView { chapter_index, scroll_offset, title: title@, timestamp },
            ),
    {
        let entry = ProgressEntry { chapter_index, scroll_offset, title: title.to_owned(), timestamp };
        self.db.insert(key.to_owned(), entry);
    }

    /// Where the positions are stored.
    pub fn db_path(&self) -> (r: &String)
        ensures
            r@ == self.path_view(),
    {
        &self.db_path
    }

    /// The saved positions.
    pub fn db(&self) -> (r: &ProgressDb)
        ensures
            r.positions() == self.positions(),
    {
        &self.db
    }
}

/// Reading back gives what was saved: after saving an entry for a key,
/// loading that key gives the entry, and loading any other key gives what
/// it gave before.
pub proof fn lemma_load_after_save(
    positions: Map<Seq<char>, EntryView>,
    key: Seq<char>,
    entry: EntryView,
    other: Seq<char>,
)
    ensures
        positions.insert(key, entry).contains_key(key),
        positions.insert(key, entry)[key] == entry,
        other != key ==> (positions.insert(key, entry).contains_key(other) == positions.contains_key(
            other,
        ) && (positions.contains_key(other) ==> positions.insert(key, entry)[other]
            == positions[other])),
{
}

} // verus!
