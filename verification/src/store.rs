//! The durable review-state document and the store that locates it.
//!
//! The document is sparse: `cards` holds only Cards that have left "new"; an
//! absent code is a not-yet-introduced Card. Lifecycle status is derived at
//! runtime, never stored. Reading and writing the file happens at the app
//! boundary; this module owns the document's shape, its first-launch default,
//! the schema check a loaded document must pass, and where the file lives.
use crate::date::CivilDate;
use crate::text::{lemma_str_lt_order, str_before, str_lt};
use std::path::{Path, PathBuf};
use vstd::prelude::*;
use vstd::string::StringSliceAdditionalSpecFns;

verus! {

/// Current on-disk schema. Migration path is load-all/save-all; only v1 exists.
pub const SCHEMA_VERSION: u32 = 1;

/// Default: new Cards introduced per day.
pub const DEFAULT_NEW_CARDS_PER_DAY: u32 = 10;

/// File name inside the store directory.
pub const STATE_FILE: &'static str = "review_state.json";

/// Sibling temp file a save writes before renaming it over [`STATE_FILE`].
pub const TEMP_FILE: &'static str = "review_state.json.tmp";

#[verifier::external_type_specification]
#[verifier::external_body]
pub struct ExPathBuf(PathBuf);

#[verifier::external_type_specification]
#[verifier::external_body]
pub struct ExPath(Path);

/// `<PathBuf as Clone>::clone`, used by the derived `Clone` of [`Store`].
/// Nothing is stated of the copy.
pub assume_specification[ <PathBuf as Clone>::clone ](p: &PathBuf) -> PathBuf;

/// The only interactive setting.
#[derive(Debug, Clone, Copy, PartialEq, Eq, Structural)]
pub struct Settings {
    pub new_cards_per_day: u32,
}

impl Default for Settings {
    fn default() -> (s: Settings)
        ensures
            s.new_cards_per_day == DEFAULT_NEW_CARDS_PER_DAY,
    {
        Settings { new_cards_per_day: DEFAULT_NEW_CARDS_PER_DAY }
    }
}

/// One seen Card's persisted state: its FSRS memory and the three local-date
/// fields the app owns.
#[derive(Debug, Clone, Copy, PartialEq)]
pub struct CardRecord {
    /// FSRS stability and difficulty.
    pub memory: fsrs::MemoryState,
    /// `≤ today` ⇒ due.
    pub due: CivilDate,
    /// Date of the last grade.
    pub last_review: CivilDate,
    /// Set once on first grade; drives the daily-new cap.
    pub introduced_on: CivilDate,
}

/// Entries sorted strictly by code, in `str` order (so codes are distinct).
pub open spec fn keys_sorted(s: Seq<(Seq<char>, CardRecord)>) -> bool {
    forall|i: int, j: int| 0 <= i < j < s.len() ==> str_lt(#[trigger] s[i].0, #[trigger] s[j].0)
}

/// The map a sequence of entries denotes (a later entry wins on a repeated code).
pub open spec fn map_of(s: Seq<(Seq<char>, CardRecord)>) -> Map<Seq<char>, CardRecord>
    decreases s.len(),
{
    if s.len() == 0 {
        Map::empty()
    } else {
        map_of(s.drop_last()).insert(s.last().0, s.last().1)
    }
}

/// For entries with distinct codes: the map holds exactly their codes, each
/// with its own record, and has one key per entry.
pub proof fn lemma_map_of(s: Seq<(Seq<char>, CardRecord)>)
    requires
        keys_sorted(s),
    ensures
        forall|k: Seq<char>|
            #[trigger] map_of(s).contains_key(k) <==> exists|i: int| 0 <= i < s.len() && s[i].0 == k,
        forall|i: int| 0 <= i < s.len() ==> #[trigger] map_of(s)[s[i].0] == s[i].1,
        map_of(s).dom().finite(),
        map_of(s).len() == s.len(),
    decreases s.len(),
{
    if s.len() > 0 {
        let t = s.drop_last();
        assert(keys_sorted(t));
        lemma_map_of(t);
        let last = s.last();
        assert forall|i: int| 0 <= i < t.len() implies t[i].0 != last.0 by {
            assert(str_lt(s[i].0, s[s.len() - 1].0));
            lemma_str_lt_order(s[i].0, last.0, last.0);
        }
        assert(!map_of(t).contains_key(last.0));
        assert forall|k: Seq<char>|
            #[trigger] map_of(s).contains_key(k) <==> exists|i: int|
                0 <= i < s.len() && s[i].0 == k by {
            if map_of(s).contains_key(k) && k != last.0 {
                let i = choose|i: int| 0 <= i < t.len() && t[i].0 == k;
                assert(s[i].0 == k);
            }
            if exists|i: int| 0 <= i < s.len() && s[i].0 == k {
                let i = choose|i: int| 0 <= i < s.len() && s[i].0 == k;
                if i < t.len() {
                    assert(t[i].0 == k);
                }
            }
        }
        assert forall|i: int| 0 <= i < s.len() implies #[trigger] map_of(s)[s[i].0] == s[i].1 by {
            if i < t.len() {
                assert(t[i] == s[i]);
            }
        }
    }
}

/// The code views of stored entries.
pub open spec fn entry_views(v: Seq<(String, CardRecord)>) -> Seq<(Seq<char>, CardRecord)> {
    v.map_values(|e: (String, CardRecord)| (e.0@, e.1))
}

/// The reviewed Cards, keyed by `ADM0_A3` code and kept in code order so the
/// document serializes in a stable order.
#[derive(Debug, PartialEq)]
pub struct CardMap {
    entries: Vec<(String, CardRecord)>,
}

impl CardMap {
    /// The entries, in code order.
    pub closed spec fn entries(self) -> Seq<(Seq<char>, CardRecord)> {
        entry_views(self.entries@)
    }

    #[verifier::type_invariant]
    pub open spec fn wf(self) -> bool {
        keys_sorted(self.entries())
    }

    /// The records in code order.
    pub open spec fn records(self) -> Seq<CardRecord> {
        self.entries().map_values(|e: (Seq<char>, CardRecord)| e.1)
    }

    /// An empty map.
    pub fn new() -> (m: CardMap)
        ensures
            m@ == Map::<Seq<char>, CardRecord>::empty(),
            m.entries().len() == 0,
    {
        let m = CardMap { entries: Vec::new() };
        assert(m.entries() =~= Seq::empty());
        m
    }

    /// Number of reviewed Cards.
    pub fn len(&self) -> (n: usize)
        ensures
            n == self@.len(),
            n == self.entries().len(),
    {
        proof {
            use_type_invariant(self);
            lemma_map_of(self.entries());
        }
        self.entries.len()
    }

    /// Whether no Card has been reviewed.
    pub fn is_empty(&self) -> (b: bool)
        ensures
            b == (self@.len() == 0),
    {
        self.len() == 0
    }

    /// Position of `code` among the entries, if present.
    fn find(&self, code: &str) -> (r: Option<usize>)
        ensures
            r matches Some(i) ==> i < self.entries().len() && self.entries()[i as int].0 == code@,
            r is None ==> !self@.contains_key(code@),
            r is Some ==> self@.contains_key(code@),
    {
        proof {
            use_type_invariant(self);
            lemma_map_of(self.entries());
        }
        let mut i: usize = 0;
        while i < self.entries.len()
            invariant
                i <= self.entries@.len(),
                self.entries().len() == self.entries@.len(),
                forall|j: int| 0 <= j < i ==> self.entries()[j].0 != code@,
            decreases self.entries@.len() - i,
        {
            if crate::text::str_eq(self.entries[i].0.as_str(), code) {
                proof {
                    use_type_invariant(self);
                    lemma_map_of(self.entries());
                }
                assert(self.entries()[i as int].0 == code@);
                assert(self@.contains_key(code@));
                return Some(i);
            }
            i = i + 1;
        }
        None
    }

    /// The record for `code`, if that Card has been reviewed.
    pub fn get(&self, code: &str) -> (r: Option<&CardRecord>)
        ensures
            r matches Some(rec) ==> self@.contains_key(code@) && *rec == self@[code@],
            r is None ==> !self@.contains_key(code@),
    {
        proof {
            use_type_invariant(self);
            lemma_map_of(self.entries());
        }
        match self.find(code) {
            Some(i) => Some(&self.entries[i].1),
            None => None,
        }
    }

    /// Whether `code` has a record.
    pub fn contains_key(&self, code: &str) -> (b: bool)
        ensures
            b == self@.contains_key(code@),
    {
        self.find(code).is_some()
    }

    /// The code and record at position `i` of the code-ordered entries.
    pub fn entry_at(&self, i: usize) -> (r: (&String, &CardRecord))
        requires
            i < self.entries().len(),
        ensures
            r.0@ == self.entries()[i as int].0,
            *r.1 == self.entries()[i as int].1,
    {
        let e = &self.entries[i];
        (&e.0, &e.1)
    }

    /// Set the record for `code`, replacing any earlier one.
    pub fn insert(&mut self, code: String, record: CardRecord)
        ensures
            final(self)@ == old(self)@.insert(code@, record),
    {
        proof {
            use_type_invariant(&*self);
            lemma_map_of(self.entries());
        }
        let ghost old_entries = self.entries();
        let mut v: Vec<(String, CardRecord)> = Vec::new();
        std::mem::swap(&mut v, &mut self.entries);
        assert(entry_views(v@) == old_entries);
        let mut i: usize = 0;
        while i < v.len() && str_before(v[i].0.as_str(), code.as_str())
            invariant
                i <= v@.len(),
                entry_views(v@) == old_entries,
                old_entries.len() == v@.len(),
                keys_sorted(old_entries),
                forall|j: int| 0 <= j < i ==> str_lt(#[trigger] old_entries[j].0, code@),
            decreases v@.len() - i,
        {
            i = i + 1;
        }
        let ghost k = code@;
        if i < v.len() && crate::text::str_eq(v[i].0.as_str(), code.as_str()) {
            assert(old_entries[i as int].0 == k);
            v.set(i, (code, record));
            proof {
                let s = entry_views(v@);
                assert(s =~= old_entries.update(i as int, (k, record)));
                assert(keys_sorted(s));
                lemma_map_of(s);
                assert forall|key: Seq<char>| #[trigger] map_of(s).contains_key(key)
                    <==> map_of(old_entries).insert(k, record).contains_key(key) by {
                    if map_of(s).contains_key(key) {
                        let j = choose|j: int| 0 <= j < s.len() && s[j].0 == key;
                        assert(old_entries[j].0 == key);
                    }
                    if map_of(old_entries).contains_key(key) {
                        let j = choose|j: int| 0 <= j < old_entries.len() && old_entries[j].0 == key;
                        assert(s[j].0 == key);
                    }
                    if key == k {
                        assert(s[i as int].0 == key);
                    }
                }
                assert forall|key: Seq<char>| #[trigger] map_of(s).contains_key(key)
                    implies map_of(s)[key] == map_of(old_entries).insert(k, record)[key] by {
                    let j = choose|j: int| 0 <= j < s.len() && s[j].0 == key;
                    if j != i {
                        assert(old_entries[j] == s[j]);
                    } else {
                        assert(s[j] == (k, record));
                    }
                }
                assert(map_of(s) =~= map_of(old_entries).insert(k, record));
            }
        } else {
            v.insert(i, (code, record));
            proof {
                let s = entry_views(v@);
                assert(s =~= old_entries.insert(i as int, (k, record)));
                if i < old_entries.len() {
                    lemma_str_lt_order(k, old_entries[i as int].0, k);
                    assert(str_lt(k, old_entries[i as int].0));
                }
                assert forall|a: int, b: int| 0 <= a < b < s.len() implies str_lt(
                    #[trigger] s[a].0,
                    #[trigger] s[b].0,
                ) by {
                    if a < i && b == i {
                    } else if a < i && b > i {
                        lemma_str_lt_order(s[a].0, k, s[b].0);
                        if b - 1 > i {
                            lemma_str_lt_order(k, old_entries[i as int].0, s[b].0);
                        }
                    } else if a == i && b > i {
                        if b - 1 > i {
                            lemma_str_lt_order(k, old_entries[i as int].0, s[b].0);
                        }
                    } else {
                    }
                }
                lemma_map_of(s);
                assert forall|j: int| 0 <= j < old_entries.len() implies old_entries[j].0 != k by {
                    if j < i {
                        lemma_str_lt_order(old_entries[j].0, k, k);
                    } else {
                        assert(s[j + 1] == old_entries[j]);
                    }
                }
                assert(map_of(s) =~= map_of(old_entries).insert(k, record)) by {
                    assert forall|key: Seq<char>| #[trigger] map_of(s).contains_key(key)
                        implies map_of(old_entries).insert(k, record).contains_key(key) by {
                        let j = choose|j: int| 0 <= j < s.len() && s[j].0 == key;
                        if j < i {
                            assert(old_entries[j].0 == key);
                        } else if j > i {
                            assert(old_entries[j - 1].0 == key);
                        }
                    }
                    assert forall|key: Seq<char>|
                        #[trigger] map_of(old_entries).insert(k, record).contains_key(key)
                        implies map_of(s).contains_key(key) by {
                        if key != k {
                            let j = choose|j: int| 0 <= j < old_entries.len() && old_entries[j].0 == key;
                            if j < i {
                                assert(s[j].0 == key);
                            } else {
                                assert(s[j + 1].0 == key);
                            }
                        } else {
                            assert(s[i as int].0 == key);
                        }
                    }
                    assert forall|key: Seq<char>| #[trigger] map_of(s).contains_key(key)
                        implies map_of(s)[key] == map_of(old_entries).insert(k, record)[key] by {
                        let j = choose|j: int| 0 <= j < s.len() && s[j].0 == key;
                        if j < i {
                            assert(old_entries[j] == s[j]);
                        } else if j > i {
                            assert(old_entries[j - 1] == s[j]);
                        }
                    }
                }
            }
        }
        self.entries = v;
    }
}

impl Clone for CardMap {
    fn clone(&self) -> (c: CardMap)
        ensures
            c.entries() == self.entries(),
    {
        let mut v: Vec<(String, CardRecord)> = Vec::new();
        let mut i: usize = 0;
        proof {
            use_type_invariant(self);
        }
        while i < self.entries.len()
            invariant
                i <= self.entries@.len(),
                entry_views(v@) == self.entries().take(i as int),
                v@.len() == i,
                self.entries().len() == self.entries@.len(),
                keys_sorted(self.entries()),
            decreases self.entries@.len() - i,
        {
            let e = &self.entries[i];
            let c = e.0.clone();
            assert(c@ == e.0@);
            let ghost before = v@;
            v.push((c, e.1));
            assert(v@ == before.push((c, e.1)));
            assert(entry_views(v@).len() == i + 1);
            assert(entry_views(v@)[i as int] == self.entries()[i as int]);
            assert forall|j: int| 0 <= j < i implies entry_views(v@)[j] == self.entries()[j] by {
                assert(entry_views(before)[j] == self.entries().take(i as int)[j]);
            }
            assert(entry_views(v@) =~= self.entries().take(i + 1));
            i = i + 1;
        }
        assert(self.entries().take(i as int) =~= self.entries());
        CardMap { entries: v }
    }
}

impl View for CardMap {
    type V = Map<Seq<char>, CardRecord>;

    open spec fn view(&self) -> Map<Seq<char>, CardRecord> {
        map_of(self.entries())
    }
}

/// The whole persisted document.
#[derive(Debug, Clone, PartialEq)]
pub struct ReviewState {
    pub schema_version: u32,
    pub settings: Settings,
    /// Keyed by `ADM0_A3`.
    pub cards: CardMap,
}

impl Default for ReviewState {
    /// First-launch state: current schema, default settings, no seen Cards.
    fn default() -> (s: ReviewState)
        ensures
            s.schema_version == SCHEMA_VERSION,
            s.settings.new_cards_per_day == DEFAULT_NEW_CARDS_PER_DAY,
            s.cards@ == Map::<Seq<char>, CardRecord>::empty(),
            s.cards.entries().len() == 0,
    {
        ReviewState {
            schema_version: SCHEMA_VERSION,
            settings: Settings::default(),
            cards: CardMap::new(),
        }
    }
}

impl ReviewState {
    /// The document with the daily new-Card cap replaced and everything else,
    /// every Card record included, unchanged.
    pub fn with_new_cards_per_day(self, new_cards_per_day: u32) -> (s: ReviewState)
        ensures
            s.settings.new_cards_per_day == new_cards_per_day,
            s.schema_version == self.schema_version,
            s.cards == self.cards,
    {
        let mut s = self;
        s.settings.new_cards_per_day = new_cards_per_day;
        s
    }
}

/// Why a store operation failed.
#[derive(Debug, Clone, PartialEq, Eq, Structural)]
pub enum StoreError {
    /// The document was written by a newer build (its schema version).
    UnsupportedSchema(u32),
    /// The operating system listed no Application Support directory.
    NoAppSupportDir,
}

/// Accept a parsed document only if this build understands its schema: a
/// present-but-newer file is an error, never silently reinterpreted.
pub fn validate_schema(state: ReviewState) -> (r: Result<ReviewState, StoreError>)
    ensures
        state.schema_version <= SCHEMA_VERSION ==> r == Ok::<ReviewState, StoreError>(state),
        state.schema_version > SCHEMA_VERSION ==> r == Err::<ReviewState, StoreError>(
            StoreError::UnsupportedSchema(state.schema_version),
        ),
{
    if state.schema_version <= SCHEMA_VERSION {
        Ok(state)
    } else {
        let v = state.schema_version;
        Err(StoreError::UnsupportedSchema(v))
    }
}

/// The bytes of a path's OS string (`Path::as_os_str().as_encoded_bytes()`).
pub uninterp spec fn path_bytes(p: &Path) -> Seq<u8>;

/// The bytes of a path buffer's OS string, as [`path_bytes`] reads them.
pub uninterp spec fn path_buf_bytes(p: PathBuf) -> Seq<u8>;

/// A single plain file-name component: ASCII letters, digits, `_`, `.` and
/// `-`, with at least one character that is not a dot. Such a name has no root
/// and no prefix on any platform, and is neither `.` nor `..`, so no path
/// normalization removes it.
pub open spec fn is_plain_name(name: Seq<char>) -> bool {
    &&& name.len() > 0
    &&& exists|i: int| 0 <= i < name.len() && #[trigger] name[i] != '.'
    &&& forall|i: int|
        0 <= i < name.len() ==> {
            let c = #[trigger] name[i];
            ('a' <= c <= 'z') || ('A' <= c <= 'Z') || ('0' <= c <= '9') || c == '_' || c == '.'
                || c == '-'
        }
}

/// Whether path bytes start with the Windows verbatim prefix `\\?\`, after
/// which `PathBuf::push` normalizes the whole path.
pub open spec fn is_verbatim(b: Seq<u8>) -> bool {
    b.len() >= 4 && b[0] == 92u8 && b[1] == 92u8 && b[2] == 63u8 && b[3] == 92u8
}

/// Path bytes `r` name `name` inside `dir`: they end with `name`, and, unless
/// `dir` is a Windows verbatim path, they are `dir`, at most one separator
/// byte, then `name`.
pub open spec fn joined(dir: Seq<u8>, name: Seq<u8>, r: Seq<u8>) -> bool {
    &&& r.len() >= name.len()
    &&& r.subrange(r.len() - name.len(), r.len() as int) == name
    &&& !is_verbatim(dir) ==> {
        &&& r.len() <= dir.len() + 1 + name.len()
        &&& r.len() >= dir.len() + name.len()
        &&& r.subrange(0, dir.len() as int) == dir
    }
}

/// `dir.join(name)` on `std::path::Path`. Its documentation (via
/// `PathBuf::push`): a name with no root and no prefix is appended to `dir`,
/// with a separator added if needed, except that a verbatim-prefixed `dir` is
/// normalized first. So the result always ends with the name's bytes, and,
/// for a non-verbatim `dir`, is `dir`'s bytes, at most one separator byte, and
/// the name's bytes. Which separator (it depends on the platform) is not stated.
#[verifier::external_body]
fn path_join(dir: &Path, name: &str) -> (r: PathBuf)
    requires
        is_plain_name(name@),
    ensures
        joined(path_bytes(dir), name.spec_bytes(), path_buf_bytes(r)),
{
    dir.join(name)
}

/// `PathBuf::as_path`: the same path, borrowed, with the same bytes.
#[verifier::external_body]
fn path_buf_as_path(p: &PathBuf) -> (r: &Path)
    ensures
        path_bytes(r) == path_buf_bytes(*p),
{
    p.as_path()
}

/// The durable store: the resolved location of the review-state file. Cheap to
/// clone and compared by that path.
#[derive(Debug, Clone, PartialEq, Eq)]
pub struct Store {
    path: PathBuf,
}

impl Store {
    /// The bytes of the store file's path.
    pub closed spec fn spec_path_bytes(self) -> Seq<u8> {
        path_buf_bytes(self.path)
    }

    /// The store whose file is [`STATE_FILE`] inside `dir` (the directory itself
    /// is created at the app boundary).
    pub fn in_dir(dir: &Path) -> (s: Store)
        ensures
            joined(path_bytes(dir), STATE_FILE.spec_bytes(), s.spec_path_bytes()),
    {
        proof {
            reveal_strlit("review_state.json");
            assert(STATE_FILE@[0] != '.');
        }
        Store { path: path_join(dir, STATE_FILE) }
    }

    /// Open the store in this app's Application Support directory, found from
    /// the operating system's Application Support search path as
    /// [`app_support_dir`] finds it (the application asks the OS for that list
    /// and creates the directory). The store file is [`STATE_FILE`] inside that
    /// directory.
    pub fn open_default(search_path: &Vec<PathBuf>) -> (r: Result<Store, StoreError>)
        ensures
            search_path@.len() == 0 <==> r == Err::<Store, StoreError>(StoreError::NoAppSupportDir),
            search_path@.len() > 0 ==> r is Ok,
            r matches Ok(s) ==> exists|dir: Seq<u8>|
                #[trigger] joined(path_buf_bytes(search_path@[0]), APP_SUBDIR.spec_bytes(), dir)
                    && joined(dir, STATE_FILE.spec_bytes(), s.spec_path_bytes()),
    {
        let dir = app_support_dir(search_path)?;
        let s = Store::in_dir(path_buf_as_path(&dir));
        proof {
            assert(joined(
                path_buf_bytes(search_path@[0]),
                APP_SUBDIR.spec_bytes(),
                path_buf_bytes(dir),
            ));
            assert(joined(path_buf_bytes(dir), STATE_FILE.spec_bytes(), s.spec_path_bytes()));
        }
        Ok(s)
    }

    /// Path of the JSON file this store reads and writes.
    pub fn path(&self) -> (p: &Path)
        ensures
            path_bytes(p) == self.spec_path_bytes(),
    {
        path_buf_as_path(&self.path)
    }
}

/// This app's folder inside Application Support.
pub const APP_SUBDIR: &'static str = "WorldLearn";

/// This app's Application Support directory, from the operating system's
/// search path for Application Support in the user domain, in the order the OS
/// lists it: the [`APP_SUBDIR`] folder inside the first entry, or
/// [`StoreError::NoAppSupportDir`] when the OS lists none (as off Apple
/// platforms). Asking the OS, and creating the directory, is the application's
/// part.
pub fn app_support_dir(search_path: &Vec<PathBuf>) -> (r: Result<PathBuf, StoreError>)
    ensures
        search_path@.len() == 0 <==> r == Err::<PathBuf, StoreError>(StoreError::NoAppSupportDir),
        search_path@.len() > 0 ==> r is Ok,
        r matches Ok(d) ==> joined(
            path_buf_bytes(search_path@[0]),
            APP_SUBDIR.spec_bytes(),
            path_buf_bytes(d),
        ),
{
    if search_path.len() == 0 {
        return Err(StoreError::NoAppSupportDir);
    }
    proof {
        reveal_strlit("WorldLearn");
        assert(APP_SUBDIR@[0] != '.');
    }
    let base = path_buf_as_path(&search_path[0]);
    Ok(path_join(base, APP_SUBDIR))
}

} // verus!
