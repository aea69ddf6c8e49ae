//! The history store: directories, paste items and settings, with the
//! validation rules that keep every item attached to an existing directory.
//!
//! The store is an in-memory value; persisting it is left to the caller, who
//! saves the whole value after each successful operation, so each operation
//! takes effect completely or not at all.

use vstd::prelude::*;
use crate::text::{capture_name, capture_directory, is_capture_directory, trim, trimmed};

verus! {

broadcast use vstd::seq_lib::group_seq_properties;

/// A named group of paste items, in creation order.
#[derive(Clone, Debug)]
pub struct Directory {
    pub id: i64,
    pub name: String,
    pub created_at: u64,
}

/// A directory's name and the number of items it holds.
#[derive(Clone, Debug)]
pub struct DirectoryInfo {
    pub name: String,
    pub count: i64,
}

/// One saved piece of text. `created_at` is when it was created or last
/// touched, in the caller's time unit; stamps are distinct and larger means
/// more recent.
#[derive(Clone, Debug)]
pub struct PasteItem {
    pub id: i64,
    pub content: String,
    pub directory: String,
    pub created_at: u64,
    pub memo: Option<String>,
}

/// A key/value setting.
#[derive(Clone, Debug)]
pub struct Setting {
    pub key: String,
    pub value: String,
}

/// Why a store operation was refused.
#[derive(Clone, Debug, PartialEq, Eq)]
pub enum StoreError {
    /// Malformed input: an empty name or content, or the reserved directory.
    Validation,
    /// The name is already taken.
    Conflict,
    /// The referenced directory does not exist.
    NotFound,
    /// The underlying store cannot take the change.
    Storage(String),
}

impl StoreError {
    /// A message for display.
    pub fn message(&self) -> (r: String)
        ensures
            r@ == match self {
                StoreError::Validation => "invalid input"@,
                StoreError::Conflict => "the name is already taken"@,
                StoreError::NotFound => "no such directory"@,
                StoreError::Storage(cause) => "storage: "@ + cause@,
            },
    {
        match self {
            StoreError::Validation => {
                String::from_str("invalid input")
            },
            StoreError::Conflict => {
                String::from_str("the name is already taken")
            },
            StoreError::NotFound => {
                String::from_str("no such directory")
            },
            StoreError::Storage(cause) => {
                let mut m = String::from_str("storage: ");
                m.append(cause.as_str());
                m
            },
        }
    }
}

/// A paste item as mathematical values.
pub struct ItemView {
    pub id: int,
    pub content: Seq<char>,
    pub directory: Seq<char>,
    pub created_at: int,
    pub memo: Option<Seq<char>>,
}

/// A directory as mathematical values.
pub struct DirView {
    pub id: int,
    pub name: Seq<char>,
    pub created_at: int,
}

/// The whole store as mathematical values.
pub struct StoreView {
    pub dirs: Seq<DirView>,
    pub items: Seq<ItemView>,
    pub settings: Seq<(Seq<char>, Seq<char>)>,
    pub clock: int,
    pub next_id: int,
    pub next_dir_id: int,
}

pub open spec fn memo_view(m: Option<String>) -> Option<Seq<char>> {
    match m {
        Some(s) => Some(s@),
        None => None,
    }
}

impl View for PasteItem {
    type V = ItemView;

    open spec fn view(&self) -> ItemView {
        ItemView {
            id: self.id as int,
            content: self.content@,
            directory: self.directory@,
            created_at: self.created_at as int,
            memo: memo_view(self.memo),
        }
    }
}

impl View for Directory {
    type V = DirView;

    open spec fn view(&self) -> DirView {
        DirView { id: self.id as int, name: self.name@, created_at: self.created_at as int }
    }
}

pub open spec fn items_view(s: Seq<PasteItem>) -> Seq<ItemView> {
    s.map_values(|i: PasteItem| i@)
}

pub open spec fn dirs_view(s: Seq<Directory>) -> Seq<DirView> {
    s.map_values(|d: Directory| d@)
}

pub open spec fn settings_view(s: Seq<Setting>) -> Seq<(Seq<char>, Seq<char>)> {
    s.map_values(|e: Setting| (e.key@, e.value@))
}

/// The items of `items` that belong to directory `d`, oldest first.
pub open spec fn in_directory(items: Seq<ItemView>, d: Seq<char>) -> Seq<ItemView> {
    items.filter(in_dir(d))
}

/// Holds of the items of directory `d`.
pub open spec fn in_dir(d: Seq<char>) -> spec_fn(ItemView) -> bool {
    |it: ItemView| it.directory == d
}

/// How many items of `items` belong to directory `d`.
pub open spec fn count_in(items: Seq<ItemView>, d: Seq<char>) -> nat {
    in_directory(items, d).len()
}

/// Later items carry larger recency stamps.
pub open spec fn stamps_ascending(s: Seq<ItemView>) -> bool {
    forall|i: int, j: int| 0 <= i < j < s.len() ==> #[trigger] s[i].created_at < #[trigger] s[j].created_at
}

/// No two items share an id.
pub open spec fn ids_distinct(s: Seq<ItemView>) -> bool {
    forall|i: int, j: int| 0 <= i < j < s.len() ==> #[trigger] s[i].id != #[trigger] s[j].id
}

/// Dropping items keeps the stamps ascending and the ids distinct.
pub proof fn lemma_filter_ordered(s: Seq<ItemView>, p: spec_fn(ItemView) -> bool)
    requires
        stamps_ascending(s),
        ids_distinct(s),
    ensures
        stamps_ascending(s.filter(p)),
        ids_distinct(s.filter(p)),
        forall|i: int| 0 <= i < s.filter(p).len() ==> s.contains(#[trigger] s.filter(p)[i]),
    decreases s.len(),
{
    s.filter_lemma(p);
    if s.len() > 0 {
        let t = s.drop_last();
        lemma_filter_ordered(t, p);
        t.filter_lemma(p);
        reveal(Seq::filter);
        let f = s.filter(p);
        let g = t.filter(p);
        assert forall|i: int| 0 <= i < g.len() implies #[trigger] g[i].created_at < s.last().created_at
            && g[i].id != s.last().id by {
            assert(t.contains(g[i]));
            let k = choose|k: int| 0 <= k < t.len() && t[k] == g[i];
            assert(s[k] == t[k]);
        }
        if p(s.last()) {
            assert(f == g.push(s.last()));
        } else {
            assert(f == g);
        }
    }
}

/// An item of directory `from` moved to directory `to`; other items unchanged.
pub open spec fn moved_item(it: ItemView, from: Seq<char>, to: Seq<char>) -> ItemView {
    if it.directory == from {
        ItemView { directory: to, ..it }
    } else {
        it
    }
}

/// Every item of directory `from` moved to directory `to`.
pub open spec fn move_all(s: Seq<ItemView>, from: Seq<char>, to: Seq<char>) -> Seq<ItemView> {
    s.map_values(|it: ItemView| moved_item(it, from, to))
}

/// `s` without the `k` oldest items of directory `d`: an item of `d` is
/// dropped when fewer than `k` items of `d` come before it.
pub open spec fn evict(s: Seq<ItemView>, d: Seq<char>, k: nat) -> Seq<ItemView>
    decreases s.len(),
{
    if s.len() == 0 {
        s
    } else {
        let rest = evict(s.drop_last(), d, k);
        if s.last().directory == d && count_in(s.drop_last(), d) < k {
            rest
        } else {
            rest.push(s.last())
        }
    }
}

/// How many items to drop so that directory `d` keeps at most `limit`.
pub open spec fn excess(s: Seq<ItemView>, d: Seq<char>, limit: nat) -> nat {
    if count_in(s, d) > limit {
        (count_in(s, d) - limit) as nat
    } else {
        0
    }
}

/// Eviction keeps a subsequence of the items, in order.
pub proof fn lemma_evict_ordered(s: Seq<ItemView>, d: Seq<char>, k: nat)
    requires
        stamps_ascending(s),
        ids_distinct(s),
    ensures
        stamps_ascending(evict(s, d, k)),
        ids_distinct(evict(s, d, k)),
        evict(s, d, k).len() <= s.len(),
        forall|i: int| 0 <= i < evict(s, d, k).len() ==> s.contains(#[trigger] evict(s, d, k)[i]),
    decreases s.len(),
{
    if s.len() > 0 {
        let t = s.drop_last();
        lemma_evict_ordered(t, d, k);
        let g = evict(t, d, k);
        assert forall|i: int| 0 <= i < g.len() implies #[trigger] g[i].created_at < s.last().created_at
            && g[i].id != s.last().id && s.contains(g[i]) by {
            assert(t.contains(g[i]));
            let m = choose|m: int| 0 <= m < t.len() && t[m] == g[i];
            assert(s[m] == t[m]);
        }
        if !(s.last().directory == d && count_in(t, d) < k) {
            assert(s.contains(s.last()));
        }
    }
}

/// Dropping no items changes nothing.
pub proof fn lemma_evict_none(s: Seq<ItemView>, d: Seq<char>)
    ensures
        evict(s, d, 0) == s,
    decreases s.len(),
{
    if s.len() > 0 {
        lemma_evict_none(s.drop_last(), d);
        assert(s.drop_last().push(s.last()) =~= s);
    }
}

/// Appending one item adds one to its directory's count.
pub proof fn lemma_count_push(s: Seq<ItemView>, x: ItemView, d: Seq<char>)
    ensures
        count_in(s.push(x), d) == count_in(s, d) + if x.directory == d { 1nat } else { 0nat },
{
    s.lemma_filter_push(x, in_dir(d));
}

/// Eviction takes `k` items out of directory `d`, or all of them when it
/// holds fewer.
pub proof fn lemma_evict_count(s: Seq<ItemView>, d: Seq<char>, k: nat)
    ensures
        count_in(evict(s, d, k), d) == if count_in(s, d) < k { 0 } else { count_in(s, d) - k },
    decreases s.len(),
{
    if s.len() > 0 {
        let t = s.drop_last();
        lemma_evict_count(t, d, k);
        assert(t.push(s.last()) == s);
        lemma_count_push(t, s.last(), d);
        lemma_count_push(evict(t, d, k), s.last(), d);
    }
}

/// When directory `d` holds at least `k` items of `s`, an item appended
/// after them survives eviction.
pub proof fn lemma_evict_keeps_last(s: Seq<ItemView>, x: ItemView, d: Seq<char>, k: nat)
    requires
        count_in(s, d) >= k,
    ensures
        evict(s.push(x), d, k) == evict(s, d, k).push(x),
{
    assert(s.push(x).drop_last() == s);
}

/// Every item that survives eviction stands somewhere in `s`, at a place `m`
/// where it was not among the `k` oldest of directory `d`.
pub proof fn lemma_evict_kept_at(s: Seq<ItemView>, d: Seq<char>, k: nat, i: int) -> (m: int)
    requires
        0 <= i < evict(s, d, k).len(),
    ensures
        0 <= m < s.len(),
        s[m] == evict(s, d, k)[i],
        !(s[m].directory == d && count_in(s.subrange(0, m), d) < k),
    decreases s.len(),
{
    let t = s.drop_last();
    let r = evict(t, d, k);
    assert(s.subrange(0, s.len() - 1) =~= t);
    if i < r.len() {
        let m = lemma_evict_kept_at(t, d, k, i);
        assert(s.subrange(0, m) =~= t.subrange(0, m));
        assert(s[m] == t[m]);
        if !(s.last().directory == d && count_in(t, d) < k) {
            assert(evict(s, d, k)[i] == r[i]);
        }
        m
    } else {
        assert(evict(s, d, k)[i] == s.last());
        s.len() - 1
    }
}

/// A directory with no items of `s` loses nothing to eviction.
pub proof fn lemma_evict_absent(s: Seq<ItemView>, d: Seq<char>, k: nat)
    requires
        count_in(s, d) == 0,
    ensures
        evict(s, d, k) == s,
    decreases s.len(),
{
    if s.len() > 0 {
        let t = s.drop_last();
        assert(t.push(s.last()) == s);
        lemma_count_push(t, s.last(), d);
        lemma_evict_absent(t, d, k);
    }
}

/// A directory that holds an item of `s` has a positive count.
pub proof fn lemma_count_positive(s: Seq<ItemView>, d: Seq<char>, i: int)
    requires
        0 <= i < s.len(),
        s[i].directory == d,
    ensures
        count_in(s, d) >= 1,
{
    s.filter_lemma(in_dir(d));
    assert(s.filter(in_dir(d)).contains(s[i]));
}

/// Evicting one item of directory `d` removes exactly its oldest item, at `m`.
pub proof fn lemma_evict_first(s: Seq<ItemView>, d: Seq<char>, m: int)
    requires
        0 <= m < s.len(),
        s[m].directory == d,
        count_in(s.subrange(0, m), d) == 0,
    ensures
        evict(s, d, 1) == s.remove(m),
    decreases s.len(),
{
    let t = s.drop_last();
    if m == s.len() - 1 {
        assert(s.subrange(0, m) =~= t);
        lemma_evict_absent(t, d, 1);
        assert(s.remove(m) =~= t);
    } else {
        assert(t.subrange(0, m) =~= s.subrange(0, m));
        lemma_evict_first(t, d, m);
        lemma_count_positive(t, d, m);
        assert(s.remove(m) =~= t.remove(m).push(s.last()));
    }
}

/// Holds of the items not called `id`.
pub open spec fn id_differs(id: int) -> spec_fn(ItemView) -> bool {
    |it: ItemView| it.id != id
}

/// Holds of the items outside directory `d`.
pub open spec fn outside_directory(d: Seq<char>) -> spec_fn(ItemView) -> bool {
    |it: ItemView| it.directory != d
}

/// Whether one of `dirs` is called `name`.
pub open spec fn dir_exists(dirs: Seq<DirView>, name: Seq<char>) -> bool {
    exists|j: int| 0 <= j < dirs.len() && #[trigger] dirs[j].name == name
}

impl StoreView {
    pub open spec fn has_directory(self, name: Seq<char>) -> bool {
        dir_exists(self.dirs, name)
    }

    pub open spec fn has_item(self, id: int) -> bool {
        exists|j: int| 0 <= j < self.items.len() && #[trigger] self.items[j].id == id
    }

    /// No id, or no stamp for time `now`, can be handed out.
    pub open spec fn full_at(self, now: int) -> bool {
        self.next_id >= i64::MAX || self.stamp_at(now) >= u64::MAX
    }

    /// The store's invariant.
    pub open spec fn wf(self) -> bool {
        &&& self.dirs.len() >= 1
        &&& self.dirs[0].name == capture_name()
        &&& forall|i: int| 0 <= i < self.dirs.len() ==> #[trigger] self.dirs[i].name.len() > 0
        &&& forall|i: int, j: int|
            0 <= i < j < self.dirs.len() ==> #[trigger] self.dirs[i].name != #[trigger] self.dirs[j].name
        &&& forall|i: int| #![trigger self.items[i]] 0 <= i < self.items.len() ==> {
            &&& self.has_directory(self.items[i].directory)
            &&& self.items[i].content.len() > 0
            &&& 0 < self.items[i].id < self.next_id
            &&& 0 <= self.items[i].created_at < self.clock
        }
        &&& stamps_ascending(self.items)
        &&& ids_distinct(self.items)
        &&& forall|i: int, j: int|
            0 <= i < j < self.settings.len() ==> #[trigger] self.settings[i].0 != #[trigger] self.settings[j].0
        &&& self.items.len() < self.next_id <= i64::MAX
        &&& 0 <= self.clock <= u64::MAX
        &&& 0 < self.next_dir_id <= i64::MAX
        &&& forall|i: int| #![trigger self.dirs[i]] 0 <= i < self.dirs.len() ==> 0 <= self.dirs[i].created_at
            < self.clock && 0 < self.dirs[i].id < self.next_dir_id
        &&& forall|i: int, j: int|
            0 <= i < j < self.dirs.len() ==> #[trigger] self.dirs[i].created_at < #[trigger] self.dirs[j].created_at
                && self.dirs[i].id != self.dirs[j].id
    }

    /// The store after inserting a new item at time `now`.
    pub open spec fn with_item(self, content: Seq<char>, d: Seq<char>, memo: Option<Seq<char>>, now: int) -> StoreView {
        StoreView {
            items: self.items.push(
                ItemView { id: self.next_id, content, directory: d, created_at: self.stamp_at(now), memo },
            ),
            clock: self.stamp_at(now) + 1,
            next_id: self.next_id + 1,
            ..self
        }
    }

    /// Inserting an item into an existing directory keeps the invariant.
    pub proof fn lemma_with_item_wf(self, content: Seq<char>, d: Seq<char>, memo: Option<Seq<char>>, now: int)
        requires
            self.wf(),
            content.len() > 0,
            self.has_directory(d),
            !self.full_at(now),
        ensures
            self.with_item(content, d, memo, now).wf(),
    {
        let n = self.with_item(content, d, memo, now);
        assert(n.dirs == self.dirs);
        assert forall|i: int| 0 <= i < n.items.len() implies n.has_directory(#[trigger] n.items[i].directory) by {
            if i < self.items.len() {
                assert(n.items[i] == self.items[i]);
                assert(self.has_directory(self.items[i].directory));
            }
        }
        assert forall|i: int| 0 <= i < n.items.len() implies {
            &&& n.items[i].content.len() > 0
            &&& 0 < n.items[i].id < n.next_id
            &&& 0 <= n.items[i].created_at < n.clock
        } by {
            if i < self.items.len() {
                assert(n.items[i] == self.items[i]);
            }
        }
        assert forall|i: int, j: int| 0 <= i < j < n.items.len() implies #[trigger] n.items[i].created_at
                < #[trigger] n.items[j].created_at by {
            assert(n.items[i] == self.items[i]);
            if j < self.items.len() {
                assert(n.items[j] == self.items[j]);
            }
        }
        assert forall|i: int, j: int| 0 <= i < j < n.items.len() implies #[trigger] n.items[i].id
                != #[trigger] n.items[j].id by {
            assert(n.items[i] == self.items[i]);
        }
    }

    /// Whether item `i` holds `content` in directory `d`.
    pub open spec fn matches(self, i: int, content: Seq<char>, d: Seq<char>) -> bool {
        self.items[i].content == content && self.items[i].directory == d
    }

    /// Item `i` is the oldest that holds `content` in directory `d`.
    pub open spec fn is_first_match(self, i: int, content: Seq<char>, d: Seq<char>) -> bool {
        &&& 0 <= i < self.items.len()
        &&& self.matches(i, content, d)
        &&& forall|j: int| 0 <= j < i ==> !#[trigger] self.matches(j, content, d)
    }

    pub open spec fn has_match(self, content: Seq<char>, d: Seq<char>) -> bool {
        exists|i: int| 0 <= i < self.items.len() && #[trigger] self.matches(i, content, d)
    }

    /// The store after item `i` is rewritten and moved to the most recent place.
    pub open spec fn touched(self, i: int, content: Seq<char>, d: Seq<char>, memo: Option<Seq<char>>, now: int) -> StoreView {
        StoreView {
            items: self.items.remove(i).push(
                ItemView { id: self.items[i].id, content, directory: d, created_at: self.stamp_at(now), memo },
            ),
            clock: self.stamp_at(now) + 1,
            ..self
        }
    }

    /// Rewriting an item keeps the invariant.
    pub proof fn lemma_touched_wf(self, i: int, content: Seq<char>, d: Seq<char>, memo: Option<Seq<char>>, now: int)
        requires
            self.wf(),
            0 <= i < self.items.len(),
            content.len() > 0,
            self.has_directory(d),
            !self.full_at(now),
        ensures
            self.touched(i, content, d, memo, now).wf(),
    {
        let n = self.touched(i, content, d, memo, now);
        let m = self.items.len() - 1;
        assert(n.dirs == self.dirs);
        assert forall|k: int| 0 <= k < m implies n.items[k] == self.items[if k < i { k } else { k + 1 }] by {}
        assert forall|k: int| #![trigger n.items[k]] 0 <= k < n.items.len() implies {
            &&& n.has_directory(n.items[k].directory)
            &&& n.items[k].content.len() > 0
            &&& 0 < n.items[k].id < n.next_id
            &&& 0 <= n.items[k].created_at < n.clock
        } by {
            if k < m {
                let o = if k < i { k } else { k + 1 };
                assert(self.items[o] == n.items[k]);
            } else {
                assert(self.items[i] == self.items[i]);
            }
        }
        assert forall|a: int, b: int| 0 <= a < b < n.items.len() implies #[trigger] n.items[a].created_at
                < #[trigger] n.items[b].created_at by {
            let oa = if a < i { a } else { a + 1 };
            assert(self.items[oa] == n.items[a]);
            if b < m {
                let ob = if b < i { b } else { b + 1 };
                assert(self.items[ob] == n.items[b]);
            }
        }
        assert forall|a: int, b: int| 0 <= a < b < n.items.len() implies #[trigger] n.items[a].id
                != #[trigger] n.items[b].id by {
            let oa = if a < i { a } else { a + 1 };
            assert(self.items[oa] == n.items[a]);
            if b < m {
                let ob = if b < i { b } else { b + 1 };
                assert(self.items[ob] == n.items[b]);
            } else {
                assert(oa != i);
            }
        }
    }

    /// The store without the item called `id`.
    pub open spec fn without_item(self, id: int) -> StoreView {
        StoreView { items: self.items.filter(id_differs(id)), ..self }
    }

    /// Deleting items keeps the invariant.
    pub proof fn lemma_filtered_wf(self, p: spec_fn(ItemView) -> bool)
        requires
            self.wf(),
        ensures
            (forall|i: int|
                0 <= i < self.items.len() && p(self.items[i]) ==> self.has_directory(
                    #[trigger] self.items[i].directory,
                )) ==> (StoreView { items: self.items.filter(p), ..self }).wf(),
    {
        lemma_filter_ordered(self.items, p);
        let f = self.items.filter(p);
        self.items.filter_lemma(p);
        assert forall|i: int| 0 <= i < f.len() implies {
            &&& f[i].content.len() > 0
            &&& 0 < f[i].id < self.next_id
            &&& 0 <= f[i].created_at < self.clock
            &&& (forall|k: int|
                0 <= k < self.items.len() && p(self.items[k]) ==> self.has_directory(
                    #[trigger] self.items[k].directory,
                )) ==> self.has_directory(f[i].directory)
        } by {
            let k = choose|k: int| 0 <= k < self.items.len() && self.items[k] == f[i];
            assert(self.items[k] == f[i]);
        }
    }

    pub proof fn lemma_without_item_wf(self, id: int)
        requires
            self.wf(),
        ensures
            self.without_item(id).wf(),
    {
        self.lemma_filtered_wf(id_differs(id));
    }

    /// No directory id, or no stamp for time `now`, can be handed out.
    pub open spec fn dirs_full_at(self, now: int) -> bool {
        self.next_dir_id >= i64::MAX || self.stamp_at(now) >= u64::MAX
    }

    /// The store after creating directory `name` at time `now`.
    pub open spec fn with_directory(self, name: Seq<char>, now: int) -> StoreView {
        StoreView {
            dirs: self.dirs.push(DirView { id: self.next_dir_id, name, created_at: self.stamp_at(now) }),
            clock: self.stamp_at(now) + 1,
            next_dir_id: self.next_dir_id + 1,
            ..self
        }
    }

    /// The store after a directory saved earlier is loaded back under its
    /// own id and stamp.
    pub open spec fn with_restored_directory(self, id: int, name: Seq<char>, at: int) -> StoreView {
        StoreView {
            dirs: self.dirs.push(DirView { id, name, created_at: self.stamp_at(at) }),
            clock: self.stamp_at(at) + 1,
            next_dir_id: if id >= self.next_dir_id { id + 1 } else { self.next_dir_id },
            ..self
        }
    }

    pub open spec fn has_directory_id(self, id: int) -> bool {
        exists|j: int| 0 <= j < self.dirs.len() && #[trigger] self.dirs[j].id == id
    }

    pub proof fn lemma_with_restored_directory_wf(self, id: int, name: Seq<char>, at: int)
        requires
            self.wf(),
            name.len() > 0,
            !self.has_directory(name),
            !self.has_directory_id(id),
            0 < id < i64::MAX,
            self.clock < u64::MAX,
            0 <= at < u64::MAX,
        ensures
            self.with_restored_directory(id, name, at).wf(),
    {
        let n = self.with_restored_directory(id, name, at);
        assert forall|i: int| #![trigger n.items[i]] 0 <= i < n.items.len() implies n.has_directory(
            n.items[i].directory,
        ) by {
            let d = self.items[i].directory;
            assert(self.has_directory(d));
            let j = choose|j: int| 0 <= j < self.dirs.len() && #[trigger] self.dirs[j].name == d;
            assert(n.dirs[j] == self.dirs[j]);
        }
        assert forall|i: int, j: int| 0 <= i < j < n.dirs.len() implies #[trigger] n.dirs[i].name
            != #[trigger] n.dirs[j].name by {
            if j == self.dirs.len() {
                assert(self.dirs[i] == n.dirs[i]);
            }
        }
        assert forall|i: int, j: int| 0 <= i < j < n.dirs.len() implies #[trigger] n.dirs[i].created_at
            < #[trigger] n.dirs[j].created_at && n.dirs[i].id != n.dirs[j].id by {
            assert(self.dirs[i] == n.dirs[i]);
            if j == self.dirs.len() {
                assert(self.dirs[i].id != id);
            }
        }
        assert forall|i: int| #![trigger n.dirs[i]] 0 <= i < n.dirs.len() implies 0 <= n.dirs[i].created_at
            < n.clock && 0 < n.dirs[i].id < n.next_dir_id by {
            if i < self.dirs.len() {
                assert(self.dirs[i] == n.dirs[i]);
            }
        }
    }

    /// The store after directory `i`, called `from`, is renamed `to` together
    /// with every item that refers to it.
    pub open spec fn renamed(self, i: int, from: Seq<char>, to: Seq<char>) -> StoreView {
        StoreView {
            dirs: self.dirs.update(i, DirView { name: to, ..self.dirs[i] }),
            items: move_all(self.items, from, to),
            ..self
        }
    }

    /// The store after directory `i`, called `name`, is deleted with its items.
    pub open spec fn without_directory(self, i: int, name: Seq<char>) -> StoreView {
        StoreView {
            dirs: self.dirs.remove(i),
            items: self.items.filter(outside_directory(name)),
            ..self
        }
    }

    pub proof fn lemma_with_directory_wf(self, name: Seq<char>, now: int)
        requires
            self.wf(),
            name.len() > 0,
            !self.has_directory(name),
            !self.dirs_full_at(now),
        ensures
            self.with_directory(name, now).wf(),
    {
        let n = self.with_directory(name, now);
        assert forall|i: int| #![trigger n.items[i]] 0 <= i < n.items.len() implies n.has_directory(
            n.items[i].directory,
        ) by {
            let d = self.items[i].directory;
            assert(self.has_directory(d));
            let j = choose|j: int| 0 <= j < self.dirs.len() && #[trigger] self.dirs[j].name == d;
            assert(n.dirs[j] == self.dirs[j]);
        }
        assert forall|i: int, j: int| 0 <= i < j < n.dirs.len() implies #[trigger] n.dirs[i].name
            != #[trigger] n.dirs[j].name by {
            if j == self.dirs.len() {
                assert(self.dirs[i] == n.dirs[i]);
            }
        }
    }

    pub proof fn lemma_renamed_wf(self, i: int, from: Seq<char>, to: Seq<char>)
        requires
            self.wf(),
            0 < i < self.dirs.len(),
            self.dirs[i].name == from,
            to.len() > 0,
            !self.has_directory(to),
        ensures
            self.renamed(i, from, to).wf(),
    {
        let n = self.renamed(i, from, to);
        assert forall|k: int| #![trigger n.items[k]] 0 <= k < n.items.len() implies n.has_directory(
            n.items[k].directory,
        ) by {
            let d = self.items[k].directory;
            assert(self.has_directory(d));
            if d == from {
                assert(n.dirs[i].name == to);
            } else {
                let j = choose|j: int| 0 <= j < self.dirs.len() && #[trigger] self.dirs[j].name == d;
                assert(n.dirs[j] == self.dirs[j]);
            }
        }
        assert forall|a: int, b: int| 0 <= a < b < n.dirs.len() implies #[trigger] n.dirs[a].name
            != #[trigger] n.dirs[b].name by {
            if a == i {
                assert(self.dirs[b].name == n.dirs[b].name);
            } else if b == i {
                assert(self.dirs[a].name == n.dirs[a].name);
            }
        }
        assert(n.items.len() == self.items.len());
        assert forall|a: int, b: int| 0 <= a < b < n.items.len() implies #[trigger] n.items[a].created_at
            < #[trigger] n.items[b].created_at && n.items[a].id != n.items[b].id by {
            assert(self.items[a].created_at < self.items[b].created_at);
            assert(self.items[a].id != self.items[b].id);
        }
    }

    pub proof fn lemma_without_directory_wf(self, i: int, name: Seq<char>)
        requires
            self.wf(),
            0 < i < self.dirs.len(),
            self.dirs[i].name == name,
        ensures
            self.without_directory(i, name).wf(),
    {
        let p = outside_directory(name);
        self.lemma_filtered_wf(p);
        lemma_filter_ordered(self.items, p);
        let f = self.items.filter(p);
        self.items.filter_lemma(p);
        let n = self.without_directory(i, name);
        assert forall|k: int| #![trigger n.items[k]] 0 <= k < n.items.len() implies n.has_directory(
            n.items[k].directory,
        ) by {
            assert(self.items.contains(f[k]));
            assert(p(f[k]));
            assert(f[k].directory != name);
            let o = choose|o: int| 0 <= o < self.items.len() && self.items[o] == f[k];
            let d = self.items[o].directory;
            assert(self.items[o] == self.items[o]);
            assert(self.has_directory(d));
            let j = choose|j: int| 0 <= j < self.dirs.len() && #[trigger] self.dirs[j].name == d;
            assert(j != i);
            if j < i {
                assert(n.dirs[j] == self.dirs[j]);
            } else {
                assert(n.dirs[j - 1] == self.dirs[j]);
            }
        }
        assert forall|a: int, b: int| 0 <= a < b < n.dirs.len() implies #[trigger] n.dirs[a].name
            != #[trigger] n.dirs[b].name by {
            let oa = if a < i { a } else { a + 1 };
            let ob = if b < i { b } else { b + 1 };
            assert(n.dirs[a] == self.dirs[oa]);
            assert(n.dirs[b] == self.dirs[ob]);
        }
        assert forall|a: int| 0 <= a < n.dirs.len() implies #[trigger] n.dirs[a].name.len() > 0
            && 0 <= n.dirs[a].created_at < n.clock by {
            let oa = if a < i { a } else { a + 1 };
            assert(n.dirs[a] == self.dirs[oa]);
        }
    }

    /// The store after directory `d` is cut down to its `limit` most recent items.
    pub open spec fn cleaned(self, d: Seq<char>, limit: nat) -> StoreView {
        StoreView { items: evict(self.items, d, excess(self.items, d, limit)), ..self }
    }

    pub proof fn lemma_cleaned_wf(self, d: Seq<char>, limit: nat)
        requires
            self.wf(),
        ensures
            self.cleaned(d, limit).wf(),
    {
        let k = excess(self.items, d, limit);
        lemma_evict_ordered(self.items, d, k);
        let e = evict(self.items, d, k);
        assert forall|i: int| #![trigger e[i]] 0 <= i < e.len() implies {
            &&& self.has_directory(e[i].directory)
            &&& e[i].content.len() > 0
            &&& 0 < e[i].id < self.next_id
            &&& 0 <= e[i].created_at < self.clock
        } by {
            assert(self.items.contains(e[i]));
            let m = choose|m: int| 0 <= m < self.items.len() && self.items[m] == e[i];
            assert(self.items[m] == e[i]);
        }
    }

    /// The value of setting `key`, if it is set.
    pub open spec fn setting(self, key: Seq<char>) -> Option<Seq<char>> {
        if exists|i: int| 0 <= i < self.settings.len() && #[trigger] self.settings[i].0 == key {
            let i = choose|i: int| 0 <= i < self.settings.len() && #[trigger] self.settings[i].0 == key;
            Some(self.settings[i].1)
        } else {
            None
        }
    }

    /// Setting `i` gives the value of its key.
    pub proof fn lemma_setting_at(self, i: int)
        requires
            self.wf(),
            0 <= i < self.settings.len(),
        ensures
            self.setting(self.settings[i].0) == Some(self.settings[i].1),
    {
        let key = self.settings[i].0;
        assert(self.settings[i].0 == key);
        let j = choose|j: int| 0 <= j < self.settings.len() && #[trigger] self.settings[j].0 == key;
        if j != i {
            if j < i {
                assert(self.settings[j].0 != self.settings[i].0);
            } else {
                assert(self.settings[i].0 != self.settings[j].0);
            }
        }
    }

    /// The store after setting `key` to `value`, overwriting any earlier value.
    pub open spec fn with_setting(self, key: Seq<char>, value: Seq<char>) -> StoreView {
        StoreView {
            settings: if exists|i: int| 0 <= i < self.settings.len() && #[trigger] self.settings[i].0 == key {
                let i = choose|i: int| 0 <= i < self.settings.len() && #[trigger] self.settings[i].0 == key;
                self.settings.update(i, (key, value))
            } else {
                self.settings.push((key, value))
            },
            ..self
        }
    }

    /// The stamp for a row made or saved at time `at`: `at` itself, unless a
    /// row already holds that stamp or a later one; then one past the latest.
    pub open spec fn stamp_at(self, at: int) -> int {
        if at >= self.clock { at } else { self.clock }
    }

    /// The store after an item saved earlier is loaded back under its own id
    /// and stamp.
    pub open spec fn with_restored(self, id: int, content: Seq<char>, d: Seq<char>, memo: Option<Seq<char>>, at: int) -> StoreView {
        StoreView {
            items: self.items.push(ItemView { id, content, directory: d, created_at: self.stamp_at(at), memo }),
            clock: self.stamp_at(at) + 1,
            next_id: if id > self.next_id { id + 1 } else { self.next_id + 1 },
            ..self
        }
    }

    pub proof fn lemma_with_restored_wf(self, id: int, content: Seq<char>, d: Seq<char>, memo: Option<Seq<char>>, at: int)
        requires
            self.wf(),
            content.len() > 0,
            self.has_directory(d),
            !self.has_item(id),
            0 < id < i64::MAX,
            self.clock < u64::MAX,
            0 <= at < u64::MAX,
            self.next_id < i64::MAX,
        ensures
            self.with_restored(id, content, d, memo, at).wf(),
    {
        let n = self.with_restored(id, content, d, memo, at);
        assert(n.dirs == self.dirs);
        assert forall|i: int| #![trigger n.items[i]] 0 <= i < n.items.len() implies {
            &&& n.has_directory(n.items[i].directory)
            &&& n.items[i].content.len() > 0
            &&& 0 < n.items[i].id < n.next_id
            &&& 0 <= n.items[i].created_at < n.clock
        } by {
            if i < self.items.len() {
                assert(n.items[i] == self.items[i]);
            }
        }
        assert forall|i: int, j: int| 0 <= i < j < n.items.len() implies #[trigger] n.items[i].created_at
                < #[trigger] n.items[j].created_at && n.items[i].id != n.items[j].id by {
            assert(n.items[i] == self.items[i]);
            assert(self.items[i].id != id);
            if j < self.items.len() {
                assert(n.items[j] == self.items[j]);
            }
        }
    }

    /// A rename is complete: the directory row and every item that referred
    /// to the old name now carry the new one, and nothing refers to the old
    /// name any more.
    pub proof fn lemma_rename_complete(self, i: int, from: Seq<char>, to: Seq<char>)
        requires
            self.wf(),
            0 < i < self.dirs.len(),
            self.dirs[i].name == from,
            to.len() > 0,
            from != to,
            !self.has_directory(to),
        ensures
            self.renamed(i, from, to).wf(),
            self.renamed(i, from, to).dirs[i].name == to,
            !self.renamed(i, from, to).has_directory(from),
            self.renamed(i, from, to).items.len() == self.items.len(),
            forall|k: int| 0 <= k < self.items.len() ==> {
                let it = #[trigger] self.renamed(i, from, to).items[k];
                &&& it.directory != from
                &&& (it.directory == to <==> self.items[k].directory == from)
                &&& it == (ItemView { directory: it.directory, ..self.items[k] })
            },
    {
        self.lemma_renamed_wf(i, from, to);
        let n = self.renamed(i, from, to);
        if n.has_directory(from) {
            let j = choose|j: int| 0 <= j < n.dirs.len() && #[trigger] n.dirs[j].name == from;
            assert(j != i);
            assert(n.dirs[j] == self.dirs[j]);
            if j < i {
                assert(self.dirs[j].name != self.dirs[i].name);
            } else {
                assert(self.dirs[i].name != self.dirs[j].name);
            }
        }
        assert forall|k: int| 0 <= k < self.items.len() implies {
            let it = #[trigger] n.items[k];
            &&& it.directory != from
            &&& (it.directory == to <==> self.items[k].directory == from)
            &&& it == (ItemView { directory: it.directory, ..self.items[k] })
        } by {
            assert(self.has_directory(self.items[k].directory));
            if self.items[k].directory == to {
                assert(self.items[k] == self.items[k]);
            }
        }
    }

    /// The history, most recent first.
    pub open spec fn history(self) -> Seq<ItemView> {
        self.items.reverse()
    }
}

/// The history store.
pub struct Store {
    directories: Vec<Directory>,
    items: Vec<PasteItem>,
    settings: Vec<Setting>,
    clock: u64,
    next_id: i64,
    next_dir_id: i64,
}

impl View for Store {
    type V = StoreView;

    closed spec fn view(&self) -> StoreView {
        StoreView {
            dirs: dirs_view(self.directories@),
            items: items_view(self.items@),
            settings: settings_view(self.settings@),
            clock: self.clock as int,
            next_id: self.next_id as int,
            next_dir_id: self.next_dir_id as int,
        }
    }
}

fn full_error() -> (r: StoreError)
    ensures
        r is Storage,
{
    StoreError::Storage(String::from_str("the history store has no ids or stamps left"))
}

impl Store {
    pub open spec fn wf(&self) -> bool {
        self@.wf()
    }

    /// An empty store holding only the reserved directory.
    pub fn new() -> (r: Store)
        ensures
            r.wf(),
            r@.dirs.len() == 1,
            r@.items.len() == 0,
            r@.settings.len() == 0,
            r@.next_id == 1,
            r@.clock == 1,
            r@.next_dir_id == 2,
    {
        let mut directories: Vec<Directory> = Vec::new();
        directories.push(Directory { id: 1, name: capture_directory(), created_at: 0 });
        let r = Store {
            directories,
            items: Vec::new(),
            settings: Vec::new(),
            clock: 1,
            next_id: 1,
            next_dir_id: 2,
        };
        proof {
            reveal_strlit("Clipboard");
        }
        r
    }

    /// The position of the directory called `name`, if there is one.
    fn directory_position(&self, name: &String) -> (r: Option<usize>)
        requires
            self.wf(),
        ensures
            match r {
                Some(i) => i < self@.dirs.len() && self@.dirs[i as int].name == name@,
                None => !self@.has_directory(name@),
            },
    {
        let mut i: usize = 0;
        while i < self.directories.len()
            invariant
                i <= self.directories@.len(),
                forall|j: int| 0 <= j < i ==> self@.dirs[j].name != name@,
            decreases self.directories@.len() - i,
        {
            if self.directories[i].name == *name {
                return Some(i);
            }
            i += 1;
        }
        None
    }

    /// Saves `content` in `directory` as a new item and returns its id.
    pub fn post_content(&mut self, content: &str, directory: &str, memo: Option<&str>, now: u64) -> (r: Result<i64, StoreError>)
        requires
            old(self).wf(),
        ensures
            final(self).wf(),
            r is Ok <==> content@.len() > 0 && old(self)@.has_directory(directory@) && !old(self)@.full_at(now as int),
            r == Err::<i64, StoreError>(StoreError::Validation) <==> content@.len() == 0,
            r == Err::<i64, StoreError>(StoreError::NotFound) <==> content@.len() > 0 && !old(self)@.has_directory(directory@),
            match r {
                Ok(id) => id == old(self)@.next_id && final(self)@ == old(self)@.with_item(
                    content@, directory@, match memo { Some(m) => Some(m@), None => None }, now as int),
                Err(_) => final(self)@ == old(self)@,
            },
    {
        if content.unicode_len() == 0 {
            return Err(StoreError::Validation);
        }
        let dir = directory.to_owned();
        let pos = match self.directory_position(&dir) {
            Some(p) => p,
            None => return Err(StoreError::NotFound),
        };
        if self.next_id == i64::MAX || now == u64::MAX || self.clock == u64::MAX {
            return Err(full_error());
        }
        let memo = match memo {
            Some(m) => Some(m.to_owned()),
            None => None,
        };
        let id = self.next_id;
        let stamp = self.stamp_at(now);
        let item = PasteItem { id, content: content.to_owned(), directory: dir, created_at: stamp, memo };
        let ghost prev = self@;
        self.items.push(item);
        self.clock = stamp + 1;
        self.next_id = self.next_id + 1;
        proof {
            assert(self@.items =~= prev.items.push(item@));
            assert(self@ =~= prev.with_item(content@, directory@, item@.memo, now as int));
            assert(prev.dirs[pos as int].name == directory@);
            prev.lemma_with_item_wf(content@, directory@, item@.memo, now as int);
        }
        Ok(id)
    }

    /// The position of the oldest item that holds `content` in `directory`.
    fn content_position(&self, content: &String, directory: &String) -> (r: Option<usize>)
        requires
            self.wf(),
        ensures
            match r {
                Some(i) => self@.is_first_match(i as int, content@, directory@),
                None => !self@.has_match(content@, directory@),
            },
    {
        let mut i: usize = 0;
        while i < self.items.len()
            invariant
                i <= self.items@.len(),
                forall|j: int| 0 <= j < i ==> !#[trigger] self@.matches(j, content@, directory@),
            decreases self.items@.len() - i,
        {
            if self.items[i].content == *content && self.items[i].directory == *directory {
                return Some(i);
            }
            i += 1;
        }
        None
    }

    /// The oldest item that holds exactly `content` in `directory`.
    pub fn find_by_content(&self, content: &str, directory: &str) -> (r: Option<PasteItem>)
        requires
            self.wf(),
        ensures
            match r {
                Some(it) => exists|i: int| self@.is_first_match(i, content@, directory@) && it@ == self@.items[i],
                None => !self@.has_match(content@, directory@),
            },
    {
        let c = content.to_owned();
        let d = directory.to_owned();
        match self.content_position(&c, &d) {
            Some(i) => Some(self.items[i].duplicate()),
            None => None,
        }
    }

    /// The position of the item called `id`.
    fn item_position(&self, id: i64) -> (r: Option<usize>)
        requires
            self.wf(),
        ensures
            match r {
                Some(i) => i < self@.items.len() && self@.items[i as int].id == id,
                None => !self@.has_item(id as int),
            },
    {
        let mut i: usize = 0;
        while i < self.items.len()
            invariant
                i <= self.items@.len(),
                forall|j: int| 0 <= j < i ==> #[trigger] self@.items[j].id != id,
            decreases self.items@.len() - i,
        {
            if self.items[i].id == id {
                return Some(i);
            }
            i += 1;
        }
        None
    }

    /// Rewrites item `i` and moves it to the most recent place.
    fn touch_at(&mut self, i: usize, content: String, directory: String, memo: Option<String>, now: u64)
        requires
            old(self).wf(),
            i < old(self)@.items.len(),
            content@.len() > 0,
            old(self)@.has_directory(directory@),
            !old(self)@.full_at(now as int),
        ensures
            final(self).wf(),
            final(self)@ == old(self)@.touched(i as int, content@, directory@, memo_view(memo), now as int),
    {
        let ghost prev = self@;
        let old_item = self.items.remove(i);
        let stamp = self.stamp_at(now);
        let item = PasteItem { id: old_item.id, content, directory, created_at: stamp, memo };
        self.items.push(item);
        self.clock = stamp + 1;
        proof {
            assert(self@.items =~= prev.items.remove(i as int).push(item@));
            assert(self@ =~= prev.touched(i as int, item@.content, item@.directory, item@.memo, now as int));
            prev.lemma_touched_wf(i as int, item@.content, item@.directory, item@.memo, now as int);
        }
    }

    /// Replaces the text, directory and memo of the item called `id` and
    /// makes it the most recent item. An unknown id changes nothing.
    pub fn update_content(&mut self, id: i64, content: &str, directory: &str, memo: Option<&str>, now: u64) -> (r: Result<i64, StoreError>)
        requires
            old(self).wf(),
        ensures
            final(self).wf(),
            r is Ok <==> content@.len() > 0 && old(self)@.has_directory(directory@) && !old(self)@.full_at(now as int),
            r == Err::<i64, StoreError>(StoreError::Validation) <==> content@.len() == 0,
            r == Err::<i64, StoreError>(StoreError::NotFound) <==> content@.len() > 0 && !old(self)@.has_directory(directory@),
            match r {
                Ok(k) => k == id && if old(self)@.has_item(id as int) {
                    exists|i: int| 0 <= i < old(self)@.items.len() && old(self)@.items[i].id == id
                        && final(self)@ == old(self)@.touched(i, content@, directory@,
                            match memo { Some(m) => Some(m@), None => None }, now as int)
                } else {
                    final(self)@ == old(self)@
                },
                Err(_) => final(self)@ == old(self)@,
            },
    {
        if content.unicode_len() == 0 {
            return Err(StoreError::Validation);
        }
        let dir = directory.to_owned();
        if self.directory_position(&dir).is_none() {
            return Err(StoreError::NotFound);
        }
        if self.next_id == i64::MAX || now == u64::MAX || self.clock == u64::MAX {
            return Err(full_error());
        }
        match self.item_position(id) {
            Some(i) => {
                let memo = match memo {
                    Some(m) => Some(m.to_owned()),
                    None => None,
                };
                self.touch_at(i, content.to_owned(), dir, memo, now);
            },
            None => {},
        }
        Ok(id)
    }

    /// Deletes the item called `id`, if there is one.
    pub fn delete_history_item(&mut self, id: i64)
        requires
            old(self).wf(),
        ensures
            final(self).wf(),
            final(self)@ == old(self)@.without_item(id as int),
    {
        let ghost prev = self@;
        let ghost keep = id_differs(id as int);
        let mut kept: Vec<PasteItem> = Vec::new();
        let mut i: usize = 0;
        while i < self.items.len()
            invariant
                i <= self.items@.len(),
                self@ == prev,
                keep == id_differs(id as int),
                items_view(kept@) == prev.items.subrange(0, i as int).filter(keep),
            decreases self.items@.len() - i,
        {
            let ghost before = items_view(kept@);
            if self.items[i].id != id {
                kept.push(self.items[i].duplicate());
                proof {
                    assert(items_view(kept@) =~= before.push(prev.items[i as int]));
                }
            }
            proof {
                assert(prev.items[i as int] == self.items@[i as int]@);
                assert(keep(prev.items[i as int]) == (self.items@[i as int].id != id));
                let s = prev.items.subrange(0, i as int + 1);
                assert(s.drop_last() =~= prev.items.subrange(0, i as int));
                prev.items.subrange(0, i as int).lemma_filter_push(prev.items[i as int], keep);
                assert(s =~= prev.items.subrange(0, i as int).push(prev.items[i as int]));
                assert(items_view(kept@) =~= s.filter(keep));
            }
            i += 1;
        }
        self.items = kept;
        proof {
            assert(prev.items.subrange(0, prev.items.len() as int) =~= prev.items);
            assert(self@ =~= prev.without_item(id as int));
            prev.lemma_without_item_wf(id as int);
        }
    }

    /// Creates an empty directory called `name` without its surrounding white
    /// space, and returns its id.
    pub fn create_directory(&mut self, name: &str, now: u64) -> (r: Result<i64, StoreError>)
        requires
            old(self).wf(),
        ensures
            final(self).wf(),
            r is Ok <==> trimmed(name@).len() > 0 && !old(self)@.has_directory(trimmed(name@))
                && !old(self)@.dirs_full_at(now as int),
            r == Err::<i64, StoreError>(StoreError::Validation) <==> trimmed(name@).len() == 0,
            r == Err::<i64, StoreError>(StoreError::Conflict) <==> trimmed(name@).len() > 0
                && old(self)@.has_directory(trimmed(name@)),
            match r {
                Ok(id) => id == old(self)@.next_dir_id && final(self)@ == old(self)@.with_directory(trimmed(name@), now as int)
                    && forall|i: int| 0 <= i < old(self)@.dirs.len() ==> #[trigger] old(self)@.dirs[i].id != id,
                Err(_) => final(self)@ == old(self)@,
            },
    {
        let t = trim(name);
        if t.as_str().unicode_len() == 0 {
            return Err(StoreError::Validation);
        }
        if self.directory_position(&t).is_some() {
            return Err(StoreError::Conflict);
        }
        if self.next_dir_id == i64::MAX || now == u64::MAX || self.clock == u64::MAX {
            return Err(full_error());
        }
        Ok(self.add_directory(t, now))
    }

    /// The stamp for a row made or saved at time `at`.
    fn stamp_at(&self, at: u64) -> (r: u64)
        ensures
            r == self@.stamp_at(at as int),
    {
        if at >= self.clock { at } else { self.clock }
    }

    /// Appends a new directory and returns its id.
    fn add_directory(&mut self, name: String, now: u64) -> (r: i64)
        requires
            old(self).wf(),
            name@.len() > 0,
            !old(self)@.has_directory(name@),
            !old(self)@.dirs_full_at(now as int),
        ensures
            final(self).wf(),
            r == old(self)@.next_dir_id,
            final(self)@ == old(self)@.with_directory(name@, now as int),
    {
        let ghost prev = self@;
        let ghost n = name@;
        let id = self.next_dir_id;
        let stamp = self.stamp_at(now);
        let d = Directory { id, name, created_at: stamp };
        self.directories.push(d);
        self.clock = stamp + 1;
        self.next_dir_id = self.next_dir_id + 1;
        proof {
            assert(self@.dirs =~= prev.dirs.push(d@));
            assert(self@ =~= prev.with_directory(n, now as int));
            prev.lemma_with_directory_wf(n, now as int);
        }
        id
    }

    /// Renames directory `old_name` to `new_name` (both without surrounding
    /// white space), moving every item that refers to it. Either everything
    /// is renamed or nothing changes.
    pub fn rename_directory(&mut self, old_name: &str, new_name: &str) -> (r: Result<(), StoreError>)
        requires
            old(self).wf(),
        ensures
            final(self).wf(),
            ({
                let from = trimmed(old_name@);
                let to = trimmed(new_name@);
                let s = old(self)@;
                &&& (r == Err::<(), StoreError>(StoreError::Validation) <==> from == capture_name()
                    || to == capture_name() || to.len() == 0)
                &&& (r == Err::<(), StoreError>(StoreError::NotFound) <==> !(from == capture_name()
                    || to == capture_name() || to.len() == 0) && !s.has_directory(from))
                &&& (r == Err::<(), StoreError>(StoreError::Conflict) <==> !(from == capture_name()
                    || to == capture_name() || to.len() == 0) && s.has_directory(from)
                    && from != to && s.has_directory(to))
                &&& (r is Ok <==> !(from == capture_name() || to == capture_name() || to.len() == 0)
                    && s.has_directory(from) && (from == to || !s.has_directory(to)))
                &&& match r {
                    Ok(_) => from == to && final(self)@ == s || from != to && exists|i: int|
                        0 <= i < s.dirs.len() && s.dirs[i].name == from && final(self)@ == s.renamed(i, from, to),
                    Err(_) => final(self)@ == s,
                }
            }),
    {
        let from = trim(old_name);
        let to = trim(new_name);
        if is_capture_directory(&from) || is_capture_directory(&to) || to.as_str().unicode_len() == 0 {
            return Err(StoreError::Validation);
        }
        let i = match self.directory_position(&from) {
            Some(i) => i,
            None => return Err(StoreError::NotFound),
        };
        if from == to {
            return Ok(());
        }
        if self.directory_position(&to).is_some() {
            return Err(StoreError::Conflict);
        }
        let ghost prev = self@;
        proof {
            if i == 0 {
                assert(prev.dirs[0].name == capture_name());
            }
        }
        let mut moved: Vec<PasteItem> = Vec::new();
        let mut k: usize = 0;
        while k < self.items.len()
            invariant
                k <= self.items@.len(),
                self@ == prev,
                items_view(moved@) == move_all(prev.items.subrange(0, k as int), from@, to@),
            decreases self.items@.len() - k,
        {
            let ghost before = items_view(moved@);
            let mut it = self.items[k].duplicate();
            if it.directory == from {
                it.directory = to.clone();
            }
            moved.push(it);
            proof {
                assert(prev.items[k as int] == self.items@[k as int]@);
                assert(it@ == moved_item(prev.items[k as int], from@, to@));
                assert(items_view(moved@) =~= before.push(it@));
                assert(move_all(prev.items.subrange(0, k as int + 1), from@, to@) =~= move_all(
                    prev.items.subrange(0, k as int), from@, to@).push(it@));
            }
            k += 1;
        }
        let renamed = Directory {
            id: self.directories[i].id,
            name: to,
            created_at: self.directories[i].created_at,
        };
        self.directories.set(i, renamed);
        self.items = moved;
        proof {
            assert(prev.items.subrange(0, prev.items.len() as int) =~= prev.items);
            assert(self@.dirs =~= prev.dirs.update(i as int, DirView { name: to@, ..prev.dirs[i as int] }));
            assert(self@ =~= prev.renamed(i as int, from@, to@));
            prev.lemma_renamed_wf(i as int, from@, to@);
        }
        Ok(())
    }

    /// Deletes directory `name` and every item in it.
    pub fn delete_directory(&mut self, name: &str) -> (r: Result<(), StoreError>)
        requires
            old(self).wf(),
        ensures
            final(self).wf(),
            r == Err::<(), StoreError>(StoreError::Validation) <==> name@ == capture_name(),
            r is Ok <==> name@ != capture_name(),
            match r {
                Ok(_) => if old(self)@.has_directory(name@) {
                    exists|i: int| 0 <= i < old(self)@.dirs.len() && old(self)@.dirs[i].name == name@
                        && final(self)@ == old(self)@.without_directory(i, name@)
                } else {
                    final(self)@ == old(self)@
                },
                Err(_) => final(self)@ == old(self)@,
            },
    {
        let name = name.to_owned();
        if is_capture_directory(&name) {
            return Err(StoreError::Validation);
        }
        let i = match self.directory_position(&name) {
            Some(i) => i,
            None => return Ok(()),
        };
        let ghost prev = self@;
        let ghost keep = outside_directory(name@);
        proof {
            if i == 0 {
                assert(prev.dirs[0].name == capture_name());
            }
        }
        let mut kept: Vec<PasteItem> = Vec::new();
        let mut k: usize = 0;
        while k < self.items.len()
            invariant
                k <= self.items@.len(),
                self@ == prev,
                keep == outside_directory(name@),
                items_view(kept@) == prev.items.subrange(0, k as int).filter(keep),
            decreases self.items@.len() - k,
        {
            let ghost before = items_view(kept@);
            if self.items[k].directory != name {
                kept.push(self.items[k].duplicate());
                proof {
                    assert(items_view(kept@) =~= before.push(prev.items[k as int]));
                }
            }
            proof {
                let s = prev.items.subrange(0, k as int + 1);
                assert(prev.items[k as int] == self.items@[k as int]@);
                assert(s.drop_last() =~= prev.items.subrange(0, k as int));
                prev.items.subrange(0, k as int).lemma_filter_push(prev.items[k as int], keep);
                assert(s =~= prev.items.subrange(0, k as int).push(prev.items[k as int]));
                assert(items_view(kept@) =~= s.filter(keep));
            }
            k += 1;
        }
        self.directories.remove(i);
        self.items = kept;
        proof {
            assert(prev.items.subrange(0, prev.items.len() as int) =~= prev.items);
            assert(self@.dirs =~= prev.dirs.remove(i as int));
            assert(self@ =~= prev.without_directory(i as int, name@));
            prev.lemma_without_directory_wf(i as int, name@);
        }
        Ok(())
    }

    /// How many items directory `d` holds.
    fn count_items(&self, d: &String) -> (r: usize)
        requires
            self.wf(),
        ensures
            r == count_in(self@.items, d@),
            r <= self@.items.len(),
    {
        let ghost p = in_dir(d@);
        let mut n: usize = 0;
        let mut k: usize = 0;
        while k < self.items.len()
            invariant
                k <= self.items@.len(),
                self.wf(),
                p == in_dir(d@),
                n == self@.items.subrange(0, k as int).filter(p).len(),
                n <= k,
            decreases self.items@.len() - k,
        {
            proof {
                let s = self@.items.subrange(0, k as int + 1);
                assert(self@.items[k as int] == self.items@[k as int]@);
                assert(s =~= self@.items.subrange(0, k as int).push(self@.items[k as int]));
                self@.items.subrange(0, k as int).lemma_filter_push(self@.items[k as int], p);
                self@.items.subrange(0, k as int).filter_lemma(p);
            }
            if self.items[k].directory == *d {
                n = n + 1;
            }
            k += 1;
        }
        assert(self@.items.subrange(0, self@.items.len() as int) =~= self@.items);
        n
    }

    /// Every directory with the number of items it holds: the reserved
    /// directory first, then the others in order of creation.
    pub fn get_directories(&self) -> (r: Vec<DirectoryInfo>)
        requires
            self.wf(),
        ensures
            r@.len() == self@.dirs.len(),
            forall|i: int| 0 <= i < r@.len() ==> {
                &&& (#[trigger] r@[i]).name@ == self@.dirs[i].name
                &&& r@[i].count == count_in(self@.items, self@.dirs[i].name)
            },
    {
        let mut r: Vec<DirectoryInfo> = Vec::new();
        let mut i: usize = 0;
        while i < self.directories.len()
            invariant
                i <= self.directories@.len(),
                self.wf(),
                r@.len() == i,
                forall|j: int| 0 <= j < i ==> {
                    &&& (#[trigger] r@[j]).name@ == self@.dirs[j].name
                    &&& r@[j].count == count_in(self@.items, self@.dirs[j].name)
                },
            decreases self.directories@.len() - i,
        {
            let name = self.directories[i].name.clone();
            let count = self.count_items(&name);
            r.push(DirectoryInfo { name, count: count as i64 });
            i += 1;
        }
        r
    }

    /// Deletes the oldest items of `directory` so that it keeps at most
    /// `limit` items.
    pub fn cleanup_old_items(&mut self, directory: &str, limit: usize)
        requires
            old(self).wf(),
        ensures
            final(self).wf(),
            final(self)@ == old(self)@.cleaned(directory@, limit as nat),
    {
        let d = directory.to_owned();
        let count = self.count_items(&d);
        let ghost prev = self@;
        proof {
            prev.items.filter_lemma(in_dir(d@));
        }
        if count <= limit {
            proof {
                assert(excess(prev.items, d@, limit as nat) == 0);
                lemma_evict_none(prev.items, d@);
                assert(self@ =~= prev.cleaned(d@, limit as nat));
            }
            return;
        }
        let drop = count - limit;
        let mut kept: Vec<PasteItem> = Vec::new();
        let mut seen: usize = 0;
        let mut k: usize = 0;
        while k < self.items.len()
            invariant
                k <= self.items@.len(),
                self@ == prev,
                drop == excess(prev.items, d@, limit as nat),
                seen == count_in(prev.items.subrange(0, k as int), d@),
                seen <= k,
                items_view(kept@) == evict(prev.items.subrange(0, k as int), d@, drop as nat),
            decreases self.items@.len() - k,
        {
            let ghost before = items_view(kept@);
            let ghost s = prev.items.subrange(0, k as int + 1);
            proof {
                assert(prev.items[k as int] == self.items@[k as int]@);
                assert(s.drop_last() =~= prev.items.subrange(0, k as int));
                prev.items.subrange(0, k as int).lemma_filter_push(prev.items[k as int], in_dir(d@));
                assert(s =~= prev.items.subrange(0, k as int).push(prev.items[k as int]));
            }
            let here = self.items[k].directory == d;
            if !(here && seen < drop) {
                kept.push(self.items[k].duplicate());
                proof {
                    assert(items_view(kept@) =~= before.push(prev.items[k as int]));
                }
            }
            if here {
                seen = seen + 1;
            }
            k += 1;
        }
        self.items = kept;
        proof {
            assert(prev.items.subrange(0, prev.items.len() as int) =~= prev.items);
            assert(self@ =~= prev.cleaned(d@, limit as nat));
            prev.lemma_cleaned_wf(d@, limit as nat);
        }
    }

    /// The value of setting `key`, if it is set.
    pub fn get_setting(&self, key: &str) -> (r: Option<String>)
        requires
            self.wf(),
        ensures
            memo_view(r) == self@.setting(key@),
    {
        let k = key.to_owned();
        match self.setting_position(&k) {
            Some(i) => {
                proof {
                    self@.lemma_setting_at(i as int);
                }
                Some(self.settings[i].value.clone())
            },
            None => None,
        }
    }

    fn setting_position(&self, key: &String) -> (r: Option<usize>)
        requires
            self.wf(),
        ensures
            match r {
                Some(i) => i < self@.settings.len() && self@.settings[i as int].0 == key@
                    && self@.settings[i as int].1 == self.settings@[i as int].value@,
                None => forall|j: int| 0 <= j < self@.settings.len() ==> #[trigger] self@.settings[j].0 != key@,
            },
    {
        let mut i: usize = 0;
        while i < self.settings.len()
            invariant
                i <= self.settings@.len(),
                forall|j: int| 0 <= j < i ==> #[trigger] self@.settings[j].0 != key@,
            decreases self.settings@.len() - i,
        {
            if self.settings[i].key == *key {
                return Some(i);
            }
            i += 1;
        }
        None
    }

    /// Sets `key` to `value`, inserting the setting or overwriting it.
    pub fn set_setting(&mut self, key: &str, value: &str)
        requires
            old(self).wf(),
        ensures
            final(self).wf(),
            final(self)@ == old(self)@.with_setting(key@, value@),
            final(self)@.setting(key@) == Some(value@),
            forall|k: Seq<char>| k != key@ ==> #[trigger] final(self)@.setting(k) == old(self)@.setting(k),
    {
        let k = key.to_owned();
        let ghost prev = self@;
        let entry = Setting { key: key.to_owned(), value: value.to_owned() };
        let ghost at: int;
        match self.setting_position(&k) {
            Some(i) => {
                self.settings.set(i, entry);
                proof {
                    at = i as int;
                    assert(self@.settings =~= prev.settings.update(i as int, (key@, value@)));
                    let j = choose|j: int| 0 <= j < prev.settings.len() && #[trigger] prev.settings[j].0 == key@;
                    prev.lemma_setting_at(i as int);
                    prev.lemma_setting_at(j);
                    assert(j == i) by {
                        if j < i {
                            assert(prev.settings[j].0 != prev.settings[i as int].0);
                        } else if j > i {
                            assert(prev.settings[i as int].0 != prev.settings[j].0);
                        }
                    }
                    assert(self@ =~= prev.with_setting(key@, value@));
                }
            },
            None => {
                self.settings.push(entry);
                proof {
                    at = prev.settings.len() as int;
                    assert(self@.settings =~= prev.settings.push((key@, value@)));
                    assert(self@ =~= prev.with_setting(key@, value@));
                }
            },
        }
        proof {
            let n = self@;
            assert(n.wf());
            assert(n.settings[at] == (key@, value@));
            n.lemma_setting_at(at);
            assert forall|q: Seq<char>| q != key@ implies #[trigger] n.setting(q) == prev.setting(q) by {
                if exists|j: int| 0 <= j < prev.settings.len() && #[trigger] prev.settings[j].0 == q {
                    let j = choose|j: int| 0 <= j < prev.settings.len() && #[trigger] prev.settings[j].0 == q;
                    prev.lemma_setting_at(j);
                    assert(n.settings[j] == prev.settings[j]);
                    n.lemma_setting_at(j);
                } else {
                    if exists|j: int| 0 <= j < n.settings.len() && #[trigger] n.settings[j].0 == q {
                        let j = choose|j: int| 0 <= j < n.settings.len() && #[trigger] n.settings[j].0 == q;
                        if j < prev.settings.len() {
                            assert(prev.settings[j].0 == q);
                        }
                    }
                }
            }
        }
    }

    /// Loads back an item saved earlier, under its own id and with stamp
    /// `created_at` unless a row loaded before it holds that stamp or a later
    /// one. A directory that the item names but the store lacks is created
    /// first.
    pub fn restore_item(
        &mut self,
        id: i64,
        content: &str,
        directory: &str,
        memo: Option<&str>,
        created_at: u64,
    ) -> (r: Result<(), StoreError>)
        requires
            old(self).wf(),
        ensures
            final(self).wf(),
            ({
                let s = old(self)@;
                let m = match memo { Some(m) => Some(m@), None => None };
                let invalid = content@.len() == 0 || directory@.len() == 0 || id <= 0 || id == i64::MAX
                    || created_at == u64::MAX;
                &&& (r == Err::<(), StoreError>(StoreError::Validation) <==> invalid)
                &&& (r == Err::<(), StoreError>(StoreError::Conflict) <==> !invalid && s.has_item(id as int))
                &&& (r is Ok <==> !invalid && !s.has_item(id as int) && s.next_id < i64::MAX
                    && s.next_dir_id < i64::MAX && s.clock < u64::MAX - 1)
                &&& match r {
                    Ok(_) => if s.has_directory(directory@) {
                        final(self)@ == s.with_restored(id as int, content@, directory@, m, created_at as int)
                    } else {
                        final(self)@ == s.with_directory(directory@, 0).with_restored(
                            id as int, content@, directory@, m, created_at as int)
                    },
                    Err(_) => final(self)@ == s,
                }
            }),
    {
        if content.unicode_len() == 0 || directory.unicode_len() == 0 || id <= 0 || id == i64::MAX
            || created_at == u64::MAX {
            return Err(StoreError::Validation);
        }
        if self.item_position(id).is_some() {
            return Err(StoreError::Conflict);
        }
        if self.next_id == i64::MAX || self.next_dir_id == i64::MAX || self.clock >= u64::MAX - 1 {
            return Err(full_error());
        }
        let dir = directory.to_owned();
        match self.directory_position(&dir) {
            Some(_) => {},
            None => {
                self.add_directory(dir.clone(), 0);
                proof {
                    assert(self@.dirs[self@.dirs.len() - 1].name == dir@);
                }
            },
        }
        let ghost mid = self@;
        let memo = match memo {
            Some(m) => Some(m.to_owned()),
            None => None,
        };
        let stamp = self.stamp_at(created_at);
        let item = PasteItem { id, content: content.to_owned(), directory: dir, created_at: stamp, memo };
        self.items.push(item);
        self.clock = stamp + 1;
        self.next_id = if id > self.next_id { id + 1 } else { self.next_id + 1 };
        proof {
            assert(self@.items =~= mid.items.push(item@));
            assert(self@ =~= mid.with_restored(id as int, content@, directory@, item@.memo, created_at as int));
            mid.lemma_with_restored_wf(id as int, content@, directory@, item@.memo, created_at as int);
        }
        Ok(())
    }

    /// The position of the directory whose id is `id`.
    fn directory_id_position(&self, id: i64) -> (r: Option<usize>)
        requires
            self.wf(),
        ensures
            r is None <==> !self@.has_directory_id(id as int),
    {
        let mut i: usize = 0;
        while i < self.directories.len()
            invariant
                i <= self.directories@.len(),
                forall|j: int| 0 <= j < i ==> #[trigger] self@.dirs[j].id != id,
            decreases self.directories@.len() - i,
        {
            if self.directories[i].id == id {
                assert(self@.dirs[i as int].id == id);
                return Some(i);
            }
            i += 1;
        }
        None
    }

    /// Loads back a directory saved earlier, under its own id and name, with
    /// stamp `created_at` unless a row loaded before it holds that stamp or a
    /// later one.
    pub fn restore_directory(&mut self, id: i64, name: &str, created_at: u64) -> (r: Result<(), StoreError>)
        requires
            old(self).wf(),
        ensures
            final(self).wf(),
            ({
                let s = old(self)@;
                let invalid = name@.len() == 0 || id <= 0 || id == i64::MAX || created_at == u64::MAX;
                let taken = s.has_directory(name@) || s.has_directory_id(id as int);
                &&& (r == Err::<(), StoreError>(StoreError::Validation) <==> invalid)
                &&& (r == Err::<(), StoreError>(StoreError::Conflict) <==> !invalid && taken)
                &&& (r is Ok <==> !invalid && !taken && s.clock < u64::MAX)
                &&& match r {
                    Ok(_) => final(self)@ == s.with_restored_directory(id as int, name@, created_at as int),
                    Err(_) => final(self)@ == s,
                }
            }),
    {
        if name.unicode_len() == 0 || id <= 0 || id == i64::MAX || created_at == u64::MAX {
            return Err(StoreError::Validation);
        }
        let n = name.to_owned();
        if self.directory_position(&n).is_some() || self.directory_id_position(id).is_some() {
            return Err(StoreError::Conflict);
        }
        if self.clock == u64::MAX {
            return Err(full_error());
        }
        let ghost prev = self@;
        let stamp = self.stamp_at(created_at);
        let d = Directory { id, name: n, created_at: stamp };
        self.directories.push(d);
        self.clock = stamp + 1;
        if id >= self.next_dir_id {
            self.next_dir_id = id + 1;
        }
        proof {
            assert(self@.dirs =~= prev.dirs.push(d@));
            assert(self@ =~= prev.with_restored_directory(id as int, name@, created_at as int));
            prev.lemma_with_restored_directory_wf(id as int, name@, created_at as int);
        }
        Ok(())
    }

    /// The directories, the reserved one first, then in order of creation.
    pub fn directories(&self) -> (r: &Vec<Directory>)
        ensures
            dirs_view(r@) == self@.dirs,
    {
        &self.directories
    }

    /// The settings, in the order they were first set.
    pub fn settings(&self) -> (r: &Vec<Setting>)
        ensures
            settings_view(r@) == self@.settings,
    {
        &self.settings
    }

    /// Every item, most recent first.
    pub fn get_all_contents(&self) -> (r: Vec<PasteItem>)
        requires
            self.wf(),
        ensures
            items_view(r@) == self@.history(),
    {
        let mut r: Vec<PasteItem> = Vec::new();
        let mut i: usize = self.items.len();
        while i > 0
            invariant
                i <= self.items@.len(),
                items_view(r@) == self@.items.subrange(i as int, self@.items.len() as int).reverse(),
            decreases i,
        {
            let ghost prev_r = items_view(r@);
            i -= 1;
            let it = self.items[i].duplicate();
            r.push(it);
            proof {
                let n = self@.items.len() as int;
                assert(items_view(r@) =~= prev_r.push(self@.items[i as int]));
                assert(self@.items.subrange(i as int, n).reverse() =~= self@.items.subrange(i + 1, n).reverse().push(
                    self@.items[i as int],
                ));
            }
        }
        assert(self@.items.subrange(0, self@.items.len() as int) =~= self@.items);
        r
    }
}

impl PasteItem {
    /// A copy of this item.
    pub fn duplicate(&self) -> (r: PasteItem)
        ensures
            r@ == self@,
    {
        let memo = match &self.memo {
            Some(m) => Some(m.clone()),
            None => None,
        };
        PasteItem {
            id: self.id,
            content: self.content.clone(),
            directory: self.directory.clone(),
            created_at: self.created_at,
            memo,
        }
    }
}

} // verus!
