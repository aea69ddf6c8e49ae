//! The clipboard capture step: decides whether clipboard text is new, and
//! records it in the reserved directory with dedup and a size cap.

use vstd::prelude::*;
use crate::store::{
    Store, StoreError, StoreView, ItemView, count_in, evict, excess, in_directory, in_dir, ids_distinct,
    stamps_ascending, lemma_count_push, lemma_evict_count, lemma_evict_keeps_last, lemma_evict_kept_at,
    lemma_evict_ordered, lemma_filter_ordered, lemma_evict_first,
};
use crate::text::{capture_name, capture_directory, is_blank, trimmed};

verus! {

broadcast use vstd::seq_lib::group_seq_properties;

/// How many items the reserved directory keeps.
pub const MAX_ITEMS_PER_DIRECTORY: usize = 30;

/// How often the clipboard is read, in milliseconds.
pub const POLLING_INTERVAL_MS: u64 = 100;

/// What a capture did.
#[derive(Clone, Copy, Debug, PartialEq, Eq)]
pub enum CaptureOutcome {
    /// An item with the same text existed and became the most recent one.
    Touched(i64),
    /// A new item was saved.
    Inserted(i64),
}

/// The store after `t` is captured into the reserved directory, which then
/// keeps at most `limit` items.
pub open spec fn captured(s: StoreView, t: Seq<char>, limit: nat, now: int) -> StoreView {
    if s.has_match(t, capture_name()) {
        let i = choose|i: int| s.is_first_match(i, t, capture_name());
        s.touched(i, t, capture_name(), s.items[i].memo, now)
    } else {
        s.with_item(t, capture_name(), None, now).cleaned(capture_name(), limit)
    }
}

/// No two items of the reserved directory hold the same text.
pub open spec fn captures_unique(items: Seq<ItemView>) -> bool {
    forall|i: int, j: int|
        0 <= i < j < items.len() && items[i].directory == capture_name() && items[j].directory
            == capture_name() ==> #[trigger] items[i].content != #[trigger] items[j].content
}

/// Stamps ascend and stay below the clock; ids are distinct and below the
/// next id.
pub open spec fn ordered(s: StoreView) -> bool {
    &&& stamps_ascending(s.items)
    &&& ids_distinct(s.items)
    &&& forall|i: int| #![trigger s.items[i]] 0 <= i < s.items.len() ==> s.items[i].created_at < s.clock
        && s.items[i].id < s.next_id
}

proof fn lemma_wf_ordered(s: StoreView)
    requires
        s.wf(),
    ensures
        ordered(s),
{
    assert forall|i: int| #![trigger s.items[i]] 0 <= i < s.items.len() implies s.items[i].created_at < s.clock
        && s.items[i].id < s.next_id by {
        assert(s.items[i] == s.items[i]);
    }
}

/// When some item holds `t` in directory `d`, an oldest such item exists.
proof fn lemma_first_match(s: StoreView, t: Seq<char>, d: Seq<char>, j: int)
    requires
        0 <= j < s.items.len(),
        s.matches(j, t, d),
    ensures
        exists|i: int| s.is_first_match(i, t, d),
    decreases j,
{
    if exists|k: int| 0 <= k < j && #[trigger] s.matches(k, t, d) {
        let k = choose|k: int| 0 <= k < j && #[trigger] s.matches(k, t, d);
        lemma_first_match(s, t, d, k);
    } else {
        assert(s.is_first_match(j, t, d));
    }
}

/// The index of the item that capturing `t` touches.
proof fn touched_index(s: StoreView, t: Seq<char>, now: int) -> (i: int)
    requires
        s.has_match(t, capture_name()),
    ensures
        s.is_first_match(i, t, capture_name()),
        captured(s, t, 0, now) == s.touched(i, t, capture_name(), s.items[i].memo, now),
{
    let j = choose|j: int| 0 <= j < s.items.len() && #[trigger] s.matches(j, t, capture_name());
    lemma_first_match(s, t, capture_name(), j);
    choose|i: int| s.is_first_match(i, t, capture_name())
}

/// Capturing keeps stamps ascending and ids distinct; afterwards the last
/// item holds `t` in the reserved directory.
proof fn lemma_capture_last(s: StoreView, t: Seq<char>, limit: nat, now: int)
    requires
        ordered(s),
        limit >= 1,
    ensures
        ordered(captured(s, t, limit, now)),
        captured(s, t, limit, now).items.len() >= 1,
        captured(s, t, limit, now).items.last().content == t,
        captured(s, t, limit, now).items.last().directory == capture_name(),
        count_in(captured(s, t, limit, now).items, capture_name()) <= count_in(s.items, capture_name()) + 1,
{
    let c = capture_name();
    let n = captured(s, t, limit, now);
    if s.has_match(t, c) {
        let i = touched_index(s, t, now);
        assert(n == s.touched(i, t, c, s.items[i].memo, now));
        let r = s.items.remove(i);
        let x = ItemView { id: s.items[i].id, content: t, directory: c, created_at: s.stamp_at(now), memo: s.items[i].memo };
        assert(n.items == r.push(x));
        assert forall|k: int| 0 <= k < r.len() implies #[trigger] r[k] == s.items[if k < i { k } else { k + 1 }] by {}
        assert forall|a: int, b: int| 0 <= a < b < n.items.len() implies #[trigger] n.items[a].created_at
            < #[trigger] n.items[b].created_at && n.items[a].id != n.items[b].id by {
            let oa = if a < i { a } else { a + 1 };
            assert(n.items[a] == s.items[oa]);
            assert(s.items[oa].created_at < s.clock);
            if b < r.len() {
                let ob = if b < i { b } else { b + 1 };
                assert(n.items[b] == s.items[ob]);
            } else {
                assert(s.items[oa].id != s.items[i].id);
            }
        }
        assert forall|k: int| #![trigger n.items[k]] 0 <= k < n.items.len() implies n.items[k].created_at < n.clock
            && n.items[k].id < n.next_id by {
            if k < r.len() {
                let o = if k < i { k } else { k + 1 };
                assert(n.items[k] == s.items[o]);
            } else {
                assert(s.items[i].id < s.next_id);
            }
        }
        assert(s.items =~= s.items.subrange(0, i) + seq![s.items[i]] + s.items.subrange(i + 1, s.items.len() as int));
        assert(r =~= s.items.subrange(0, i) + s.items.subrange(i + 1, s.items.len() as int));
        Seq::filter_distributes_over_add(s.items.subrange(0, i) + seq![s.items[i]], s.items.subrange(i + 1, s.items.len() as int), in_dir(c));
        Seq::filter_distributes_over_add(s.items.subrange(0, i), seq![s.items[i]], in_dir(c));
        Seq::filter_distributes_over_add(s.items.subrange(0, i), s.items.subrange(i + 1, s.items.len() as int), in_dir(c));
        seq![s.items[i]].lemma_filter_push(s.items[i], in_dir(c));
        assert(seq![s.items[i]] =~= Seq::<ItemView>::empty().push(s.items[i]));
        Seq::<ItemView>::empty().lemma_filter_push(s.items[i], in_dir(c));
        assert(Seq::<ItemView>::empty().filter(in_dir(c)) =~= Seq::<ItemView>::empty()) by {
            reveal(Seq::filter);
        }
        lemma_count_push(r, x, c);
    } else {
        let x = ItemView { id: s.next_id, content: t, directory: c, created_at: s.stamp_at(now), memo: None };
        let u = s.items.push(x);
        let k = excess(u, c, limit);
        lemma_count_push(s.items, x, c);
        assert(count_in(s.items, c) >= k);
        lemma_evict_keeps_last(s.items, x, c, k);
        assert(n.items == evict(u, c, k));
        assert(stamps_ascending(u) && ids_distinct(u)) by {
            assert forall|a: int, b: int| 0 <= a < b < u.len() implies #[trigger] u[a].created_at
                < #[trigger] u[b].created_at && u[a].id != u[b].id by {
                assert(u[a] == s.items[a]);
                assert(s.items[a].created_at < s.clock);
                if b < s.items.len() {
                    assert(u[b] == s.items[b]);
                }
            }
        }
        lemma_evict_ordered(u, c, k);
        assert forall|j: int| #![trigger n.items[j]] 0 <= j < n.items.len() implies n.items[j].created_at < n.clock
            && n.items[j].id < n.next_id by {
            assert(u.contains(n.items[j]));
            let m = choose|m: int| 0 <= m < u.len() && u[m] == n.items[j];
            if m < s.items.len() {
                assert(u[m] == s.items[m]);
            }
        }
        lemma_evict_count(u, c, k);
    }
}

/// Capturing text twice never leaves two items of the reserved directory
/// with the same text: when `t` is already there, its item is kept under
/// the same id, text, directory and memo, and only becomes the most recent.
pub proof fn lemma_capture_dedup(s: StoreView, t: Seq<char>, limit: nat, now: int)
    requires
        s.wf(),
        captures_unique(s.items),
        limit >= 1,
    ensures
        captures_unique(captured(s, t, limit, now).items),
        stamps_ascending(captured(s, t, limit, now).items),
        s.has_match(t, capture_name()) ==> {
            &&& captured(s, t, limit, now).items.len() == s.items.len()
            &&& exists|i: int| {
                &&& s.is_first_match(i, t, capture_name())
                &&& captured(s, t, limit, now).items == s.items.remove(i).push(
                    ItemView { created_at: s.stamp_at(now), ..s.items[i] },
                )
                &&& forall|r: int| 0 <= r < s.items.len() && #[trigger] s.matches(r, t, capture_name()) ==> r == i
            }
        },
{
    lemma_wf_ordered(s);
    lemma_capture_unique(s, t, limit, now);
    lemma_capture_last(s, t, limit, now);
    if s.has_match(t, capture_name()) {
        let i = touched_index(s, t, now);
        assert(captured(s, t, limit, now).items == s.items.remove(i).push(ItemView { created_at: s.stamp_at(now), ..s.items[i] }));
        assert forall|r: int| 0 <= r < s.items.len() && #[trigger] s.matches(r, t, capture_name()) implies r == i by {
            if r < i {
                assert(!s.matches(r, t, capture_name()));
            } else if i < r {
                assert(s.items[i].content != s.items[r].content);
            }
        }
    }
}

proof fn lemma_capture_unique(s: StoreView, t: Seq<char>, limit: nat, now: int)
    requires
        ordered(s),
        captures_unique(s.items),
        limit >= 1,
    ensures
        captures_unique(captured(s, t, limit, now).items),
{
    let c = capture_name();
    let n = captured(s, t, limit, now);
    if s.has_match(t, c) {
        let i = touched_index(s, t, now);
        let r = s.items.remove(i);
        assert(n.items.len() == s.items.len());
        assert forall|a: int, b: int|
            0 <= a < b < n.items.len() && n.items[a].directory == c && n.items[b].directory == c
            implies #[trigger] n.items[a].content != #[trigger] n.items[b].content by {
            let oa = if a < i { a } else { a + 1 };
            assert(n.items[a] == s.items[oa]);
            if b < r.len() {
                let ob = if b < i { b } else { b + 1 };
                assert(n.items[b] == s.items[ob]);
            } else if n.items[a].content == t {
                assert(s.matches(oa, t, c));
                assert(oa != i);
                if oa < i {
                    assert(!s.matches(oa, t, c));
                } else {
                    assert(s.items[i].content != s.items[oa].content);
                }
            }
        }
    } else {
        let x = ItemView { id: s.next_id, content: t, directory: c, created_at: s.stamp_at(now), memo: None };
        let u = s.items.push(x);
        let k = excess(u, c, limit);
        assert(n.items == evict(u, c, k));
        assert(stamps_ascending(u) && ids_distinct(u)) by {
            assert forall|a: int, b: int| 0 <= a < b < u.len() implies #[trigger] u[a].created_at
                < #[trigger] u[b].created_at && u[a].id != u[b].id by {
                assert(u[a] == s.items[a]);
                assert(s.items[a].created_at < s.clock);
                if b < s.items.len() {
                    assert(u[b] == s.items[b]);
                }
            }
        }
        assert(captures_unique(u)) by {
            assert forall|a: int, b: int|
                0 <= a < b < u.len() && u[a].directory == c && u[b].directory == c
                implies #[trigger] u[a].content != #[trigger] u[b].content by {
                assert(u[a] == s.items[a]);
                if b < s.items.len() {
                    assert(u[b] == s.items[b]);
                } else {
                    assert(!s.matches(a, t, c));
                }
            }
        }
        lemma_evict_ordered(u, c, k);
        let e = evict(u, c, k);
        assert forall|a: int, b: int|
            0 <= a < b < e.len() && e[a].directory == c && e[b].directory == c
            implies #[trigger] e[a].content != #[trigger] e[b].content by {
            let ma = lemma_evict_kept_at(u, c, k, a);
            let mb = lemma_evict_kept_at(u, c, k, b);
            assert(e[a].id != e[b].id);
            assert(ma != mb);
            if ma < mb {
                assert(u[ma].content != u[mb].content);
            } else {
                assert(u[mb].content != u[ma].content);
            }
        }
    }
}

/// With the reserved directory at `limit` items, capturing new text keeps
/// it at `limit` items, and its item with the smallest stamp is gone.
pub proof fn lemma_capture_at_cap(s: StoreView, t: Seq<char>, limit: nat, now: int, m: int)
    requires
        s.wf(),
        limit >= 1,
        count_in(s.items, capture_name()) == limit,
        !s.has_match(t, capture_name()),
        0 <= m < s.items.len(),
        s.items[m].directory == capture_name(),
        forall|j: int| 0 <= j < s.items.len() && s.items[j].directory == capture_name()
            ==> s.items[m].created_at <= #[trigger] s.items[j].created_at,
    ensures
        count_in(captured(s, t, limit, now).items, capture_name()) == limit,
        forall|k: int| 0 <= k < captured(s, t, limit, now).items.len()
            ==> #[trigger] captured(s, t, limit, now).items[k].id != s.items[m].id,
        captured(s, t, limit, now).items == s.items.remove(m).push(
            ItemView { id: s.next_id, content: t, directory: capture_name(), created_at: s.stamp_at(now), memo: None },
        ),
{
    let c = capture_name();
    let n = captured(s, t, limit, now);
    let x = ItemView { id: s.next_id, content: t, directory: c, created_at: s.stamp_at(now), memo: None };
    let u = s.items.push(x);
    lemma_count_push(s.items, x, c);
    let k = excess(u, c, limit);
    assert(k == 1);
    assert(n.items == evict(u, c, 1));
    lemma_evict_count(u, c, 1);
    assert(ids_distinct(u)) by {
        assert forall|a: int, b: int| 0 <= a < b < u.len() implies #[trigger] u[a].id != #[trigger] u[b].id by {
            assert(u[a] == s.items[a]);
            if b < s.items.len() {
                assert(u[b] == s.items[b]);
            }
        }
    }
    assert(u[m] == s.items[m]);
    assert(count_in(u.subrange(0, m), c) == 0) by {
        let pre = u.subrange(0, m);
        assert(pre =~= s.items.subrange(0, m));
        if count_in(pre, c) > 0 {
            assert(stamps_ascending(pre) && ids_distinct(pre)) by {
                assert forall|a: int, b: int| 0 <= a < b < pre.len() implies #[trigger] pre[a].created_at
                    < #[trigger] pre[b].created_at && pre[a].id != pre[b].id by {
                    assert(pre[a] == s.items[a] && pre[b] == s.items[b]);
                }
            }
            lemma_filter_ordered(pre, in_dir(c));
            pre.filter_lemma(in_dir(c));
            let f0 = pre.filter(in_dir(c))[0];
            assert(pre.contains(f0));
            let j = choose|j: int| 0 <= j < pre.len() && pre[j] == f0;
            assert(s.items[j] == pre[j]);
            assert(s.items[j].directory == c);
            assert(s.items[m].created_at <= s.items[j].created_at);
        }
    }
    lemma_evict_first(u, c, m);
    assert(u.remove(m) =~= s.items.remove(m).push(x));
    assert forall|q: int| 0 <= q < n.items.len() implies #[trigger] n.items[q].id != s.items[m].id by {
        let mm = lemma_evict_kept_at(u, c, 1, q);
        if mm == m {
        } else if n.items[q].id == s.items[m].id {
            if mm < m {
                assert(u[mm].id != u[m].id);
            } else {
                assert(u[m].id != u[mm].id);
            }
        }
    }
}

/// Each capture adds at most one item to the reserved directory, and the
/// items stay in order of their stamps.
pub proof fn lemma_capture_grows_by_at_most_one(s: StoreView, t: Seq<char>, limit: nat, now: int)
    requires
        s.wf(),
        limit >= 1,
    ensures
        count_in(captured(s, t, limit, now).items, capture_name()) <= count_in(s.items, capture_name()) + 1,
        stamps_ascending(captured(s, t, limit, now).items),
{
    lemma_wf_ordered(s);
    lemma_capture_last(s, t, limit, now);
}

/// Copying two different texts one after the other leaves them as the two
/// most recent items of the reserved directory, the second one first, each
/// once; the directory grows by at most one item per text.
pub proof fn lemma_capture_two_distinct(s: StoreView, a: Seq<char>, b: Seq<char>, limit: nat, now_a: int, now_b: int)
    requires
        s.wf(),
        a != b,
        limit >= 2,
    ensures
        ({
            let s2 = captured(captured(s, a, limit, now_a), b, limit, now_b);
            let h = in_directory(s2.items, capture_name());
            &&& count_in(s2.items, capture_name()) <= count_in(s.items, capture_name()) + 2
            &&& (captures_unique(s.items) ==> captures_unique(s2.items))
            &&& h.len() >= 2
            &&& h[h.len() - 1].content == b
            &&& h[h.len() - 2].content == a
        }),
{
    let c = capture_name();
    lemma_wf_ordered(s);
    let s1 = captured(s, a, limit, now_a);
    lemma_capture_last(s, a, limit, now_a);
    let s2 = captured(s1, b, limit, now_b);
    lemma_capture_last(s1, b, limit, now_b);
    if captures_unique(s.items) {
        lemma_capture_unique(s, a, limit, now_a);
        lemma_capture_unique(s1, b, limit, now_b);
    }
    let y = s1.items.drop_last();
    let pa = s1.items.last();
    assert(s1.items == y.push(pa));
    let z: Seq<ItemView>;
    let pb = s2.items.last();
    if s1.has_match(b, c) {
        let i = touched_index(s1, b, now_b);
        assert(i != s1.items.len() - 1);
        z = y.remove(i);
        assert(s1.items.remove(i) =~= z.push(pa));
        assert(s2.items =~= z.push(pa).push(pb));
    } else {
        let x = ItemView { id: s1.next_id, content: b, directory: c, created_at: s1.stamp_at(now_b), memo: None };
        let u = s1.items.push(x);
        let k = excess(u, c, limit);
        lemma_count_push(y, pa, c);
        lemma_count_push(s1.items, x, c);
        assert(count_in(y, c) >= k);
        lemma_evict_keeps_last(y.push(pa), x, c, k);
        lemma_evict_keeps_last(y, pa, c, k);
        z = evict(y, c, k);
        assert(s2.items == z.push(pa).push(x));
    }
    z.lemma_filter_push(pa, in_dir(c));
    z.push(pa).lemma_filter_push(pb, in_dir(c));
}

/// Records clipboard text `text` in the reserved directory: an item with the
/// same text is touched, otherwise a new item is saved and the oldest items
/// beyond `limit` are deleted.
pub fn capture_text(store: &mut Store, text: &str, limit: usize, now: u64) -> (r: Result<CaptureOutcome, StoreError>)
    requires
        old(store).wf(),
    ensures
        final(store).wf(),
        r == Err::<CaptureOutcome, StoreError>(StoreError::Validation) <==> trimmed(text@).len() == 0,
        r is Ok <==> trimmed(text@).len() > 0 && !old(store)@.full_at(now as int),
        match r {
            Ok(outcome) => {
                &&& final(store)@ == captured(old(store)@, text@, limit as nat, now as int)
                &&& (outcome is Touched <==> old(store)@.has_match(text@, capture_name()))
                &&& (outcome is Inserted ==> outcome->Inserted_0 == old(store)@.next_id)
            },
            Err(_) => final(store)@ == old(store)@,
        },
{
    let t = text.to_owned();
    if is_blank(&t) {
        return Err(StoreError::Validation);
    }
    proof {
        if text@.len() == 0 {
            assert(trimmed(text@) == text@);
        }
    }
    let dir = capture_directory();
    let ghost s = old(store)@;
    proof {
        assert(s.dirs[0].name == capture_name());
        assert(s.has_directory(capture_name()));
    }
    match store.find_by_content(text, dir.as_str()) {
        Some(existing) => {
            let memo = match &existing.memo {
                Some(m) => Some(m.as_str()),
                None => None,
            };
            let r = store.update_content(existing.id, text, dir.as_str(), memo, now);
            match r {
                Ok(_) => {
                    proof {
                        let i = choose|i: int| s.is_first_match(i, text@, capture_name()) && existing@ == s.items[i];
                        assert(s.has_item(existing.id as int));
                        let j = choose|j: int| 0 <= j < s.items.len() && s.items[j].id == existing.id
                            && final(store)@ == s.touched(j, text@, capture_name(), existing@.memo, now as int);
                        assert(i == j) by {
                            if i < j {
                                assert(s.items[i].id != s.items[j].id);
                            } else if j < i {
                                assert(s.items[j].id != s.items[i].id);
                            }
                        }
                        let c = choose|c: int| s.is_first_match(c, text@, capture_name());
                        assert(c == i) by {
                            if c < i {
                                assert(!s.matches(c, text@, capture_name()));
                            } else if i < c {
                                assert(!s.matches(i, text@, capture_name()));
                            }
                        }
                        assert(s.has_match(text@, capture_name()));
                    }
                    Ok(CaptureOutcome::Touched(existing.id))
                },
                Err(e) => Err(e),
            }
        },
        None => {
            match store.post_content(text, dir.as_str(), None, now) {
                Ok(id) => {
                    store.cleanup_old_items(dir.as_str(), limit);
                    Ok(CaptureOutcome::Inserted(id))
                },
                Err(e) => Err(e),
            }
        },
    }
}

/// The text most recently taken from the clipboard.
pub struct ClipboardWatcher {
    last_seen: String,
}

impl View for ClipboardWatcher {
    type V = Seq<char>;

    closed spec fn view(&self) -> Seq<char> {
        self.last_seen@
    }
}

impl ClipboardWatcher {
    /// A watcher that has seen nothing yet.
    pub fn new() -> (r: ClipboardWatcher)
        ensures
            r@ == Seq::<char>::empty(),
    {
        ClipboardWatcher { last_seen: String::new() }
    }

    /// Whether clipboard text `text` is a new event: there is text, it differs
    /// from the text last seen, and it is not blank.
    pub fn is_new_content(&self, text: &Option<String>) -> (r: bool)
        ensures
            r == match text {
                Some(t) => t@ != self@ && trimmed(t@).len() > 0,
                None => false,
            },
    {
        match text {
            Some(t) => *t != self.last_seen && !is_blank(t),
            None => false,
        }
    }

    /// Records `text` as the text last seen, once it has been saved.
    pub fn mark_seen(&mut self, text: String)
        ensures
            final(self)@ == text@,
    {
        self.last_seen = text;
    }

    /// Finishes a tick that read new text `text`: when saving it succeeded
    /// the text counts as seen and the history-changed notice is due;
    /// otherwise nothing changes, so the same text is tried on the next tick.
    pub fn after_save(&mut self, text: String, saved: bool) -> (notify: bool)
        ensures
            notify == saved,
            saved ==> final(self)@ == text@,
            !saved ==> final(self)@ == old(self)@,
    {
        if saved {
            self.mark_seen(text);
        }
        saved
    }
}

} // verus!
