//! The live per-chat state: a todo store mapping chat ids to ordered task
//! lists, and the set of chats that have ever talked to the bot.

use vstd::prelude::*;

verus! {

/// Deep view of a list of byte-string tasks.
pub open spec fn tasks_view(ts: Vec<Vec<u8>>) -> Seq<Seq<u8>> {
    ts@.map_values(|t: Vec<u8>| t@)
}

/// Index of the first row keyed by `c`, or -1 when there is none.
pub open spec fn first_idx(rows: Seq<(i64, Seq<Seq<u8>>)>, c: i64) -> int
    decreases rows.len(),
{
    if rows.len() == 0 {
        -1
    } else if rows[0].0 == c {
        0
    } else {
        let r = first_idx(rows.skip(1), c);
        if r < 0 {
            -1
        } else {
            r + 1
        }
    }
}

pub proof fn lemma_first_idx_is(rows: Seq<(i64, Seq<Seq<u8>>)>, c: i64, i: int)
    requires
        0 <= i < rows.len(),
        rows[i].0 == c,
        forall|j: int| 0 <= j < i ==> (#[trigger] rows[j]).0 != c,
    ensures
        first_idx(rows, c) == i,
    decreases rows.len(),
{
    if i > 0 {
        assert(rows[0].0 != c);
        assert(rows.skip(1)[i - 1] == rows[i]);
        assert forall|j: int| 0 <= j < i - 1 implies (#[trigger] rows.skip(1)[j]).0 != c by {
            assert(rows.skip(1)[j] == rows[j + 1]);
        }
        lemma_first_idx_is(rows.skip(1), c, i - 1);
    }
}

pub proof fn lemma_first_idx_none(rows: Seq<(i64, Seq<Seq<u8>>)>, c: i64)
    requires
        forall|j: int| 0 <= j < rows.len() ==> (#[trigger] rows[j]).0 != c,
    ensures
        first_idx(rows, c) == -1,
    decreases rows.len(),
{
    if rows.len() > 0 {
        assert forall|j: int| 0 <= j < rows.skip(1).len() implies (#[trigger] rows.skip(
            1,
        )[j]).0 != c by {
            assert(rows.skip(1)[j] == rows[j + 1]);
        }
        lemma_first_idx_none(rows.skip(1), c);
    }
}

pub proof fn lemma_first_idx_missing(rows: Seq<(i64, Seq<Seq<u8>>)>, c: i64)
    requires
        first_idx(rows, c) == -1,
    ensures
        forall|j: int| 0 <= j < rows.len() ==> (#[trigger] rows[j]).0 != c,
    decreases rows.len(),
{
    if rows.len() > 0 {
        assert(rows[0].0 != c);
        lemma_first_idx_missing(rows.skip(1), c);
        assert forall|j: int| 0 <= j < rows.len() implies (#[trigger] rows[j]).0 != c by {
            if j > 0 {
                assert(rows.skip(1)[j - 1] == rows[j]);
            }
        }
    }
}

pub proof fn lemma_first_idx_found(rows: Seq<(i64, Seq<Seq<u8>>)>, c: i64)
    ensures
        first_idx(rows, c) >= 0 ==> 0 <= first_idx(rows, c) < rows.len() && rows[first_idx(
            rows,
            c,
        )].0 == c,
    decreases rows.len(),
{
    if rows.len() > 0 && rows[0].0 != c {
        lemma_first_idx_found(rows.skip(1), c);
        if first_idx(rows, c) >= 0 {
            assert(rows.skip(1)[first_idx(rows.skip(1), c)] == rows[first_idx(rows, c)]);
        }
    }
}

/// Copies a byte string.
pub fn copy_bytes(v: &Vec<u8>) -> (r: Vec<u8>)
    ensures
        r@ == v@,
{
    let mut r: Vec<u8> = Vec::new();
    let mut i: usize = 0;
    while i < v.len()
        invariant
            i <= v.len(),
            r@ == v@.take(i as int),
        decreases v.len() - i,
    {
        r.push(v[i]);
        assert(v@.take(i + 1) =~= v@.take(i as int).push(v@[i as int]));
        i = i + 1;
    }
    assert(v@.take(v@.len() as int) =~= v@);
    r
}

/// Copies a list of byte strings.
pub fn copy_tasks(ts: &Vec<Vec<u8>>) -> (r: Vec<Vec<u8>>)
    ensures
        tasks_view(r) == tasks_view(*ts),
{
    let mut r: Vec<Vec<u8>> = Vec::new();
    let mut i: usize = 0;
    while i < ts.len()
        invariant
            i <= ts.len(),
            tasks_view(r) == tasks_view(*ts).take(i as int),
        decreases ts.len() - i,
    {
        r.push(copy_bytes(&ts[i]));
        assert(tasks_view(*ts).take(i + 1) =~= tasks_view(*ts).take(i as int).push(
            tasks_view(*ts)[i as int],
        ));
        assert(tasks_view(r) =~= tasks_view(*ts).take(i + 1));
        i = i + 1;
    }
    assert(tasks_view(*ts).take(ts@.len() as int) =~= tasks_view(*ts));
    r
}

/// Deep view of a row list.
pub open spec fn rows_view(entries: Vec<(i64, Vec<Vec<u8>>)>) -> Seq<(i64, Seq<Seq<u8>>)> {
    entries@.map_values(|e: (i64, Vec<Vec<u8>>)| (e.0, tasks_view(e.1)))
}

/// No chat id keys two rows.
pub open spec fn unique_keys(rows: Seq<(i64, Seq<Seq<u8>>)>) -> bool {
    forall|i: int, j: int|
        0 <= i < j < rows.len() ==> (#[trigger] rows[i]).0 != (#[trigger] rows[j]).0
}

/// The todo store: one row per chat, in order of first contact, each row an
/// ordered list of tasks. No chat owns two rows.
pub struct TodoStore {
    entries: Vec<(i64, Vec<Vec<u8>>)>,
}

impl TodoStore {
    /// The rows as mathematical values, in order.
    pub closed spec fn rows(self) -> Seq<(i64, Seq<Seq<u8>>)> {
        rows_view(self.entries)
    }

    /// Each chat id keys at most one row.
    pub open spec fn wf(self) -> bool {
        unique_keys(self.rows())
    }

    pub open spec fn has_chat(self, c: i64) -> bool {
        first_idx(self.rows(), c) >= 0
    }

    /// The tasks a chat would see, oldest first: its row if it has one,
    /// nothing otherwise.
    pub open spec fn tasks_of(self, c: i64) -> Seq<Seq<u8>> {
        if first_idx(self.rows(), c) >= 0 {
            self.rows()[first_idx(self.rows(), c)].1
        } else {
            Seq::empty()
        }
    }

    /// A fresh store: no chat has any tasks.
    pub fn new() -> (r: TodoStore)
        ensures
            r.wf(),
            r.rows() == Seq::<(i64, Seq<Seq<u8>>)>::empty(),
            forall|c: i64| #[trigger] r.tasks_of(c) == Seq::<Seq<u8>>::empty(),
    {
        let r = TodoStore { entries: Vec::new() };
        proof {
            assert(r.rows() =~= Seq::<(i64, Seq<Seq<u8>>)>::empty());
            assert forall|c: i64| #[trigger] r.tasks_of(c) == Seq::<Seq<u8>>::empty() by {
                lemma_first_idx_none(r.rows(), c);
            }
        }
        r
    }

    /// Builds a store directly from rows; the snapshot loader uses it.
    pub fn from_rows(entries: Vec<(i64, Vec<Vec<u8>>)>) -> (r: TodoStore)
        ensures
            r.rows() == rows_view(entries),
    {
        TodoStore { entries }
    }

    fn find(&self, c: i64) -> (r: Option<usize>)
        ensures
            match r {
                Some(i) => first_idx(self.rows(), c) == i,
                None => first_idx(self.rows(), c) == -1,
            },
    {
        let mut i: usize = 0;
        while i < self.entries.len()
            invariant
                i <= self.entries.len(),
                forall|j: int| 0 <= j < i ==> (#[trigger] self.rows()[j]).0 != c,
            decreases self.entries.len() - i,
        {
            if self.entries[i].0 == c {
                proof {
                    lemma_first_idx_is(self.rows(), c, i as int);
                }
                return Some(i);
            }
            i = i + 1;
        }
        proof {
            lemma_first_idx_none(self.rows(), c);
        }
        None
    }

    /// Appends a task to a chat's list, creating the row on first use.
    /// Every other chat's view is untouched.
    pub fn add_task(&mut self, c: i64, task: Vec<u8>)
        requires
            old(self).wf(),
        ensures
            final(self).wf(),
            final(self).tasks_of(c) == old(self).tasks_of(c).push(task@),
            forall|d: i64|
                d != c ==> #[trigger] final(self).tasks_of(d) == old(self).tasks_of(d),
            forall|d: i64|
                #[trigger] final(self).has_chat(d) <==> old(self).has_chat(d) || d == c,
    {
        let ghost pre = *self;
        match self.find(c) {
            Some(i) => {
                proof {
                    lemma_first_idx_found(pre.rows(), c);
                }
                let mut row = self.entries.remove(i);
                row.1.push(task);
                self.entries.insert(i, row);
                proof {
                    let newrow = (c, pre.tasks_of(c).push(task@));
                    assert(self.rows() =~~= pre.rows().update(i as int, newrow));
                    self.lemma_update_effect(pre, i as int, c, task@);
                }
            },
            None => {
                let mut ts: Vec<Vec<u8>> = Vec::new();
                ts.push(task);
                self.entries.push((c, ts));
                proof {
                    assert(tasks_view(ts) =~= seq![task@]);
                    let newrow = (c, seq![task@]);
                    assert(self.rows() =~~= pre.rows().push(newrow));
                    self.lemma_push_effect(pre, c, task@);
                }
            },
        }
    }

    proof fn lemma_update_effect(self, pre: TodoStore, i: int, c: i64, t: Seq<u8>)
        requires
            pre.wf(),
            0 <= i < pre.rows().len(),
            first_idx(pre.rows(), c) == i,
            pre.rows()[i].0 == c,
            self.rows() == pre.rows().update(i, (c, pre.tasks_of(c).push(t))),
        ensures
            self.wf(),
            self.tasks_of(c) == pre.tasks_of(c).push(t),
            forall|d: i64| d != c ==> #[trigger] self.tasks_of(d) == pre.tasks_of(d),
            forall|d: i64| #[trigger] self.has_chat(d) <==> pre.has_chat(d) || d == c,
    {
        assert forall|a: int, b: int| 0 <= a < b < self.rows().len() implies (
        #[trigger] self.rows()[a]).0 != (#[trigger] self.rows()[b]).0 by {
            assert(pre.rows()[a].0 != pre.rows()[b].0);
        }
        lemma_first_idx_is(self.rows(), c, i);
        assert forall|d: i64| d != c implies #[trigger] self.tasks_of(d) == pre.tasks_of(d) by {
            Self::lemma_first_idx_same(pre.rows(), self.rows(), d);
        }
        assert forall|d: i64| #[trigger] self.has_chat(d) <==> pre.has_chat(d) || d == c by {
            if d != c {
                Self::lemma_first_idx_same(pre.rows(), self.rows(), d);
            }
            lemma_first_idx_found(pre.rows(), c);
        }
    }

    /// Two row sequences of equal length whose keys agree pointwise, and
    /// whose rows agree wherever the key is `d`, give `d` the same view.
    proof fn lemma_first_idx_same(r1: Seq<(i64, Seq<Seq<u8>>)>, r2: Seq<(i64, Seq<Seq<u8>>)>, d: i64)
        requires
            r1.len() == r2.len(),
            forall|k: int| 0 <= k < r1.len() ==> (#[trigger] r1[k]).0 == (#[trigger] r2[k]).0,
            forall|k: int| 0 <= k < r1.len() && (#[trigger] r1[k]).0 == d ==> r1[k] == r2[k],
        ensures
            first_idx(r1, d) == first_idx(r2, d),
            first_idx(r1, d) >= 0 ==> r1[first_idx(r1, d)] == r2[first_idx(r2, d)],
        decreases r1.len(),
    {
        if r1.len() > 0 {
            assert(r1[0].0 == r2[0].0);
            if r1[0].0 != d {
                assert forall|k: int| 0 <= k < r1.skip(1).len() implies (#[trigger] r1.skip(
                    1,
                )[k]).0 == (#[trigger] r2.skip(1)[k]).0 by {
                    assert(r1.skip(1)[k] == r1[k + 1]);
                    assert(r2.skip(1)[k] == r2[k + 1]);
                }
                assert forall|k: int|
                    0 <= k < r1.skip(1).len() && (#[trigger] r1.skip(1)[k]).0 == d implies r1.skip(
                    1,
                )[k] == r2.skip(1)[k] by {
                    assert(r1.skip(1)[k] == r1[k + 1]);
                    assert(r2.skip(1)[k] == r2[k + 1]);
                }
                Self::lemma_first_idx_same(r1.skip(1), r2.skip(1), d);
                if first_idx(r1, d) >= 0 {
                    let k = first_idx(r1.skip(1), d);
                    lemma_first_idx_found(r1.skip(1), d);
                    lemma_first_idx_found(r2.skip(1), d);
                    assert(first_idx(r1, d) == k + 1);
                    assert(first_idx(r2, d) == k + 1);
                    assert(r1.skip(1)[k] == r1[k + 1]);
                    assert(r2.skip(1)[k] == r2[k + 1]);
                }
            }
        }
    }

    proof fn lemma_push_effect(self, pre: TodoStore, c: i64, t: Seq<u8>)
        requires
            pre.wf(),
            first_idx(pre.rows(), c) == -1,
            self.rows() == pre.rows().push((c, seq![t])),
        ensures
            self.wf(),
            self.tasks_of(c) == pre.tasks_of(c).push(t),
            forall|d: i64| d != c ==> #[trigger] self.tasks_of(d) == pre.tasks_of(d),
            forall|d: i64| #[trigger] self.has_chat(d) <==> pre.has_chat(d) || d == c,
    {
        let n = pre.rows().len() as int;
        lemma_first_idx_missing(pre.rows(), c);
        assert forall|a: int, b: int| 0 <= a < b < self.rows().len() implies (
        #[trigger] self.rows()[a]).0 != (#[trigger] self.rows()[b]).0 by {
            if b < n {
                assert(pre.rows()[a].0 != pre.rows()[b].0);
            } else {
                assert(self.rows()[b].0 == c);
                assert(self.rows()[a].0 == pre.rows()[a].0);
            }
        }
        lemma_first_idx_is(self.rows(), c, n);
        assert(self.tasks_of(c) =~= pre.tasks_of(c).push(t));
        assert forall|d: i64| d != c implies #[trigger] self.tasks_of(d) == pre.tasks_of(d) by {
            Self::lemma_first_idx_push_other(pre.rows(), (c, seq![t]), d);
        }
        assert forall|d: i64| #[trigger] self.has_chat(d) <==> pre.has_chat(d) || d == c by {
            if d != c {
                Self::lemma_first_idx_push_other(pre.rows(), (c, seq![t]), d);
            }
        }
    }

    /// Pushing a row keyed by another chat moves no existing row and adds
    /// none for `d`.
    proof fn lemma_first_idx_push_other(
        rows: Seq<(i64, Seq<Seq<u8>>)>,
        row: (i64, Seq<Seq<u8>>),
        d: i64,
    )
        requires
            row.0 != d,
        ensures
            first_idx(rows.push(row), d) == first_idx(rows, d),
            first_idx(rows, d) >= 0 ==> rows.push(row)[first_idx(rows, d)] == rows[first_idx(
                rows,
                d,
            )],
        decreases rows.len(),
    {
        if rows.len() == 0 {
            assert(rows.push(row).len() == 1);
            assert(rows.push(row)[0] == row);
            assert(first_idx(rows.push(row), d) == -1) by {
                lemma_first_idx_none(rows.push(row), d);
            }
        } else {
            assert(rows.push(row)[0] == rows[0]);
            assert(rows.push(row).skip(1) =~= rows.skip(1).push(row));
            Self::lemma_first_idx_push_other(rows.skip(1), row, d);
            lemma_first_idx_found(rows, d);
            if first_idx(rows, d) >= 1 {
                assert(rows.skip(1)[first_idx(rows, d) - 1] == rows[first_idx(rows, d)]);
            }
        }
    }

    /// The tasks of a chat, oldest first; a chat with no row sees an empty
    /// list, never an error.
    pub fn list_tasks(&self, c: i64) -> (r: Vec<Vec<u8>>)
        ensures
            tasks_view(r) == self.tasks_of(c),
    {
        match self.find(c) {
            Some(i) => {
                proof {
                    lemma_first_idx_found(self.rows(), c);
                }
                copy_tasks(&self.entries[i].1)
            },
            None => {
                let r: Vec<Vec<u8>> = Vec::new();
                proof {
                    assert(tasks_view(r) =~= Seq::<Seq<u8>>::empty());
                }
                r
            },
        }
    }

    /// Read-only access to the rows, for the snapshot writer.
    pub fn row_count(&self) -> (n: usize)
        ensures
            n == self.rows().len(),
    {
        self.entries.len()
    }

    pub fn row_at(&self, i: usize) -> (r: &(i64, Vec<Vec<u8>>))
        requires
            i < self.rows().len(),
        ensures
            r.0 == self.rows()[i as int].0,
            tasks_view(r.1) == self.rows()[i as int].1,
    {
        &self.entries[i]
    }
}

/// The ids after registering `c`: unchanged when `c` is already known,
/// appended otherwise.
pub open spec fn register_spec(ids: Seq<i64>, c: i64) -> Seq<i64> {
    if ids.contains(c) {
        ids
    } else {
        ids.push(c)
    }
}

/// The ids with every repeat dropped: each id keeps its first place.
pub open spec fn dedup_spec(ids: Seq<i64>) -> Seq<i64>
    decreases ids.len(),
{
    if ids.len() == 0 {
        Seq::empty()
    } else {
        register_spec(dedup_spec(ids.drop_last()), ids.last())
    }
}

/// A sequence without repeats is already its own deduplication: loading
/// the ids a well-formed set saved reproduces them in the same order.
pub proof fn lemma_dedup_of_unique(ids: Seq<i64>)
    requires
        forall|i: int, j: int| 0 <= i < j < ids.len() ==> ids[i] != ids[j],
    ensures
        dedup_spec(ids) == ids,
    decreases ids.len(),
{
    if ids.len() > 0 {
        let dl = ids.drop_last();
        lemma_dedup_of_unique(dl);
        assert(!dl.contains(ids.last())) by {
            if dl.contains(ids.last()) {
                let k = choose|k: int| 0 <= k < dl.len() && #[trigger] dl[k] == ids.last();
                assert(ids[k] == ids[ids.len() - 1]);
            }
        }
        assert(dedup_spec(ids) =~= ids);
    }
}

/// Registration happens exactly once: registering an id a second time
/// changes nothing, so no side effect of first contact — the greeting
/// included — can repeat.
pub proof fn lemma_register_once(ids: Seq<i64>, c: i64)
    ensures
        register_spec(ids, c).contains(c),
        register_spec(register_spec(ids, c), c) == register_spec(ids, c),
{
    if !ids.contains(c) {
        assert(ids.push(c)[ids.len() as int] == c);
        assert(ids.push(c).contains(c));
    }
}

/// The set of chats that have ever issued a command, in order of first
/// contact. No id occurs twice.
pub struct UsersSet {
    ids: Vec<i64>,
}

impl UsersSet {
    /// The ids in first-contact order.
    pub closed spec fn ids_seq(self) -> Seq<i64> {
        self.ids@
    }

    pub open spec fn wf(self) -> bool {
        forall|i: int, j: int|
            0 <= i < j < self.ids_seq().len() ==> self.ids_seq()[i] != self.ids_seq()[j]
    }

    pub open spec fn spec_contains(self, c: i64) -> bool {
        self.ids_seq().contains(c)
    }

    pub fn new() -> (r: UsersSet)
        ensures
            r.wf(),
            r.ids_seq() == Seq::<i64>::empty(),
    {
        UsersSet { ids: Vec::new() }
    }

    /// Builds the set from a parsed snapshot, dropping repeated ids; the
    /// first occurrence keeps its place.
    pub fn from_ids(ids: &Vec<i64>) -> (r: UsersSet)
        ensures
            r.wf(),
            r.ids_seq() == dedup_spec(ids@),
            forall|c: i64| #[trigger] r.spec_contains(c) <==> ids@.contains(c),
    {
        let mut r = UsersSet { ids: Vec::new() };
        let mut i: usize = 0;
        proof {
            assert(ids@.take(0) =~= Seq::<i64>::empty());
        }
        while i < ids.len()
            invariant
                i <= ids.len(),
                r.wf(),
                r.ids_seq() == dedup_spec(ids@.take(i as int)),
                forall|c: i64| #[trigger] r.spec_contains(c) <==> ids@.take(i as int).contains(c),
            decreases ids.len() - i,
        {
            let ghost prefix = ids@.take(i as int);
            let c = ids[i];
            let added = r.insert(c);
            proof {
                assert(ids@.take(i + 1) =~= prefix.push(c));
                assert(ids@.take(i + 1).drop_last() =~= prefix);
                assert(ids@.take(i + 1).last() == c);
                assert(r.ids_seq() == dedup_spec(ids@.take(i + 1)));
                assert forall|d: i64| #[trigger] r.spec_contains(d) <==> ids@.take(
                    i + 1,
                ).contains(d) by {
                    if r.spec_contains(d) {
                        if d == c {
                            assert(prefix.push(c)[prefix.len() as int] == d);
                        } else {
                            let k = choose|k: int|
                                0 <= k < prefix.len() && #[trigger] prefix[k] == d;
                            assert(prefix.push(c)[k] == d);
                        }
                        assert(ids@.take(i + 1).contains(d));
                    }
                    if ids@.take(i + 1).contains(d) {
                        let k = choose|k: int|
                            0 <= k < prefix.push(c).len() && #[trigger] prefix.push(c)[k] == d;
                        if k < prefix.len() {
                            assert(prefix[k] == d);
                            assert(prefix.contains(d));
                        } else {
                            assert(d == c);
                        }
                        assert(r.spec_contains(d));
                    }
                }
            }
            i = i + 1;
        }
        proof {
            assert(ids@.take(ids@.len() as int) =~= ids@);
        }
        r
    }

    pub fn contains(&self, c: i64) -> (r: bool)
        ensures
            r == self.spec_contains(c),
    {
        let mut i: usize = 0;
        while i < self.ids.len()
            invariant
                i <= self.ids.len(),
                forall|j: int| 0 <= j < i ==> self.ids_seq()[j] != c,
            decreases self.ids.len() - i,
        {
            if self.ids[i] == c {
                return true;
            }
            i = i + 1;
        }
        false
    }

    /// Registers a chat. The first call for `c` appends it and reports
    /// true; every later call leaves the set byte-for-byte unchanged and
    /// reports false, so no side effect of registration can repeat.
    pub fn insert(&mut self, c: i64) -> (added: bool)
        requires
            old(self).wf(),
        ensures
            final(self).wf(),
            added == !old(self).spec_contains(c),
            final(self).spec_contains(c),
            added ==> final(self).ids_seq() == old(self).ids_seq().push(c),
            !added ==> final(self).ids_seq() == old(self).ids_seq(),
            final(self).ids_seq() == register_spec(old(self).ids_seq(), c),
            forall|d: i64|
                #[trigger] final(self).spec_contains(d) <==> old(self).spec_contains(d) || d == c,
    {
        if self.contains(c) {
            false
        } else {
            self.ids.push(c);
            proof {
                assert(self.ids_seq()[self.ids_seq().len() - 1] == c);
                assert forall|d: i64| #[trigger] self.spec_contains(d) <==> old(
                    self,
                ).spec_contains(d) || d == c by {
                    if self.spec_contains(d) && d != c {
                        let k = choose|k: int|
                            0 <= k < self.ids_seq().len() && self.ids_seq()[k] == d;
                        assert(old(self).ids_seq()[k] == d);
                    }
                    if old(self).spec_contains(d) {
                        let k = choose|k: int|
                            0 <= k < old(self).ids_seq().len() && old(self).ids_seq()[k] == d;
                        assert(self.ids_seq()[k] == d);
                    }
                }
            }
            true
        }
    }

    /// A copy of the ids, for the broadcast fan-out and the snapshot
    /// writer; taken so the live set need not be held during sends.
    pub fn snapshot(&self) -> (r: Vec<i64>)
        ensures
            r@ == self.ids_seq(),
    {
        let mut r: Vec<i64> = Vec::new();
        let mut i: usize = 0;
        while i < self.ids.len()
            invariant
                i <= self.ids.len(),
                r@ == self.ids_seq().take(i as int),
            decreases self.ids.len() - i,
        {
            r.push(self.ids[i]);
            assert(self.ids_seq().take(i + 1) =~= self.ids_seq().take(i as int).push(
                self.ids_seq()[i as int],
            ));
            i = i + 1;
        }
        assert(self.ids_seq().take(self.ids_seq().len() as int) =~= self.ids_seq());
        r
    }

    pub fn len(&self) -> (n: usize)
        ensures
            n == self.ids_seq().len(),
    {
        self.ids.len()
    }
}

} // verus!
