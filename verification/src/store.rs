//! The quest store: an in-memory quest table ordered by ascending id,
//! with the parent-before-child invariant that the forest reconstructor
//! and the cascade operator rely on.
//!
//! Persistence is deliberately left to the caller: an embedding loads the
//! rows into a [`QuestLog`], operates on it through the verified methods,
//! and writes the rows back in one transaction.

use vstd::prelude::*;

use crate::error::QuestError;
use crate::quest::{Quest, Status, Tier};

verus! {

/// The rows' ids are strictly ascending.
pub open spec fn ids_sorted(s: Seq<Quest>) -> bool {
    forall|i: int, j: int| #![trigger s[i].id, s[j].id] 0 <= i < j < s.len() ==> s[i].id < s[j].id
}

/// Every parent reference points at a row that appears earlier: the table
/// is written in an order consistent with a forest, never requiring a
/// forward reference.
pub open spec fn parents_before(s: Seq<Quest>) -> bool {
    forall|i: int|
        0 <= i < s.len() && (#[trigger] s[i].chain_id) is Some ==> exists|j: int|
            0 <= j < i && #[trigger] s[j].id == s[i].chain_id->0
}

/// The ordering invariant of a quest table: ascending ids, parents before
/// children.
pub open spec fn wf_quest_seq(s: Seq<Quest>) -> bool {
    ids_sorted(s) && parents_before(s)
}

/// Some row of `s` carries the id.
pub open spec fn seq_has_id(s: Seq<Quest>, id: i64) -> bool {
    exists|i: int| 0 <= i < s.len() && (#[trigger] s[i]).id == id
}

/// The index of the row carrying the id (meaningful when `seq_has_id`).
pub open spec fn seq_idx_of(s: Seq<Quest>, id: i64) -> int {
    choose|i: int| 0 <= i < s.len() && (#[trigger] s[i]).id == id
}

/// Some row of `s` references `id` as its parent.
pub open spec fn seq_has_child(s: Seq<Quest>, id: i64) -> bool {
    exists|i: int| 0 <= i < s.len() && (#[trigger] s[i]).chain_id == Some(id)
}

/// `q` is `src` persisted under the id `id`: same parent reference,
/// objective text, status and tier, with the store-assigned id.
pub open spec fn persisted_as(src: Quest, id: i64, q: Quest) -> bool {
    &&& q.id == id
    &&& q.chain_id == src.chain_id
    &&& q.objective@ == src.objective@
    &&& q.status == src.status
    &&& q.tier == src.tier
}

/// Rows whose adjacent pairs are ordered.
pub open spec fn adjacent_sorted(s: Seq<Quest>, n: int) -> bool {
    forall|j: int, k: int|
        #![trigger s[j].id, s[k].id]
        0 <= j && k == j + 1 && k < n ==> s[j].id < s[k].id
}

/// Adjacent-pair sortedness gives sortedness of every pair.
proof fn lemma_sorted_pair_at(s: Seq<Quest>, a: int, b: int)
    requires
        adjacent_sorted(s, s.len() as int),
        0 <= a < b < s.len(),
    ensures
        s[a].id < s[b].id,
    decreases b - a,
{
    if a + 1 < b {
        lemma_sorted_pair_at(s, a, b - 1);
        assert(s[b - 1].id < s[b].id);
    } else {
        assert(s[a].id < s[b].id);
    }
}

/// A table whose adjacent rows are ordered has strictly ascending ids.
proof fn lemma_sorted_pairs(s: Seq<Quest>)
    requires
        adjacent_sorted(s, s.len() as int),
    ensures
        ids_sorted(s),
{
    assert forall|a: int, b: int| #![trigger s[a].id, s[b].id] 0 <= a < b < s.len() implies s[a].id
        < s[b].id by {
        lemma_sorted_pair_at(s, a, b);
    }
}

/// In a table with strictly ascending ids, an id determines its row.
pub proof fn lemma_id_unique(s: Seq<Quest>, i: int, j: int)
    requires
        ids_sorted(s),
        0 <= i < s.len(),
        0 <= j < s.len(),
        s[i].id == s[j].id,
    ensures
        i == j,
{
    if i < j {
        assert(s[i].id < s[j].id);
    }
    if j < i {
        assert(s[j].id < s[i].id);
    }
}

/// The outcome of a single-quest status transition: either the quest was
/// already in the requested state (a reported no-op) or the row was
/// changed.
#[derive(Clone, Copy, Debug, PartialEq, Eq, Structural)]
pub enum TransitionOutcome {
    NoOp,
    Applied,
}

/// One scan step of the chain-membership computation: a row joins the
/// subtree iff its parent is already a member.
pub open spec fn subtree_step(pre: Set<i64>, q: Quest) -> Set<i64> {
    if q.chain_id matches Some(p) && pre.contains(p) {
        pre.insert(q.id)
    } else {
        pre
    }
}

/// The ids touched by a cascade rooted at `root`: `root` itself plus the
/// id of every quest transitively reachable from it via `chain_id` edges,
/// computed by a single forward scan. The scan is complete because
/// parents always precede their children in the table.
pub open spec fn subtree_ids(s: Seq<Quest>, root: i64) -> Set<i64>
    decreases s.len(),
{
    if s.len() == 0 {
        Set::empty().insert(root)
    } else {
        subtree_step(subtree_ids(s.drop_last(), root), s.last())
    }
}

/// The rows that a cascading delete rooted at `root` leaves in place.
pub open spec fn outside_subtree(s: Seq<Quest>, root: i64) -> spec_fn(Quest) -> bool {
    |q: Quest| !subtree_ids(s, root).contains(q.id)
}

/// What the row predicate of a cascading delete says of one row.
proof fn lemma_outside_subtree_applied(s: Seq<Quest>, root: i64, q: Quest)
    ensures
        outside_subtree(s, root)(q) == !subtree_ids(s, root).contains(q.id),
{
}

/// Pushing onto a sequence adds exactly one member.
proof fn lemma_push_contains<A>(s: Seq<A>, x: A)
    ensures
        forall|y: A| #[trigger] s.push(x).contains(y) <==> s.contains(y) || y == x,
{
    assert forall|y: A| #[trigger] s.push(x).contains(y) implies s.contains(y) || y == x by {
        let i = choose|i: int| 0 <= i < s.push(x).len() && s.push(x)[i] == y;
        if i < s.len() {
            assert(s[i] == y);
        }
    }
    assert forall|y: A| s.contains(y) || y == x implies #[trigger] s.push(x).contains(y) by {
        if y == x {
            assert(s.push(x)[s.len() as int] == y);
        } else {
            let i = choose|i: int| 0 <= i < s.len() && s[i] == y;
            assert(s.push(x)[i] == y);
        }
    }
}

/// Filtering commutes with appending one element.
proof fn lemma_filter_push<A>(s: Seq<A>, pred: spec_fn(A) -> bool, x: A)
    ensures
        (s + seq![x]).filter(pred) == s.filter(pred) + (if pred(x) {
            seq![x]
        } else {
            Seq::<A>::empty()
        }),
{
    reveal_with_fuel(Seq::filter, 2);
    let t = s + seq![x];
    assert(t.last() == x);
    assert(t.drop_last() =~= s);
    if pred(x) {
        assert(s.filter(pred).push(x) =~= s.filter(pred) + seq![x]);
    } else {
        assert(s.filter(pred) + Seq::<A>::empty() =~= s.filter(pred));
    }
}

/// Every element of a filtered sequence is an element of the original
/// and satisfies the predicate.
proof fn lemma_filter_member<A>(s: Seq<A>, pred: spec_fn(A) -> bool, x: A)
    requires
        s.filter(pred).contains(x),
    ensures
        s.contains(x),
        pred(x),
    decreases s.len(),
{
    reveal_with_fuel(Seq::filter, 2);
    if s.len() == 0 {
        assert(false);
    } else {
        let d = s.drop_last();
        let f = s.filter(pred);
        let fd = d.filter(pred);
        if pred(s.last()) && x == s.last() {
            assert(s[s.len() - 1] == x);
        } else {
            if pred(s.last()) {
                let i = choose|i: int| 0 <= i < f.len() && f[i] == x;
                assert(f == fd.push(s.last()));
                assert(i < f.len() - 1);
                assert(fd[i] == x);
                assert(fd.contains(x));
            }
            lemma_filter_member(d, pred, x);
            let j = choose|j: int| 0 <= j < d.len() && d[j] == x;
            assert(s[j] == x);
        }
    }
}

/// Filtering a table with strictly ascending ids keeps the ids strictly
/// ascending.
proof fn lemma_filter_sorted(s: Seq<Quest>, pred: spec_fn(Quest) -> bool)
    requires
        ids_sorted(s),
    ensures
        ids_sorted(s.filter(pred)),
    decreases s.len(),
{
    reveal_with_fuel(Seq::filter, 2);
    if s.len() > 0 {
        let d = s.drop_last();
        assert forall|a: int, b: int| #![trigger d[a].id, d[b].id] 0 <= a < b < d.len() implies d[a].id < d[b].id by {
            assert(s[a].id < s[b].id);
        }
        lemma_filter_sorted(d, pred);
        let f = s.filter(pred);
        let fd = d.filter(pred);
        if pred(s.last()) {
            assert(f == fd.push(s.last()));
            assert forall|a: int, b: int| #![trigger f[a].id, f[b].id] 0 <= a < b < f.len() implies f[a].id < f[b].id by {
                if b < f.len() - 1 {
                    assert(fd[a].id < fd[b].id);
                } else {
                    assert(f[a] == fd[a]);
                    lemma_filter_member(d, pred, fd[a]);
                    let j = choose|j: int| 0 <= j < d.len() && d[j] == fd[a];
                    assert(s[j] == fd[a]);
                    assert(s[j].id < s.last().id);
                }
            }
        }
    }
}

/// The cascade root is always a member of its own subtree id set.
proof fn lemma_subtree_has_root(s: Seq<Quest>, root: i64)
    ensures
        subtree_ids(s, root).contains(root),
    decreases s.len(),
{
    if s.len() > 0 {
        lemma_subtree_has_root(s.drop_last(), root);
    }
}

/// Subtree membership established on a prefix of the table persists to
/// the whole table: the scanned set only grows.
proof fn lemma_subtree_extend(s: Seq<Quest>, root: i64, i: int, x: i64)
    requires
        0 <= i <= s.len(),
        subtree_ids(s.take(i), root).contains(x),
    ensures
        subtree_ids(s, root).contains(x),
    decreases s.len() - i,
{
    if i == s.len() {
        assert(s.take(i) =~= s);
    } else {
        assert(s.take(i + 1).drop_last() =~= s.take(i));
        assert(s.take(i + 1).last() == s[i]);
        assert(subtree_ids(s.take(i + 1), root) == subtree_step(
            subtree_ids(s.take(i), root),
            s[i],
        ));
        lemma_subtree_extend(s, root, i + 1, x);
    }
}

/// Subtree membership of the root, or of the id of a row before position
/// `i`, is already established by the scan of the first `i` rows: rows at
/// or after `i` can only contribute their own (larger) ids.
proof fn lemma_subtree_stable(s: Seq<Quest>, root: i64, i: int, x: i64)
    requires
        ids_sorted(s),
        0 <= i <= s.len(),
        x == root || exists|j: int| 0 <= j < i && (#[trigger] s[j]).id == x,
        subtree_ids(s, root).contains(x),
    ensures
        subtree_ids(s.take(i), root).contains(x),
    decreases s.len() - i,
{
    if i == s.len() {
        assert(s.take(i) =~= s);
    } else {
        lemma_subtree_stable(s, root, i + 1, x);
        assert(s.take(i + 1).drop_last() =~= s.take(i));
        assert(s.take(i + 1).last() == s[i]);
        assert(subtree_ids(s.take(i + 1), root) == subtree_step(
            subtree_ids(s.take(i), root),
            s[i],
        ));
        if x == root {
            lemma_subtree_has_root(s.take(i), root);
        } else {
            let j = choose|j: int| 0 <= j < i && (#[trigger] s[j]).id == x;
            assert(s[j].id < s[i].id);
            assert(x != s[i].id);
        }
    }
}

/// The subtree id set is closed under the child relation: when a row's
/// parent id is a member, the row's own id is a member.
proof fn lemma_subtree_closed(s: Seq<Quest>, root: i64, i: int)
    requires
        wf_quest_seq(s),
        0 <= i < s.len(),
        s[i].chain_id is Some,
        subtree_ids(s, root).contains(s[i].chain_id->0),
    ensures
        subtree_ids(s, root).contains(s[i].id),
{
    let p = s[i].chain_id->0;
    assert(exists|j: int| 0 <= j < i && #[trigger] s[j].id == p);
    lemma_subtree_stable(s, root, i, p);
    assert(s.take(i + 1).drop_last() =~= s.take(i));
    assert(s.take(i + 1).last() == s[i]);
    assert(subtree_ids(s.take(i + 1), root) == subtree_step(subtree_ids(s.take(i), root), s[i]));
    assert(subtree_ids(s.take(i + 1), root).contains(s[i].id));
    lemma_subtree_extend(s, root, i + 1, s[i].id);
}

/// Deleting a whole subtree preserves the table invariant: the rows that
/// remain are still sorted, and no survivor can have lost its parent,
/// because a row whose parent is deleted is itself deleted.
proof fn lemma_subtree_filter_wf(s: Seq<Quest>, root: i64)
    requires
        wf_quest_seq(s),
    ensures
        wf_quest_seq(s.filter(outside_subtree(s, root))),
{
    let pred = outside_subtree(s, root);
    let f = s.filter(pred);
    lemma_filter_sorted(s, pred);
    assert forall|a: int| 0 <= a < f.len() && (#[trigger] f[a].chain_id) is Some implies exists|
        b: int,
    | 0 <= b < a && #[trigger] f[b].id == f[a].chain_id->0 by {
        lemma_filter_member(s, pred, f[a]);
        let i = choose|i: int| 0 <= i < s.len() && s[i] == f[a];
        let p = f[a].chain_id->0;
        assert(s[i].chain_id is Some);
        let j = choose|j: int| 0 <= j < i && #[trigger] s[j].id == s[i].chain_id->0;
        assert(s[j].id < s[i].id);
        if subtree_ids(s, root).contains(p) {
            lemma_subtree_closed(s, root, i);
            assert(!pred(s[i]));
            assert(false);
        }
        assert(pred(s[j]));
        s.lemma_filter_contains(pred, j);
        let b = choose|b: int| 0 <= b < f.len() && f[b] == s[j];
        if b == a {
            assert(f[a].id == p && p < s[i].id && f[a].id == s[i].id);
        }
        if b > a {
            assert(f[a].id < f[b].id);
            assert(f[b].id == p && p < s[i].id && f[a].id == s[i].id);
        }
        assert(b < a);
        assert(f[b].id == f[a].chain_id->0);
    }
}

/// A row-wise rewrite that keeps every id and parent reference keeps the
/// table invariant.
proof fn lemma_same_shape_wf(s: Seq<Quest>, t: Seq<Quest>)
    requires
        wf_quest_seq(s),
        t.len() == s.len(),
        forall|i: int|
            0 <= i < s.len() ==> (#[trigger] t[i]).id == s[i].id && t[i].chain_id == s[i].chain_id,
    ensures
        wf_quest_seq(t),
{
    assert forall|a: int, b: int| #![trigger t[a].id, t[b].id] 0 <= a < b < t.len() implies t[a].id
        < t[b].id by {
        assert(s[a].id < s[b].id);
    }
    assert forall|a: int| 0 <= a < t.len() && (#[trigger] t[a].chain_id) is Some implies exists|
        b: int,
    | 0 <= b < a && #[trigger] t[b].id == t[a].chain_id->0 by {
        assert(s[a].chain_id is Some);
        let b = choose|b: int| 0 <= b < a && #[trigger] s[b].id == s[a].chain_id->0;
        assert(t[b].id == t[a].chain_id->0);
    }
}

/// The round-trip law: a successful `add_quest` leaves the store with a
/// row under the returned id that carries exactly the added quest's
/// parent reference, objective, status and tier — which is what
/// `get_quest` on that id then finds.
pub proof fn lemma_add_get_round_trip(pre: QuestLog, post: QuestLog, q: Quest, id: i64)
    requires
        post.wf(),
        post.quests().len() == pre.quests().len() + 1,
        post.quests().subrange(0, pre.quests().len() as int) == pre.quests(),
        persisted_as(q, id, post.quests().last()),
    ensures
        post.has_id(id),
        persisted_as(q, id, post.row_with(id)),
{
    let t = post.quests();
    let n = t.len() - 1;
    assert(t[n].id == id);
    assert(seq_has_id(t, id));
    let m = seq_idx_of(t, id);
    assert(0 <= m < t.len() && t[m].id == id);
    lemma_id_unique(t, n, m);
}

/// The cascade-equivalence law: on one snapshot of the table, the rows
/// whose status a cascading status overwrite rooted at `root` touches
/// are exactly the rows that a cascading delete rooted at `root`
/// removes — both are the rows whose id lies in `subtree_ids`.
pub proof fn lemma_cascade_equivalence(s: Seq<Quest>, root: i64)
    requires
        wf_quest_seq(s),
    ensures
        forall|i: int|
            0 <= i < s.len() ==> (subtree_ids(s, root).contains((#[trigger] s[i]).id) <==> !s.filter(
                outside_subtree(s, root),
            ).contains(s[i])),
{
    let pred = outside_subtree(s, root);
    assert forall|i: int| 0 <= i < s.len() implies (subtree_ids(s, root).contains(s[i].id)
        <==> !s.filter(pred).contains(s[i])) by {
        lemma_outside_subtree_applied(s, root, s[i]);
        if subtree_ids(s, root).contains(s[i].id) {
            if s.filter(pred).contains(s[i]) {
                lemma_filter_member(s, pred, s[i]);
                assert(false);
            }
        } else {
            s.lemma_filter_contains(pred, i);
        }
    }
}

/// Checks the table invariant on rows read back from persistence:
/// positive, strictly ascending ids, and every parent reference pointing
/// at an earlier row.
fn rows_ordered(rows: &Vec<Quest>) -> (r: bool)
    ensures
        r == ({
            &&& wf_quest_seq(rows@)
            &&& forall|i: int| 0 <= i < rows@.len() ==> 1 <= (#[trigger] rows@[i]).id
        }),
{
    let n = rows.len();
    for i in 0..n
        invariant
            n == rows@.len(),
            forall|j: int| 0 <= j < i ==> 1 <= (#[trigger] rows@[j]).id,
            adjacent_sorted(rows@, i as int),
            forall|j: int|
                0 <= j < i && (#[trigger] rows@[j].chain_id) is Some ==> exists|k: int|
                    0 <= k < j && #[trigger] rows@[k].id == rows@[j].chain_id->0,
    {
        if rows[i].id < 1 {
            proof {
                assert(!(1 <= rows@[i as int].id));
            }
            return false;
        }
        if i > 0 && rows[i - 1].id >= rows[i].id {
            proof {
                assert(!ids_sorted(rows@)) by {
                    if ids_sorted(rows@) {
                        assert(rows@[i - 1].id < rows@[i as int].id);
                    }
                }
            }
            return false;
        }
        proof {
            assert(adjacent_sorted(rows@, i + 1));
        }
        if let Some(p) = rows[i].chain_id {
            let mut found = false;
            for j in 0..i
                invariant
                    n == rows@.len(),
                    i < n,
                    rows@[i as int].chain_id == Some(p),
                    found <==> exists|k: int|
                        0 <= k < j && #[trigger] rows@[k].id == rows@[i as int].chain_id->0,
            {
                if !found && rows[j].id == p {
                    found = true;
                    proof {
                        assert(rows@[j as int].id == rows@[i as int].chain_id->0);
                    }
                }
            }
            if !found {
                proof {
                    assert(!parents_before(rows@)) by {
                        if parents_before(rows@) {
                            assert(rows@[i as int].chain_id is Some);
                        }
                    }
                }
                return false;
            }
        }
    }
    proof {
        lemma_sorted_pairs(rows@);
    }
    true
}

/// Linear membership test on an id list.
fn vec_contains_i64(v: &Vec<i64>, x: i64) -> (r: bool)
    ensures
        r == v@.contains(x),
{
    let n = v.len();
    for i in 0..n
        invariant
            n == v@.len(),
            forall|j: int| 0 <= j < i ==> v@[j] != x,
    {
        if v[i] == x {
            return true;
        }
    }
    false
}

/// Replacing a row without changing its id, and with a parent reference
/// that points at an existing row of smaller id, preserves the table
/// invariant.
proof fn lemma_replace_preserves_wf(s: Seq<Quest>, t: Seq<Quest>, i: int)
    requires
        wf_quest_seq(s),
        0 <= i < s.len(),
        t.len() == s.len(),
        t[i].id == s[i].id,
        forall|j: int| 0 <= j < s.len() && j != i ==> t[j] == s[j],
        t[i].chain_id matches Some(p) ==> seq_has_id(s, p) && p < s[i].id,
    ensures
        wf_quest_seq(t),
{
    assert forall|a: int, b: int| #![trigger t[a].id, t[b].id] 0 <= a < b < t.len() implies t[a].id
        < t[b].id by {
        assert(t[a].id == s[a].id && t[b].id == s[b].id);
        assert(s[a].id < s[b].id);
    }
    assert forall|a: int| 0 <= a < t.len() && (#[trigger] t[a].chain_id) is Some implies exists|
        b: int,
    | 0 <= b < a && #[trigger] t[b].id == t[a].chain_id->0 by {
        if a == i {
            let p = t[a].chain_id->0;
            let b = seq_idx_of(s, p);
            assert(0 <= b < s.len() && s[b].id == p);
            if b > a {
                assert(s[a].id < s[b].id);
            }
            assert(b != a && b < a);
            assert(t[b].id == t[a].chain_id->0);
        } else {
            assert(s[a].chain_id is Some);
            let b = choose|b: int| 0 <= b < a && #[trigger] s[b].id == s[a].chain_id->0;
            if b == i {
                assert(t[b].id == s[b].id);
            }
            assert(t[b].id == t[a].chain_id->0);
        }
    }
}

/// Stores quest rows and keeps the table invariant; ids are assigned by
/// the store, unique and monotonically increasing, and are never reused.
pub struct QuestLog {
    quests: Vec<Quest>,
    next_id: i64,
}

impl QuestLog {
    /// The rows of the table, in ascending id order.
    pub closed spec fn quests(self) -> Seq<Quest> {
        self.quests@
    }

    /// The id the next added quest will receive.
    pub closed spec fn spec_next_id(self) -> i64 {
        self.next_id
    }

    /// The table invariant: ascending ids starting at 1, parents before
    /// children, and every id below the next to be assigned.
    pub open spec fn wf(self) -> bool {
        &&& wf_quest_seq(self.quests())
        &&& 1 <= self.spec_next_id()
        &&& forall|i: int|
            0 <= i < self.quests().len() ==> 1 <= (#[trigger] self.quests()[i]).id
                < self.spec_next_id()
    }

    /// True iff a row with the id exists.
    pub open spec fn has_id(self, id: i64) -> bool {
        seq_has_id(self.quests(), id)
    }

    /// The row carrying the id (meaningful when `has_id`).
    pub open spec fn row_with(self, id: i64) -> Quest {
        self.quests()[seq_idx_of(self.quests(), id)]
    }

    /// Constructs an empty quest store.
    pub fn new() -> (r: QuestLog)
        ensures
            r.wf(),
            r.quests() =~= Seq::<Quest>::empty(),
            r.spec_next_id() == 1,
    {
        QuestLog { quests: Vec::new(), next_id: 1 }
    }

    /// The number of rows.
    pub fn len(&self) -> (r: usize)
        ensures
            r == self.quests().len(),
    {
        self.quests.len()
    }

    /// The id the next added quest will receive.
    pub fn next_id(&self) -> (r: i64)
        ensures
            r == self.spec_next_id(),
    {
        self.next_id
    }

    /// Finds the position of the row carrying the id.
    fn index_of(&self, id: i64) -> (r: Option<usize>)
        ensures
            match r {
                Some(i) => i < self.quests().len() && self.quests()[i as int].id == id,
                None => !self.has_id(id),
            },
    {
        let n = self.quests.len();
        for i in 0..n
            invariant
                n == self.quests().len(),
                forall|j: int| 0 <= j < i ==> (#[trigger] self.quests()[j]).id != id,
        {
            if self.quests[i].id == id {
                return Some(i);
            }
        }
        None
    }

    /// Rebuilds a store from rows read back from persistence, validating
    /// the table invariant: ids positive and strictly ascending, every
    /// parent reference pointing at an earlier row. Fails with
    /// `ConstraintViolation` iff the rows violate it (the persisted data
    /// is inconsistent); nothing else is rejected.
    pub fn from_rows(rows: Vec<Quest>) -> (r: Result<QuestLog, QuestError>)
        ensures
            match r {
                Ok(log) => {
                    &&& log.wf()
                    &&& log.quests() == rows@
                    &&& log.spec_next_id() == (if rows@.len() == 0 {
                        1int
                    } else {
                        rows@.last().id + 1
                    })
                },
                Err(e) => e == QuestError::ConstraintViolation,
            },
            r is Ok <==> {
                &&& wf_quest_seq(rows@)
                &&& forall|i: int| 0 <= i < rows@.len() ==> 1 <= (#[trigger] rows@[i]).id
                &&& (rows@.len() == 0 || rows@.last().id < i64::MAX)
            },
    {
        if !rows_ordered(&rows) {
            return Err(QuestError::ConstraintViolation);
        }
        let n = rows.len();
        let next_id = if n == 0 {
            1
        } else {
            let last = rows[n - 1].id;
            if last == i64::MAX {
                return Err(QuestError::ConstraintViolation);
            }
            last + 1
        };
        proof {
            let s = rows@;
            assert forall|i: int| 0 <= i < s.len() implies 1 <= (#[trigger] s[i]).id < next_id by {
                if i < s.len() - 1 {
                    assert(s[i].id < s[s.len() - 1].id);
                }
            }
        }
        Ok(QuestLog { quests: rows, next_id })
    }

    /// Adds a new quest; the store assigns and returns its id. Fails with
    /// `ConstraintViolation` iff the quest's `chain_id` references an id
    /// that no row carries. The quest's own placeholder id is ignored.
    pub fn add_quest(&mut self, quest: &Quest) -> (r: Result<i64, QuestError>)
        requires
            old(self).wf(),
            old(self).spec_next_id() < i64::MAX,
        ensures
            final(self).wf(),
            match quest.chain_id {
                Some(p) if !old(self).has_id(p) => {
                    &&& r == Result::<i64, QuestError>::Err(QuestError::ConstraintViolation)
                    &&& *final(self) == *old(self)
                },
                _ => {
                    &&& r == Result::<i64, QuestError>::Ok(old(self).spec_next_id())
                    &&& final(self).quests().len() == old(self).quests().len() + 1
                    &&& final(self).quests().subrange(0, old(self).quests().len() as int)
                        == old(self).quests()
                    &&& persisted_as(
                        *quest,
                        old(self).spec_next_id(),
                        final(self).quests().last(),
                    )
                    &&& final(self).spec_next_id() == old(self).spec_next_id() + 1
                },
            },
    {
        if let Some(p) = quest.chain_id {
            if self.index_of(p).is_none() {
                return Err(QuestError::ConstraintViolation);
            }
        }
        let id = self.next_id;
        let row = Quest {
            id,
            chain_id: quest.chain_id,
            objective: quest.objective.clone(),
            status: quest.status,
            tier: quest.tier,
        };
        self.quests.push(row);
        self.next_id = self.next_id + 1;
        proof {
            let s = old(self).quests();
            let t = self.quests();
            assert(t =~= s.push(t.last()));
            assert(t.subrange(0, s.len() as int) =~= s);
            assert forall|i: int|
                0 <= i < t.len() && (#[trigger] t[i]).chain_id is Some implies exists|j: int|
                0 <= j < i && (#[trigger] t[j]).id == t[i].chain_id->0 by {
                if i < s.len() {
                    assert(s[i].chain_id is Some);
                    let j = choose|j: int| 0 <= j < i && (#[trigger] s[j]).id == s[i].chain_id->0;
                    assert(t[j].id == t[i].chain_id->0);
                } else {
                    let p = t[i].chain_id->0;
                    let j = seq_idx_of(s, p);
                    assert(seq_has_id(s, p));
                    assert(0 <= j < s.len() && s[j].id == p);
                    assert(t[j].id == t[i].chain_id->0);
                }
            }
        }
        Ok(id)
    }

    /// Gets the quest with the given id; fails with `NotFound` iff no row
    /// carries it.
    pub fn get_quest(&self, id: i64) -> (r: Result<Quest, QuestError>)
        requires
            self.wf(),
        ensures
            match r {
                Ok(q) => self.has_id(id) && q.same_record(self.row_with(id)),
                Err(e) => !self.has_id(id) && e == QuestError::NotFound,
            },
    {
        match self.index_of(id) {
            Some(i) => {
                let q = self.quests[i].duplicate();
                proof {
                    lemma_id_unique(self.quests(), i as int, seq_idx_of(self.quests(), id));
                }
                Ok(q)
            },
            None => Err(QuestError::NotFound),
        }
    }

    /// All quests, ordered ascending by id. The ordering is load-bearing:
    /// the forest reconstructor depends on parents appearing before
    /// children, which the result guarantees.
    pub fn get_all_quests(&self) -> (r: Vec<Quest>)
        requires
            self.wf(),
        ensures
            r@.len() == self.quests().len(),
            forall|i: int|
                0 <= i < r@.len() ==> (#[trigger] r@[i]).same_record(self.quests()[i]),
            wf_quest_seq(r@),
    {
        let n = self.quests.len();
        let mut out: Vec<Quest> = Vec::new();
        for i in 0..n
            invariant
                self.wf(),
                n == self.quests().len(),
                out@.len() == i,
                forall|j: int|
                    0 <= j < i ==> (#[trigger] out@[j]).same_record(self.quests()[j]),
        {
            out.push(self.quests[i].duplicate());
        }
        proof {
            let s = self.quests();
            assert forall|i: int|
                0 <= i < out@.len() && (#[trigger] out@[i]).chain_id is Some implies exists|j: int|
                0 <= j < i && (#[trigger] out@[j]).id == out@[i].chain_id->0 by {
                assert(s[i].chain_id is Some);
                let j = choose|j: int| 0 <= j < i && (#[trigger] s[j]).id == s[i].chain_id->0;
                assert(out@[j].id == out@[i].chain_id->0);
            }
        }
        out
    }

    /// Overwrites the `chain_id`, `objective`, `status` and `tier` of the
    /// row whose id equals `quest.id`. Fails with `NotFound` iff the id has
    /// no row, and with `ConstraintViolation` iff the new `chain_id` does
    /// not reference an existing quest of smaller id (which would break the
    /// parent-before-child order of the table).
    pub fn update_quest(&mut self, quest: &Quest) -> (r: Result<(), QuestError>)
        requires
            old(self).wf(),
        ensures
            final(self).wf(),
            final(self).spec_next_id() == old(self).spec_next_id(),
            if !old(self).has_id(quest.id) {
                &&& r == Result::<(), QuestError>::Err(QuestError::NotFound)
                &&& *final(self) == *old(self)
            } else if (quest.chain_id matches Some(p) && !(old(self).has_id(p) && p < quest.id)) {
                &&& r == Result::<(), QuestError>::Err(QuestError::ConstraintViolation)
                &&& *final(self) == *old(self)
            } else {
                &&& r == Result::<(), QuestError>::Ok(())
                &&& final(self).quests().len() == old(self).quests().len()
                &&& final(self).quests()[seq_idx_of(old(self).quests(), quest.id)].same_record(
                    *quest,
                )
                &&& forall|i: int|
                    0 <= i < old(self).quests().len() && i != seq_idx_of(
                        old(self).quests(),
                        quest.id,
                    ) ==> final(self).quests()[i] == (#[trigger] old(self).quests()[i])
            },
    {
        let i = match self.index_of(quest.id) {
            Some(i) => i,
            None => {
                return Err(QuestError::NotFound);
            },
        };
        proof {
            lemma_id_unique(self.quests(), i as int, seq_idx_of(self.quests(), quest.id));
        }
        if let Some(p) = quest.chain_id {
            if !(p < quest.id) || self.index_of(p).is_none() {
                return Err(QuestError::ConstraintViolation);
            }
        }
        let row = Quest {
            id: quest.id,
            chain_id: quest.chain_id,
            objective: quest.objective.clone(),
            status: quest.status,
            tier: quest.tier,
        };
        self.quests.set(i, row);
        proof {
            lemma_replace_preserves_wf(old(self).quests(), self.quests(), i as int);
        }
        Ok(())
    }

    /// Collects, into an id list, the quest `root` and every quest
    /// transitively reachable from it via `chain_id` edges.
    fn collect_subtree(&self, root: i64) -> (ids: Vec<i64>)
        requires
            self.wf(),
        ensures
            forall|x: i64| #[trigger]
                ids@.contains(x) <==> subtree_ids(self.quests(), root).contains(x),
    {
        let mut ids: Vec<i64> = Vec::new();
        ids.push(root);
        proof {
            lemma_push_contains(Seq::<i64>::empty(), root);
            assert(self.quests().take(0).len() == 0);
            assert(subtree_ids(self.quests().take(0), root) == Set::<i64>::empty().insert(root));
            assert forall|x: i64| #[trigger]
                ids@.contains(x) <==> subtree_ids(self.quests().take(0), root).contains(x) by {
                assert(Set::<i64>::empty().insert(root).contains(x) <==> x == root);
            }
        }
        let n = self.quests.len();
        for i in 0..n
            invariant
                self.wf(),
                n == self.quests().len(),
                forall|x: i64| #[trigger]
                    ids@.contains(x) <==> subtree_ids(
                        self.quests().take(i as int),
                        root,
                    ).contains(x),
        {
            let ghost pre = self.quests().take(i as int);
            let ghost ids0 = ids@;
            let q = &self.quests[i];
            if let Some(p) = q.chain_id {
                if vec_contains_i64(&ids, p) {
                    let id = q.id;
                    ids.push(id);
                    proof {
                        lemma_push_contains(ids0, id);
                    }
                }
            }
            proof {
                let cur = self.quests().take(i + 1);
                assert(cur.drop_last() =~= pre);
                assert(cur.last() == self.quests()[i as int]);
                assert(subtree_ids(cur, root) == subtree_step(
                    subtree_ids(pre, root),
                    self.quests()[i as int],
                ));
            }
        }
        proof {
            assert(self.quests().take(n as int) =~= self.quests());
        }
        ids
    }

    /// Deletes the quest chain rooted at `chain_id` from the store: the
    /// quest with that id and every quest transitively reachable from it,
    /// as one indivisible mutation. Safe no-op when the id has no row.
    pub fn delete_chain(&mut self, chain_id: i64)
        requires
            old(self).wf(),
        ensures
            final(self).wf(),
            final(self).spec_next_id() == old(self).spec_next_id(),
            final(self).quests() == old(self).quests().filter(
                outside_subtree(old(self).quests(), chain_id),
            ),
    {
        let ghost s0 = self.quests();
        let ghost pred = outside_subtree(s0, chain_id);
        let ids = self.collect_subtree(chain_id);
        let mut taken: Vec<Quest> = Vec::new();
        core::mem::swap(&mut self.quests, &mut taken);
        let mut kept: Vec<Quest> = Vec::new();
        let ghost mut k: int = 0;
        while taken.len() > 0
            invariant
                pred == outside_subtree(s0, chain_id),
                0 <= k <= s0.len(),
                taken@ =~= s0.subrange(k, s0.len() as int),
                kept@ == s0.take(k).filter(pred),
                forall|x: i64| #[trigger] ids@.contains(x) <==> subtree_ids(s0, chain_id).contains(
                    x,
                ),
            decreases taken@.len(),
        {
            let ghost kept0 = kept@;
            let q = taken.remove(0);
            assert(q == s0[k]);
            let keep = !vec_contains_i64(&ids, q.id);
            proof {
                assert(keep == !subtree_ids(s0, chain_id).contains(s0[k].id));
                lemma_outside_subtree_applied(s0, chain_id, s0[k]);
            }
            if keep {
                kept.push(q);
            }
            proof {
                lemma_filter_push(s0.take(k), pred, s0[k]);
                assert(s0.take(k + 1) =~= s0.take(k) + seq![s0[k]]);
                if pred(s0[k]) {
                    assert(kept@ =~= kept0 + seq![s0[k]]);
                } else {
                    assert(s0.take(k + 1).filter(pred) =~= s0.take(k).filter(pred));
                }
                k = k + 1;
            }
        }
        self.quests = kept;
        proof {
            assert(s0.take(s0.len() as int) =~= s0);
            lemma_subtree_filter_wf(s0, chain_id);
            let f = self.quests();
            assert forall|i: int| 0 <= i < f.len() implies 1 <= (#[trigger] f[i]).id < self.next_id
                by {
                lemma_filter_member(s0, pred, f[i]);
                let j = choose|j: int| 0 <= j < s0.len() && s0[j] == f[i];
                assert(1 <= s0[j].id < self.next_id);
            }
        }
    }

    /// Sets `status` on the quest `chain_id` and on every quest
    /// transitively reachable from it, as one indivisible mutation; all
    /// other rows are untouched. Safe no-op when the id has no row.
    #[verifier::rlimit(30)]
    pub fn update_chain_status(&mut self, chain_id: i64, status: Status)
        requires
            old(self).wf(),
        ensures
            final(self).wf(),
            final(self).spec_next_id() == old(self).spec_next_id(),
            final(self).quests().len() == old(self).quests().len(),
            forall|i: int|
                0 <= i < old(self).quests().len() ==> final(self).quests()[i] == (if subtree_ids(
                    old(self).quests(),
                    chain_id,
                ).contains((#[trigger] old(self).quests()[i]).id) {
                    Quest { status, ..old(self).quests()[i] }
                } else {
                    old(self).quests()[i]
                }),
    {
        let ghost s0 = self.quests();
        let ids = self.collect_subtree(chain_id);
        let n = self.quests.len();
        for i in 0..n
            invariant
                n == s0.len(),
                self.quests().len() == s0.len(),
                self.spec_next_id() == old(self).spec_next_id(),
                s0 == old(self).quests(),
                forall|x: i64| #[trigger] ids@.contains(x) <==> subtree_ids(s0, chain_id).contains(
                    x,
                ),
                forall|j: int|
                    0 <= j < i ==> self.quests()[j] == (if subtree_ids(s0, chain_id).contains(
                        (#[trigger] s0[j]).id,
                    ) {
                        Quest { status, ..s0[j] }
                    } else {
                        s0[j]
                    }),
                forall|j: int| i <= j < n ==> #[trigger] self.quests()[j] == s0[j],
        {
            let ghost before = self.quests();
            let hit = vec_contains_i64(&ids, self.quests[i].id);
            if hit {
                let mut q = self.quests.remove(i);
                q.status = status;
                self.quests.insert(i, q);
                proof {
                    assert(self.quests() =~= before.update(
                        i as int,
                        (Quest { status, ..s0[i as int] }),
                    ));
                }
            }
        }
        proof {
            lemma_same_shape_wf(s0, self.quests());
            assert forall|i: int|
                0 <= i < self.quests().len() implies 1 <= (#[trigger] self.quests()[i]).id
                < self.spec_next_id() by {
                assert(self.quests()[i].id == s0[i].id);
            }
        }
    }

    /// Accepts the quest: sets its status (alone, no cascade) to Ongoing.
    /// Fails with `NotFound` iff the id has no row. Accepting a quest that
    /// is already Ongoing changes no row and reports the no-op.
    pub fn accept_quest(&mut self, id: i64) -> (r: Result<TransitionOutcome, QuestError>)
        requires
            old(self).wf(),
        ensures
            final(self).wf(),
            final(self).spec_next_id() == old(self).spec_next_id(),
            match r {
                Ok(TransitionOutcome::NoOp) => {
                    &&& old(self).has_id(id)
                    &&& old(self).row_with(id).status == Status::Ongoing
                    &&& *final(self) == *old(self)
                },
                Ok(TransitionOutcome::Applied) => {
                    &&& old(self).has_id(id)
                    &&& old(self).row_with(id).status != Status::Ongoing
                    &&& final(self).quests() == old(self).quests().update(
                        seq_idx_of(old(self).quests(), id),
                        (Quest { status: Status::Ongoing, ..old(self).row_with(id) }),
                    )
                },
                Err(e) => {
                    &&& e == QuestError::NotFound
                    &&& !old(self).has_id(id)
                    &&& *final(self) == *old(self)
                },
            },
    {
        let i = match self.index_of(id) {
            Some(i) => i,
            None => {
                return Err(QuestError::NotFound);
            },
        };
        proof {
            lemma_id_unique(self.quests(), i as int, seq_idx_of(self.quests(), id));
        }
        if self.quests[i].status == Status::Ongoing {
            return Ok(TransitionOutcome::NoOp);
        }
        let ghost s0 = self.quests();
        let mut q = self.quests.remove(i);
        q.status = Status::Ongoing;
        self.quests.insert(i, q);
        proof {
            assert(self.quests() =~= s0.update(
                i as int,
                (Quest { status: Status::Ongoing, ..s0[i as int] }),
            ));
            lemma_same_shape_wf(s0, self.quests());
            assert forall|j: int|
                0 <= j < self.quests().len() implies 1 <= (#[trigger] self.quests()[j]).id
                < self.spec_next_id() by {
                assert(self.quests()[j].id == s0[j].id);
            }
        }
        Ok(TransitionOutcome::Applied)
    }

    /// Checks whether the quest is a main quest: true iff at least one
    /// row references `id` as its parent. Used to decide whether an action
    /// cascades over a whole chain and therefore needs confirmation.
    pub fn is_main_quest(&self, id: i64) -> (r: bool)
        ensures
            r == seq_has_child(self.quests(), id),
    {
        let n = self.quests.len();
        for i in 0..n
            invariant
                n == self.quests().len(),
                forall|j: int| 0 <= j < i ==> (#[trigger] self.quests()[j]).chain_id != Some(id),
        {
            let q = &self.quests[i];
            if let Some(p) = q.chain_id {
                if p == id {
                    return true;
                }
            }
        }
        false
    }
}

} // verus!
