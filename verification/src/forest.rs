//! The forest reconstructor: turns the ordered quest list of the store
//! into a forest of nested chains, each quest attached under the parent
//! that its `chain_id` references.
//!
//! The builder walks the list backwards. Because parents always precede
//! their children, a quest's whole subtree is already built when the
//! quest itself is reached, so every node is assembled exactly once and
//! no node is ever copied or reconciled afterwards.

use vstd::prelude::*;
use vstd::multiset::Multiset;
use vstd::seq_lib::lemma_multiset_commutative;

use crate::quest::{Chain, Quest, Status, Tier};
use crate::store::{wf_quest_seq, QuestLog};

verus! {

broadcast use vstd::seq_lib::group_to_multiset_ensures;

/// An empty sequence carries nothing.
proof fn lemma_to_multiset_empty<A>()
    ensures
        Seq::<A>::empty().to_multiset() == Multiset::<A>::empty(),
{
    let e = Seq::<A>::empty();
    assert forall|y: A| #[trigger] e.to_multiset().count(y) == 0 by {
        assert(!e.contains(y));
    }
    assert(e.to_multiset() =~= Multiset::<A>::empty());
}

/// A sequence of one element carries exactly that element, once.
proof fn lemma_to_multiset_singleton<A>(x: A)
    ensures
        seq![x].to_multiset() == Multiset::<A>::empty().insert(x),
{
    let e = Seq::<A>::empty();
    lemma_to_multiset_empty::<A>();
    assert(seq![x] =~= e.push(x));
    assert(e.push(x).to_multiset() =~= e.to_multiset().insert(x));
}

/// The record content of a quest: what `same_record` compares.
pub open spec fn record_of(q: Quest) -> (i64, Option<i64>, Seq<char>, Status, Tier) {
    (q.id, q.chain_id, q.objective@, q.status, q.tier)
}

/// The record contents of a quest sequence.
pub open spec fn records_of(qs: Seq<Quest>) -> Seq<(i64, Option<i64>, Seq<char>, Status, Tier)> {
    qs.map_values(|q: Quest| record_of(q))
}

/// The quests of a chain, flattened in pre-order: the main quest first,
/// then each secondary chain in turn.
pub open spec fn flatten_chain(c: Chain) -> Seq<Quest>
    decreases c,
{
    seq![c.main] + flatten_chains(c.chains@)
}

/// The quests of a sequence of chains, flattened in pre-order.
pub open spec fn flatten_chains(cs: Seq<Chain>) -> Seq<Quest>
    decreases cs,
{
    if cs.len() == 0 {
        Seq::empty()
    } else {
        flatten_chain(cs[0]) + flatten_chains(cs.drop_first())
    }
}

/// Every node of the chain holds its children under the right parent:
/// each secondary chain's main quest references this chain's main quest
/// through its `chain_id`, and the secondary chains' ids are strictly
/// ascending.
pub open spec fn chain_linked(c: Chain) -> bool
    decreases c,
{
    &&& forall|k: int|
        0 <= k < c.chains@.len() ==> (#[trigger] c.chains@[k]).main.chain_id == Some(c.main.id)
    &&& forall|k1: int, k2: int|
        #![trigger c.chains@[k1].main.id, c.chains@[k2].main.id]
        0 <= k1 < k2 < c.chains@.len() ==> c.chains@[k1].main.id < c.chains@[k2].main.id
    &&& forall|k: int| 0 <= k < c.chains@.len() ==> chain_linked(#[trigger] c.chains@[k])
}

/// Every root chain is a quest without a parent, the roots' ids are
/// strictly ascending, and every nested chain sits under the parent its
/// `chain_id` references.
pub open spec fn forest_linked(cs: Seq<Chain>) -> bool {
    &&& forall|k: int| 0 <= k < cs.len() ==> (#[trigger] cs[k]).main.chain_id is None
    &&& forall|k1: int, k2: int|
        #![trigger cs[k1].main.id, cs[k2].main.id]
        0 <= k1 < k2 < cs.len() ==> cs[k1].main.id < cs[k2].main.id
    &&& forall|k: int| 0 <= k < cs.len() ==> chain_linked(#[trigger] cs[k])
}

/// Flattening distributes over concatenation of chain lists.
proof fn lemma_flatten_concat(a: Seq<Chain>, b: Seq<Chain>)
    ensures
        flatten_chains(a + b) == flatten_chains(a) + flatten_chains(b),
    decreases a.len(),
{
    if a.len() == 0 {
        assert(a + b =~= b);
        assert(flatten_chains(a) + flatten_chains(b) =~= flatten_chains(b));
    } else {
        assert((a + b).drop_first() =~= a.drop_first() + b);
        assert((a + b)[0] == a[0]);
        lemma_flatten_concat(a.drop_first(), b);
        assert(flatten_chain(a[0]) + (flatten_chains(a.drop_first()) + flatten_chains(b))
            =~= (flatten_chain(a[0]) + flatten_chains(a.drop_first())) + flatten_chains(b));
    }
}

/// Flattening a one-chain list yields that chain's flattening.
proof fn lemma_flatten_singleton(c: Chain)
    ensures
        flatten_chains(seq![c]) == flatten_chain(c),
{
    assert(seq![c][0] == c);
    assert(seq![c].drop_first() =~= Seq::<Chain>::empty());
    assert(flatten_chains(seq![c]) == flatten_chain(c) + flatten_chains(Seq::<Chain>::empty()));
    assert(flatten_chain(c) + Seq::<Quest>::empty() =~= flatten_chain(c));
}

/// Taking record contents distributes over concatenation.
proof fn lemma_records_concat(a: Seq<Quest>, b: Seq<Quest>)
    ensures
        records_of(a + b) == records_of(a) + records_of(b),
{
    assert(records_of(a + b) =~= records_of(a) + records_of(b));
}

/// The quests of a chain list, as a multiset.
pub open spec fn chains_mset(cs: Seq<Chain>) -> Multiset<Quest> {
    flatten_chains(cs).to_multiset()
}

/// The record contents of a chain list, as a multiset.
pub open spec fn chains_rec_mset(cs: Seq<Chain>) -> Multiset<
    (i64, Option<i64>, Seq<char>, Status, Tier),
> {
    records_of(flatten_chains(cs)).to_multiset()
}

/// An empty chain list flattens to nothing.
proof fn lemma_mset_empty()
    ensures
        chains_mset(Seq::<Chain>::empty()) == Multiset::<Quest>::empty(),
        chains_rec_mset(Seq::<Chain>::empty()) == Multiset::<
            (i64, Option<i64>, Seq<char>, Status, Tier),
        >::empty(),
{
    assert(flatten_chains(Seq::<Chain>::empty()) =~= Seq::<Quest>::empty());
    assert(records_of(Seq::<Quest>::empty()) =~= Seq::<
        (i64, Option<i64>, Seq<char>, Status, Tier),
    >::empty());
    lemma_to_multiset_empty::<Quest>();
    lemma_to_multiset_empty::<(i64, Option<i64>, Seq<char>, Status, Tier)>();
}

/// Taking the front chain off a list splits its multisets.
proof fn lemma_mset_pop_front(cs: Seq<Chain>)
    requires
        cs.len() > 0,
    ensures
        chains_mset(cs) == flatten_chain(cs[0]).to_multiset().add(chains_mset(cs.drop_first())),
        chains_rec_mset(cs) == records_of(flatten_chain(cs[0])).to_multiset().add(
            chains_rec_mset(cs.drop_first()),
        ),
{
    lemma_multiset_commutative(flatten_chain(cs[0]), flatten_chains(cs.drop_first()));
    lemma_records_concat(flatten_chain(cs[0]), flatten_chains(cs.drop_first()));
    lemma_multiset_commutative(
        records_of(flatten_chain(cs[0])),
        records_of(flatten_chains(cs.drop_first())),
    );
}

/// Appending a chain to a list adds its multisets.
proof fn lemma_mset_push(cs: Seq<Chain>, c: Chain)
    ensures
        chains_mset(cs.push(c)) == chains_mset(cs).add(flatten_chain(c).to_multiset()),
        chains_rec_mset(cs.push(c)) == chains_rec_mset(cs).add(
            records_of(flatten_chain(c)).to_multiset(),
        ),
{
    assert(cs.push(c) =~= cs + seq![c]);
    lemma_flatten_concat(cs, seq![c]);
    lemma_flatten_singleton(c);
    lemma_multiset_commutative(flatten_chains(cs), flatten_chain(c));
    lemma_records_concat(flatten_chains(cs), flatten_chain(c));
    lemma_multiset_commutative(records_of(flatten_chains(cs)), records_of(flatten_chain(c)));
}

/// A chain's own multisets: its main quest plus its secondary chains'.
proof fn lemma_mset_chain(c: Chain)
    ensures
        flatten_chain(c).to_multiset() == Multiset::<Quest>::empty().insert(c.main).add(
            chains_mset(c.chains@),
        ),
        records_of(flatten_chain(c)).to_multiset() == Multiset::<
            (i64, Option<i64>, Seq<char>, Status, Tier),
        >::empty().insert(record_of(c.main)).add(chains_rec_mset(c.chains@)),
{
    lemma_multiset_commutative(seq![c.main], flatten_chains(c.chains@));
    lemma_to_multiset_singleton(c.main);
    lemma_records_concat(seq![c.main], flatten_chains(c.chains@));
    lemma_multiset_commutative(
        records_of(seq![c.main]),
        records_of(flatten_chains(c.chains@)),
    );
    assert(records_of(seq![c.main]) =~= seq![record_of(c.main)]);
    lemma_to_multiset_singleton(record_of(c.main));
}

/// The well-formedness of the builder's pending list at position `i`:
/// every pending chain is internally linked, the pending roots' ids are
/// strictly ascending and larger than every unprocessed id, and each
/// pending root either has no parent or references one of the first `i`
/// rows (its parent has not been processed yet).
pub open spec fn pending_wf(s: Seq<Quest>, i: int, cs: Seq<Chain>) -> bool {
    &&& forall|k: int| 0 <= k < cs.len() ==> chain_linked(#[trigger] cs[k])
    &&& forall|k1: int, k2: int|
        #![trigger cs[k1].main.id, cs[k2].main.id]
        0 <= k1 < k2 < cs.len() ==> cs[k1].main.id < cs[k2].main.id
    &&& forall|k: int|
        0 <= k < cs.len() ==> ((#[trigger] cs[k].main.chain_id) is Some ==> exists|j: int|
            0 <= j < i && #[trigger] s[j].id == cs[k].main.chain_id->0)
    &&& forall|k: int| 0 <= k < cs.len() && 0 < i ==> (#[trigger] cs[k].main.id) > s[i - 1].id
}

/// Reconstructs the forest of chains from the ordered quest list.
///
/// This states the forest-completeness law: the pre-order flattening of
/// the result is a permutation of the input (each quest appears exactly
/// once), and every nested chain sits under exactly the quest that its
/// `chain_id` references, with roots and siblings in ascending id order.
pub fn build_forest(quests: Vec<Quest>) -> (r: Vec<Chain>)
    requires
        wf_quest_seq(quests@),
    ensures
        forest_linked(r@),
        flatten_chains(r@).to_multiset() == quests@.to_multiset(),
        records_of(flatten_chains(r@)).to_multiset() == records_of(quests@).to_multiset(),
{
    let ghost s = quests@;
    let n = quests.len();
    let mut quests = quests;
    let mut pending: Vec<Chain> = Vec::new();
    proof {
        lemma_mset_empty();
        lemma_to_multiset_empty::<Quest>();
        lemma_to_multiset_empty::<(i64, Option<i64>, Seq<char>, Status, Tier)>();
        assert(s.subrange(n as int, n as int) =~= Seq::<Quest>::empty());
        assert(records_of(Seq::<Quest>::empty()) =~= Seq::<
            (i64, Option<i64>, Seq<char>, Status, Tier),
        >::empty());
    }
    while quests.len() > 0
        invariant
            wf_quest_seq(s),
            n == s.len(),
            quests@.len() <= n,
            quests@ == s.take(quests@.len() as int),
            pending_wf(s, quests@.len() as int, pending@),
            chains_mset(pending@) == s.subrange(quests@.len() as int, n as int).to_multiset(),
            chains_rec_mset(pending@) == records_of(
                s.subrange(quests@.len() as int, n as int),
            ).to_multiset(),
        decreases quests@.len(),
    {
        let ghost i = quests@.len() - 1;
        let ghost pending0 = pending@;
        let q = quests.pop().unwrap();
        proof {
            assert(s.take(i + 1).drop_last() =~= s.take(i));
            assert(q == s.take(i + 1).last());
            assert(q == s[i]);
        }
        let q_id = q.id;
        let mut node = Chain::new(q);
        let mut rest: Vec<Chain> = Vec::new();
        proof {
            lemma_mset_empty();
            assert(node.chains@ == Seq::<Chain>::empty());
            assert(Multiset::<Quest>::empty().add(Multiset::<Quest>::empty()).add(
                chains_mset(pending0),
            ) =~= chains_mset(pending0));
            assert(Multiset::<(i64, Option<i64>, Seq<char>, Status, Tier)>::empty().add(
                Multiset::<(i64, Option<i64>, Seq<char>, Status, Tier)>::empty(),
            ).add(chains_rec_mset(pending0)) =~= chains_rec_mset(pending0));
        }
        while pending.len() > 0
            invariant
                wf_quest_seq(s),
                0 <= i < s.len(),
                q_id == s[i].id,
                node.main == s[i],
                pending_wf(s, i + 1, pending0),
                // the children collected so far
                forall|k: int| 0 <= k < node.chains@.len() ==> chain_linked(#[trigger] node.chains@[k]),
                forall|k: int|
                    0 <= k < node.chains@.len() ==> (#[trigger] node.chains@[k].main.chain_id)
                        == Some(q_id),
                forall|k1: int, k2: int|
                    #![trigger node.chains@[k1].main.id, node.chains@[k2].main.id]
                    0 <= k1 < k2 < node.chains@.len() ==> node.chains@[k1].main.id
                        < node.chains@[k2].main.id,
                // the survivors collected so far
                pending_wf(s, i, rest@),
                forall|k: int| 0 <= k < rest@.len() ==> (#[trigger] rest@[k].main.id) > s[i].id,
                // what is still to be walked
                pending_wf(s, i + 1, pending@),
                forall|k: int| 0 <= k < pending@.len() ==> (#[trigger] pending@[k].main.id)
                    > s[i].id,
                // everything already collected precedes everything still pending
                forall|k: int, m: int|
                    0 <= k < node.chains@.len() && 0 <= m < pending@.len()
                        ==> (#[trigger] node.chains@[k].main.id) < (#[trigger] pending@[m].main.id),
                forall|k: int, m: int|
                    0 <= k < rest@.len() && 0 <= m < pending@.len() ==> (#[trigger] rest@[k].main.id)
                        < (#[trigger] pending@[m].main.id),
                // nothing is lost or duplicated
                chains_mset(node.chains@).add(chains_mset(rest@)).add(chains_mset(pending@))
                    == chains_mset(pending0),
                chains_rec_mset(node.chains@).add(chains_rec_mset(rest@)).add(
                    chains_rec_mset(pending@),
                ) == chains_rec_mset(pending0),
            decreases pending@.len(),
        {
            let ghost walked = pending@;
            proof {
                lemma_mset_pop_front(walked);
            }
            let c = pending.remove(0);
            proof {
                assert(c == walked[0]);
                assert(pending@ =~= walked.drop_first());
            }
            let is_child = match c.main.chain_id {
                Some(p) => p == q_id,
                None => false,
            };
            if is_child {
                proof {
                    lemma_mset_push(node.chains@, c);
                }
                node.chains.push(c);
            } else {
                proof {
                    lemma_mset_push(rest@, c);
                    if c.main.chain_id is Some {
                        let p = c.main.chain_id->0;
                        let j = choose|j: int| 0 <= j < i + 1 && #[trigger] s[j].id == p;
                        assert(p != q_id);
                        assert(j != i);
                        assert(0 <= j < i && s[j].id == p);
                    }
                }
                rest.push(c);
            }
        }
        let ghost rest0 = rest@;
        proof {
            // the walk consumed the whole pending list
            assert(pending@ =~= Seq::<Chain>::empty());
            lemma_mset_empty();
            assert(chains_mset(node.chains@).add(chains_mset(rest0)) =~= chains_mset(pending0));
            assert(chains_rec_mset(node.chains@).add(chains_rec_mset(rest0)) =~= chains_rec_mset(
                pending0,
            ));
        }
        rest.insert(0, node);
        pending = rest;
        proof {
            let cur = pending@;
            assert(cur == rest0.insert(0, node));
            assert(cur[0] == node);
            assert(cur.drop_first() =~= rest0);
            lemma_mset_pop_front(cur);
            lemma_mset_chain(node);
            // the chain for row i is linked: its children all reference it
            assert(chain_linked(node));
            // one row moved from the unprocessed side to the pending side
            assert(s.subrange(i, n as int) =~= seq![s[i]] + s.subrange(i + 1, n as int));
            lemma_multiset_commutative(seq![s[i]], s.subrange(i + 1, n as int));
            lemma_to_multiset_singleton(s[i]);
            lemma_records_concat(seq![s[i]], s.subrange(i + 1, n as int));
            lemma_multiset_commutative(
                records_of(seq![s[i]]),
                records_of(s.subrange(i + 1, n as int)),
            );
            assert(records_of(seq![s[i]]) =~= seq![record_of(s[i])]);
            lemma_to_multiset_singleton(record_of(s[i]));
            assert(chains_mset(cur) =~= s.subrange(i, n as int).to_multiset());
            assert(chains_rec_mset(cur) =~= records_of(s.subrange(i, n as int)).to_multiset());
            // the parent of row i, if any, is among the first i rows
            if s[i].chain_id is Some {
                assert(exists|j: int| 0 <= j < i && #[trigger] s[j].id == s[i].chain_id->0);
            }
        }
    }
    proof {
        assert(s.take(0) =~= Seq::<Quest>::empty());
        assert(s.subrange(0, n as int) =~= s);
    }
    pending
}

impl QuestLog {
    /// Gets all quest chains: the forest reconstructed from the store's
    /// rows, with every quest attached under the parent its `chain_id`
    /// references. The flattened forest carries the record content of
    /// every row exactly once.
    pub fn get_all_chains(&self) -> (r: Vec<Chain>)
        requires
            self.wf(),
        ensures
            forest_linked(r@),
            records_of(flatten_chains(r@)).to_multiset() == records_of(self.quests()).to_multiset(),
    {
        let qs = self.get_all_quests();
        proof {
            assert(records_of(qs@) =~= records_of(self.quests()));
        }
        build_forest(qs)
    }
}

} // verus!
