//! Spend records, their conditions, and the flattening of a forest of records.

use std::collections::VecDeque;
use vstd::prelude::*;
use vstd::seq_lib::lemma_multiset_commutative;

use crate::hash::Bytes32;

verus! {

#[allow(inconsistent_fields)]
/// A condition produced by a spend. Only the four announcement conditions
/// matter to the announcement graph; the others are carried along.
#[derive(Debug)]
pub enum Condition {
    CreatePuzzleAnnouncement { vars: Vec<Vec<u8>> },
    CreateCoinAnnouncement { vars: Vec<Vec<u8>> },
    AssertPuzzleAnnouncement { vars: Vec<Bytes32> },
    AssertCoinAnnouncement { vars: Vec<Bytes32> },
    CreateCoin { puzzle_hash: Bytes32, amount: u64, child_coin_id: Bytes32, address: String },
    AssertMyCoinId { vars: Vec<Bytes32> },
    AggSigMe { vars: Vec<Vec<u8>> },
    ReserveFee { vars: Vec<Vec<u8>> },
}

/// The spend of one coin, with the spends of the coins it created that were
/// themselves spent in the same snapshot.
#[derive(Debug)]
pub struct SpendRecord {
    pub coin_id: Bytes32,
    pub puzzle_hash: Option<Bytes32>,
    pub ty: String,
    pub tags: Option<Vec<String>>,
    pub spend: bool,
    pub conditions: Vec<Condition>,
    pub children: Vec<SpendRecord>,
}

/// A spend record on its own, without its children.
#[derive(Debug)]
pub struct FlatRecord {
    pub coin_id: Bytes32,
    pub puzzle_hash: Option<Bytes32>,
    pub ty: String,
    pub tags: Option<Vec<String>>,
    pub spend: bool,
    pub conditions: Vec<Condition>,
}

/// The record `r` without its children.
pub open spec fn flat_of(r: SpendRecord) -> FlatRecord {
    FlatRecord {
        coin_id: r.coin_id,
        puzzle_hash: r.puzzle_hash,
        ty: r.ty,
        tags: r.tags,
        spend: r.spend,
        conditions: r.conditions,
    }
}

/// Every record of the forest `rs`, at any depth, each once: each tree in
/// turn, a parent before its descendants.
pub open spec fn all_records(rs: Seq<SpendRecord>) -> Seq<FlatRecord>
    decreases rs,
{
    if rs.len() == 0 {
        Seq::empty()
    } else {
        let last = rs[rs.len() - 1];
        all_records(rs.subrange(0, rs.len() - 1)) + seq![flat_of(last)] + all_records(
            last.children@,
        )
    }
}

/// The records of two forests side by side are those of the first, then
/// those of the second.
pub proof fn lemma_all_records_concat(a: Seq<SpendRecord>, b: Seq<SpendRecord>)
    ensures
        all_records(a + b) == all_records(a) + all_records(b),
    decreases b.len(),
{
    if b.len() == 0 {
        assert(a + b =~= a);
        assert(all_records(a) + all_records(b) =~= all_records(a));
    } else {
        let ab = a + b;
        let b0 = b.subrange(0, b.len() - 1);
        assert(ab.subrange(0, ab.len() - 1) =~= a + b0);
        assert(ab[ab.len() - 1] == b[b.len() - 1]);
        lemma_all_records_concat(a, b0);
        let last = b[b.len() - 1];
        assert(all_records(ab) =~= all_records(a) + all_records(b0) + seq![flat_of(last)]
            + all_records(last.children@));
    }
}

/// The records of a forest whose first tree is `rs[0]`: that root, its
/// descendants, then the rest of the forest.
pub proof fn lemma_all_records_first(rs: Seq<SpendRecord>)
    requires
        rs.len() > 0,
    ensures
        all_records(rs) == seq![flat_of(rs[0])] + all_records(rs[0].children@) + all_records(
            rs.drop_first(),
        ),
{
    let head = seq![rs[0]];
    assert(rs =~= head + rs.drop_first());
    lemma_all_records_concat(head, rs.drop_first());
    assert(head.subrange(0, 0) =~= Seq::<SpendRecord>::empty());
    assert(all_records(head.subrange(0, 0)) =~= Seq::<FlatRecord>::empty());
    assert(head[head.len() - 1] == rs[0]);
    assert(all_records(head) =~= seq![flat_of(rs[0])] + all_records(rs[0].children@));
}

/// Termination of `bfs_order`: taking the first record of the queue and
/// putting its children at the back leaves one record fewer to visit.
#[via_fn]
proof fn bfs_order_decreases(queue: Seq<SpendRecord>) {
    if queue.len() > 0 {
        lemma_all_records_first(queue);
        lemma_all_records_concat(queue.drop_first(), queue[0].children@);
    }
}

/// The records of the forest `queue` in breadth-first order: the queue is
/// drained from the front, and each record's children join at the back.
pub open spec fn bfs_order(queue: Seq<SpendRecord>) -> Seq<FlatRecord>
    decreases all_records(queue).len(),
    via bfs_order_decreases
{
    if queue.len() == 0 {
        Seq::empty()
    } else {
        seq![flat_of(queue[0])] + bfs_order(queue.drop_first() + queue[0].children@)
    }
}

/// Flattening is complete: every record of the forest, at any depth, comes
/// out exactly once, so the output is as long as the forest has records.
pub proof fn lemma_flatten_complete(roots: Seq<SpendRecord>)
    ensures
        bfs_order(roots).to_multiset() == all_records(roots).to_multiset(),
        bfs_order(roots).len() == all_records(roots).len(),
    decreases all_records(roots).len(),
{
    if roots.len() == 0 {
    } else {
        let r0 = roots[0];
        let next = roots.drop_first() + r0.children@;
        lemma_all_records_first(roots);
        lemma_all_records_concat(roots.drop_first(), r0.children@);
        lemma_flatten_complete(next);
        let head = seq![flat_of(r0)];
        let kids = all_records(r0.children@);
        let rest = all_records(roots.drop_first());
        lemma_multiset_commutative(head, bfs_order(next));
        lemma_multiset_commutative(rest, kids);
        lemma_multiset_commutative(head + kids, rest);
        lemma_multiset_commutative(head, kids);
        lemma_multiset_commutative(head, rest + kids);
        lemma_multiset_commutative(rest, kids);
        assert(head.to_multiset().add(rest.to_multiset().add(kids.to_multiset())) =~= head.to_multiset().add(kids.to_multiset()).add(rest.to_multiset()));
    }
}

/// Flattens a forest of spend records into every record it holds, at any
/// depth, in breadth-first order: the roots first, then their children,
/// then the grandchildren, and so on.
pub fn flatten(roots: Vec<SpendRecord>) -> (out: Vec<FlatRecord>)
    ensures
        out@ == bfs_order(roots@),
{
    let ghost all = bfs_order(roots@);
    let mut queue: VecDeque<SpendRecord> = VecDeque::new();
    let mut roots = roots;
    let ghost rs = roots@;
    while roots.len() > 0
        invariant
            queue@ + roots@ == rs,
        decreases roots.len(),
    {
        let r = roots.remove(0);
        queue.push_back(r);
        assert(queue@ + roots@ =~= rs);
    }
    assert(queue@ =~= rs);
    let mut out: Vec<FlatRecord> = Vec::new();
    while queue.len() > 0
        invariant
            out@ + bfs_order(queue@) == all,
        decreases all_records(queue@).len(),
    {
        proof {
            if queue@.len() > 0 {
                lemma_all_records_first(queue@);
                lemma_all_records_concat(queue@.drop_first(), queue@[0].children@);
            }
        }
        let ghost q = queue@;
        let r = queue.pop_front().unwrap();
        let SpendRecord { coin_id, puzzle_hash, ty, tags, spend, conditions, children } = r;
        out.push(FlatRecord { coin_id, puzzle_hash, ty, tags, spend, conditions });
        let mut children = children;
        let ghost ch = children@;
        while children.len() > 0
            invariant
                queue@ + children@ == q.drop_first() + ch,
            decreases children.len(),
        {
            let c = children.remove(0);
            queue.push_back(c);
            assert(queue@ + children@ =~= q.drop_first() + ch);
        }
        assert(queue@ =~= q.drop_first() + ch);
        assert(out@ + bfs_order(queue@) =~= all);
    }
    assert(out@ =~= all);
    out
}

} // verus!
