//! Picks the settlement payments out of a snapshot and reports, for each,
//! the coins that its spend transitively requires.

use vstd::prelude::*;

use crate::hash::Bytes32;
use crate::index::{build_index, index_of, AnnouncementIndex, IndexError, IndexModel};
use crate::reach::{coins_asserted_by, id_set, reachable_from, views};
use crate::record::{bfs_order, flatten, FlatRecord, SpendRecord};

verus! {

/// The tag that marks a settlement payment.
pub const SETTLEMENT_TAG: &'static str = "settlement_payments";

/// A settlement payment and the coins that its spend transitively requires.
#[derive(Debug)]
pub struct SettlementReport {
    pub coin_id: Bytes32,
    pub coins: Vec<Bytes32>,
}

/// Whether record `r` carries the settlement tag; a record without a tag
/// list carries none.
pub open spec fn is_settlement(r: FlatRecord) -> bool {
    match r.tags {
        None => false,
        Some(tags) => exists|i: int| 0 <= i < tags@.len() && #[trigger] tags@[i]@ == SETTLEMENT_TAG@,
    }
}

/// The records of `rs` that carry the settlement tag, in order.
pub open spec fn settlement_records(rs: Seq<FlatRecord>) -> Seq<FlatRecord>
    decreases rs.len(),
{
    if rs.len() == 0 {
        Seq::empty()
    } else {
        let prev = settlement_records(rs.drop_last());
        if is_settlement(rs[rs.len() - 1]) {
            prev.push(rs[rs.len() - 1])
        } else {
            prev
        }
    }
}

/// `reports` answers for the records `sel`, one report each in order: the
/// record's coin and, without repeats, the coins reachable from it in `m`.
pub open spec fn reports_for(reports: Seq<SettlementReport>, sel: Seq<FlatRecord>, m: IndexModel) -> bool {
    reports.len() == sel.len() && forall|i: int|
        0 <= i < sel.len() ==> (#[trigger] reports[i]).coin_id == sel[i].coin_id
            && views(reports[i].coins@).no_duplicates() && id_set(reports[i].coins@)
            == reachable_from(m, sel[i].coin_id@)
}

/// Whether `r` carries the settlement tag.
pub fn is_settlement_payment(r: &FlatRecord) -> (b: bool)
    ensures
        b == is_settlement(*r),
{
    match &r.tags {
        None => false,
        Some(tags) => {
            let wanted: String = SETTLEMENT_TAG.to_owned();
            let mut i: usize = 0;
            while i < tags.len()
                invariant
                    i <= tags@.len(),
                    r.tags == Some(*tags),
                    wanted@ == SETTLEMENT_TAG@,
                    forall|k: int| 0 <= k < i ==> tags@[k]@ != SETTLEMENT_TAG@,
                decreases tags@.len() - i,
            {
                if tags[i] == wanted {
                    let ghost t = r.tags->0;
                    assert(t@[i as int]@ == SETTLEMENT_TAG@);
                    return true;
                }
                i = i + 1;
            }
            false
        },
    }
}

/// Runs the reachability search once for each record of `records` that
/// carries the settlement tag, in order; other records are skipped.
pub fn settlement_reports(records: &Vec<FlatRecord>, announcements: &AnnouncementIndex) -> (out: Vec<
    SettlementReport,
>)
    requires
        announcements.wf(),
    ensures
        reports_for(out@, settlement_records(records@), announcements@),
{
    let mut out: Vec<SettlementReport> = Vec::new();
    let mut i: usize = 0;
    while i < records.len()
        invariant
            i <= records@.len(),
            announcements.wf(),
            reports_for(out@, settlement_records(records@.subrange(0, i as int)), announcements@),
        decreases records@.len() - i,
    {
        let r = &records[i];
        let ghost pre = records@.subrange(0, i + 1);
        assert(pre.drop_last() =~= records@.subrange(0, i as int));
        assert(pre[pre.len() - 1] == *r);
        if is_settlement_payment(r) {
            let coins = coins_asserted_by(r.coin_id, announcements);
            out.push(SettlementReport { coin_id: r.coin_id, coins });
        }
        i = i + 1;
    }
    assert(records@.subrange(0, i as int) =~= records@);
    out
}

/// The whole analysis of a forest of spend records: flatten it, index its
/// announcements, and report each settlement payment with the coins its
/// spend transitively requires. Fails when the index cannot be built.
pub fn analyze(roots: Vec<SpendRecord>) -> (res: Result<Vec<SettlementReport>, IndexError>)
    ensures
        match (res, index_of(bfs_order(roots@))) {
            (Ok(reports), Ok(m)) => reports_for(reports@, settlement_records(bfs_order(roots@)), m),
            (Err(e), Err(f)) => e == f,
            _ => false,
        },
{
    let ghost rs = roots@;
    let records = flatten(roots);
    match build_index(&records) {
        Err(e) => {
            assert(index_of(bfs_order(rs)) == Err::<IndexModel, IndexError>(e));
            Err(e)
        },
        Ok(announcements) => {
            let reports = settlement_reports(&records, &announcements);
            assert(index_of(bfs_order(rs)) == Ok::<IndexModel, IndexError>(announcements@)
                && reports_for(reports@, settlement_records(bfs_order(rs)), announcements@));
            Ok(reports)
        },
    }
}

/// The selection holds exactly the tagged records: every selected record
/// carries the settlement tag, every tagged record is selected, and a record
/// without a tag list never is.
pub proof fn lemma_selection_exact(rs: Seq<FlatRecord>)
    ensures
        forall|i: int|
            0 <= i < settlement_records(rs).len() ==> is_settlement(
                #[trigger] settlement_records(rs)[i],
            ),
        forall|i: int|
            0 <= i < rs.len() && is_settlement(#[trigger] rs[i]) ==> settlement_records(
                rs,
            ).contains(rs[i]),
        forall|i: int|
            0 <= i < rs.len() && (#[trigger] rs[i]).tags is None ==> !settlement_records(
                rs,
            ).contains(rs[i]),
    decreases rs.len(),
{
    if rs.len() > 0 {
        let d = rs.drop_last();
        lemma_selection_exact(d);
        let prev = settlement_records(d);
        assert forall|i: int|
            0 <= i < rs.len() && is_settlement(#[trigger] rs[i]) implies settlement_records(
                rs,
            ).contains(rs[i]) by {
            if i < rs.len() - 1 {
                assert(d[i] == rs[i]);
                let k = choose|k: int| 0 <= k < prev.len() && prev[k] == d[i];
                assert(settlement_records(rs)[k] == rs[i]);
            } else {
                assert(settlement_records(rs)[prev.len() as int] == rs[i]);
            }
        }
        assert forall|i: int|
            0 <= i < rs.len() && (#[trigger] rs[i]).tags is None implies !settlement_records(
                rs,
            ).contains(rs[i]) by {
            if settlement_records(rs).contains(rs[i]) {
                let k = choose|k: int| 0 <= k < settlement_records(rs).len() && settlement_records(rs)[k] == rs[i];
                assert(is_settlement(settlement_records(rs)[k]));
            }
        }
    }
}

} // verus!
