//! The announcement index: announcement creations keyed by the identifier
//! they produce, and the assertions that name such identifiers.

use vstd::prelude::*;

use crate::hash::{announcement_id_of, derive_announcement_id, same_id, Bytes32};
use crate::record::{Condition, FlatRecord};

verus! {

/// An announcement made by a spend. `source_id` is what the identifier was
/// derived from: the coin's own id for a coin announcement, its puzzle hash
/// for a puzzle announcement.
#[derive(Debug)]
pub struct Creation {
    pub coin_id: Bytes32,
    pub source_id: Bytes32,
    pub message: Vec<u8>,
    pub announcement_id: Bytes32,
}

/// A spend's demand that an announcement with a given identifier be made.
#[derive(Debug, Clone, Copy)]
pub struct Assertion {
    pub coin_id: Bytes32,
    pub announcement_id: Bytes32,
}

/// What a creation holds, as byte strings.
pub struct CreationView {
    pub coin_id: Seq<u8>,
    pub source_id: Seq<u8>,
    pub message: Seq<u8>,
    pub announcement_id: Seq<u8>,
}

/// What an assertion holds, as byte strings.
pub struct AssertionView {
    pub coin_id: Seq<u8>,
    pub announcement_id: Seq<u8>,
}

impl View for Creation {
    type V = CreationView;

    open spec fn view(&self) -> CreationView {
        CreationView {
            coin_id: self.coin_id@,
            source_id: self.source_id@,
            message: self.message@,
            announcement_id: self.announcement_id@,
        }
    }
}

impl View for Assertion {
    type V = AssertionView;

    open spec fn view(&self) -> AssertionView {
        AssertionView { coin_id: self.coin_id@, announcement_id: self.announcement_id@ }
    }
}

/// Why an index cannot be built from a set of records.
#[derive(Debug, Clone, Copy, PartialEq, Eq)]
pub enum IndexError {
    /// A puzzle announcement is made by a record without a puzzle hash.
    MissingField,
    /// An announcement condition carries no payload.
    InvalidCondition,
}

/// The announcement index as mathematical values: each scope maps an
/// announcement identifier to the creation that made it, and lists its
/// assertions.
pub struct IndexModel {
    pub create_coin: Map<Seq<u8>, CreationView>,
    pub create_puzzle: Map<Seq<u8>, CreationView>,
    pub assert_coin: Seq<AssertionView>,
    pub assert_puzzle: Seq<AssertionView>,
}

/// The announcement index. Within each scope no two creations share an
/// identifier: a later creation replaces an earlier one with the same id.
#[derive(Debug)]
pub struct AnnouncementIndex {
    pub create_coin: Vec<Creation>,
    pub create_puzzle: Vec<Creation>,
    pub assert_coin: Vec<Assertion>,
    pub assert_puzzle: Vec<Assertion>,
}

/// The creations of `s` keyed by identifier, a later one replacing an
/// earlier one with the same identifier.
pub open spec fn creation_map(s: Seq<Creation>) -> Map<Seq<u8>, CreationView>
    decreases s.len(),
{
    if s.len() == 0 {
        Map::empty()
    } else {
        let last = s[s.len() - 1];
        creation_map(s.drop_last()).insert(last.announcement_id@, last@)
    }
}

/// No two creations of `s` share an identifier.
pub open spec fn ids_unique(s: Seq<Creation>) -> bool {
    forall|i: int, j: int|
        0 <= i < s.len() && 0 <= j < s.len() && i != j ==> s[i].announcement_id@
            != s[j].announcement_id@
}

impl View for AnnouncementIndex {
    type V = IndexModel;

    open spec fn view(&self) -> IndexModel {
        IndexModel {
            create_coin: creation_map(self.create_coin@),
            create_puzzle: creation_map(self.create_puzzle@),
            assert_coin: self.assert_coin@.map_values(|a: Assertion| a@),
            assert_puzzle: self.assert_puzzle@.map_values(|a: Assertion| a@),
        }
    }
}

impl AnnouncementIndex {
    /// Each scope holds at most one creation per identifier.
    pub open spec fn wf(&self) -> bool {
        ids_unique(self.create_coin@) && ids_unique(self.create_puzzle@)
    }
}

/// The index with nothing in it.
pub open spec fn empty_model() -> IndexModel {
    IndexModel {
        create_coin: Map::empty(),
        create_puzzle: Map::empty(),
        assert_coin: Seq::empty(),
        assert_puzzle: Seq::empty(),
    }
}

/// The creation that `coin` makes with `message` under the identifier
/// derived from `source`.
pub open spec fn creation_of(coin: Seq<u8>, source: Seq<u8>, message: Seq<u8>) -> CreationView {
    CreationView {
        coin_id: coin,
        source_id: source,
        message,
        announcement_id: announcement_id_of(source, message),
    }
}

/// The index `m` after condition `c` of record `r`. An announcement
/// condition uses the first element of its list, and one with an empty list
/// is invalid; a puzzle announcement needs the record's puzzle hash. Other
/// conditions leave the index as it is.
pub open spec fn add_condition(m: IndexModel, r: FlatRecord, c: Condition) -> Result<
    IndexModel,
    IndexError,
> {
    match c {
        Condition::CreateCoinAnnouncement { vars } => {
            if vars@.len() == 0 {
                Err(IndexError::InvalidCondition)
            } else {
                let cr = creation_of(r.coin_id@, r.coin_id@, vars@[0]@);
                Ok(
                    IndexModel {
                        create_coin: m.create_coin.insert(cr.announcement_id, cr),
                        create_puzzle: m.create_puzzle,
                        assert_coin: m.assert_coin,
                        assert_puzzle: m.assert_puzzle,
                    },
                )
            }
        },
        Condition::CreatePuzzleAnnouncement { vars } => {
            if vars@.len() == 0 {
                Err(IndexError::InvalidCondition)
            } else {
                match r.puzzle_hash {
                    None => Err(IndexError::MissingField),
                    Some(ph) => {
                        let cr = creation_of(r.coin_id@, ph@, vars@[0]@);
                        Ok(
                            IndexModel {
                                create_coin: m.create_coin,
                                create_puzzle: m.create_puzzle.insert(cr.announcement_id, cr),
                                assert_coin: m.assert_coin,
                                assert_puzzle: m.assert_puzzle,
                            },
                        )
                    },
                }
            }
        },
        Condition::AssertCoinAnnouncement { vars } => {
            if vars@.len() == 0 {
                Err(IndexError::InvalidCondition)
            } else {
                let a = AssertionView { coin_id: r.coin_id@, announcement_id: vars@[0]@ };
                Ok(
                    IndexModel {
                        create_coin: m.create_coin,
                        create_puzzle: m.create_puzzle,
                        assert_coin: m.assert_coin.push(a),
                        assert_puzzle: m.assert_puzzle,
                    },
                )
            }
        },
        Condition::AssertPuzzleAnnouncement { vars } => {
            if vars@.len() == 0 {
                Err(IndexError::InvalidCondition)
            } else {
                let a = AssertionView { coin_id: r.coin_id@, announcement_id: vars@[0]@ };
                Ok(
                    IndexModel {
                        create_coin: m.create_coin,
                        create_puzzle: m.create_puzzle,
                        assert_coin: m.assert_coin,
                        assert_puzzle: m.assert_puzzle.push(a),
                    },
                )
            }
        },
        _ => Ok(m),
    }
}

/// The index `m` after the conditions `cs` of record `r`, in order; the
/// first error stops the scan.
pub open spec fn add_conditions(m: IndexModel, r: FlatRecord, cs: Seq<Condition>) -> Result<
    IndexModel,
    IndexError,
>
    decreases cs.len(),
{
    if cs.len() == 0 {
        Ok(m)
    } else {
        match add_conditions(m, r, cs.drop_last()) {
            Err(e) => Err(e),
            Ok(m2) => add_condition(m2, r, cs[cs.len() - 1]),
        }
    }
}

/// The index of the records `rs`, scanned in order, each record's
/// conditions in order; the first error stops the scan.
pub open spec fn index_of(rs: Seq<FlatRecord>) -> Result<IndexModel, IndexError>
    decreases rs.len(),
{
    if rs.len() == 0 {
        Ok(empty_model())
    } else {
        let last = rs[rs.len() - 1];
        match index_of(rs.drop_last()) {
            Err(e) => Err(e),
            Ok(m) => add_conditions(m, last, last.conditions@),
        }
    }
}

/// Replacing a creation by one with the same identifier replaces that key's
/// entry in the map, and keeps identifiers unique.
proof fn lemma_creation_map_update(s: Seq<Creation>, j: int, c: Creation)
    requires
        ids_unique(s),
        0 <= j < s.len(),
        s[j].announcement_id@ == c.announcement_id@,
    ensures
        ids_unique(s.update(j, c)),
        creation_map(s.update(j, c)) == creation_map(s).insert(c.announcement_id@, c@),
    decreases s.len(),
{
    let t = s.update(j, c);
    let n = s.len() - 1;
    assert(t.drop_last() =~= if j == n {
        s.drop_last()
    } else {
        s.drop_last().update(j, c)
    });
    if j == n {
        assert(creation_map(t) =~= creation_map(s).insert(c.announcement_id@, c@));
    } else {
        lemma_creation_map_update(s.drop_last(), j, c);
        assert(creation_map(t) =~= creation_map(s).insert(c.announcement_id@, c@));
    }
}

/// With unique identifiers, the map holds exactly the identifiers of `s`,
/// each with its own creation.
pub proof fn lemma_creation_map_entries(s: Seq<Creation>)
    requires
        ids_unique(s),
    ensures
        forall|k: Seq<u8>|
            #[trigger] creation_map(s).contains_key(k) <==> exists|i: int|
                0 <= i < s.len() && s[i].announcement_id@ == k,
        forall|i: int|
            0 <= i < s.len() ==> #[trigger] creation_map(s)[s[i].announcement_id@] == s[i]@,
    decreases s.len(),
{
    if s.len() > 0 {
        let d = s.drop_last();
        lemma_creation_map_entries(d);
        assert forall|k: Seq<u8>|
            #[trigger] creation_map(s).contains_key(k) <==> exists|i: int|
                0 <= i < s.len() && s[i].announcement_id@ == k by {
            if creation_map(d).contains_key(k) {
                let i = choose|i: int| 0 <= i < d.len() && d[i].announcement_id@ == k;
                assert(s[i].announcement_id@ == k);
            }
            if exists|i: int| 0 <= i < s.len() && s[i].announcement_id@ == k {
                let i = choose|i: int| 0 <= i < s.len() && s[i].announcement_id@ == k;
                if i < s.len() - 1 {
                    assert(d[i].announcement_id@ == k);
                }
            }
        }
        assert forall|i: int|
            0 <= i < s.len() implies #[trigger] creation_map(s)[s[i].announcement_id@]
            == s[i]@ by {
            if i < s.len() - 1 {
                assert(d[i] == s[i]);
                assert(creation_map(d)[d[i].announcement_id@] == d[i]@);
                assert(s[i].announcement_id@ != s[s.len() - 1].announcement_id@);
            }
            assert(creation_map(s) == creation_map(d).insert(
                s[s.len() - 1].announcement_id@,
                s[s.len() - 1]@,
            ));
        }
    }
}

/// Records creation `c` in `list`, replacing the creation with the same
/// identifier if there is one.
fn insert_creation(list: &mut Vec<Creation>, c: Creation)
    requires
        ids_unique(old(list)@),
    ensures
        ids_unique(final(list)@),
        creation_map(final(list)@) == creation_map(old(list)@).insert(c.announcement_id@, c@),
{
    let mut j: usize = 0;
    while j < list.len()
        invariant
            j <= list@.len(),
            list@ == old(list)@,
            ids_unique(list@),
            forall|k: int| 0 <= k < j ==> list@[k].announcement_id@ != c.announcement_id@,
        decreases list@.len() - j,
    {
        if same_id(&list[j].announcement_id, &c.announcement_id) {
            proof {
                lemma_creation_map_update(list@, j as int, c);
            }
            list.set(j, c);
            return;
        }
        j = j + 1;
    }
    let ghost before = list@;
    list.push(c);
    assert(list@.drop_last() =~= before);
}

/// A copy of a byte string.
fn copy_bytes(v: &Vec<u8>) -> (r: Vec<u8>)
    ensures
        r@ == v@,
{
    let mut r: Vec<u8> = Vec::new();
    let mut i: usize = 0;
    while i < v.len()
        invariant
            i <= v@.len(),
            r@ == v@.subrange(0, i as int),
        decreases v@.len() - i,
    {
        r.push(v[i]);
        i = i + 1;
    }
    assert(v@.subrange(0, v@.len() as int) =~= v@);
    r
}

/// The assertion that `coin` makes of `id`.
fn assertion(coin: Bytes32, id: Bytes32) -> (a: Assertion)
    ensures
        a@ == (AssertionView { coin_id: coin@, announcement_id: id@ }),
{
    Assertion { coin_id: coin, announcement_id: id }
}

/// Adds condition `c` of record `r` to the index.
fn index_condition(idx: &mut AnnouncementIndex, r: &FlatRecord, c: &Condition) -> (res: Result<
    (),
    IndexError,
>)
    requires
        old(idx).wf(),
    ensures
        match res {
            Ok(()) => final(idx).wf() && add_condition(old(idx)@, *r, *c) == Ok::<
                IndexModel,
                IndexError,
            >(final(idx)@),
            Err(e) => add_condition(old(idx)@, *r, *c) == Err::<IndexModel, IndexError>(e),
        },
{
    let ghost m = idx@;
    match c {
        Condition::CreateCoinAnnouncement { vars } => {
            if vars.len() == 0 {
                return Err(IndexError::InvalidCondition);
            }
            let id = derive_announcement_id(&r.coin_id, vars[0].as_slice());
            let cr = Creation {
                coin_id: r.coin_id,
                source_id: r.coin_id,
                message: copy_bytes(&vars[0]),
                announcement_id: id,
            };
            assert(cr@ == creation_of(r.coin_id@, r.coin_id@, vars@[0]@));
            insert_creation(&mut idx.create_coin, cr);
        },
        Condition::CreatePuzzleAnnouncement { vars } => {
            if vars.len() == 0 {
                return Err(IndexError::InvalidCondition);
            }
            match r.puzzle_hash {
                None => {
                    return Err(IndexError::MissingField);
                },
                Some(ph) => {
                    let id = derive_announcement_id(&ph, vars[0].as_slice());
                    let cr = Creation {
                        coin_id: r.coin_id,
                        source_id: ph,
                        message: copy_bytes(&vars[0]),
                        announcement_id: id,
                    };
                    assert(cr@ == creation_of(r.coin_id@, ph@, vars@[0]@));
                    insert_creation(&mut idx.create_puzzle, cr);
                },
            }
        },
        Condition::AssertCoinAnnouncement { vars } => {
            if vars.len() == 0 {
                return Err(IndexError::InvalidCondition);
            }
            idx.assert_coin.push(assertion(r.coin_id, vars[0]));
        },
        Condition::AssertPuzzleAnnouncement { vars } => {
            if vars.len() == 0 {
                return Err(IndexError::InvalidCondition);
            }
            idx.assert_puzzle.push(assertion(r.coin_id, vars[0]));
        },
        _ => {},
    }
    assert(idx@.assert_coin =~= add_condition(m, *r, *c).unwrap().assert_coin);
    assert(idx@.assert_puzzle =~= add_condition(m, *r, *c).unwrap().assert_puzzle);
    Ok(())
}

/// An error in the first `n` conditions of a record is the error of all of
/// them.
proof fn lemma_conditions_error_stays(
    m: IndexModel,
    r: FlatRecord,
    cs: Seq<Condition>,
    n: int,
    e: IndexError,
)
    requires
        0 <= n <= cs.len(),
        add_conditions(m, r, cs.subrange(0, n)) == Err::<IndexModel, IndexError>(e),
    ensures
        add_conditions(m, r, cs) == Err::<IndexModel, IndexError>(e),
    decreases cs.len() - n,
{
    if n == cs.len() {
        assert(cs.subrange(0, n) =~= cs);
    } else {
        assert(cs.subrange(0, n + 1).drop_last() =~= cs.subrange(0, n));
        lemma_conditions_error_stays(m, r, cs, n + 1, e);
    }
}

/// An error in the first `n` records is the error of all of them.
proof fn lemma_records_error_stays(rs: Seq<FlatRecord>, n: int, e: IndexError)
    requires
        0 <= n <= rs.len(),
        index_of(rs.subrange(0, n)) == Err::<IndexModel, IndexError>(e),
    ensures
        index_of(rs) == Err::<IndexModel, IndexError>(e),
    decreases rs.len() - n,
{
    if n == rs.len() {
        assert(rs.subrange(0, n) =~= rs);
    } else {
        assert(rs.subrange(0, n + 1).drop_last() =~= rs.subrange(0, n));
        lemma_records_error_stays(rs, n + 1, e);
    }
}

/// Builds the announcement index of `records`: every record in order, and
/// each record's conditions in order. It fails with the error of the first
/// malformed announcement condition.
pub fn build_index(records: &Vec<FlatRecord>) -> (res: Result<AnnouncementIndex, IndexError>)
    ensures
        match res {
            Ok(idx) => idx.wf() && index_of(records@) == Ok::<IndexModel, IndexError>(idx@),
            Err(e) => index_of(records@) == Err::<IndexModel, IndexError>(e),
        },
{
    let mut idx = AnnouncementIndex {
        create_coin: Vec::new(),
        create_puzzle: Vec::new(),
        assert_coin: Vec::new(),
        assert_puzzle: Vec::new(),
    };
    assert(idx@.assert_coin =~= Seq::empty());
    assert(idx@.assert_puzzle =~= Seq::empty());
    assert(idx@ == empty_model());
    let mut i: usize = 0;
    while i < records.len()
        invariant
            i <= records@.len(),
            idx.wf(),
            index_of(records@.subrange(0, i as int)) == Ok::<IndexModel, IndexError>(idx@),
        decreases records@.len() - i,
    {
        let r = &records[i];
        let ghost m0 = idx@;
        let ghost cs = r.conditions@;
        assert(records@.subrange(0, i + 1).drop_last() =~= records@.subrange(0, i as int));
        assert(cs.subrange(0, 0) =~= Seq::<Condition>::empty());
        let mut j: usize = 0;
        while j < r.conditions.len()
            invariant
                i < records@.len(),
                r == records@[i as int],
                cs == r.conditions@,
                j <= cs.len(),
                idx.wf(),
                index_of(records@.subrange(0, i as int)) == Ok::<IndexModel, IndexError>(m0),
                add_conditions(m0, *r, cs.subrange(0, j as int)) == Ok::<IndexModel, IndexError>(
                    idx@,
                ),
            decreases cs.len() - j,
        {
            assert(cs.subrange(0, j + 1).drop_last() =~= cs.subrange(0, j as int));
            match index_condition(&mut idx, r, &r.conditions[j]) {
                Ok(()) => {},
                Err(e) => {
                    proof {
                        lemma_conditions_error_stays(m0, *r, cs, j + 1, e);
                        let pre = records@.subrange(0, i + 1);
                        assert(pre.drop_last() =~= records@.subrange(0, i as int));
                        assert(pre[pre.len() - 1] == *r);
                        assert(index_of(pre) == add_conditions(m0, *r, cs));
                        lemma_records_error_stays(records@, i + 1, e);
                    }
                    return Err(e);
                },
            }
            j = j + 1;
        }
        assert(cs.subrange(0, j as int) =~= cs);
        i = i + 1;
    }
    assert(records@.subrange(0, i as int) =~= records@);
    Ok(idx)
}

/// A coin announcement of message `M` by record `R` enters the coin-scoped
/// map under the identifier derived from `R`'s coin id and `M`, as a
/// creation by `R`'s coin carrying that identifier.
pub proof fn lemma_coin_creation_indexed(m: IndexModel, r: FlatRecord, vars: Vec<Vec<u8>>)
    requires
        vars@.len() > 0,
    ensures
        ({
            let id = announcement_id_of(r.coin_id@, vars@[0]@);
            let res = add_condition(m, r, Condition::CreateCoinAnnouncement { vars });
            &&& res is Ok
            &&& res->Ok_0.create_coin.contains_key(id)
            &&& res->Ok_0.create_coin[id].announcement_id == id
            &&& res->Ok_0.create_coin[id].coin_id == r.coin_id@
            &&& res->Ok_0.create_coin[id].message == vars@[0]@
        }),
{
}

} // verus!
