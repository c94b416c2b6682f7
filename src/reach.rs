//! Which coins a coin's spend requires, directly and transitively, through
//! announcement creations and the assertions that name them.

use vstd::prelude::*;

use crate::hash::{same_id, Bytes32};
use crate::index::{
    creation_map, ids_unique, lemma_creation_map_entries, AnnouncementIndex, Assertion,
    AssertionView, Creation, CreationView, IndexModel,
};

verus! {

/// The identifiers of `s` as byte strings.
pub open spec fn views(s: Seq<Bytes32>) -> Seq<Seq<u8>> {
    s.map_values(|b: Bytes32| b@)
}

/// The set of identifiers held by `s`.
pub open spec fn id_set(s: Seq<Bytes32>) -> Set<Seq<u8>> {
    views(s).to_set()
}

/// The coins whose assertions name an announcement that coin `c` created in
/// one scope.
pub open spec fn successors_in(
    creations: Map<Seq<u8>, CreationView>,
    assertions: Seq<AssertionView>,
    c: Seq<u8>,
) -> Set<Seq<u8>> {
    Set::new(
        |b: Seq<u8>|
            exists|k: Seq<u8>, j: int|
                creations.contains_key(k) && creations[k].coin_id == c && 0 <= j
                    < assertions.len() && assertions[j].announcement_id
                    == creations[k].announcement_id && assertions[j].coin_id == b,
    )
}

/// The coins that directly require coin `c`'s spend: those asserting a coin
/// or puzzle announcement that `c` created. Edges run from creation to
/// assertion.
pub open spec fn direct_successors(m: IndexModel, c: Seq<u8>) -> Set<Seq<u8>> {
    successors_in(m.create_coin, m.assert_coin, c) + successors_in(
        m.create_puzzle,
        m.assert_puzzle,
        c,
    )
}

/// Whether `x` is among the identifiers of `s`.
fn contains_id(s: &Vec<Bytes32>, x: &Bytes32) -> (r: bool)
    ensures
        r == id_set(s@).contains(x@),
{
    let mut i: usize = 0;
    while i < s.len()
        invariant
            i <= s@.len(),
            forall|k: int| 0 <= k < i ==> s@[k]@ != x@,
        decreases s@.len() - i,
    {
        if same_id(&s[i], x) {
            assert(views(s@)[i as int] == x@);
            return true;
        }
        i = i + 1;
    }
    assert(!views(s@).contains(x@));
    false
}

/// Adds `x` to the identifiers of `s` unless it is there; says whether it
/// was added.
fn insert_id(s: &mut Vec<Bytes32>, x: Bytes32) -> (added: bool)
    requires
        views(old(s)@).no_duplicates(),
    ensures
        views(final(s)@).no_duplicates(),
        id_set(final(s)@) == id_set(old(s)@).insert(x@),
        added == !id_set(old(s)@).contains(x@),
        added ==> final(s)@ == old(s)@.push(x),
        !added ==> final(s)@ == old(s)@,
{
    if contains_id(s, &x) {
        assert(id_set(s@).insert(x@) =~= id_set(s@));
        false
    } else {
        let ghost before = s@;
        s.push(x);
        assert(views(s@) =~= views(before).push(x@));
        proof {
            views(before).lemma_push_to_set_commute(x@);
        }
        assert(id_set(s@) =~= id_set(before).insert(x@));
        true
    }
}

/// The coins of the assertions in `assertions` that name identifier `id`.
pub open spec fn asserters_of(assertions: Seq<AssertionView>, id: Seq<u8>) -> Set<Seq<u8>> {
    Set::new(
        |b: Seq<u8>|
            exists|j: int|
                0 <= j < assertions.len() && assertions[j].announcement_id == id
                    && assertions[j].coin_id == b,
    )
}

/// The views of a list of assertions.
pub open spec fn assertion_views(s: Seq<Assertion>) -> Seq<AssertionView> {
    s.map_values(|a: Assertion| a@)
}

/// Adds to `out` the coins of the assertions that name `id`.
fn add_asserters(assertions: &Vec<Assertion>, id: &Bytes32, out: &mut Vec<Bytes32>)
    requires
        views(old(out)@).no_duplicates(),
    ensures
        views(final(out)@).no_duplicates(),
        id_set(final(out)@) == id_set(old(out)@) + asserters_of(
            assertion_views(assertions@),
            id@,
        ),
{
    let ghost av = assertion_views(assertions@);
    let ghost start = id_set(out@);
    let mut j: usize = 0;
    while j < assertions.len()
        invariant
            j <= assertions@.len(),
            av == assertion_views(assertions@),
            views(out@).no_duplicates(),
            id_set(out@) == start + asserters_of(av.subrange(0, j as int), id@),
        decreases assertions@.len() - j,
    {
        if same_id(&assertions[j].announcement_id, id) {
            insert_id(out, assertions[j].coin_id);
        }
        proof {
            let s0 = av.subrange(0, j as int);
            let s1 = av.subrange(0, j + 1);
            let last = av[j as int];
            assert(s1 =~= s0.push(last));
            let extra = if last.announcement_id == id@ {
                set![last.coin_id]
            } else {
                Set::empty()
            };
            assert forall|b: Seq<u8>|
                #[trigger] asserters_of(s1, id@).contains(b) implies asserters_of(s0, id@).contains(b)
                    || extra.contains(b) by {
                let k = choose|k: int|
                    0 <= k < s1.len() && #[trigger] s1[k].announcement_id == id@ && s1[k].coin_id == b;
                if k < j {
                    assert(s0[k] == s1[k]);
                }
            }
            assert forall|b: Seq<u8>|
                #[trigger] asserters_of(s0, id@).contains(b) implies asserters_of(s1, id@).contains(b) by {
                let k = choose|k: int|
                    0 <= k < s0.len() && #[trigger] s0[k].announcement_id == id@ && s0[k].coin_id == b;
                assert(s1[k] == s0[k]);
            }
            if last.announcement_id == id@ {
                assert(s1[j as int] == last);
                assert(asserters_of(s1, id@).contains(last.coin_id));
                assert(av[j as int] == assertions@[j as int]@);
            }
            assert(asserters_of(s1, id@) =~= asserters_of(s0, id@) + extra);
            assert(id_set(out@) =~= start + asserters_of(s1, id@));
        }
        j = j + 1;
    }
    assert(av.subrange(0, j as int) =~= av);
}

/// The coins asserting an announcement that `coin` made among the first `n`
/// creations of `cs`.
pub open spec fn asserters_upto(
    cs: Seq<Creation>,
    av: Seq<AssertionView>,
    coin: Seq<u8>,
    n: int,
) -> Set<Seq<u8>> {
    Set::new(
        |b: Seq<u8>|
            exists|k: int|
                0 <= k < n && cs[k].coin_id@ == coin && #[trigger] asserters_of(
                    av,
                    cs[k].announcement_id@,
                ).contains(b),
    )
}

/// Over all its creations, `asserters_upto` is the scope's successor set.
proof fn lemma_asserters_upto_all(cs: Seq<Creation>, av: Seq<AssertionView>, coin: Seq<u8>)
    requires
        ids_unique(cs),
    ensures
        asserters_upto(cs, av, coin, cs.len() as int) == successors_in(creation_map(cs), av, coin),
{
    lemma_creation_map_entries(cs);
    let m = creation_map(cs);
    assert forall|b: Seq<u8>|
        #[trigger] asserters_upto(cs, av, coin, cs.len() as int).contains(b) implies successors_in(
            m,
            av,
            coin,
        ).contains(b) by {
        let k = choose|k: int|
            0 <= k < cs.len() && cs[k].coin_id@ == coin && #[trigger] asserters_of(
                av,
                cs[k].announcement_id@,
            ).contains(b);
        let j = choose|j: int|
            0 <= j < av.len() && #[trigger] av[j].announcement_id == cs[k].announcement_id@
                && av[j].coin_id == b;
        let key = cs[k].announcement_id@;
        assert(m.contains_key(key));
        assert(m[key] == cs[k]@);
    }
    assert forall|b: Seq<u8>|
        #[trigger] successors_in(m, av, coin).contains(b) implies asserters_upto(
            cs,
            av,
            coin,
            cs.len() as int,
        ).contains(b) by {
        let (key, j) = choose|key: Seq<u8>, j: int|
            m.contains_key(key) && m[key].coin_id == coin && 0 <= j < av.len()
                && av[j].announcement_id == m[key].announcement_id && av[j].coin_id == b;
        let k = choose|k: int| 0 <= k < cs.len() && cs[k].announcement_id@ == key;
        assert(m[cs[k].announcement_id@] == cs[k]@);
        assert(asserters_of(av, cs[k].announcement_id@).contains(b));
    }
    assert(asserters_upto(cs, av, coin, cs.len() as int) =~= successors_in(m, av, coin));
}

/// Adds to `out` the coins that assert an announcement of `coin` in one
/// scope.
fn add_scope_successors(
    creations: &Vec<Creation>,
    assertions: &Vec<Assertion>,
    coin: &Bytes32,
    out: &mut Vec<Bytes32>,
)
    requires
        ids_unique(creations@),
        views(old(out)@).no_duplicates(),
    ensures
        views(final(out)@).no_duplicates(),
        id_set(final(out)@) == id_set(old(out)@) + successors_in(
            creation_map(creations@),
            assertion_views(assertions@),
            coin@,
        ),
{
    let ghost av = assertion_views(assertions@);
    let ghost cs = creations@;
    let ghost start = id_set(out@);
    let mut i: usize = 0;
    while i < creations.len()
        invariant
            i <= cs.len(),
            cs == creations@,
            av == assertion_views(assertions@),
            views(out@).no_duplicates(),
            id_set(out@) == start + asserters_upto(cs, av, coin@, i as int),
        decreases cs.len() - i,
    {
        let cr = &creations[i];
        let mine = same_id(&cr.coin_id, coin);
        if mine {
            add_asserters(assertions, &cr.announcement_id, out);
        }
        proof {
            let s0 = asserters_upto(cs, av, coin@, i as int);
            let s1 = asserters_upto(cs, av, coin@, i + 1);
            let extra = if mine {
                asserters_of(av, cs[i as int].announcement_id@)
            } else {
                Set::empty()
            };
            assert forall|b: Seq<u8>| #[trigger] s1.contains(b) implies s0.contains(b) || extra.contains(b) by {
                let k = choose|k: int|
                    0 <= k < i + 1 && cs[k].coin_id@ == coin@ && #[trigger] asserters_of(
                        av,
                        cs[k].announcement_id@,
                    ).contains(b);
                if k < i {
                    assert(s0.contains(b));
                }
            }
            assert forall|b: Seq<u8>| #[trigger] extra.contains(b) implies s1.contains(b) by {
                assert(asserters_of(av, cs[i as int].announcement_id@).contains(b));
            }
            assert forall|b: Seq<u8>| #[trigger] s0.contains(b) implies s1.contains(b) by {
                let k = choose|k: int|
                    0 <= k < i && cs[k].coin_id@ == coin@ && #[trigger] asserters_of(
                        av,
                        cs[k].announcement_id@,
                    ).contains(b);
                assert(asserters_of(av, cs[k].announcement_id@).contains(b));
            }
            assert(s1 =~= s0 + extra);
            assert(id_set(out@) =~= start + s1);
        }
        i = i + 1;
    }
    proof {
        lemma_asserters_upto_all(cs, av, coin@);
    }
}

/// The coins whose spends directly require `coin_id`'s spend: those that
/// assert a coin or puzzle announcement created by `coin_id`. Each appears
/// once.
pub fn coins_directly_asserted_by(coin_id: Bytes32, announcements: &AnnouncementIndex) -> (r: Vec<
    Bytes32,
>)
    requires
        announcements.wf(),
    ensures
        views(r@).no_duplicates(),
        id_set(r@) == direct_successors(announcements@, coin_id@),
{
    let mut out: Vec<Bytes32> = Vec::new();
    assert(views(out@) =~= Seq::<Seq<u8>>::empty());
    assert(id_set(out@) =~= Set::empty());
    add_scope_successors(&announcements.create_coin, &announcements.assert_coin, &coin_id, &mut out);
    add_scope_successors(
        &announcements.create_puzzle,
        &announcements.assert_puzzle,
        &coin_id,
        &mut out,
    );
    assert(id_set(out@) =~= direct_successors(announcements@, coin_id@));
    out
}

/// `p` follows creation-to-assertion edges from each coin to the next.
pub open spec fn is_path(m: IndexModel, p: Seq<Seq<u8>>) -> bool {
    forall|i: int| 0 <= i < p.len() - 1 ==> direct_successors(m, #[trigger] p[i]).contains(p[i + 1])
}

/// `b` can be reached from `a` by following one or more edges.
pub open spec fn reaches(m: IndexModel, a: Seq<u8>, b: Seq<u8>) -> bool {
    exists|p: Seq<Seq<u8>>| p.len() >= 2 && p[0] == a && p[p.len() - 1] == b && is_path(m, p)
}

/// Every coin whose spend transitively requires coin `a`'s spend. `a`
/// itself belongs to it only when a cycle of edges leads back to it.
pub open spec fn reachable_from(m: IndexModel, a: Seq<u8>) -> Set<Seq<u8>> {
    Set::new(|b: Seq<u8>| reaches(m, a, b))
}

/// Every coin that asserts an announcement, in either scope.
pub open spec fn asserting_coins(m: IndexModel) -> Set<Seq<u8>> {
    m.assert_coin.map_values(|a: AssertionView| a.coin_id).to_set() + m.assert_puzzle.map_values(
        |a: AssertionView| a.coin_id,
    ).to_set()
}

/// Only asserting coins are successors, and there are finitely many of them.
proof fn lemma_successors_assert(m: IndexModel, c: Seq<u8>)
    ensures
        direct_successors(m, c).subset_of(asserting_coins(m)),
        asserting_coins(m).finite(),
{
    let fc = m.assert_coin.map_values(|a: AssertionView| a.coin_id);
    let fp = m.assert_puzzle.map_values(|a: AssertionView| a.coin_id);
    assert forall|b: Seq<u8>| #[trigger] direct_successors(m, c).contains(b) implies asserting_coins(m).contains(b) by {
        if successors_in(m.create_coin, m.assert_coin, c).contains(b) {
            let (k, j) = choose|k: Seq<u8>, j: int|
                m.create_coin.contains_key(k) && m.create_coin[k].coin_id == c && 0 <= j
                    < m.assert_coin.len() && m.assert_coin[j].announcement_id
                    == m.create_coin[k].announcement_id && m.assert_coin[j].coin_id == b;
            assert(fc[j] == b);
            assert(fc.to_set().contains(b));
        } else {
            let (k, j) = choose|k: Seq<u8>, j: int|
                m.create_puzzle.contains_key(k) && m.create_puzzle[k].coin_id == c && 0 <= j
                    < m.assert_puzzle.len() && m.assert_puzzle[j].announcement_id
                    == m.create_puzzle[k].announcement_id && m.assert_puzzle[j].coin_id == b;
            assert(fp[j] == b);
            assert(fp.to_set().contains(b));
        }
    }
    vstd::seq_lib::seq_to_set_is_finite(fc);
    vstd::seq_lib::seq_to_set_is_finite(fp);
}

/// One more edge after `c` reaches `b` from `a`.
proof fn lemma_reaches_step(m: IndexModel, a: Seq<u8>, c: Seq<u8>, b: Seq<u8>)
    requires
        c == a || reaches(m, a, c),
        direct_successors(m, c).contains(b),
    ensures
        reaches(m, a, b),
{
    if reaches(m, a, c) {
        let p = choose|p: Seq<Seq<u8>>|
            p.len() >= 2 && p[0] == a && p[p.len() - 1] == c && is_path(m, p);
        let q = p.push(b);
        assert forall|i: int| 0 <= i < q.len() - 1 implies direct_successors(m, #[trigger] q[i]).contains(q[i + 1]) by {
            if i < p.len() - 1 {
                assert(q[i] == p[i] && q[i + 1] == p[i + 1]);
            }
        }
        assert(is_path(m, q));
    } else {
        let q = seq![a, b];
        assert(is_path(m, q));
    }
}

/// In a set that holds the successors of `a` and of each of its own
/// members, every coin after the start of a path from `a` is a member.
proof fn lemma_path_stays(m: IndexModel, a: Seq<u8>, s: Set<Seq<u8>>, p: Seq<Seq<u8>>, i: int)
    requires
        forall|x: Seq<u8>|
            (x == a || s.contains(x)) ==> #[trigger] direct_successors(m, x).subset_of(s),
        p.len() >= 2,
        p[0] == a,
        is_path(m, p),
        1 <= i < p.len(),
    ensures
        s.contains(p[i]),
    decreases i,
{
    if i > 1 {
        lemma_path_stays(m, a, s, p, i - 1);
    }
    let prev = p[i - 1];
    assert(direct_successors(m, p[i - 1]).contains(p[i]));
    assert(direct_successors(m, prev).subset_of(s));
}

/// The coins whose spends transitively require `coin_id`'s spend, each once.
/// Each coin is expanded at most once, so cycles of announcements end the
/// search; `coin_id` is in the result only when such a cycle returns to it.
pub fn coins_asserted_by(coin_id: Bytes32, announcements: &AnnouncementIndex) -> (r: Vec<Bytes32>)
    requires
        announcements.wf(),
    ensures
        views(r@).no_duplicates(),
        id_set(r@) == reachable_from(announcements@, coin_id@),
{
    let ghost m = announcements@;
    let ghost u = asserting_coins(m);
    let ghost a = coin_id@;
    proof {
        lemma_successors_assert(m, a);
    }
    let mut coins: Vec<Bytes32> = Vec::new();
    let mut stack: Vec<Bytes32> = Vec::new();
    stack.push(coin_id);
    assert(views(coins@) =~= Seq::<Seq<u8>>::empty());
    assert(id_set(coins@) =~= Set::empty());
    assert(views(stack@) =~= seq![a]);
    assert(views(stack@)[0] == a);
    assert(id_set(stack@).contains(a));
    while stack.len() > 0
        invariant
            m == announcements@,
            announcements.wf(),
            u == asserting_coins(m),
            u.finite(),
            a == coin_id@,
            views(coins@).no_duplicates(),
            id_set(coins@).subset_of(u),
            coins@.len() <= u.len(),
            forall|x: Seq<u8>| #[trigger] id_set(coins@).contains(x) ==> reaches(m, a, x),
            forall|i: int|
                0 <= i < stack@.len() ==> (#[trigger] stack@[i])@ == a || id_set(coins@).contains(
                    stack@[i]@,
                ),
            forall|x: Seq<u8>|
                (x == a || id_set(coins@).contains(x)) && !id_set(stack@).contains(x)
                    ==> #[trigger] direct_successors(m, x).subset_of(id_set(coins@)),
        decreases u.len() - coins@.len(), stack@.len(),
    {
        let ghost coins0 = coins@;
        let ghost stack0 = stack@;
        let c = stack.pop().unwrap();
        proof {
            assert(stack0[stack0.len() - 1] == c);
            assert forall|x: Seq<u8>| x != c@ && #[trigger] id_set(stack0).contains(x) implies id_set(stack@).contains(x) by {
                let i = choose|i: int| 0 <= i < views(stack0).len() && views(stack0)[i] == x;
                assert(i < stack0.len() - 1);
                assert(views(stack@)[i] == x);
            }
            assert forall|x: Seq<u8>|
                x != c@ && (x == a || id_set(coins@).contains(x)) && !id_set(stack@).contains(x)
                    implies #[trigger] direct_successors(m, x).subset_of(id_set(coins@)) by {
                assert(!id_set(stack0).contains(x));
            }
            assert(c@ == a || id_set(coins0).contains(c@)) by {
                assert(stack0[stack0.len() - 1] == c);
            }
        }
        let succ = coins_directly_asserted_by(c, announcements);
        let mut k: usize = 0;
        while k < succ.len()
            invariant
                m == announcements@,
                u == asserting_coins(m),
                a == coin_id@,
                direct_successors(m, c@) == id_set(succ@),
                c@ == a || id_set(coins0).contains(c@),
                k <= succ@.len(),
                views(coins@).no_duplicates(),
                id_set(coins@).subset_of(u),
                id_set(coins0).subset_of(id_set(coins@)),
                coins@.len() >= coins0.len(),
                coins@.len() - coins0.len() == stack@.len() - (stack0.len() - 1),
                forall|x: Seq<u8>| #[trigger] id_set(coins@).contains(x) ==> reaches(m, a, x),
                forall|i: int|
                    0 <= i < stack@.len() ==> (#[trigger] stack@[i])@ == a || id_set(
                        coins@,
                    ).contains(stack@[i]@),
                forall|x: Seq<u8>|
                    x != c@ && (x == a || id_set(coins@).contains(x)) && !id_set(stack@).contains(
                        x,
                    ) ==> #[trigger] direct_successors(m, x).subset_of(id_set(coins@)),
                forall|j: int| 0 <= j < k ==> id_set(coins@).contains(#[trigger] succ@[j]@),
            decreases succ@.len() - k,
        {
            let b = succ[k];
            let ghost coins1 = coins@;
            let ghost stack1 = stack@;
            proof {
                assert(views(succ@)[k as int] == b@);
                assert(direct_successors(m, c@).contains(b@));
                lemma_successors_assert(m, c@);
                lemma_reaches_step(m, a, c@, b@);
            }
            if insert_id(&mut coins, b) {
                stack.push(b);
                proof {
                    assert forall|x: Seq<u8>| #[trigger] id_set(stack1).contains(x) implies id_set(stack@).contains(x) by {
                        let i = choose|i: int| 0 <= i < views(stack1).len() && views(stack1)[i] == x;
                        assert(views(stack@)[i] == x);
                    }
                    assert(forall|i: int| 0 <= i < stack1.len() ==> stack@[i] == stack1[i]);
                    assert(views(stack@)[stack1.len() as int] == b@);
                    assert(id_set(stack@).contains(b@));
                }
            }
            proof {
                assert forall|x: Seq<u8>|
                    x != c@ && (x == a || id_set(coins@).contains(x)) && !id_set(stack@).contains(x)
                        implies #[trigger] direct_successors(m, x).subset_of(id_set(coins@)) by {
                    assert(x == a || id_set(coins1).contains(x));
                    assert(!id_set(stack1).contains(x));
                    assert(direct_successors(m, x).subset_of(id_set(coins1)));
                }
            }
            k = k + 1;
        }
        proof {
            assert forall|x: Seq<u8>| #[trigger] id_set(succ@).contains(x) implies id_set(coins@).contains(x) by {
                let j = choose|j: int| 0 <= j < views(succ@).len() && views(succ@)[j] == x;
                assert(succ@[j]@ == x);
            }
            views(coins@).unique_seq_to_set();
            vstd::set_lib::lemma_len_subset(id_set(coins@), u);
            assert(coins@.len() <= u.len());
            assert(coins@.len() >= coins0.len());
            assert(coins@.len() > coins0.len() || stack@.len() < stack0.len());
        }
    }
    proof {
        assert forall|x: Seq<u8>| (x == a || id_set(coins@).contains(x)) implies #[trigger] direct_successors(m, x).subset_of(id_set(coins@)) by {
            assert(!views(stack@).contains(x));
        }
        assert forall|b: Seq<u8>| #[trigger] reachable_from(m, a).contains(b) implies id_set(coins@).contains(b) by {
            let p = choose|p: Seq<Seq<u8>>|
                p.len() >= 2 && p[0] == a && p[p.len() - 1] == b && is_path(m, p);
            lemma_path_stays(m, a, id_set(coins@), p, p.len() - 1);
        }
        assert(id_set(coins@) =~= reachable_from(m, a));
    }
    coins
}

/// Only coins that assert an announcement can be reached.
proof fn lemma_reachable_assert(m: IndexModel, a: Seq<u8>)
    ensures
        reachable_from(m, a).subset_of(asserting_coins(m)),
{
    assert forall|b: Seq<u8>| #[trigger] reachable_from(m, a).contains(b) implies asserting_coins(m).contains(b) by {
        let p = choose|p: Seq<Seq<u8>>|
            p.len() >= 2 && p[0] == a && p[p.len() - 1] == b && is_path(m, p);
        let prev = p[p.len() - 2];
        assert(direct_successors(m, p[p.len() - 2]).contains(p[p.len() - 2 + 1]));
        lemma_successors_assert(m, prev);
    }
}

/// A coin that asserts an announcement created by coin `a` is a direct
/// successor of `a`.
pub proof fn lemma_creation_edge(m: IndexModel, a: Seq<u8>, b: Seq<u8>, x: Seq<u8>, j: int)
    requires
        m.create_coin.contains_key(x),
        m.create_coin[x].coin_id == a,
        0 <= j < m.assert_coin.len(),
        m.assert_coin[j] == (AssertionView { coin_id: b, announcement_id: m.create_coin[x].announcement_id }),
    ensures
        direct_successors(m, a).contains(b),
{
    assert(successors_in(m.create_coin, m.assert_coin, a).contains(b));
}

/// A coin that created no announcement has no successors, so nothing is
/// reachable from it.
pub proof fn lemma_no_creations_no_reach(m: IndexModel, c: Seq<u8>)
    requires
        forall|k: Seq<u8>| #[trigger] m.create_coin.contains_key(k) ==> m.create_coin[k].coin_id != c,
        forall|k: Seq<u8>| #[trigger] m.create_puzzle.contains_key(k) ==> m.create_puzzle[k].coin_id != c,
    ensures
        direct_successors(m, c) == Set::<Seq<u8>>::empty(),
        reachable_from(m, c) == Set::<Seq<u8>>::empty(),
{
    assert(direct_successors(m, c) =~= Set::<Seq<u8>>::empty());
    assert forall|b: Seq<u8>| !(#[trigger] reachable_from(m, c).contains(b)) by {
        if reaches(m, c, b) {
            let p = choose|p: Seq<Seq<u8>>|
                p.len() >= 2 && p[0] == c && p[p.len() - 1] == b && is_path(m, p);
            assert(direct_successors(m, p[0int]).contains(p[0int + 1]));
        }
    }
    assert(reachable_from(m, c) =~= Set::<Seq<u8>>::empty());
}

/// Edges are directed: with one announcement, created by `a` and asserted by
/// `b`, `b` follows `a` but `a` does not follow `b`.
pub proof fn lemma_edge_is_directed(m: IndexModel, a: Seq<u8>, b: Seq<u8>, x: Seq<u8>, cr: CreationView)
    requires
        a != b,
        cr.coin_id == a,
        cr.announcement_id == x,
        m.create_coin == map![x => cr],
        m.assert_coin == seq![AssertionView { coin_id: b, announcement_id: x }],
        m.create_puzzle == Map::<Seq<u8>, CreationView>::empty(),
        m.assert_puzzle == Seq::<AssertionView>::empty(),
    ensures
        direct_successors(m, a).contains(b),
        !direct_successors(m, b).contains(a),
{
    lemma_creation_edge(m, a, b, x, 0);
    lemma_no_creations_no_reach(m, b);
}

/// On a cycle of two coins, each asserting the other's announcement, the
/// search from `a` reaches `b` and, through `b`, `a` itself, and nothing
/// else.
pub proof fn lemma_two_coin_cycle(
    m: IndexModel,
    a: Seq<u8>,
    b: Seq<u8>,
    x: Seq<u8>,
    y: Seq<u8>,
    ca: CreationView,
    cb: CreationView,
)
    requires
        a != b,
        x != y,
        ca.coin_id == a,
        ca.announcement_id == x,
        cb.coin_id == b,
        cb.announcement_id == y,
        m.create_coin == map![x => ca, y => cb],
        m.assert_coin == seq![
            AssertionView { coin_id: b, announcement_id: x },
            AssertionView { coin_id: a, announcement_id: y },
        ],
        m.create_puzzle == Map::<Seq<u8>, CreationView>::empty(),
        m.assert_puzzle == Seq::<AssertionView>::empty(),
    ensures
        reachable_from(m, a) == set![a, b],
{
    lemma_creation_edge(m, a, b, x, 0);
    lemma_creation_edge(m, b, a, y, 1);
    let there = seq![a, b];
    assert(is_path(m, there));
    assert(reachable_from(m, a).contains(b));
    let round_trip = seq![a, b, a];
    assert(is_path(m, round_trip));
    assert(reachable_from(m, a).contains(a));
    lemma_reachable_assert(m, a);
    let fc = m.assert_coin.map_values(|v: AssertionView| v.coin_id);
    let fp = m.assert_puzzle.map_values(|v: AssertionView| v.coin_id);
    assert(fc =~= seq![b, a]);
    assert(fp =~= Seq::<Seq<u8>>::empty());
    assert forall|z: Seq<u8>| #[trigger] asserting_coins(m).contains(z) implies z == a || z == b by {
        if fc.to_set().contains(z) {
            let i = choose|i: int| 0 <= i < fc.len() && fc[i] == z;
        }
    }
    assert(reachable_from(m, a) =~= set![a, b]);
}

} // verus!
