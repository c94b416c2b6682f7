use announce_graph::{
    analyze, build_index, coins_asserted_by, coins_directly_asserted_by, derive_announcement_id,
    flatten, is_settlement_payment, same_id, settlement_reports, Bytes32, Condition, FlatRecord,
    IndexError, SpendRecord, SETTLEMENT_TAG,
};
use sha2::Digest;

fn id(n: u8) -> Bytes32 {
    [n; 32]
}

fn record(coin: u8, tags: Option<Vec<&str>>, conditions: Vec<Condition>) -> SpendRecord {
    SpendRecord {
        coin_id: id(coin),
        puzzle_hash: Some(id(coin + 100)),
        ty: "spend".to_string(),
        tags: tags.map(|t| t.into_iter().map(|s| s.to_string()).collect()),
        spend: true,
        conditions,
        children: vec![],
    }
}

fn flat(coin: u8, puzzle: Option<Bytes32>, tags: Option<Vec<&str>>, conditions: Vec<Condition>) -> FlatRecord {
    FlatRecord {
        coin_id: id(coin),
        puzzle_hash: puzzle,
        ty: "spend".to_string(),
        tags: tags.map(|t| t.into_iter().map(|s| s.to_string()).collect()),
        spend: true,
        conditions,
    }
}

fn create_coin_ann(msg: &[u8]) -> Condition {
    Condition::CreateCoinAnnouncement { vars: vec![msg.to_vec()] }
}

fn create_puzzle_ann(msg: &[u8]) -> Condition {
    Condition::CreatePuzzleAnnouncement { vars: vec![msg.to_vec()] }
}

fn assert_coin_ann(ann: Bytes32) -> Condition {
    Condition::AssertCoinAnnouncement { vars: vec![ann] }
}

fn assert_puzzle_ann(ann: Bytes32) -> Condition {
    Condition::AssertPuzzleAnnouncement { vars: vec![ann] }
}

fn sorted(mut v: Vec<Bytes32>) -> Vec<Bytes32> {
    v.sort();
    v
}

fn hex(b: &Bytes32) -> String {
    b.iter().map(|x| format!("{:02x}", x)).collect()
}

#[test]
fn announcement_id_of_zero_coin_and_empty_message() {
    let r = derive_announcement_id(&[0u8; 32], &[]);
    assert_eq!(hex(&r), "66687aadf862bd776c8fc18b8e9f8e20089714856ee233b3902a591d0d5f2925");
}

#[test]
fn announcement_id_hashes_source_then_message() {
    let source = id(7);
    let message = b"hello".to_vec();
    let mut data = source.to_vec();
    data.extend_from_slice(&message);
    let expected: [u8; 32] = sha2::Sha256::digest(&data).into();
    assert_eq!(derive_announcement_id(&source, &message), expected);
    assert_ne!(derive_announcement_id(&source, &message), source);
}

#[test]
fn announcement_id_is_deterministic() {
    let a = derive_announcement_id(&id(3), b"m");
    let b = derive_announcement_id(&id(3), b"m");
    assert_eq!(a, b);
    assert_ne!(a, derive_announcement_id(&id(3), b"n"));
    assert_ne!(a, derive_announcement_id(&id(4), b"m"));
}

#[test]
fn same_id_compares_every_byte() {
    let a = id(1);
    let mut b = id(1);
    assert!(same_id(&a, &b));
    b[31] = 2;
    assert!(!same_id(&a, &b));
}

#[test]
fn flatten_visits_every_depth_breadth_first() {
    let mut grandchild = record(4, None, vec![]);
    grandchild.children = vec![record(5, None, vec![])];
    let mut child = record(2, None, vec![]);
    child.children = vec![grandchild];
    let mut root1 = record(1, None, vec![]);
    root1.children = vec![child, record(3, None, vec![])];
    let root2 = record(6, None, vec![]);
    let out = flatten(vec![root1, root2]);
    let order: Vec<Bytes32> = out.iter().map(|r| r.coin_id).collect();
    assert_eq!(order, vec![id(1), id(6), id(2), id(3), id(4), id(5)]);
}

#[test]
fn flatten_of_empty_forest_is_empty() {
    assert!(flatten(vec![]).is_empty());
}

#[test]
fn coin_creation_is_indexed_by_derived_id() {
    let records = vec![flat(1, None, None, vec![create_coin_ann(b"m")])];
    let idx = build_index(&records).unwrap();
    assert_eq!(idx.create_coin.len(), 1);
    let c = &idx.create_coin[0];
    assert_eq!(c.announcement_id, derive_announcement_id(&id(1), b"m"));
    assert_eq!(c.coin_id, id(1));
    assert_eq!(c.message, b"m".to_vec());
}

#[test]
fn puzzle_creation_uses_puzzle_hash() {
    let records = vec![flat(1, Some(id(9)), None, vec![create_puzzle_ann(b"p")])];
    let idx = build_index(&records).unwrap();
    assert_eq!(idx.create_puzzle.len(), 1);
    assert_eq!(idx.create_puzzle[0].announcement_id, derive_announcement_id(&id(9), b"p"));
    assert_eq!(idx.create_puzzle[0].coin_id, id(1));
    assert_eq!(idx.create_puzzle[0].source_id, id(9));
}

#[test]
fn later_creation_with_same_id_wins() {
    let records = vec![
        flat(1, Some(id(9)), None, vec![create_puzzle_ann(b"p")]),
        flat(2, Some(id(9)), None, vec![create_puzzle_ann(b"p")]),
    ];
    let idx = build_index(&records).unwrap();
    assert_eq!(idx.create_puzzle.len(), 1);
    assert_eq!(idx.create_puzzle[0].coin_id, id(2));
}

#[test]
fn assertions_are_kept_in_order() {
    let records = vec![
        flat(1, None, None, vec![assert_coin_ann(id(50)), assert_puzzle_ann(id(51))]),
        flat(2, None, None, vec![assert_coin_ann(id(50))]),
    ];
    let idx = build_index(&records).unwrap();
    assert_eq!(idx.assert_coin.len(), 2);
    assert_eq!(idx.assert_coin[0].coin_id, id(1));
    assert_eq!(idx.assert_coin[1].coin_id, id(2));
    assert_eq!(idx.assert_puzzle.len(), 1);
    assert_eq!(idx.assert_puzzle[0].announcement_id, id(51));
}

#[test]
fn other_conditions_are_ignored() {
    let records = vec![flat(
        1,
        None,
        None,
        vec![
            Condition::CreateCoin {
                puzzle_hash: id(3),
                amount: 5,
                child_coin_id: id(4),
                address: "xch1".to_string(),
            },
            Condition::AssertMyCoinId { vars: vec![] },
            Condition::AggSigMe { vars: vec![] },
            Condition::ReserveFee { vars: vec![] },
        ],
    )];
    let idx = build_index(&records).unwrap();
    assert!(idx.create_coin.is_empty() && idx.create_puzzle.is_empty());
    assert!(idx.assert_coin.is_empty() && idx.assert_puzzle.is_empty());
}

#[test]
fn puzzle_announcement_without_puzzle_hash_is_missing_field() {
    let records = vec![flat(1, None, None, vec![create_puzzle_ann(b"p")])];
    assert_eq!(build_index(&records).unwrap_err(), IndexError::MissingField);
}

#[test]
fn empty_announcement_lists_are_invalid() {
    let empties = vec![
        Condition::CreateCoinAnnouncement { vars: vec![] },
        Condition::CreatePuzzleAnnouncement { vars: vec![] },
        Condition::AssertCoinAnnouncement { vars: vec![] },
        Condition::AssertPuzzleAnnouncement { vars: vec![] },
    ];
    for c in empties {
        let records = vec![flat(1, Some(id(9)), None, vec![c])];
        assert_eq!(build_index(&records).unwrap_err(), IndexError::InvalidCondition);
    }
}

#[test]
fn first_error_is_reported() {
    let records = vec![
        flat(1, None, None, vec![create_puzzle_ann(b"p")]),
        flat(2, None, None, vec![Condition::AssertCoinAnnouncement { vars: vec![] }]),
    ];
    assert_eq!(build_index(&records).unwrap_err(), IndexError::MissingField);
}

#[test]
fn direct_successor_edge_is_directed() {
    let x = derive_announcement_id(&id(1), b"m");
    let records = vec![
        flat(1, None, None, vec![create_coin_ann(b"m")]),
        flat(2, None, None, vec![assert_coin_ann(x)]),
    ];
    let idx = build_index(&records).unwrap();
    assert_eq!(coins_directly_asserted_by(id(1), &idx), vec![id(2)]);
    assert!(coins_directly_asserted_by(id(2), &idx).is_empty());
}

#[test]
fn direct_successors_cover_both_scopes_once() {
    let x = derive_announcement_id(&id(1), b"m");
    let y = derive_announcement_id(&id(101), b"p");
    let records = vec![
        flat(1, Some(id(101)), None, vec![create_coin_ann(b"m"), create_puzzle_ann(b"p")]),
        flat(2, None, None, vec![assert_coin_ann(x), assert_coin_ann(x)]),
        flat(3, None, None, vec![assert_puzzle_ann(y)]),
        flat(4, None, None, vec![assert_coin_ann(y)]),
    ];
    let idx = build_index(&records).unwrap();
    assert_eq!(sorted(coins_directly_asserted_by(id(1), &idx)), vec![id(2), id(3)]);
}

#[test]
fn closure_follows_chains() {
    let x = derive_announcement_id(&id(1), b"a");
    let y = derive_announcement_id(&id(2), b"b");
    let records = vec![
        flat(1, None, None, vec![create_coin_ann(b"a")]),
        flat(2, None, None, vec![assert_coin_ann(x), create_coin_ann(b"b")]),
        flat(3, None, None, vec![assert_coin_ann(y)]),
    ];
    let idx = build_index(&records).unwrap();
    assert_eq!(sorted(coins_asserted_by(id(1), &idx)), vec![id(2), id(3)]);
    assert_eq!(coins_asserted_by(id(2), &idx), vec![id(3)]);
}

#[test]
fn closure_terminates_on_a_cycle() {
    let x = derive_announcement_id(&id(1), b"a");
    let y = derive_announcement_id(&id(2), b"b");
    let records = vec![
        flat(1, None, None, vec![create_coin_ann(b"a"), assert_coin_ann(y)]),
        flat(2, None, None, vec![create_coin_ann(b"b"), assert_coin_ann(x)]),
    ];
    let idx = build_index(&records).unwrap();
    let reach = sorted(coins_asserted_by(id(1), &idx));
    assert!(reach.contains(&id(2)));
    assert_eq!(reach, vec![id(1), id(2)]);
}

#[test]
fn coin_without_creations_reaches_nothing() {
    let x = derive_announcement_id(&id(1), b"a");
    let records = vec![
        flat(1, None, None, vec![create_coin_ann(b"a")]),
        flat(2, None, None, vec![assert_coin_ann(x)]),
    ];
    let idx = build_index(&records).unwrap();
    assert!(coins_asserted_by(id(2), &idx).is_empty());
    assert!(coins_asserted_by(id(7), &idx).is_empty());
}

#[test]
fn end_to_end_settlement_payment() {
    let x = derive_announcement_id(&id(1), b"m");
    let roots = vec![
        record(1, Some(vec![SETTLEMENT_TAG]), vec![create_coin_ann(b"m")]),
        record(2, None, vec![assert_coin_ann(x)]),
        record(3, Some(vec!["other"]), vec![]),
    ];
    let reports = analyze(roots).unwrap();
    assert_eq!(reports.len(), 1);
    assert_eq!(reports[0].coin_id, id(1));
    assert_eq!(reports[0].coins, vec![id(2)]);
}

#[test]
fn end_to_end_reaches_nested_children() {
    let x = derive_announcement_id(&id(1), b"m");
    let mut parent = record(1, Some(vec!["a", SETTLEMENT_TAG]), vec![create_coin_ann(b"m")]);
    parent.children = vec![record(2, None, vec![assert_coin_ann(x)])];
    let reports = analyze(vec![parent]).unwrap();
    assert_eq!(reports.len(), 1);
    assert_eq!(reports[0].coins, vec![id(2)]);
}

#[test]
fn end_to_end_reports_index_errors() {
    let mut r = record(1, Some(vec![SETTLEMENT_TAG]), vec![create_puzzle_ann(b"p")]);
    r.puzzle_hash = None;
    assert_eq!(analyze(vec![r]).unwrap_err(), IndexError::MissingField);
}

#[test]
fn selector_skips_untagged_records() {
    let records = vec![
        flat(1, None, None, vec![]),
        flat(2, None, Some(vec![]), vec![]),
        flat(3, None, Some(vec!["settlement"]), vec![]),
        flat(4, None, Some(vec!["x", "settlement_payments"]), vec![]),
    ];
    assert!(!is_settlement_payment(&records[0]));
    assert!(!is_settlement_payment(&records[1]));
    assert!(!is_settlement_payment(&records[2]));
    assert!(is_settlement_payment(&records[3]));
    let idx = build_index(&records).unwrap();
    let reports = settlement_reports(&records, &idx);
    assert_eq!(reports.len(), 1);
    assert_eq!(reports[0].coin_id, id(4));
    assert!(reports[0].coins.is_empty());
}
