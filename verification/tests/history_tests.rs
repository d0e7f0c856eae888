use oisy_trade::history::{History, RangeEnd};
use oisy_trade::identity::UserId;
use oisy_trade::ids::{CursorNotFound, FillSeq};

type TestKey = FillSeq;
type TestStore = History<TestKey, u64>;

fn store() -> TestStore {
    History::new()
}

const ALICE: u64 = 1;
const BOB: u64 = 2;

fn user(id: u64) -> UserId {
    UserId::new(id)
}

#[test]
fn should_insert_and_get() {
    let mut store = store();
    store.insert_once(user(ALICE), TestKey::new(10), 100);
    assert_eq!(store.get(&TestKey::new(10)), Some(100));
    assert_eq!(store.len(), 1);
    assert!(store.contains_key(&TestKey::new(10)));
}

#[test]
fn should_return_none_for_missing_key() {
    let store = store();
    assert_eq!(store.get(&TestKey::new(10)), None);
    assert!(!store.contains_key(&TestKey::new(10)));
}

#[test]
fn should_write_back_only_a_changed_record() {
    let mut store = store();
    store.insert_once(user(ALICE), TestKey::new(10), 100);

    store.modify(&TestKey::new(10), |_record| (999, true));
    assert_eq!(store.get(&TestKey::new(10)), Some(999));

    store.modify(&TestKey::new(10), |_record| (0, false));
    assert_eq!(store.get(&TestKey::new(10)), Some(999));
}

struct PageCase {
    desc: &'static str,
    inserts: Vec<(u64, u64)>,
    user: u64,
    after: Option<u64>,
    length: usize,
    expected: Result<Vec<u64>, CursorNotFound>,
}

#[test]
fn should_page_by_user() {
    let cases = vec![
        PageCase {
            desc: "newest first, no cursor",
            inserts: vec![(ALICE, 10), (ALICE, 20), (ALICE, 30)],
            user: ALICE,
            after: None,
            length: 10,
            expected: Ok(vec![30, 20, 10]),
        },
        PageCase {
            desc: "page continues after cursor with next-older",
            inserts: vec![(ALICE, 10), (ALICE, 20), (ALICE, 30)],
            user: ALICE,
            after: Some(20),
            length: 10,
            expected: Ok(vec![10]),
        },
        PageCase {
            desc: "length clamps the page",
            inserts: vec![(ALICE, 10), (ALICE, 20), (ALICE, 30)],
            user: ALICE,
            after: None,
            length: 2,
            expected: Ok(vec![30, 20]),
        },
        PageCase {
            desc: "valid cursor with no older records is an empty page",
            inserts: vec![(ALICE, 10), (ALICE, 20)],
            user: ALICE,
            after: Some(10),
            length: 10,
            expected: Ok(vec![]),
        },
        PageCase {
            desc: "isolates owners: only the queried user's records",
            inserts: vec![(ALICE, 10), (BOB, 20), (ALICE, 30)],
            user: ALICE,
            after: None,
            length: 10,
            expected: Ok(vec![30, 10]),
        },
        PageCase {
            desc: "ordered by insertion sequence, not key value",
            inserts: vec![(ALICE, 30), (ALICE, 10), (ALICE, 20)],
            user: ALICE,
            after: None,
            length: 10,
            expected: Ok(vec![20, 10, 30]),
        },
        PageCase {
            desc: "unknown cursor is not found",
            inserts: vec![(ALICE, 10)],
            user: ALICE,
            after: Some(999),
            length: 10,
            expected: Err(CursorNotFound),
        },
        PageCase {
            desc: "foreign cursor (another user's record) is not found",
            inserts: vec![(ALICE, 10), (BOB, 20)],
            user: ALICE,
            after: Some(20),
            length: 10,
            expected: Err(CursorNotFound),
        },
        PageCase {
            desc: "unknown user yields an empty page",
            inserts: vec![(ALICE, 10)],
            user: BOB,
            after: None,
            length: 10,
            expected: Ok(vec![]),
        },
    ];

    for case in cases {
        let mut store = store();
        for (i, (u, key)) in case.inserts.iter().enumerate() {
            store.insert_once(user(*u), TestKey::new(*key), i as u64);
        }

        let got = store
            .page_by_user(user(case.user), case.after.map(TestKey::new), case.length)
            .map(|page| page.into_iter().map(TestKey::get).collect::<Vec<u64>>());

        assert_eq!(got, case.expected, "BUG ({}): page differs from expected", case.desc);
    }
}

struct RangeCase {
    desc: &'static str,
    lower: u64,
    upper: RangeEnd<u64>,
    length: usize,
    expected: Vec<u64>,
}

#[test]
fn should_range_primary_newest_first_within_bounds() {
    let cases = vec![
        RangeCase {
            desc: "inclusive upper bound",
            lower: 20,
            upper: RangeEnd::Included(40),
            length: 10,
            expected: vec![40, 30, 20],
        },
        RangeCase {
            desc: "excluded upper bound",
            lower: 20,
            upper: RangeEnd::Excluded(40),
            length: 10,
            expected: vec![30, 20],
        },
        RangeCase {
            desc: "length clamps the range",
            lower: 10,
            upper: RangeEnd::Included(40),
            length: 2,
            expected: vec![40, 30],
        },
    ];

    for case in cases {
        let mut store = store();
        for key in [10u64, 20, 30, 40] {
            store.insert_once(user(ALICE), TestKey::new(key), key);
        }
        let upper = match case.upper {
            RangeEnd::Included(k) => RangeEnd::Included(TestKey::new(k)),
            RangeEnd::Excluded(k) => RangeEnd::Excluded(TestKey::new(k)),
        };
        let got: Vec<u64> = store
            .range_primary(TestKey::new(case.lower), upper, case.length)
            .into_iter()
            .map(|(key, _)| key.get())
            .collect();
        assert_eq!(got, case.expected, "BUG ({}): range differs from expected", case.desc);
    }
}

#[test]
fn should_page_a_users_full_history_newest_first() {
    let keys: Vec<u64> = vec![7, 3, 11, 0, 42, 5];
    let mut store = store();
    for key in &keys {
        store.insert_once(user(ALICE), TestKey::new(*key), *key);
    }
    let paged: Vec<u64> = store
        .page_by_user(user(ALICE), None, keys.len() + 1)
        .expect("no cursor is never not-found")
        .into_iter()
        .map(TestKey::get)
        .collect();
    let mut expected = keys;
    expected.reverse();
    assert_eq!(paged, expected);
}

#[test]
fn should_walk_full_history_via_cursor() {
    let count = 12u64;
    let mut store = store();
    for key in 0..count {
        store.insert_once(user(ALICE), TestKey::new(key), key);
    }
    let mut walked = vec![];
    let mut after = None;
    loop {
        let page = store.page_by_user(user(ALICE), after, 1).expect("valid cursor");
        let Some(key) = page.first().copied() else { break };
        walked.push(key.get());
        after = Some(key);
    }
    let expected: Vec<u64> = (0..count).rev().collect();
    assert_eq!(walked, expected);
}

#[test]
fn two_pages_make_the_longer_page() {
    let mut store = store();
    for (i, key) in [5u64, 9, 1, 7, 3].iter().enumerate() {
        let owner = if i % 2 == 0 { ALICE } else { BOB };
        store.insert_once(user(owner), TestKey::new(*key), *key);
    }
    store.insert_once(user(ALICE), TestKey::new(100), 100);
    let first = store.page_by_user(user(ALICE), None, 2).unwrap();
    let second = store.page_by_user(user(ALICE), Some(*first.last().unwrap()), 5).unwrap();
    let whole = store.page_by_user(user(ALICE), None, 7).unwrap();
    let mut joined = first.clone();
    joined.extend(second);
    assert_eq!(joined, whole);
    assert_eq!(whole.into_iter().map(TestKey::get).collect::<Vec<_>>(), vec![100, 3, 1, 5]);
}

#[test]
fn iter_primary_lists_records_in_key_order() {
    let mut store = store();
    for key in [30u64, 10, 20] {
        store.insert_once(user(ALICE), TestKey::new(key), key * 2);
    }
    let all: Vec<(u64, u64)> = store.iter_primary().into_iter().map(|(k, v)| (k.get(), v)).collect();
    assert_eq!(all, vec![(10, 20), (20, 40), (30, 60)]);
}

#[test]
fn iter_by_user_groups_each_users_records_oldest_first() {
    let mut store = store();
    store.insert_once(user(BOB), TestKey::new(5), 0);
    store.insert_once(user(ALICE), TestKey::new(9), 0);
    store.insert_once(user(BOB), TestKey::new(1), 0);
    store.insert_once(user(ALICE), TestKey::new(3), 0);
    let got: Vec<(u64, u64, u64)> = store.iter_by_user().into_iter().map(|(u, s, k)| (u.get(), s, k.get())).collect();
    assert_eq!(got, vec![(ALICE, 1, 9), (ALICE, 3, 3), (BOB, 0, 5), (BOB, 2, 1)]);
}
