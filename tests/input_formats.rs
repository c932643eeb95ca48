use compute_ratings::contests::{contains_id, events_since, get_contests, parse_id_list, remove_ids};
use compute_ratings::scanner::{parse_digits, Scanner};
use compute_ratings::standings::{parse_standings, StandingsError};

fn bytes(s: &str) -> Vec<u8> {
    s.as_bytes().to_vec()
}

#[test]
fn scanner_splits_on_ascii_whitespace() {
    let mut scan = Scanner::new(bytes("  ab\tc\r\n\x0cd  "));
    assert_eq!(scan.token_bytes(), Some(bytes("ab")));
    assert_eq!(scan.token_bytes(), Some(bytes("c")));
    assert_eq!(scan.token_bytes(), Some(bytes("d")));
    assert_eq!(scan.token_bytes(), None);
}

#[test]
fn scanner_reads_numbers() {
    let mut scan = Scanner::new(bytes("12 007 x9 "));
    assert_eq!(scan.token_usize(), Some(12));
    assert_eq!(scan.token_usize(), Some(7));
    assert_eq!(scan.token_usize(), None);
    assert_eq!(scan.token_usize(), None);
}

#[test]
fn scanner_next_bounds_positions() {
    let mut scan = Scanner::new(bytes(" xy z"));
    assert_eq!(scan.next_bounds(), Some((1, 3)));
    assert_eq!(scan.next_bounds(), Some((4, 5)));
    assert_eq!(scan.next_bounds(), None);
}

#[test]
fn scanner_rest_of_line() {
    let mut scan = Scanner::new(bytes("3 Round  One\nalice 1 1\n"));
    assert_eq!(scan.token_usize(), Some(3));
    assert_eq!(scan.rest_of_line(), bytes(" Round  One"));
    assert_eq!(scan.token_bytes(), Some(bytes("alice")));
}

#[test]
fn parse_digits_limits() {
    let max = bytes("18446744073709551615");
    assert_eq!(parse_digits(&max, 0, max.len()), Some(usize::MAX));
    let over = bytes("18446744073709551616");
    assert_eq!(parse_digits(&over, 0, over.len()), None);
    let empty = bytes("");
    assert_eq!(parse_digits(&empty, 0, 0), None);
    let sign = bytes("-4");
    assert_eq!(parse_digits(&sign, 0, 2), None);
    let mid = bytes("a905b");
    assert_eq!(parse_digits(&mid, 1, 4), Some(905));
}

#[test]
fn id_list_reads_count_then_ids() {
    assert_eq!(parse_id_list(bytes("3\n10 20\n30\n")), Some(vec![10, 20, 30]));
    assert_eq!(parse_id_list(bytes("2 10 20 99")), Some(vec![10, 20]));
    assert_eq!(parse_id_list(bytes("0")), Some(vec![]));
    assert_eq!(parse_id_list(bytes("3 10 20")), None);
    assert_eq!(parse_id_list(bytes("")), None);
    assert_eq!(parse_id_list(bytes("2 10 x")), None);
}

#[test]
fn contests_exclude_team_events_in_order() {
    let r = get_contests(bytes("2\n5 9\n"), bytes("6\n1 5 3 9 12 2\n"));
    assert_eq!(r, Some(vec![1, 3, 12, 2]));
    assert_eq!(get_contests(bytes("1"), bytes("2 1 2")), None);
    assert_eq!(get_contests(bytes("0"), bytes("2 1 2")), Some(vec![1, 2]));
}

#[test]
fn contains_and_remove_ids() {
    assert!(contains_id(&vec![4, 8], 8));
    assert!(!contains_id(&vec![4, 8], 5));
    assert!(!contains_id(&vec![], 5));
    assert_eq!(remove_ids(&vec![1, 2, 3, 2], &vec![2]), vec![1, 3]);
}

#[test]
fn events_since_first_occurrence() {
    let ev = vec![1000, 1131, 1200, 1131, 1300];
    assert_eq!(events_since(&ev, 1131), vec![1131, 1200, 1131, 1300]);
    assert_eq!(events_since(&ev, 1000), ev.clone());
    assert_eq!(events_since(&ev, 7), Vec::<usize>::new());
}

#[test]
fn standings_parse_with_ties() {
    let st = parse_standings(bytes("3 Div. 2 Round\nann 1 1\nbob 2 3\ncid 2 3\n")).unwrap();
    assert_eq!(st.title, bytes(" Div. 2 Round"));
    assert_eq!(st.entries.len(), 3);
    assert_eq!(st.entries[0].handle, bytes("ann"));
    assert_eq!((st.entries[0].rank_lo, st.entries[0].rank_hi), (0, 0));
    assert_eq!((st.entries[1].rank_lo, st.entries[1].rank_hi), (1, 2));
    assert_eq!((st.entries[2].rank_lo, st.entries[2].rank_hi), (1, 2));
    assert_eq!(st.entries[2].handle, bytes("cid"));
}

#[test]
fn standings_errors() {
    assert_eq!(parse_standings(bytes("x\n")).err(), Some(StandingsError::MissingCount));
    assert_eq!(parse_standings(bytes("")).err(), Some(StandingsError::MissingCount));
    assert_eq!(parse_standings(bytes("2 T\nann 1 1\n")).err(), Some(StandingsError::MalformedEntry));
    assert_eq!(parse_standings(bytes("1 T\nann 1 z\n")).err(), Some(StandingsError::MalformedEntry));
    assert_eq!(
        parse_standings(bytes("2 T\nann 1 1\nbob 1 3\n")).err(),
        Some(StandingsError::RankOutOfRange(1))
    );
    assert_eq!(
        parse_standings(bytes("2 T\nann 0 1\nbob 3 2\n")).err(),
        Some(StandingsError::RankOutOfRange(0))
    );
    assert_eq!(
        parse_standings(bytes("2 T\nann 2 2\nbob 1 2\n")).err(),
        Some(StandingsError::RankOutOfRange(0))
    );
    assert!(parse_standings(bytes("0 empty")).unwrap().entries.is_empty());
}

#[test]
fn title_only_line() {
    let st = parse_standings(bytes("1\nsolo 1 1")).unwrap();
    assert_eq!(st.title, Vec::<u8>::new());
    assert_eq!(st.entries[0].handle, bytes("solo"));
}

#[test]
fn numbers_may_carry_a_plus_sign() {
    let mut scan = Scanner::new(bytes("+5 + +x"));
    assert_eq!(scan.token_usize(), Some(5));
    assert_eq!(scan.token_usize(), None);
    assert_eq!(scan.token_usize(), None);
    let w = bytes("+0042");
    assert_eq!(parse_digits(&w, 0, w.len()), Some(42));
}
