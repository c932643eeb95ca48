use compute_ratings::evidence::{EvidenceQueue, Participant, EVIDENCE_CAP};
use compute_ratings::report::{
    active_flags, assign_ranks, build_report, count_titles, rank_order, title_bound, title_index, title_name,
    NUM_TITLES,
};
use compute_ratings::standings::parse_standings;

#[test]
fn pull_ranges_untied_and_tied() {
    let st = parse_standings(b"4 t\na 1 1\nb 2 3\nc 2 3\nd 4 4\n".to_vec()).unwrap();
    assert_eq!(st.pull_ranges(0), (0, 1, 4));
    assert_eq!(st.pull_ranges(1), (1, 3, 4));
    assert_eq!(st.pull_ranges(2), (1, 3, 4));
    assert_eq!(st.pull_ranges(3), (3, 4, 4));
}

#[test]
fn single_contestant_has_no_pulls() {
    let st = parse_standings(b"1 t\nsolo 1 1\n".to_vec()).unwrap();
    assert_eq!(st.pull_ranges(0), (0, 1, 1));
}

#[test]
fn three_untied_pull_sets() {
    let st = parse_standings(b"3 t\nA 1 1\nB 2 2\nC 3 3\n".to_vec()).unwrap();
    let (a_up, a_down, n) = st.pull_ranges(0);
    let (b_up, b_down, _) = st.pull_ranges(1);
    let (c_up, c_down, _) = st.pull_ranges(2);
    assert_eq!(n, 3);
    assert!(a_up <= b_up && b_up <= c_up);
    assert!(a_down <= b_down && b_down <= c_down);
    assert_eq!((a_up, a_down), (0, 1));
    assert_eq!((c_up, c_down), (2, 3));
}

#[test]
fn titles_by_bound() {
    assert_eq!(title_index(-1000), None);
    assert_eq!(title_index(-999), Some(0));
    assert_eq!(title_index(999), Some(0));
    assert_eq!(title_index(1000), Some(1));
    assert_eq!(title_index(1599), Some(3));
    assert_eq!(title_index(2699), Some(8));
    assert_eq!(title_index(2700), Some(9));
    assert_eq!(title_index(5000), Some(10));
    assert_eq!(title_bound(4), 1600);
    assert_eq!(title_name(4), "Ex");
    assert_eq!(title_name(NUM_TITLES - 1), "LG");
    for t in 1..NUM_TITLES {
        assert!(title_bound(t - 1) < title_bound(t));
        assert_eq!(title_index(title_bound(t)), Some(t));
        assert_eq!(title_index(title_bound(t) - 1), Some(t - 1));
    }
}

#[test]
fn rank_order_descending_ties_by_index() {
    let r = vec![1500, 1800, 1500, 2100, 900];
    assert_eq!(rank_order(&r), vec![3, 1, 0, 2, 4]);
    assert_eq!(rank_order(&vec![]), Vec::<usize>::new());
    assert_eq!(rank_order(&vec![7, 7, 7]), vec![0, 1, 2]);
}

#[test]
fn report_order_repeats() {
    let r = vec![1200, 1650, 1650, 800, 2400, 1200];
    let first = rank_order(&r);
    let second = rank_order(&r);
    assert_eq!(first, second);
    assert_eq!(first, vec![4, 1, 2, 0, 5, 3]);
}

#[test]
fn dense_ranks_skip_inactive() {
    let order = vec![2, 0, 1, 3];
    let active = vec![true, false, true, true];
    assert_eq!(assign_ranks(&order, &active), vec![Some(1), Some(2), None, Some(3)]);
}

#[test]
fn active_flags_from_recent_events() {
    let last = vec![5, 9, 12];
    let recent = vec![9, 12, 20];
    assert_eq!(active_flags(&last, &recent), vec![false, true, true]);
}

#[test]
fn title_counts_only_active() {
    let ratings = vec![1250, 1399, 3100, -2000, 1250];
    let active = vec![true, true, true, true, false];
    let c = count_titles(&ratings, &active);
    assert_eq!(c.len(), NUM_TITLES);
    assert_eq!(c[2], 2);
    assert_eq!(c[10], 1);
    assert_eq!(c.iter().sum::<usize>(), 3);
}

#[test]
fn evidence_folds_oldest_when_full() {
    let mut q: EvidenceQueue<u32> = EvidenceQueue::with_limit(3);
    assert_eq!(q.push(1), None);
    assert_eq!(q.push(2), None);
    assert_eq!(q.push(3), None);
    assert_eq!(q.push(4), Some(1));
    assert_eq!(q.len(), 3);
    assert_eq!(*q.get(0), 2);
    assert_eq!(q.newest(), Some(&4));
    assert_eq!(q.max_len(), 3);
}

#[test]
fn evidence_cap_holds_at_default_limit() {
    let mut q: EvidenceQueue<usize> = EvidenceQueue::new();
    assert_eq!(q.max_len(), EVIDENCE_CAP);
    for i in 0..EVIDENCE_CAP {
        assert_eq!(q.push(i), None);
    }
    assert_eq!(q.push(EVIDENCE_CAP), Some(0));
    assert_eq!(q.len(), EVIDENCE_CAP);
    assert_eq!(*q.get(0), 1);
}

#[test]
fn evidence_update_in_order() {
    let mut q: EvidenceQueue<u64> = EvidenceQueue::with_limit(5);
    q.push(1);
    q.push(2);
    q.push(3);
    q.update_all(|x| x * 10);
    assert_eq!((*q.get(0), *q.get(1), *q.get(2)), (10, 20, 30));
    assert_eq!(q.len(), 3);
}

#[test]
fn participant_peak_never_falls() {
    let mut p: Participant<i64> = Participant::new();
    assert_eq!(p.peak_rating(), 0);
    p.note_rating(1320);
    assert_eq!(p.peak_rating(), 1320);
    p.note_rating(1100);
    assert_eq!(p.peak_rating(), 1320);
    p.publish(1100);
    p.stamp_event(42);
    assert_eq!(p.last_rating(), 1100);
    assert_eq!(p.last_event(), 42);
    assert_eq!(p.add_evidence(5), None);
    p.update_evidence(|x| x + 1);
    assert_eq!(p.evidence().newest(), Some(&6));
}

#[test]
fn report_layout_combines_order_ranks_and_titles() {
    let ratings = vec![1450, 2450, 1450, 950];
    let last = vec![1131, 1000, 1200, 1300];
    let recent = vec![1131, 1200, 1300];
    let layout = build_report(&ratings, &last, &recent);
    assert_eq!(layout.order, vec![1, 0, 2, 3]);
    assert_eq!(layout.ranks, vec![None, Some(1), Some(2), Some(3)]);
    assert_eq!(layout.title_counts[3], 2);
    assert_eq!(layout.title_counts[0], 1);
    assert_eq!(layout.title_counts[8], 0);
    let again = build_report(&ratings, &last, &recent);
    assert_eq!(again.order, layout.order);
    assert_eq!(again.ranks, layout.ranks);
    assert_eq!(again.title_counts, layout.title_counts);
}
