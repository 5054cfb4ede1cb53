use dfa_min::partition::Partition;
use dfa_min::table::group_by_to;
use dfa_min::table::Table;

#[test]
fn smoke_test() {
    let mut p = Partition::new(vec!['a' as u64, 'b' as u64, 'c' as u64, 'd' as u64]);
    assert_eq!(p.len(), 1);

    p.mark('a' as u64);
    p.mark('c' as u64);
    p.split();
    assert_eq!(p.len(), 2);
    assert_eq!(p.owned(0), vec!['a' as u64, 'c' as u64]);
    assert_eq!(p.owned(1), vec!['b' as u64, 'd' as u64]);

    p.mark('a' as u64);
    p.mark('d' as u64);
    p.split();
    assert_eq!(p.len(), 4);
}

#[test]
fn split_of_fully_marked_set_is_noop() {
    let mut p = Partition::new(vec![10, 20]);
    p.mark(10);
    assert!(p.has_mark(10));
    assert!(!p.has_mark(20));
    p.mark(20);
    p.split();
    assert_eq!(p.len(), 1);
    assert_eq!(p.owned(0).len(), 2);
    assert!(!p.has_mark(10));
    assert!(!p.has_mark(20));
}

#[test]
fn owner_and_canonical_agree_after_split() {
    let mut p = Partition::new(vec![1, 2, 3, 4, 5]);
    p.mark(2);
    p.mark(4);
    p.split();
    assert_eq!(p.len(), 2);
    for v in [1u64, 2, 3, 4, 5] {
        let s = p.owner(v);
        assert!(p.owned(s).contains(&v));
        let c = p.canonical(s);
        assert_eq!(p.owner(c), s);
    }
    assert_ne!(p.owner(2), p.owner(1));
    assert_eq!(p.owner(2), p.owner(4));
    assert_eq!(p.owner(1), p.owner(3));
    assert_eq!(p.owner(1), p.owner(5));
}

#[test]
fn smaller_half_receives_the_fresh_set() {
    let mut p = Partition::new(vec![1, 2, 3, 4, 5]);
    p.mark(1);
    p.split();
    // the marked half {1} is smaller, so it moves to the fresh set id 1
    assert_eq!(p.len(), 2);
    assert_eq!(p.owned(1), vec![1]);
    assert_eq!(p.owner(1), 1);
    assert_eq!(p.owner(2), 0);
}

#[test]
fn table_len_counts_duplicates() {
    let t = Table::from_rows(vec![(1, 7, 2), (1, 7, 2), (3, 7, 4)]);
    assert_eq!(t.len(), 3);
}

#[test]
fn table_groupings_keep_order() {
    let t = Table::from_rows(vec![(1, 7, 2), (3, 7, 4), (1, 8, 2)]);
    let by_a = t.by_a();
    assert_eq!(by_a.len(), 2);
    assert_eq!(by_a[0].0, 1);
    assert_eq!(by_a[0].1, vec![(7, 2), (8, 2)]);
    assert_eq!(by_a[1].0, 3);
    assert_eq!(by_a[1].1, vec![(7, 4)]);
    let by_b = t.by_b();
    assert_eq!(by_b.len(), 2);
    assert_eq!(by_b[0].0, 7);
    assert_eq!(by_b[0].1, vec![(1, 2), (3, 4)]);
    assert_eq!(by_b[1].0, 8);
    assert_eq!(by_b[1].1, vec![(1, 2)]);
    let by_c = t.by_c();
    assert_eq!(by_c.len(), 2);
    assert_eq!(by_c[0].0, 2);
    assert_eq!(by_c[0].1, vec![(1, 7), (1, 8)]);
    assert_eq!(by_c[1].0, 4);
    assert_eq!(by_c[1].1, vec![(3, 7)]);
}

#[test]
fn group_by_to_groups_by_first_appearance() {
    let pairs: Vec<(u64, u64)> = vec![(5, 100), (6, 200), (5, 300)];
    let grouped = group_by_to(&pairs);
    assert_eq!(grouped.len(), 2);
    assert_eq!(grouped[0].0, 5);
    assert_eq!(grouped[0].1, vec![100, 300]);
    assert_eq!(grouped[1].0, 6);
    assert_eq!(grouped[1].1, vec![200]);
}

#[test]
fn empty_universe_has_one_empty_set() {
    let p = Partition::new(vec![]);
    assert_eq!(p.len(), 1);
    assert_eq!(p.owned(0), Vec::<u64>::new());
}
