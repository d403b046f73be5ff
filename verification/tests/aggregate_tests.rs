use procenv::classify::EnvVal;
use procenv::aggregate::{group_results, sort_records};

fn val(s: &str) -> EnvVal {
    EnvVal::Value(s.to_string())
}

#[test]
fn two_process_histogram() {
    // PID 10 carries PATH=/bin, PID 11 has no PATH: two groups of one,
    // tie broken by classification order, so the absent group first
    let records = vec![
        (val("/bin"), 10, None),
        (EnvVal::Nothing, 11, None),
    ];
    let groups = group_results(records);
    assert_eq!(groups.len(), 2);
    assert_eq!(groups[0].0, EnvVal::Nothing);
    assert_eq!(groups[0].1, vec![11]);
    assert_eq!(groups[1].0, val("/bin"));
    assert_eq!(groups[1].1, vec![10]);
}

#[test]
fn group_sizes_sum_to_record_count() {
    let records = vec![
        (EnvVal::Fail, 1, None),
        (EnvVal::Fail, 2, None),
        (EnvVal::Nothing, 3, None),
        (val("x"), 4, None),
        (val("x"), 5, None),
        (EnvVal::Fail, 6, None),
    ];
    let n = records.len();
    let groups = group_results(records);
    let total: usize = groups.iter().map(|g| g.1.len()).sum();
    assert_eq!(total, n);
    // every pid appears in exactly one group
    let mut seen: Vec<u32> = groups.iter().flat_map(|g| g.1.iter().copied()).collect();
    seen.sort_unstable();
    assert_eq!(seen, vec![1, 2, 3, 4, 5, 6]);
}

#[test]
fn smaller_groups_come_first() {
    let records = vec![
        (EnvVal::Fail, 1, None),
        (EnvVal::Fail, 2, None),
        (EnvVal::Nothing, 3, None),
        (val("x"), 4, None),
        (val("x"), 5, None),
    ];
    let groups = group_results(records);
    assert_eq!(groups.len(), 3);
    // the singleton group first, then the ties of two by classification
    assert_eq!(groups[0].0, EnvVal::Nothing);
    assert_eq!(groups[1].0, EnvVal::Fail);
    assert_eq!(groups[2].0, val("x"));
    let mut fails = groups[1].1.clone();
    fails.sort_unstable();
    assert_eq!(fails, vec![1, 2]);
    let mut xs = groups[2].1.clone();
    xs.sort_unstable();
    assert_eq!(xs, vec![4, 5]);
}

#[test]
fn detail_sort_orders_by_classification_then_pid() {
    let records = vec![
        (val("b"), 7, Some("b7".to_string())),
        (EnvVal::Nothing, 9, Some("n9".to_string())),
        (val("a"), 8, Some("a8".to_string())),
        (EnvVal::Fail, 12, Some("f12".to_string())),
        (val("a"), 2, Some("a2".to_string())),
        (EnvVal::Fail, 3, Some("f3".to_string())),
    ];
    let sorted = sort_records(records);
    let keys: Vec<(EnvVal, u32)> = sorted.iter().map(|r| (r.0.clone(), r.1)).collect();
    assert_eq!(
        keys,
        vec![
            (EnvVal::Fail, 3),
            (EnvVal::Fail, 12),
            (EnvVal::Nothing, 9),
            (val("a"), 2),
            (val("a"), 8),
            (val("b"), 7),
        ]
    );
    // the command lines travel with their records
    assert_eq!(sorted[0].2, Some("f3".to_string()));
    assert_eq!(sorted[5].2, Some("b7".to_string()));
}

#[test]
fn detail_sort_is_idempotent() {
    let records = vec![
        (val("z"), 4, None),
        (EnvVal::Fail, 1, None),
        (val("a"), 4, None),
        (val("a"), 4, None),
    ];
    let once = sort_records(records);
    let twice = sort_records(once.clone());
    assert_eq!(once, twice);
}

#[test]
fn every_record_appears_exactly_once() {
    let records = vec![
        (val("x"), 5, None),
        (val("x"), 5, None),
        (EnvVal::Nothing, 5, None),
    ];
    let sorted = sort_records(records.clone());
    assert_eq!(sorted.len(), records.len());
    assert_eq!(
        sorted,
        vec![
            (EnvVal::Nothing, 5, None),
            (val("x"), 5, None),
            (val("x"), 5, None),
        ]
    );
}

#[test]
fn empty_inputs_give_empty_outputs() {
    assert_eq!(group_results(Vec::new()), Vec::<(EnvVal, Vec<u32>)>::new());
    assert_eq!(sort_records(Vec::new()), Vec::<(EnvVal, u32, Option<String>)>::new());
}
