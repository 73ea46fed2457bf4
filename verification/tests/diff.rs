use extsort::diff::{diff_naive, diff_sorted, diff_step, DiffStep};

fn rec(text: &str) -> Vec<u8> {
    text.as_bytes().to_vec()
}

fn recs(texts: &[&str]) -> Vec<Vec<u8>> {
    texts.iter().map(|t| rec(t)).collect()
}

#[test]
fn step_of_two_ended_inputs_is_done() {
    assert_eq!(diff_step(None, None), DiffStep::Done);
}

#[test]
fn step_with_one_ended_input_takes_the_other() {
    assert_eq!(diff_step(Some(&rec("a")), None), DiffStep::FirstOnly);
    assert_eq!(diff_step(None, Some(&rec("a"))), DiffStep::SecondOnly);
}

#[test]
fn step_takes_the_lesser_record() {
    assert_eq!(diff_step(Some(&rec("a")), Some(&rec("b"))), DiffStep::FirstOnly);
    assert_eq!(diff_step(Some(&rec("b")), Some(&rec("a"))), DiffStep::SecondOnly);
    assert_eq!(diff_step(Some(&rec("a")), Some(&rec("ab"))), DiffStep::FirstOnly);
}

#[test]
fn step_of_equal_records_is_both() {
    assert_eq!(diff_step(Some(&rec("same")), Some(&rec("same"))), DiffStep::Both);
    assert_eq!(diff_step(Some(&rec("")), Some(&rec(""))), DiffStep::Both);
}

#[test]
fn diff_sorted_splits_into_three_parts() {
    let d = diff_sorted(&recs(&["a", "b", "d", "f"]), &recs(&["b", "c", "d", "e", "g"]));
    assert_eq!(d.first_only, recs(&["a", "f"]));
    assert_eq!(d.second_only, recs(&["c", "e", "g"]));
    assert_eq!(d.both, recs(&["b", "d"]));
}

#[test]
fn diff_sorted_with_empty_input() {
    let d = diff_sorted(&recs(&["a", "b"]), &Vec::new());
    assert_eq!(d.first_only, recs(&["a", "b"]));
    assert!(d.second_only.is_empty());
    assert!(d.both.is_empty());
    let e = diff_sorted(&Vec::new(), &recs(&["a", "b"]));
    assert!(e.first_only.is_empty());
    assert_eq!(e.second_only, recs(&["a", "b"]));
    let n = diff_sorted(&Vec::new(), &Vec::new());
    assert!(n.first_only.is_empty() && n.second_only.is_empty() && n.both.is_empty());
}

#[test]
fn diff_sorted_of_equal_inputs_is_all_both() {
    let lines = recs(&["a", "b", "c"]);
    let d = diff_sorted(&lines, &lines);
    assert!(d.first_only.is_empty());
    assert!(d.second_only.is_empty());
    assert_eq!(d.both, lines);
}

#[test]
fn diff_sorted_pairs_repeated_records_one_to_one() {
    let d = diff_sorted(&recs(&["a", "a", "b"]), &recs(&["a", "b", "b"]));
    assert_eq!(d.first_only, recs(&["a"]));
    assert_eq!(d.second_only, recs(&["b"]));
    assert_eq!(d.both, recs(&["a", "b"]));
}

#[test]
fn diff_naive_drops_repeated_records() {
    let d = diff_naive(recs(&["a", "a", "b", "c", "c", "c"]), Vec::new());
    assert_eq!(d.first_only, recs(&["a", "b", "c"]));
    let e = diff_naive(recs(&["", ""]), recs(&["", "", ""]));
    assert_eq!(e.both, recs(&[""]));
    assert!(e.first_only.is_empty() && e.second_only.is_empty());
}

#[test]
fn diff_naive_sorts_and_drops_repeats() {
    let d = diff_naive(recs(&["d", "a", "b", "a", "f"]), recs(&["g", "b", "e", "d", "c", "b"]));
    assert_eq!(d.first_only, recs(&["a", "f"]));
    assert_eq!(d.second_only, recs(&["c", "e", "g"]));
    assert_eq!(d.both, recs(&["b", "d"]));
}

#[test]
fn diff_naive_agrees_with_sets() {
    let a = recs(&["k", "c", "z", "c", "a", "m", "m"]);
    let b = recs(&["m", "b", "z", "y", "b"]);
    let sa: std::collections::BTreeSet<Vec<u8>> = a.iter().cloned().collect();
    let sb: std::collections::BTreeSet<Vec<u8>> = b.iter().cloned().collect();
    let d = diff_naive(a, b);
    assert_eq!(d.first_only, sa.difference(&sb).cloned().collect::<Vec<_>>());
    assert_eq!(d.second_only, sb.difference(&sa).cloned().collect::<Vec<_>>());
    assert_eq!(d.both, sa.intersection(&sb).cloned().collect::<Vec<_>>());
}
