use extsort::cli::{Cli, Sub, DEFAULT_BATCH_SIZE};
use extsort::validate::{first_violation, SortedCheck};

fn rec(text: &str) -> Vec<u8> {
    text.as_bytes().to_vec()
}

fn recs(texts: &[&str]) -> Vec<Vec<u8>> {
    texts.iter().map(|t| rec(t)).collect()
}

#[test]
fn strictly_increasing_passes() {
    assert_eq!(first_violation(&recs(&["a", "b", "c", "d"])), None);
    assert_eq!(first_violation(&recs(&["a", "aa", "ab", "b"])), None);
}

#[test]
fn nothing_and_one_record_pass() {
    assert_eq!(first_violation(&Vec::new()), None);
    assert_eq!(first_violation(&recs(&["only"])), None);
}

#[test]
fn duplicate_is_reported_at_earlier_record() {
    assert_eq!(first_violation(&recs(&["a", "b", "b", "c"])), Some(1));
    assert_eq!(first_violation(&recs(&["a", "a"])), Some(0));
}

#[test]
fn descent_is_reported_at_earlier_record() {
    assert_eq!(first_violation(&recs(&["a", "c", "b", "d"])), Some(1));
    assert_eq!(first_violation(&recs(&["a", "b", "c", "a"])), Some(2));
}

#[test]
fn first_of_several_breaks_is_reported() {
    assert_eq!(first_violation(&recs(&["b", "a", "a", "0"])), Some(0));
    assert_eq!(first_violation(&recs(&["a", "b", "b", "a", "a"])), Some(1));
}

#[test]
fn streaming_check_accepts_increasing_records() {
    let mut check = SortedCheck::new();
    assert_eq!(check.seen(), 0);
    assert_eq!(check.accept(rec("a")), None);
    assert_eq!(check.accept(rec("b")), None);
    assert_eq!(check.accept(rec("c")), None);
    assert_eq!(check.seen(), 3);
}

#[test]
fn streaming_check_reports_place_of_earlier_record() {
    let mut check = SortedCheck::new();
    assert_eq!(check.accept(rec("a")), None);
    assert_eq!(check.accept(rec("c")), None);
    assert_eq!(check.accept(rec("b")), Some(1));
    assert_eq!(check.seen(), 2);
    assert_eq!(check.accept(rec("c")), Some(1));
    assert_eq!(check.accept(rec("d")), None);
    assert_eq!(check.seen(), 3);
}

#[test]
fn streaming_check_agrees_with_whole_check() {
    let samples: Vec<Vec<Vec<u8>>> = vec![
        recs(&[]),
        recs(&["x"]),
        recs(&["a", "b", "c"]),
        recs(&["a", "a"]),
        recs(&["a", "b", "a"]),
        recs(&["b", "a", "c"]),
    ];
    for sample in samples {
        let mut check = SortedCheck::new();
        let mut found = None;
        for record in sample.iter() {
            if let Some(at) = check.accept(record.clone()) {
                found = Some(at as usize);
                break;
            }
        }
        assert_eq!(found, first_violation(&sample));
    }
}

#[test]
fn sort_command_needs_positive_batch_size() {
    let sort = |batch_size: usize| Sub::ExternalSort {
        input: String::from("in"),
        output: String::from("out"),
        intermediate: String::from("tmp"),
        batch_size,
    };
    assert!(sort(1).is_well_formed());
    assert!(sort(DEFAULT_BATCH_SIZE).is_well_formed());
    assert!(!sort(0).is_well_formed());
    assert!(Sub::VerifyStringSortedDistinct { input: String::from("in") }.is_well_formed());
}

#[test]
fn default_batch_size_is_four_mebi() {
    assert_eq!(DEFAULT_BATCH_SIZE, 4 * 1024 * 1024);
}

#[test]
fn cli_holds_its_command() {
    let cli = Cli::new(Sub::VerifyStringSortedDistinct { input: String::from("lines.txt") });
    match cli.into_sub() {
        Sub::VerifyStringSortedDistinct { input } => assert_eq!(input, "lines.txt"),
        _ => panic!("another command came out"),
    }
}
