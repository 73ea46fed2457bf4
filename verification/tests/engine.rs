use extsort::engine::{external_sort, sort_bytes, sort_lines};
use extsort::ingest::form_runs;
use extsort::kway::{merge_runs, read_run, RunMerge};
use extsort::merge::MergeError;
use extsort::run_writer::RunIndex;

fn rec(text: &str) -> Vec<u8> {
    text.as_bytes().to_vec()
}

fn recs(texts: &[&str]) -> Vec<Vec<u8>> {
    texts.iter().map(|t| rec(t)).collect()
}

fn pseudo_random_lines(count: usize, mut seed: u32) -> Vec<Vec<u8>> {
    let mut lines = Vec::new();
    for _ in 0..count {
        seed = seed.wrapping_mul(1664525).wrapping_add(1013904223);
        let len = (seed >> 24) % 5;
        let mut line = Vec::new();
        for _ in 0..len {
            seed = seed.wrapping_mul(1664525).wrapping_add(1013904223);
            line.push(b'a' + ((seed >> 24) % 3) as u8);
        }
        lines.push(line);
    }
    lines
}

#[test]
fn two_runs_of_two_records_are_merged() {
    let input = recs(&["banana", "apple", "cherry", "apple"]);
    let (store, index) = form_runs(input.clone(), 2);
    assert_eq!(store, rec("apple\nbanana\napple\ncherry\n"));
    assert_eq!(index.offsets, vec![0, 13]);
    let merged = merge_runs(&store, &index).unwrap();
    assert_eq!(merged, recs(&["apple", "apple", "banana", "cherry"]));
    assert_eq!(external_sort(input, 2), recs(&["apple", "apple", "banana", "cherry"]));
}

#[test]
fn runs_are_read_back_sorted() {
    let (store, index) = form_runs(recs(&["banana", "apple", "cherry", "apple"]), 2);
    assert_eq!(read_run(&store, index.offset(0), index.limit), recs(&["apple", "banana"]));
    assert_eq!(read_run(&store, index.offset(1), index.limit), recs(&["apple", "cherry"]));
}

#[test]
fn read_run_stops_at_limit_or_end_of_store() {
    let store = rec("a\nb\nc\n");
    assert_eq!(read_run(&store, 0, 2), recs(&["a", "b"]));
    assert_eq!(read_run(&store, 2, 5), recs(&["b", "c"]));
    assert_eq!(read_run(&store, 0, 0), Vec::<Vec<u8>>::new());
    assert_eq!(read_run(&store, 6, 3), Vec::<Vec<u8>>::new());
    assert_eq!(read_run(&store, 0, usize::MAX), recs(&["a", "b", "c"]));
}

#[test]
fn sort_bytes_sorts_lines_of_a_file() {
    assert_eq!(sort_bytes(&rec("banana\napple\ncherry\napple\n"), 2), rec("apple\napple\nbanana\ncherry\n"));
    assert_eq!(sort_bytes(&rec("b\na"), 1), rec("a\nb\n"));
    assert_eq!(sort_bytes(&rec("b\n\na\n"), 3), rec("\na\nb\n"));
    assert_eq!(sort_bytes(&Vec::new(), 4), Vec::<u8>::new());
}

#[test]
fn sort_lines_sorts_what_can_be_sorted() {
    assert_eq!(sort_lines(recs(&["b", "a", "c"]), 2), Some(recs(&["a", "b", "c"])));
    assert_eq!(sort_lines(Vec::new(), 1), Some(Vec::new()));
}

#[test]
fn sort_lines_refuses_empty_batches_and_broken_records() {
    assert_eq!(sort_lines(recs(&["b", "a"]), 0), None);
    assert_eq!(sort_lines(recs(&["b", "a\nc"]), 2), None);
    assert_eq!(sort_lines(recs(&["\n"]), 1), None);
}

#[test]
fn empty_input_gives_no_run_and_no_output() {
    let (store, index) = form_runs(Vec::new(), 2);
    assert_eq!(index.len(), 0);
    assert_eq!(merge_runs(&store, &index).unwrap(), Vec::<Vec<u8>>::new());
    assert_eq!(external_sort(Vec::new(), 1), Vec::<Vec<u8>>::new());
    assert_eq!(external_sort(Vec::new(), 1000), Vec::<Vec<u8>>::new());
}

#[test]
fn single_run_comes_back_unchanged() {
    let input = recs(&["delta", "alpha", "charlie", "bravo"]);
    for batch_size in [4usize, 5, 100] {
        let (store, index) = form_runs(input.clone(), batch_size);
        assert_eq!(index.len(), 1);
        assert_eq!(store, rec("alpha\nbravo\ncharlie\ndelta\n"));
        let merged = merge_runs(&store, &index).unwrap();
        assert_eq!(merged, recs(&["alpha", "bravo", "charlie", "delta"]));
    }
}

#[test]
fn identical_records_come_out_as_often() {
    for batch_size in [1usize, 2, 3, 7, 8, 50] {
        let input = vec![rec("same"); 7];
        assert_eq!(external_sort(input.clone(), batch_size), input);
    }
}

#[test]
fn output_is_sorted_permutation_for_every_batch_size() {
    let input = pseudo_random_lines(200, 7);
    let mut expected = input.clone();
    expected.sort();
    for batch_size in [1usize, 2, 3, 10, 64, 199, 200, 201, 1000] {
        assert_eq!(external_sort(input.clone(), batch_size), expected);
    }
}

#[test]
fn batch_size_one_is_plain_sort() {
    let input = recs(&["d", "b", "a", "c", "b"]);
    let (store, index) = form_runs(input.clone(), 1);
    assert_eq!(index.offsets, vec![0, 2, 4, 6, 8]);
    assert_eq!(store, rec("d\nb\na\nc\nb\n"));
    let mut expected = input.clone();
    expected.sort();
    assert_eq!(external_sort(input, 1), expected);
}

#[test]
fn sorted_input_is_unchanged() {
    let input = recs(&["a", "b", "b", "c", "d", "e", "f"]);
    for batch_size in [1usize, 2, 3, 4, 7, 10] {
        assert_eq!(external_sort(input.clone(), batch_size), input);
    }
}

#[test]
fn merge_reads_runs_from_a_given_store() {
    let store = rec("b\nd\na\nc\ne\n");
    let index = RunIndex { offsets: vec![0, 4], limit: 2 };
    assert_eq!(merge_runs(&store, &index).unwrap(), recs(&["a", "b", "c", "d"]));
    let wide = RunIndex { offsets: vec![4, 0], limit: 3 };
    let mut all = merge_runs(&store, &wide).unwrap();
    assert_eq!(all.len(), 6);
    all.sort();
    assert_eq!(all, recs(&["a", "a", "b", "c", "d", "e"]));
}

#[test]
fn merge_of_last_run_cut_by_end_of_store() {
    let store = rec("a\nc\nb\n");
    let index = RunIndex { offsets: vec![0, 4], limit: 2 };
    assert_eq!(merge_runs(&store, &index).unwrap(), recs(&["a", "b", "c"]));
}

#[test]
fn merge_reports_inner_run_cut_short() {
    let store = rec("a\nc\n");
    let index = RunIndex { offsets: vec![2, 0], limit: 2 };
    assert_eq!(merge_runs(&store, &index), Err(MergeError::CorruptStore { run: 0 }));
}

#[test]
fn merge_reports_empty_inner_run() {
    let store = rec("a\nb\n");
    let index = RunIndex { offsets: vec![0, 4, 0], limit: 2 };
    assert_eq!(merge_runs(&store, &index), Err(MergeError::CorruptStore { run: 1 }));
}

#[test]
fn merge_discards_empty_last_run() {
    let store = rec("a\nb\n");
    let index = RunIndex { offsets: vec![0, 4], limit: 2 };
    assert_eq!(merge_runs(&store, &index).unwrap(), recs(&["a", "b"]));
}

#[test]
fn merge_with_no_allowance_gives_nothing() {
    let store = rec("a\nb\n");
    let index = RunIndex { offsets: vec![0, 2], limit: 0 };
    assert_eq!(merge_runs(&store, &index).unwrap(), Vec::<Vec<u8>>::new());
}

#[test]
fn merge_of_unsorted_runs_keeps_all_records() {
    let store = rec("z\na\ny\nb\n");
    let index = RunIndex { offsets: vec![0, 4], limit: 2 };
    let mut merged = merge_runs(&store, &index).unwrap();
    assert_eq!(merged.len(), 4);
    merged.sort();
    assert_eq!(merged, recs(&["a", "b", "y", "z"]));
}

#[test]
fn many_runs_many_duplicates() {
    let mut input = Vec::new();
    for i in 0..300u32 {
        input.push(rec(&format!("{:03}", (i * 37) % 50)));
    }
    let mut expected = input.clone();
    expected.sort();
    assert_eq!(external_sort(input, 7), expected);
}

#[test]
fn run_merge_gives_records_one_at_a_time() {
    let (store, index) = form_runs(recs(&["d", "b", "c", "a", "e"]), 2);
    let mut merge = RunMerge::open(&store, &index).unwrap();
    assert_eq!(merge.active(), 3);
    assert_eq!(merge.next_record(), Ok(Some(rec("a"))));
    assert_eq!(merge.next_record(), Ok(Some(rec("b"))));
    assert_eq!(merge.next_record(), Ok(Some(rec("c"))));
    assert_eq!(merge.active(), 2);
    assert_eq!(merge.next_record(), Ok(Some(rec("d"))));
    assert_eq!(merge.active(), 1);
    assert_eq!(merge.next_record(), Ok(Some(rec("e"))));
    assert_eq!(merge.active(), 0);
    assert_eq!(merge.next_record(), Ok(None));
    assert_eq!(merge.next_record(), Ok(None));
}

#[test]
fn run_merge_of_no_runs_gives_nothing() {
    let store = Vec::new();
    let index = RunIndex { offsets: Vec::new(), limit: 4 };
    let mut merge = RunMerge::open(&store, &index).unwrap();
    assert_eq!(merge.active(), 0);
    assert_eq!(merge.next_record(), Ok(None));
}

#[test]
fn run_merge_refuses_empty_inner_run() {
    let store = rec("a\nb\n");
    let index = RunIndex { offsets: vec![4, 0], limit: 2 };
    assert_eq!(RunMerge::open(&store, &index).err(), Some(MergeError::CorruptStore { run: 0 }));
}

#[test]
fn run_merge_stays_given_up() {
    let store = rec("a\nc\nb\n");
    let index = RunIndex { offsets: vec![4, 0], limit: 2 };
    let mut merge = RunMerge::open(&store, &index).unwrap();
    assert_eq!(merge.next_record(), Ok(Some(rec("a"))));
    assert_eq!(merge.active(), 2);
    assert_eq!(merge.next_record(), Err(MergeError::CorruptStore { run: 0 }));
    assert_eq!(merge.active(), 0);
    assert_eq!(merge.next_record(), Err(MergeError::CorruptStore { run: 0 }));
    assert_eq!(merge.active(), 0);
}

#[test]
fn run_merge_counts_runs_that_have_not_ended() {
    let store = rec("a\nb\nc\n");
    let index = RunIndex { offsets: vec![0, 4], limit: 2 };
    let mut merge = RunMerge::open(&store, &index).unwrap();
    assert_eq!(merge.active(), 2);
    assert_eq!(merge.next_record(), Ok(Some(rec("a"))));
    assert_eq!(merge.active(), 2);
    assert_eq!(merge.next_record(), Ok(Some(rec("b"))));
    assert_eq!(merge.active(), 1);
    assert_eq!(merge.next_record(), Ok(Some(rec("c"))));
    assert_eq!(merge.active(), 0);
}

#[test]
fn run_merge_holds_no_more_cursors_than_runs() {
    for records in [30usize, 300, 3000] {
        let mut input = Vec::new();
        for i in 0..records {
            input.push(rec(&format!("{:05}", (i * 7919) % records)));
        }
        let (store, index) = form_runs(input, records / 3);
        let mut merge = RunMerge::open(&store, &index).unwrap();
        let mut peak = merge.active();
        let mut given = 0;
        while let Some(_) = merge.next_record().unwrap() {
            given += 1;
            peak = peak.max(merge.active());
        }
        assert_eq!(given, records);
        assert_eq!(peak, 3);
    }
}
