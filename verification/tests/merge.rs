use extsort::ingest::form_runs;
use extsort::merge::{MergeError, MergeFrontier, MergeStream};
use extsort::store::StoreReader;

fn rec(text: &str) -> Vec<u8> {
    text.as_bytes().to_vec()
}

#[test]
fn new_stream_stands_at_first_record() {
    let stream = MergeStream::new(3, 2, false, Some(rec("apple"))).unwrap().unwrap();
    assert_eq!(stream.peek(), &rec("apple"));
    assert_eq!(stream.run(), 3);
    assert!(stream.wants_more());
}

#[test]
fn new_stream_of_empty_last_run_is_discarded() {
    assert!(MergeStream::new(0, 2, true, None).unwrap().is_none());
}

#[test]
fn new_stream_of_empty_inner_run_is_corrupt() {
    let r = MergeStream::new(4, 2, false, None);
    assert_eq!(r.err(), Some(MergeError::CorruptStore { run: 4 }));
}

#[test]
fn new_stream_with_no_allowance_is_none() {
    assert!(MergeStream::new(0, 0, false, Some(rec("x"))).unwrap().is_none());
    assert!(MergeStream::new(0, 0, false, None).unwrap().is_none());
}

#[test]
fn next_gives_head_and_moves_on() {
    let stream = MergeStream::new(0, 3, false, Some(rec("a"))).unwrap().unwrap();
    let (record, rest) = stream.next(Some(rec("b"))).unwrap();
    assert_eq!(record, rec("a"));
    let rest = rest.unwrap();
    assert_eq!(rest.peek(), &rec("b"));
    assert_eq!(rest.run(), 0);
    assert!(rest.wants_more());
    let (record, rest) = rest.next(Some(rec("c"))).unwrap();
    assert_eq!(record, rec("b"));
    let rest = rest.unwrap();
    assert!(!rest.wants_more());
    let (record, rest) = rest.next(Some(rec("of the next run"))).unwrap();
    assert_eq!(record, rec("c"));
    assert!(rest.is_none());
}

#[test]
fn next_ends_last_run_at_end_of_store() {
    let stream = MergeStream::new(1, 5, true, Some(rec("a"))).unwrap().unwrap();
    let (record, rest) = stream.next(None).unwrap();
    assert_eq!(record, rec("a"));
    assert!(rest.is_none());
}

#[test]
fn next_reports_inner_run_cut_short() {
    let stream = MergeStream::new(1, 5, false, Some(rec("a"))).unwrap().unwrap();
    assert_eq!(stream.next(None).err(), Some(MergeError::CorruptStore { run: 1 }));
}

#[test]
fn frontier_gives_least_record_first() {
    let mut frontier = MergeFrontier::new();
    assert!(frontier.is_empty());
    let heads = ["pear", "apple", "fig", "banana", "cherry", "apple", "date"];
    for (run, head) in heads.iter().enumerate() {
        frontier.push(MergeStream::new(run, 1, true, Some(rec(head))).unwrap().unwrap());
        assert_eq!(frontier.len(), run + 1);
    }
    let mut got = Vec::new();
    while let Some(stream) = frontier.pop() {
        got.push(stream.peek().clone());
    }
    let mut expected: Vec<Vec<u8>> = heads.iter().map(|h| rec(h)).collect();
    expected.sort();
    assert_eq!(got, expected);
    assert!(frontier.is_empty());
    assert_eq!(frontier.len(), 0);
}

#[test]
fn frontier_pop_of_nothing_is_none() {
    let mut frontier = MergeFrontier::new();
    assert!(frontier.pop().is_none());
    frontier.push(MergeStream::new(0, 1, true, Some(rec("x"))).unwrap().unwrap());
    assert!(frontier.pop().is_some());
    assert!(frontier.pop().is_none());
}

#[test]
fn frontier_keeps_cursors_at_equal_records() {
    let mut frontier = MergeFrontier::new();
    for run in 0..5 {
        frontier.push(MergeStream::new(run, 1, true, Some(rec("same"))).unwrap().unwrap());
    }
    let mut runs = Vec::new();
    while let Some(stream) = frontier.pop() {
        assert_eq!(stream.peek(), &rec("same"));
        runs.push(stream.run());
    }
    runs.sort();
    assert_eq!(runs, vec![0, 1, 2, 3, 4]);
}

#[test]
fn frontier_merges_three_runs_by_hand() {
    let runs: Vec<Vec<&str>> = vec![vec!["a", "d", "g"], vec!["b", "e", "h"], vec!["c", "f"]];
    let mut at = vec![0usize; runs.len()];
    let mut frontier = MergeFrontier::new();
    for (run, records) in runs.iter().enumerate() {
        let first = records.get(0).map(|r| rec(r));
        at[run] = 1;
        let is_final = run + 1 == runs.len();
        if let Some(stream) = MergeStream::new(run, 3, is_final, first).unwrap() {
            frontier.push(stream);
        }
    }
    let mut out = Vec::new();
    let mut most = frontier.len();
    while let Some(top) = frontier.pop() {
        let run = top.run();
        let drawn = if top.wants_more() {
            let next = runs[run].get(at[run]).map(|r| rec(r));
            at[run] += 1;
            next
        } else {
            None
        };
        let (record, rest) = top.next(drawn).unwrap();
        out.push(record);
        if let Some(stream) = rest {
            frontier.push(stream);
        }
        most = most.max(frontier.len());
    }
    let expected: Vec<Vec<u8>> = ["a", "b", "c", "d", "e", "f", "g", "h"].iter().map(|r| rec(r)).collect();
    assert_eq!(out, expected);
    assert!(most <= runs.len());
}

fn peak_of_frontier(records: usize, runs: usize) -> (usize, usize) {
    let batch_size = records / runs;
    let mut input = Vec::new();
    for i in 0..records {
        input.push(rec(&format!("{:06}", (i * 7919) % records)));
    }
    let (store, index) = form_runs(input, batch_size);
    let mut readers = Vec::new();
    let mut frontier = MergeFrontier::new();
    for run in 0..index.len() {
        let mut reader = StoreReader::open(&store, index.offset(run));
        let first = reader.read_record();
        if let Some(stream) = MergeStream::new(run, index.limit, index.is_final(run), first).unwrap() {
            frontier.push(stream);
        }
        readers.push(reader);
    }
    let mut peak = frontier.len();
    let mut given = 0;
    while let Some(top) = frontier.pop() {
        let run = top.run();
        let drawn = if top.wants_more() { readers[run].read_record() } else { None };
        let (_, rest) = top.next(drawn).unwrap();
        given += 1;
        if let Some(stream) = rest {
            frontier.push(stream);
        }
        peak = peak.max(frontier.len());
    }
    (peak, given)
}

#[test]
fn frontier_holds_one_cursor_for_each_run_however_many_records() {
    for records in [40usize, 400, 4000] {
        let (peak, given) = peak_of_frontier(records, 4);
        assert_eq!(peak, 4);
        assert_eq!(given, records);
    }
}

#[test]
fn cursors_are_ordered_by_their_records() {
    let apple = MergeStream::new(9, 1, true, Some(rec("apple"))).unwrap().unwrap();
    let banana = MergeStream::new(0, 5, false, Some(rec("banana"))).unwrap().unwrap();
    let other_apple = MergeStream::new(3, 2, false, Some(rec("apple"))).unwrap().unwrap();
    assert!(apple.le(&banana));
    assert!(!banana.le(&apple));
    assert!(apple.le(&other_apple));
    assert!(other_apple.le(&apple));
}
