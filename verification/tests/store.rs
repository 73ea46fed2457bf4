use extsort::store::{encode_run, is_newline_free, unframe, write_record, StoreReader, NEWLINE};

fn rec(text: &str) -> Vec<u8> {
    text.as_bytes().to_vec()
}

#[test]
fn newline_in_record_is_found() {
    assert!(is_newline_free(&rec("")));
    assert!(is_newline_free(&rec("no line break here\r")));
    assert!(!is_newline_free(&rec("two\nlines")));
    assert!(!is_newline_free(&rec("\n")));
    assert!(!is_newline_free(&rec("end\n")));
}

#[test]
fn newline_is_line_feed() {
    assert_eq!(NEWLINE, b'\n');
}

#[test]
fn write_record_appends_record_and_newline() {
    let mut store = rec("x\n");
    write_record(&mut store, &rec("apple"));
    assert_eq!(store, rec("x\napple\n"));
    write_record(&mut store, &rec(""));
    assert_eq!(store, rec("x\napple\n\n"));
}

#[test]
fn encode_run_frames_each_record() {
    let run = vec![rec("apple"), rec("banana")];
    assert_eq!(encode_run(&run), rec("apple\nbanana\n"));
    assert_eq!(encode_run(&Vec::new()), Vec::<u8>::new());
}

#[test]
fn reader_gives_records_in_order() {
    let store = rec("apple\nbanana\ncherry\n");
    let mut reader = StoreReader::open(&store, 0);
    assert_eq!(reader.read_record(), Some(rec("apple")));
    assert_eq!(reader.read_record(), Some(rec("banana")));
    assert_eq!(reader.read_record(), Some(rec("cherry")));
    assert_eq!(reader.read_record(), None);
    assert_eq!(reader.read_record(), None);
}

#[test]
fn reader_starts_at_offset() {
    let store = rec("apple\nbanana\ncherry\n");
    let mut reader = StoreReader::open(&store, 6);
    assert_eq!(reader.read_record(), Some(rec("banana")));
    let mut inside = StoreReader::open(&store, 8);
    assert_eq!(inside.read_record(), Some(rec("nana")));
}

#[test]
fn reader_at_or_past_end_gives_nothing() {
    let store = rec("apple\n");
    assert_eq!(StoreReader::open(&store, 6).read_record(), None);
    assert_eq!(StoreReader::open(&store, 7).read_record(), None);
    assert_eq!(StoreReader::open(&store, u64::MAX).read_record(), None);
    let empty: Vec<u8> = Vec::new();
    assert_eq!(StoreReader::open(&empty, 0).read_record(), None);
}

#[test]
fn reader_takes_unterminated_tail_as_record() {
    let store = rec("apple\nban");
    let mut reader = StoreReader::open(&store, 0);
    assert_eq!(reader.read_record(), Some(rec("apple")));
    assert_eq!(reader.read_record(), Some(rec("ban")));
    assert_eq!(reader.read_record(), None);
}

#[test]
fn reader_gives_empty_records() {
    let store = rec("\n\na\n");
    let mut reader = StoreReader::open(&store, 0);
    assert_eq!(reader.read_record(), Some(rec("")));
    assert_eq!(reader.read_record(), Some(rec("")));
    assert_eq!(reader.read_record(), Some(rec("a")));
    assert_eq!(reader.read_record(), None);
}

#[test]
fn readers_are_independent() {
    let store = rec("a\nb\nc\n");
    let mut first = StoreReader::open(&store, 0);
    let mut second = StoreReader::open(&store, 2);
    assert_eq!(second.read_record(), Some(rec("b")));
    assert_eq!(first.read_record(), Some(rec("a")));
    assert_eq!(first.read_record(), Some(rec("b")));
    assert_eq!(second.read_record(), Some(rec("c")));
}

#[test]
fn written_run_is_read_back() {
    let run = vec![rec("one"), rec(""), rec("three")];
    let store = encode_run(&run);
    let mut reader = StoreReader::open(&store, 0);
    let mut back = Vec::new();
    while let Some(record) = reader.read_record() {
        back.push(record);
    }
    assert_eq!(back, run);
}

#[test]
fn unframe_takes_one_newline_off_the_end() {
    assert_eq!(unframe(rec("apple\n")), rec("apple"));
    assert_eq!(unframe(rec("apple")), rec("apple"));
    assert_eq!(unframe(rec("\n")), rec(""));
    assert_eq!(unframe(rec("")), rec(""));
    assert_eq!(unframe(rec("a\n\n")), rec("a\n"));
    assert_eq!(unframe(rec("a\r\n")), rec("a\r"));
}

#[test]
fn unframe_undoes_write_record() {
    let mut framed = Vec::new();
    write_record(&mut framed, &rec("some record"));
    assert_eq!(unframe(framed), rec("some record"));
}
