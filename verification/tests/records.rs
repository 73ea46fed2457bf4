use extsort::record::record_le;
use extsort::sorting::sort_records;

fn rec(text: &str) -> Vec<u8> {
    text.as_bytes().to_vec()
}

fn recs(texts: &[&str]) -> Vec<Vec<u8>> {
    texts.iter().map(|t| rec(t)).collect()
}

#[test]
fn first_differing_byte_decides() {
    assert!(record_le(&rec("apple"), &rec("banana")));
    assert!(!record_le(&rec("banana"), &rec("apple")));
    assert!(record_le(&rec("abc"), &rec("abd")));
    assert!(!record_le(&rec("abd"), &rec("abc")));
}

#[test]
fn prefix_comes_first() {
    assert!(record_le(&rec("a"), &rec("ab")));
    assert!(!record_le(&rec("ab"), &rec("a")));
    assert!(record_le(&rec(""), &rec("a")));
    assert!(!record_le(&rec("a"), &rec("")));
}

#[test]
fn equal_records_compare_both_ways() {
    assert!(record_le(&rec("same"), &rec("same")));
    assert!(record_le(&rec(""), &rec("")));
}

#[test]
fn order_is_by_unsigned_bytes() {
    assert!(record_le(&vec![0x7f], &vec![0x80]));
    assert!(!record_le(&vec![0xff], &vec![0x00, 0xff]));
    assert!(record_le(&rec("Z"), &rec("a")));
    assert!(record_le(&rec("10"), &rec("9")));
}

#[test]
fn order_agrees_with_std_on_samples() {
    let samples = recs(&["", "a", "ab", "abc", "b", "ba", "B", "0", "00", "zz", "z"]);
    for a in &samples {
        for b in &samples {
            assert_eq!(record_le(a, b), a <= b);
        }
    }
}

#[test]
fn sort_records_orders_a_batch() {
    let sorted = sort_records(recs(&["pear", "apple", "fig", "banana", "cherry"]));
    assert_eq!(sorted, recs(&["apple", "banana", "cherry", "fig", "pear"]));
}

#[test]
fn sort_records_keeps_duplicates() {
    let sorted = sort_records(recs(&["b", "a", "b", "a", "a"]));
    assert_eq!(sorted, recs(&["a", "a", "a", "b", "b"]));
}

#[test]
fn sort_records_of_nothing_and_of_one() {
    assert_eq!(sort_records(Vec::new()), Vec::<Vec<u8>>::new());
    assert_eq!(sort_records(recs(&["only"])), recs(&["only"]));
}

#[test]
fn sort_records_agrees_with_std_sort() {
    let mut lines: Vec<Vec<u8>> = Vec::new();
    let mut seed: u32 = 12345;
    for _ in 0..500 {
        seed = seed.wrapping_mul(1103515245).wrapping_add(12345);
        let len = (seed >> 16) % 6;
        let mut line = Vec::new();
        for _ in 0..len {
            seed = seed.wrapping_mul(1103515245).wrapping_add(12345);
            line.push(b'a' + ((seed >> 16) % 4) as u8);
        }
        lines.push(line);
    }
    let mut expected = lines.clone();
    expected.sort();
    assert_eq!(sort_records(lines), expected);
}
