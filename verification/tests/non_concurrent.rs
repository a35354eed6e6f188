use lockfree::non_concurrent::bloom_filter::{BloomFilter, NUM_HASHES};
use lockfree::non_concurrent::suffix_array::{starts_with, SuffixArray};
use lockfree::non_concurrent::suffix_order::{compare_tails, search_suffix};
use std::cmp::Ordering;

#[test]
fn doesitwork() {
    let x = SuffixArray::new("CGTATGCGGCATGCTAGCTAGGCGTGTAGTGCTGGAGGTTTTTCGGATCGTAGCTAGTGCGTGTATTCAGTTTATTAATTATAATATCGAGTCGTGCAGTCGTACATGCATGCTGCA");
    println!("{:?}", x.longest_repeated_substring());
    println!("{:?}", x.shortest_non_repeated_substring());
    println!("{:?}", x.has_substring("TGCTGA"));
    assert_eq!(x.longest_repeated_substring(), Some("TAGCTAG"));
    assert_eq!(x.shortest_non_repeated_substring(), Some("AC"));
    assert!(!x.has_substring("TGCTGA"));
    assert!(x.has_substring("TGCTGG"));
}

#[test]
fn suffixes_of_banana() {
    let x = SuffixArray::new("banana");
    for suffix in ["a", "na", "ana", "nana", "anana", "banana"] {
        assert!(x.is_suffix(suffix));
        assert!(x.has_substring(suffix));
    }
    assert!(!x.is_suffix(""));
    assert!(!x.is_suffix("ban"));
    assert!(!x.is_suffix("bananas"));
    assert!(x.has_substring("ban"));
    assert!(x.has_substring("nan"));
    assert!(x.has_substring(""));
    assert!(!x.has_substring("nab"));
    // behind all suffixes in the order
    assert!(!x.has_substring("z"));
    assert_eq!(x.longest_repeated_substring(), Some("ana"));
    assert_eq!(x.shortest_non_repeated_substring(), Some("b"));
}

#[test]
fn suffix_array_of_short_texts() {
    let empty = SuffixArray::new("");
    assert!(!empty.is_suffix(""));
    assert!(!empty.has_substring(""));
    assert_eq!(empty.longest_repeated_substring(), None);
    assert_eq!(empty.shortest_non_repeated_substring(), None);
    let one = SuffixArray::new("a");
    assert!(one.is_suffix("a"));
    assert_eq!(one.longest_repeated_substring(), None);
    assert_eq!(one.shortest_non_repeated_substring(), None);
    let two = SuffixArray::new("aa");
    assert_eq!(two.longest_repeated_substring(), Some("a"));
    assert_eq!(two.shortest_non_repeated_substring(), Some("aa"));
    let different = SuffixArray::new("ab");
    assert_eq!(different.longest_repeated_substring(), None);
    assert_eq!(different.shortest_non_repeated_substring(), Some("b"));
}

#[test]
fn tails_compare_byte_by_byte() {
    let text = b"abcabd";
    assert_eq!(compare_tails(text, 0, text, 3), Ordering::Less);
    assert_eq!(compare_tails(text, 3, text, 0), Ordering::Greater);
    assert_eq!(compare_tails(text, 4, text, 1), Ordering::Greater);
    assert_eq!(compare_tails(text, 2, text, 2), Ordering::Equal);
    assert_eq!(compare_tails(text, 6, text, 5), Ordering::Less);
    assert_eq!(compare_tails(text, 0, b"abcabd", 0), Ordering::Equal);
    assert!(starts_with(text, 3, b"ab"));
    assert!(!starts_with(text, 3, b"abdx"));
    assert!(starts_with(text, 6, b""));
}

#[test]
fn search_finds_the_place_or_the_parting() {
    // the suffixes of "cab" in order: "ab", "b", "cab"
    let text = b"cab";
    let order = vec![1, 2, 0];
    assert_eq!(search_suffix(text, &order, b"b"), Ok(1));
    assert_eq!(search_suffix(text, &order, b"a"), Err(0));
    assert_eq!(search_suffix(text, &order, b"ba"), Err(2));
    assert_eq!(search_suffix(text, &order, b"d"), Err(3));
}

#[test]
fn basic_test() {
    let mut bf = BloomFilter::new(64);

    bf.add("hello");
    bf.add("world");
    bf.add("foo");
    bf.add("bar");
    assert!(bf.contains("hello"));
    assert!(!bf.contains("baz"));
    println!("{}", (bf.set_bits() as f64 / bf.bit_len() as f64).powi(NUM_HASHES as i32));
    for i in 0..10000 {
        if bf.contains(&i) {
            println!("{i}");
        }
    }
    assert_eq!(bf.len(), 4);
    assert!(!bf.is_empty());
    assert_eq!(bf.bit_len(), 64);
    assert!(bf.set_bits() <= 4 * NUM_HASHES);
}

#[test]
fn bloom_filter_by_hashes() {
    let mut bf = BloomFilter::new(100);
    assert_eq!(bf.bit_len(), 128);
    assert!(bf.is_empty());
    // the hashes fall onto the bits 0, 1, 64, 65 and 1 once more
    let hashes = vec![0, 1, 64, 128 + 65, 129];
    assert!(!bf.contains_hashes(&hashes));
    bf.add_hashes(&hashes);
    assert!(bf.contains_hashes(&hashes));
    assert_eq!(bf.len(), 1);
    assert_eq!(bf.set_bits(), 1);
    assert!(bf.contains_hashes(&vec![256 + 64, 1]));
    assert!(!bf.contains_hashes(&vec![0, 2]));
    // the same value again finds all of its bits set
    bf.add_hashes(&hashes);
    assert_eq!(bf.set_bits(), 6);
    assert_eq!(bf.hashes_of("a value").len(), NUM_HASHES);
}

#[test]
fn the_first_suffix_of_the_order_is_not_looked_at() {
    // "a" stands once too, at the start of the first suffix of the order
    let x = SuffixArray::new("abb");
    assert_eq!(x.shortest_non_repeated_substring(), Some("bb"));
    assert_eq!(x.longest_repeated_substring(), Some("b"));
    // overlapping places count
    assert_eq!(SuffixArray::new("aaa").longest_repeated_substring(), Some("aa"));
    assert_eq!(SuffixArray::new("abc").longest_repeated_substring(), None);
}
