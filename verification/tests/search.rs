#![allow(non_snake_case)]
use appender::search::{_find_subsequence, find_all, Scanner};

fn naive(data: &[u8], pattern: &[u8]) -> Vec<u64> {
    let mut all = Vec::new();
    if data.len() >= pattern.len() {
        for i in 0..=data.len() - pattern.len() {
            if &data[i..i + pattern.len()] == pattern {
                all.push(i as u64);
            }
        }
    }
    all
}

#[test]
fn subsequence_is_found_first() {
    assert_eq!(_find_subsequence(b"foo bar baz", b"foo"), Some(0));
    assert_eq!(_find_subsequence(b"foo bar baz", b"bar"), Some(4));
    assert_eq!(_find_subsequence(b"foo bar baz", b"ba"), Some(4));
    assert_eq!(_find_subsequence(b"foo bar baz", b"quux"), None);
    assert_eq!(_find_subsequence(b"ab", b"abc"), None);
    assert_eq!(_find_subsequence(b"", b"a"), None);
    assert_eq!(_find_subsequence(b"aaa", b"aa"), Some(0));
}

#[test]
fn subsequence_agrees_with_memmem() {
    let data = b"ODENODENDODEND--ODEND";
    for pattern in [&b"ODEND"[..], b"OD", b"D", b"--", b"X", b"ODENDO"] {
        assert_eq!(_find_subsequence(data, pattern), memchr::memmem::find(data, pattern));
    }
}

#[test]
fn every_occurrence_is_found_whatever_the_chunk_size() {
    let data = b"xxODENDyyODENODENDzODEND";
    let expected = naive(data, b"ODEND");
    assert_eq!(expected, vec![2, 13, 19]);
    for chunk in 1..=data.len() + 2 {
        assert_eq!(find_all(data, b"ODEND", chunk), expected, "chunk size {}", chunk);
    }
}

#[test]
fn overlapping_occurrences_are_all_found() {
    let data = b"aaaaaa";
    for chunk in 1..8 {
        assert_eq!(find_all(data, b"aa", chunk), vec![0, 1, 2, 3, 4]);
        assert_eq!(find_all(data, b"aaa", chunk), vec![0, 1, 2, 3]);
        assert_eq!(find_all(data, b"a", chunk), vec![0, 1, 2, 3, 4, 5]);
    }
    assert_eq!(find_all(b"", b"a", 3), Vec::<u64>::new());
    assert_eq!(find_all(b"ab", b"abc", 1), Vec::<u64>::new());
}

#[test]
fn pattern_split_at_a_chunk_boundary_is_found() {
    // the pattern starts at 6 and a chunk ends at 8, in the middle of it
    let data = b"......ODEND.....";
    assert_eq!(find_all(data, b"ODEND", 8), vec![6]);
    for split in 7..11 {
        let mut scanner = Scanner::new(b"ODEND");
        assert_eq!(scanner.feed(&data[..split]), Vec::<u64>::new());
        assert_eq!(scanner.position(), split as u64);
        assert_eq!(scanner.feed(&data[split..]), vec![6]);
        assert_eq!(scanner.position(), 16);
    }
}

#[test]
fn pattern_split_over_many_chunks_is_found() {
    let data = b"abODENDcd";
    let mut scanner = Scanner::new(b"ODEND");
    let mut found = Vec::new();
    for byte in data.iter() {
        found.extend(scanner.feed(&[*byte]));
    }
    assert_eq!(found, vec![2]);
    assert_eq!(scanner.feed(&[]), Vec::<u64>::new());
    assert_eq!(scanner.feed(b"ODEND"), vec![9]);
}

#[test]
fn occurrences_are_reported_once() {
    let mut scanner = Scanner::new(b"ab");
    assert_eq!(scanner.feed(b"abab"), vec![0, 2]);
    assert_eq!(scanner.feed(b"ab"), vec![4]);
    assert_eq!(scanner.feed(b"a"), Vec::<u64>::new());
    assert_eq!(scanner.feed(b"b"), vec![6]);
}

#[test]
fn chunked_search_agrees_with_a_plain_one() {
    let mut data = Vec::new();
    let mut state: u32 = 12345;
    for _ in 0..4000 {
        state = state.wrapping_mul(1103515245).wrapping_add(12345);
        data.push(b"ab"[((state >> 16) & 1) as usize]);
    }
    for pattern in [&b"abba"[..], b"aaaa", b"b", b"ababab"] {
        let expected = naive(&data, pattern);
        for chunk in [1usize, 2, 3, 5, 64, 1000, 4000, 5000] {
            assert_eq!(find_all(&data, pattern, chunk), expected);
        }
    }
}
