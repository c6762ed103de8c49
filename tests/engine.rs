use letter_cover::codec::make_bitset;
use letter_cover::dictionary::{count_bits, Dictionary};
use letter_cover::expand::gen_words;
use letter_cover::index::build_index;
use letter_cover::search::{
    find_combinations, is_complete, partition_combo, search_partition, union_of_all, Completion,
};
use std::collections::BTreeSet;

fn words(list: &[&str]) -> Vec<String> {
    list.iter().map(|w| w.to_string()).collect()
}

fn fingerprint_sets(bitsets: &[u32], combos: &[Vec<usize>]) -> BTreeSet<Vec<u32>> {
    combos
        .iter()
        .map(|c| {
            let mut f: Vec<u32> = c.iter().map(|&i| bitsets[i]).collect();
            f.sort();
            f
        })
        .collect()
}

fn parallel_sets(bitsets: &Vec<u32>, n: usize, policy: Completion) -> BTreeSet<Vec<u32>> {
    let mut all = BTreeSet::new();
    for (base, v) in build_index(bitsets) {
        for c in search_partition(base, &v, n - 1, policy) {
            let mut f: Vec<u32> = c.iter().map(|&i| v[i]).collect();
            f.push(base);
            f.sort();
            all.insert(f);
        }
    }
    all
}

#[test]
fn count_bits_counts() {
    assert_eq!(count_bits(0), 0);
    assert_eq!(count_bits(7), 3);
    assert_eq!(count_bits(u32::MAX), 32);
    assert_eq!(count_bits(make_bitset("abcde")), 5);
    assert_eq!(count_bits(make_bitset("aabbc")), 3);
}

#[test]
fn reduce_drops_repeated_letters() {
    let d = Dictionary::reduce_words(&words(&["aabbc", "ddeef"]), 5);
    assert!(d.bitsets.is_empty());
    assert!(d.groups.is_empty());
    assert!(find_combinations(&d.bitsets, 2, Completion::AnyDisjoint).is_empty());
}

#[test]
fn reduce_groups_anagrams_in_input_order() {
    let d = Dictionary::reduce_words(&words(&["fghij", "abcde", "hello", "bdcea", "jihgf"]), 5);
    assert_eq!(d.bitsets, vec![make_bitset("fghij"), make_bitset("abcde")]);
    assert_eq!(d.groups[0], words(&["fghij", "jihgf"]));
    assert_eq!(d.groups[1], words(&["abcde", "bdcea"]));
    assert_eq!(d.positions.get(&make_bitset("abcde")), Some(&1));
}

#[test]
fn index_keeps_later_disjoint_fingerprints() {
    let b = vec![make_bitset("abc"), make_bitset("def"), make_bitset("cgh"), make_bitset("xyz")];
    let idx = build_index(&b);
    assert_eq!(idx.len(), 4);
    assert_eq!(idx[0], (b[0], vec![b[1], b[3]]));
    assert_eq!(idx[1], (b[1], vec![b[2], b[3]]));
    assert_eq!(idx[2], (b[2], vec![b[3]]));
    assert_eq!(idx[3], (b[3], vec![]));
}

#[test]
fn five_disjoint_words_miss_z() {
    let list = words(&["abcde", "fghij", "klmno", "pqrst", "uvwxy"]);
    let d = Dictionary::reduce_words(&list, 5);
    let combos = find_combinations(&d.bitsets, 5, Completion::OneMissing);
    assert_eq!(combos, vec![vec![0, 1, 2, 3, 4]]);
    let lines = gen_words(&d, &d.bitsets, Some('z'));
    assert_eq!(lines, vec!["abcde fghij klmno pqrst uvwxy z".to_string()]);
}

#[test]
fn no_combination_when_all_letters_would_be_covered() {
    let b = vec![make_bitset("abcdefghijklm"), make_bitset("nopqrstuvwxyz")];
    assert!(find_combinations(&b, 2, Completion::OneMissing).is_empty());
    assert_eq!(find_combinations(&b, 2, Completion::AnyDisjoint), vec![vec![0, 1]]);
    assert!(!is_complete(Completion::OneMissing, b[0] | b[1]));
    assert!(is_complete(Completion::AnyDisjoint, b[0] | b[1]));
}

#[test]
fn anagrams_expand_to_one_line_each() {
    let list = words(&["abcde", "fghij", "klmno", "pqrst", "uvwxy", "bdcea"]);
    let d = Dictionary::reduce_words(&list, 5);
    assert_eq!(d.bitsets.len(), 5);
    let lines = gen_words(&d, &d.bitsets, Some('z'));
    assert_eq!(
        lines,
        vec![
            "abcde fghij klmno pqrst uvwxy z".to_string(),
            "bdcea fghij klmno pqrst uvwxy z".to_string(),
        ]
    );
    assert_eq!(gen_words(&d, &vec![d.bitsets[1], d.bitsets[0]], None), vec!["fghij abcde".to_string(), "fghij bdcea".to_string()]);
}

#[test]
fn pairs_are_disjoint_and_reported_once() {
    let b = vec![make_bitset("ab"), make_bitset("cd"), make_bitset("ae"), make_bitset("fg")];
    let combos = find_combinations(&b, 2, Completion::AnyDisjoint);
    assert_eq!(combos, vec![vec![0, 1], vec![0, 3], vec![1, 2], vec![1, 3], vec![2, 3]]);
    for c in &combos {
        assert_eq!(b[c[0]] & b[c[1]], 0);
        assert!(c[0] < c[1]);
    }
}

#[test]
fn sequential_and_partitioned_searches_agree() {
    let list = words(&[
        "abcde", "fghij", "klmno", "pqrst", "uvwxy", "vwxyz", "abcdf", "ghijk", "lmnop", "qrstu",
        "bcdea", "zyxwv", "fjord", "gucks", "nymph", "vibex", "waltz",
    ]);
    let d = Dictionary::reduce_words(&list, 5);
    for n in 2..=5 {
        for policy in [Completion::AnyDisjoint, Completion::OneMissing] {
            let seq = fingerprint_sets(&d.bitsets, &find_combinations(&d.bitsets, n, policy));
            assert_eq!(seq, parallel_sets(&d.bitsets, n, policy));
        }
    }
    let seq = find_combinations(&d.bitsets, 5, Completion::OneMissing);
    assert!(!seq.is_empty());
}

#[test]
fn partition_tuples_and_unions() {
    let v = vec![make_bitset("fghij"), make_bitset("klmno"), make_bitset("pqrst")];
    let combo = partition_combo(make_bitset("abcde"), &v, &vec![0, 2]);
    assert_eq!(combo, vec![make_bitset("abcde"), make_bitset("fghij"), make_bitset("pqrst")]);
    assert_eq!(union_of_all(&combo), make_bitset("abcdefghijpqrst"));
    assert_eq!(union_of_all(&vec![]), 0);
}

#[test]
fn partition_search_over_index_finds_the_tiny_alphabet_combination() {
    let list = words(&["abcde", "fghij", "klmno", "pqrst", "uvwxy"]);
    let d = Dictionary::reduce_words(&list, 5);
    let idx = build_index(&d.bitsets);
    let (base, v) = &idx[0];
    let found = search_partition(*base, v, 4, Completion::OneMissing);
    assert_eq!(found, vec![vec![0, 1, 2, 3]]);
    let combo = partition_combo(*base, v, &found[0]);
    assert_eq!(letter_cover::codec::missing_letter(union_of_all(&combo)), Some('z'));
    for (b, v) in &idx[1..] {
        assert!(search_partition(*b, v, 4, Completion::OneMissing).is_empty());
    }
}
