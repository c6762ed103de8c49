use letter_cover::codec::{bitset_to_letter, make_bitset, missing_letter};

#[test]
fn test_make_bitset() {
    assert_eq!(make_bitset(""), 0);
    assert_eq!(make_bitset("a"), 1);
    assert_eq!(make_bitset("b"), 2);
    assert_eq!(make_bitset("c"), 4);
    assert_eq!(make_bitset("cab"), 7);
}

#[test]
fn test_bitset_to_letter() {
    assert_eq!(bitset_to_letter(1 << 0), 'a');
    assert_eq!(bitset_to_letter(1 << 1), 'b');
    assert_eq!(bitset_to_letter(1 << 2), 'c');
    assert_eq!(bitset_to_letter(1 << 23), 'x');
    assert_eq!(bitset_to_letter(1 << 24), 'y');
    assert_eq!(bitset_to_letter(1 << 25), 'z');
}

#[test]
fn repeated_letters_add_nothing() {
    assert_eq!(make_bitset("aabbc"), 7);
    assert_eq!(make_bitset("zz"), 1 << 25);
    assert_eq!(make_bitset("abcde"), make_bitset("edcba"));
}

#[test]
fn every_letter_decodes_to_itself() {
    let letters = "abcdefghijklmnopqrstuvwxyz";
    for (i, c) in letters.chars().enumerate() {
        assert_eq!(bitset_to_letter(1u32 << i), c);
        assert_eq!(make_bitset(&c.to_string()), 1u32 << i);
    }
}

#[test]
fn missing_letter_of_unions() {
    let all_but_z = make_bitset("abcdefghijklmnopqrstuvwxy");
    assert_eq!(missing_letter(all_but_z), Some('z'));
    let all_but_a = make_bitset("bcdefghijklmnopqrstuvwxyz");
    assert_eq!(missing_letter(all_but_a), Some('a'));
    assert_eq!(missing_letter(make_bitset("abcdefghijklmnopqrstuvwxyz")), None);
    assert_eq!(missing_letter(make_bitset("abcdefghijklmnopqrstuvwx")), None);
    assert_eq!(missing_letter(0), None);
}
