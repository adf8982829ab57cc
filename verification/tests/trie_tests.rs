use trie::Trie;

fn chars_of(s: &str) -> Vec<char> {
    s.chars().collect()
}

#[test]
fn test_trivial_trie_finds_nothing() {
    let t: Trie<char> = Default::default();
    let q = chars_of("Hello");

    assert_eq!(t.search(&q, false), false);
    assert_eq!(t.search(&q, true), false);
}

#[test]
fn test_empty_seq_can_be_member() {
    let empty = chars_of("");
    let t: Trie<char> = Trie::from_sequence(&empty);

    assert_eq!(t.search(&empty, false), true);
    assert_eq!(t.search(&empty, true), true);
}

#[test]
fn test_trivial_search_succeeds() {
    let txt = chars_of("Hello");

    let t = Trie::from_sequence(&txt);

    assert_eq!(t.search(&txt, true), true);
    assert_eq!(t.search(&txt, false), true);
}

#[test]
fn test_prefix_found_only_when_intended() {
    let txt = chars_of("Hello, World!");

    let mut t = Trie::from_sequence(&txt);
    let txt_subseq = chars_of("Hello");

    // Prefix not added yet, found if true is passed
    assert_eq!(t.search(&txt_subseq, false), false);
    assert_eq!(t.search(&txt_subseq, true), true);

    t.insert(&txt_subseq);

    assert_eq!(t.search(&txt_subseq, false), true);
    assert_eq!(t.search(&txt_subseq, true), true);
}

#[test]
fn empty_sequence_is_prefix_of_every_trie() {
    let empty = chars_of("");
    let t: Trie<char> = Trie::new();
    // Even an empty trie contains the empty sequence as a prefix...
    assert_eq!(t.search(&empty, true), true);
    // ...but not as an exact member until it is inserted.
    assert_eq!(t.search(&empty, false), false);

    let mut t2: Trie<char> = Trie::new();
    t2.insert(&chars_of("ab"));
    assert_eq!(t2.search(&empty, true), true);
    assert_eq!(t2.search(&empty, false), false);
}

#[test]
fn insert_is_idempotent() {
    let word = chars_of("ab");
    let prefix = chars_of("a");
    let other = chars_of("cd");

    let mut once: Trie<char> = Trie::new();
    once.insert(&word);
    let mut twice: Trie<char> = Trie::new();
    twice.insert(&word);
    twice.insert(&word);

    for query in [&word, &prefix, &other] {
        for is_prefix in [false, true] {
            assert_eq!(once.search(query, is_prefix), twice.search(query, is_prefix));
        }
    }
}

#[test]
fn found_sequences_stay_found() {
    let mut t: Trie<char> = Trie::new();
    let first = chars_of("ab");
    t.insert(&first);
    assert_eq!(t.search(&first, false), true);

    for unrelated in ["xy", "abc", "a", ""] {
        t.insert(&chars_of(unrelated));
        assert_eq!(t.search(&first, false), true);
        assert_eq!(t.search(&first, true), true);
    }
}

#[test]
fn branching_paths_are_kept_apart() {
    let mut t: Trie<char> = Trie::new();
    t.insert(&chars_of("ab"));
    t.insert(&chars_of("ad"));

    assert_eq!(t.search(&chars_of("ab"), false), true);
    assert_eq!(t.search(&chars_of("ad"), false), true);
    assert_eq!(t.search(&chars_of("a"), true), true);
    assert_eq!(t.search(&chars_of("a"), false), false);
    assert_eq!(t.search(&chars_of("ac"), false), false);
    assert_eq!(t.search(&chars_of("ac"), true), false);
    assert_eq!(t.search(&chars_of("abd"), true), false);
}

#[test]
fn works_over_byte_elements() {
    let mut t: Trie<u8> = Trie::new();
    t.insert(&[1u8, 2, 3]);

    assert_eq!(t.search(&[1u8, 2], true), true);
    assert_eq!(t.search(&[1u8, 2], false), false);
    assert_eq!(t.search(&[2u8], true), false);

    t.insert(&[1u8, 2]);
    assert_eq!(t.search(&[1u8, 2], false), true);
    assert_eq!(t.search(&[1u8, 2, 3], false), true);
}

#[test]
fn from_sequence_equals_new_then_insert() {
    let word = chars_of("hi");
    let built = Trie::from_sequence(&word);
    let mut grown: Trie<char> = Trie::new();
    grown.insert(&word);

    for query in ["hi", "h", "hip", ""] {
        let q = chars_of(query);
        for is_prefix in [false, true] {
            assert_eq!(built.search(&q, is_prefix), grown.search(&q, is_prefix));
        }
    }
}
