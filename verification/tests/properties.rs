use wordbreaker::dict::segment;
use wordbreaker::naive::{break_into, break_into_words, break_text, try_break_into_words};
use wordbreaker::rows::{edge_bits_fit, get_row_bounds};
use wordbreaker::text::{is_boundary_list, on_char_boundaries, slice_str, BoundaryIndex};
use wordbreaker::trellis::capped_add;
use wordbreaker::{Dictionary, DictionaryError, WordSegmentations};

/// All ways to cut `input` into words of `words`, by trying each word at each
/// place, in order of the cut points. For inputs that need no normalization
/// and whose graphemes are single characters.
fn reference<'s>(words: &[&str], input: &'s str) -> Vec<Vec<&'s str>> {
    fn go<'s>(
        words: &[&str],
        input: &'s str,
        start: usize,
        prefix: &mut Vec<&'s str>,
        found: &mut Vec<Vec<&'s str>>,
    ) {
        if start == input.len() {
            found.push(prefix.clone());
            return;
        }
        for end in start + 1..=input.len() {
            if input.is_char_boundary(end) && words.contains(&&input[start..end]) {
                prefix.push(&input[start..end]);
                go(words, input, end, prefix, found);
                prefix.pop();
            }
        }
    }
    let mut found = Vec::new();
    go(words, input, 0, &mut Vec::new(), &mut found);
    found
}

fn ways(words: &[&str], length: usize) -> Vec<u128> {
    // ways[i]: the number of ways to cut a run of `length - i` letters "a".
    let mut table = vec![0u128; length + 1];
    table[length] = 1;
    for i in (0..length).rev() {
        for word in words {
            if !word.is_empty() && i + word.len() <= length {
                table[i] += table[i + word.len()];
            }
        }
    }
    table
}

#[test]
fn agrees_with_reference_enumeration() {
    let cases: [(&[&str], &str); 8] = [
        (&["ab", "abc", "cd", "def", "abcd", "ef", "c"], "abcdef"),
        (&["a", "aa", "aaa"], "aaaaaaa"),
        (&["a", "abc", "d", "x"], "abcd"),
        (&["a", "b", "ab", "ba", "aba", "bab"], "abababab"),
        (&["x"], "xxxx"),
        (&["ab", "c"], "abcab"),
        (&["ab", "c"], "abca"),
        (&["the", "there", "is", "here", "her", "e", "t", "he", "re"], "thereishere"),
    ];
    for (words, input) in cases {
        let dictionary = Dictionary::new(words);
        let expected = reference(words, input);
        let found = dictionary.word_segmentations(input);
        assert_eq!(found.clone().collect(), expected);
        assert_eq!(found.clone().count(), expected.len());
        let mut backward = found.clone().collect_back();
        backward.reverse();
        assert_eq!(backward, expected);
        assert_eq!(found.size_hint(), (expected.len(), Some(expected.len())));
    }
}

#[test]
fn every_segmentation_reproduces_the_input() {
    let dictionary = Dictionary::new(&["a", "aa", "b", "ab", "ba", "é", "e\u{301}a"]);
    for input in ["aabab", "éa", "e\u{301}ab", "baéab"] {
        let found = dictionary.word_segmentations(input).collect();
        assert!(!found.is_empty());
        for words in found {
            assert_eq!(words.concat(), input);
        }
    }
}

#[test]
fn dead_ends_are_pruned() {
    let dictionary = Dictionary::new(&["a", "abc", "d", "x"]);
    let found = dictionary.word_segmentations("abcd");
    assert_eq!(found.clone().collect(), [vec!["abc", "d"]]);
    assert_eq!(found.clone().count(), 1);
    assert_eq!(found.size_hint(), (1, Some(1)));
}

#[test]
fn prefix_words_without_continuation_give_nothing() {
    let dictionary = Dictionary::new(&["a", "ab"]);
    let found = dictionary.word_segmentations("abc");
    assert_eq!(found.clone().count(), 0);
    assert_eq!(found.clone().next(), None);
    assert_eq!(found.clone().last(), None);
    assert!(found.collect().is_empty());
}

#[test]
fn capitalization_is_preserved() {
    let dictionary = Dictionary::new(&["Arrow", "box"]);
    assert_eq!(dictionary.word_segmentations("arrowbox").count(), 0);
    assert_eq!(
        dictionary.word_segmentations("Arrowbox").collect(),
        [vec!["Arrow", "box"]]
    );
}

#[test]
fn empty_words_are_left_out() {
    let dictionary = Dictionary::new(&["", "a", ""]);
    assert_eq!(dictionary.word_segmentations("aa").collect(), [vec!["a", "a"]]);
    let empty = Dictionary::new(&[]);
    assert_eq!(empty.word_segmentations("a").count(), 0);
    assert_eq!(empty.word_segmentations("").count(), 1);
}

#[test]
fn unsorted_and_repeated_words_are_accepted() {
    let dictionary = Dictionary::new(&["b", "a", "c", "a", "ab", "b", "a"]);
    assert_eq!(
        dictionary.word_segmentations("abc").collect(),
        [vec!["a", "b", "c"], vec!["ab", "c"]]
    );
}

#[test]
fn words_and_input_are_matched_in_canonical_decomposition() {
    // The dictionary word is composed, the input decomposed.
    let composed = Dictionary::new(&["caf\u{e9}", "s"]);
    assert_eq!(
        composed.word_segmentations("cafe\u{301}s").collect(),
        [vec!["cafe\u{301}", "s"]]
    );
    // The dictionary word is decomposed, the input composed.
    let decomposed = Dictionary::new(&["cafe\u{301}", "s"]);
    assert_eq!(
        decomposed.word_segmentations("caf\u{e9}s").collect(),
        [vec!["caf\u{e9}", "s"]]
    );
}

#[test]
fn words_end_at_grapheme_boundaries_only() {
    // "e" is a word, but the "e" of the input carries an accent: no word ends
    // between the letter and its accent.
    let dictionary = Dictionary::new(&["e", "\u{301}", "e\u{301}"]);
    assert_eq!(
        dictionary.word_segmentations("e\u{301}").collect(),
        [vec!["e\u{301}"]]
    );
    let flags = Dictionary::new(&["\u{1F1F7}\u{1F1FA}", "\u{1F1F7}", "\u{1F1FA}"]);
    assert_eq!(
        flags.word_segmentations("\u{1F1F7}\u{1F1FA}").collect(),
        [vec!["\u{1F1F7}\u{1F1FA}"]]
    );
}

#[test]
fn counts_that_a_usize_cannot_hold_are_reported_as_unknown() {
    let dictionary = Dictionary::new(&["a", "aa"]);
    let input = "a".repeat(120);
    let found = dictionary.word_segmentations(&input);
    let expected = ways(&["a", "aa"], 120)[0];
    assert!(expected > usize::MAX as u128);
    assert_eq!(found.size_hint(), (usize::MAX, None));
    let mut rest = found.clone();
    assert_eq!(rest.next().map(|words| words.len()), Some(120));
    assert_eq!(rest.next_back().map(|words| words.len()), Some(60));
    assert_eq!(rest.size_hint(), (usize::MAX, None));
}

#[test]
fn large_counts_are_exact() {
    let dictionary = Dictionary::new(&["a", "aa", "aaa"]);
    for length in [1usize, 2, 3, 10, 40, 70] {
        let input = "a".repeat(length);
        let expected = ways(&["a", "aa", "aaa"], length)[0];
        let found = dictionary.word_segmentations(&input);
        if expected <= usize::MAX as u128 {
            assert_eq!(found.size_hint(), (expected as usize, Some(expected as usize)));
            assert_eq!(found.count(), expected as usize);
        } else {
            assert_eq!(found.size_hint(), (usize::MAX, None));
        }
    }
}

#[test]
fn size_hint_follows_both_ends() {
    let dictionary = Dictionary::new(&["a", "aa", "aaa"]);
    let mut found = dictionary.word_segmentations("aaaaaaaaaa");
    let mut left = found.clone().count();
    assert_eq!(left, 274);
    let mut from_front = true;
    while left > 0 {
        assert_eq!(found.size_hint(), (left, Some(left)));
        let item = if from_front {
            found.next()
        } else {
            found.next_back()
        };
        assert!(item.is_some());
        from_front = !from_front;
        left -= 1;
    }
    assert_eq!(found.size_hint(), (0, Some(0)));
    assert_eq!(found.next(), None);
    assert_eq!(found.next_back(), None);
    assert_eq!(found.next(), None);
}

#[test]
fn both_ends_meet_in_the_middle() {
    let dictionary = Dictionary::new(&["ab", "abc", "cd", "def", "abcd", "ef", "c"]);
    let mut found = dictionary.word_segmentations("abcdef");
    assert_eq!(found.next(), Some(vec!["ab", "c", "def"]));
    assert_eq!(found.next_back(), Some(vec!["abcd", "ef"]));
    assert_eq!(found.next_back(), Some(vec!["abc", "def"]));
    assert_eq!(found.size_hint(), (1, Some(1)));
    assert_eq!(found.next(), Some(vec!["ab", "cd", "ef"]));
    assert_eq!(found.next(), None);
    assert_eq!(found.next_back(), None);
}

#[test]
fn a_clone_goes_its_own_way() {
    let dictionary = Dictionary::new(&["a", "aa"]);
    let mut source = dictionary.word_segmentations("aaaa");
    assert_eq!(source.next(), Some(vec!["a", "a", "a", "a"]));
    let mut copy = source.clone();
    assert_eq!(source.next(), Some(vec!["a", "a", "aa"]));
    assert_eq!(source.next_back(), Some(vec!["aa", "aa"]));
    assert_eq!(copy.clone().collect(), [
        vec!["a", "a", "aa"],
        vec!["a", "aa", "a"],
        vec!["aa", "a", "a"],
        vec!["aa", "aa"],
    ]);
    assert_eq!(copy.next(), Some(vec!["a", "a", "aa"]));
    assert_eq!(copy.collect(), source.clone().collect().into_iter().chain([vec!["aa", "aa"]]).collect::<Vec<_>>());
    assert_eq!(source.collect(), [vec!["a", "aa", "a"], vec!["aa", "a", "a"]]);
}

#[test]
fn advance_by_passes_over_segmentations() {
    let dictionary = Dictionary::new(&["a", "aa"]);
    let found = dictionary.word_segmentations("aaaa");
    let mut rest = found.clone();
    assert_eq!(rest.advance_by(0), Ok(()));
    assert_eq!(rest.clone().count(), 5);
    assert_eq!(rest.advance_by(2), Ok(()));
    assert_eq!(rest.next(), Some(vec!["a", "aa", "a"]));
    assert_eq!(rest.advance_by(3), Err(2));
    assert_eq!(rest.next(), None);
    let mut rest = found.clone();
    assert_eq!(rest.advance_back_by(4), Ok(()));
    assert_eq!(rest.next_back(), Some(vec!["a", "a", "a", "a"]));
    assert_eq!(rest.advance_back_by(1), Err(0));
    let mut rest = found;
    assert_eq!(rest.advance_by(5), Ok(()));
    assert_eq!(rest.next(), None);
}

#[test]
fn try_word_segmentations_gives_the_same() {
    let dictionary = Dictionary::new(&["ab", "abc", "cd", "def", "abcd", "ef", "c", "é"]);
    for input in ["abcdef", "", "x", "éab", "e\u{301}c"] {
        let tried = dictionary.try_word_segmentations(input).unwrap();
        assert_eq!(tried.collect(), dictionary.word_segmentations(input).collect());
    }
}

#[test]
fn from_parts_takes_the_boundaries_as_given() {
    let dictionary = Dictionary::new(&["ab", "cd", "abcd"]);
    let whole = WordSegmentations::from_parts(
        &dictionary,
        "abcd",
        vec![0, 1, 2, 3, 4],
        "abcd".as_bytes(),
        &vec![0, 1, 2, 3, 4],
    );
    assert_eq!(whole.collect(), [vec!["ab", "cd"], vec!["abcd"]]);
    // With one boundary fewer, no word can end after "ab".
    let coarse = WordSegmentations::from_parts(
        &dictionary,
        "abcd",
        vec![0, 1, 3, 4],
        "abcd".as_bytes(),
        &vec![0, 1, 3, 4],
    );
    assert_eq!(coarse.collect(), [vec!["abcd"]]);
}

#[test]
fn bytes_round_trip_without_verification() {
    let first = Dictionary::new(&["hello", "just", "ice", "justice"]);
    let bytes = first.as_bytes().to_vec();
    let second = Dictionary::from_bytes(bytes.clone()).unwrap();
    assert_eq!(second.as_bytes(), &bytes[..]);
    for input in ["justice", "hellojustice", "icehello", "", "jus"] {
        assert_eq!(
            second.word_segmentations(input).collect(),
            first.word_segmentations(input).collect()
        );
    }
}

#[test]
fn short_bytes_are_a_format_error() {
    assert_eq!(
        Dictionary::from_bytes(Vec::new()).err(),
        Some(DictionaryError::Format { size: 0 })
    );
    assert_eq!(
        Dictionary::from_bytes_verified(vec![3; 35]).err(),
        Some(DictionaryError::Format { size: 35 })
    );
}

#[test]
fn other_versions_are_a_version_error() {
    assert_eq!(
        Dictionary::from_bytes(vec![0; 36]).err(),
        Some(DictionaryError::Version { expected: 3, got: 0 })
    );
    let mut bytes = Dictionary::new(&["a"]).as_bytes().to_vec();
    bytes[0] = 4;
    assert_eq!(
        Dictionary::from_bytes_verified(bytes).err(),
        Some(DictionaryError::Version { expected: 3, got: 4 })
    );
}

#[test]
fn a_missing_root_is_a_format_error() {
    // Version 3, no nodes, root address 0, but four bytes too many.
    let mut bytes = vec![0u8; 40];
    bytes[0] = 3;
    assert_eq!(
        Dictionary::from_bytes(bytes).err(),
        Some(DictionaryError::Format { size: 40 })
    );
    // The empty automaton itself loads.
    let mut bytes = vec![0u8; 36];
    bytes[0] = 3;
    assert!(Dictionary::from_bytes(bytes).is_ok());
}

#[test]
fn changed_bytes_are_a_checksum_mismatch() {
    let mut bytes = Dictionary::new(&["hello", "just", "ice", "justice"])
        .as_bytes()
        .to_vec();
    let last = bytes.len() - 1;
    bytes[last] ^= 1;
    assert!(matches!(
        Dictionary::from_bytes_verified(bytes.clone()).err(),
        Some(DictionaryError::ChecksumMismatch { .. })
    ));
    assert!(Dictionary::from_bytes(bytes).is_ok());
}

#[test]
fn bytes_of_the_second_version_have_no_checksum() {
    let mut bytes = vec![0u8; 40];
    bytes[0] = 2;
    bytes[32] = 23;
    assert!(Dictionary::from_bytes(bytes.clone()).is_ok());
    assert_eq!(
        Dictionary::from_bytes_verified(bytes).err(),
        Some(DictionaryError::ChecksumMissing)
    );
}

#[test]
fn row_bounds_tile_the_bits() {
    for node_count in 1usize..40 {
        let last = node_count - 1;
        let mut expected_end = node_count * (node_count - 1) / 2;
        for node in 0..node_count {
            let (start, end) = get_row_bounds(node, last);
            assert_eq!(end, expected_end);
            assert_eq!(end - start, last - node);
            expected_end = start;
        }
        assert_eq!(expected_end, 0);
    }
    assert_eq!(get_row_bounds(0, 3), (3, 6));
    assert_eq!(get_row_bounds(1, 3), (1, 3));
    assert_eq!(get_row_bounds(2, 3), (0, 1));
    assert_eq!(get_row_bounds(3, 3), (0, 0));
}

#[test]
fn edge_bits_fit_up_to_an_eighth_of_the_address_space() {
    assert!(edge_bits_fit(0));
    assert!(edge_bits_fit(1));
    assert!(edge_bits_fit(2));
    assert!(edge_bits_fit(100_000));
    assert!(!edge_bits_fit(usize::MAX));
    assert!(!edge_bits_fit(usize::MAX / 2));
    if usize::BITS == 64 {
        // Of n nodes there are n (n - 1) / 2 pairs, and 2 ** 61 - 1 bits fit.
        assert!(edge_bits_fit(2_147_483_648));
        assert!(!edge_bits_fit(2_147_483_649));
    }
}

#[test]
fn counts_add_up_to_the_limit() {
    assert_eq!(capped_add(Some(2), Some(3)), Some(5));
    assert_eq!(capped_add(Some(usize::MAX - 1), Some(1)), Some(usize::MAX));
    assert_eq!(capped_add(Some(usize::MAX), Some(1)), None);
    assert_eq!(capped_add(None, Some(1)), None);
    assert_eq!(capped_add(Some(1), None), None);
    assert_eq!(capped_add(None, None), None);
}

#[test]
fn boundary_lists_start_at_zero_end_at_the_length_and_increase() {
    assert!(is_boundary_list(&vec![0], 0));
    assert!(is_boundary_list(&vec![0, 1, 3], 3));
    assert!(!is_boundary_list(&vec![], 0));
    assert!(!is_boundary_list(&vec![1, 3], 3));
    assert!(!is_boundary_list(&vec![0, 1, 3], 4));
    assert!(!is_boundary_list(&vec![0, 2, 2, 3], 3));
    assert!(!is_boundary_list(&vec![0, 2, 1, 3], 3));
    assert!(!is_boundary_list(&vec![0, 0], 0));
}

#[test]
fn text_is_cut_between_characters() {
    assert!(on_char_boundaries("aé", &vec![0, 1, 3]));
    assert!(!on_char_boundaries("aé", &vec![0, 2]));
    assert!(!on_char_boundaries("aé", &vec![4]));
    assert_eq!(slice_str("aéb", 1, 3), "é");
    assert_eq!(slice_str("aéb", 0, 0), "");
    assert_eq!(slice_str("aéb", 3, 4), "b");
    assert_eq!(slice_str("aéb", 0, 4), "aéb");
}

/// The segmentation of a run of `length` letters "a" at `position` in order,
/// as the lengths of its words, for a dictionary of runs of the lengths
/// `sizes` (in increasing order), by the table of `ways`.
fn run_at(sizes: &[usize], length: usize, mut position: u128) -> Vec<usize> {
    let words: Vec<String> = sizes.iter().map(|size| "a".repeat(*size)).collect();
    let words: Vec<&str> = words.iter().map(|word| word.as_str()).collect();
    let table = ways(&words, length);
    let mut found = Vec::new();
    let mut at = 0;
    while at < length {
        for size in sizes {
            if at + size <= length {
                if position < table[at + size] {
                    found.push(*size);
                    at += size;
                    break;
                }
                position -= table[at + size];
            }
        }
    }
    found
}

fn lengths(words: Option<Vec<&str>>) -> Option<Vec<usize>> {
    words.map(|words| words.iter().map(|word| word.len()).collect())
}

#[test]
fn nth_jumps_far() {
    let dictionary = Dictionary::new(&["a", "aa", "aaa"]);
    let input = "a".repeat(70);
    let found = dictionary.word_segmentations(&input);
    let count = found.clone().count();
    assert_eq!(count as u128, ways(&["a", "aa", "aaa"], 70)[0]);
    for position in [0, 1, 2, 1000, 123_456_789_012, count / 2, count - 2, count - 1] {
        assert_eq!(
            lengths(found.clone().nth(position)),
            Some(run_at(&[1, 2, 3], 70, position as u128))
        );
        assert_eq!(
            lengths(found.clone().nth_back(position)),
            Some(run_at(&[1, 2, 3], 70, (count - 1 - position) as u128))
        );
    }
    assert_eq!(found.clone().nth(count), None);
    assert_eq!(found.clone().nth_back(count), None);
    let mut rest = found.clone();
    assert_eq!(rest.advance_by(1000), Ok(()));
    assert_eq!(rest.advance_back_by(2000), Ok(()));
    assert_eq!(rest.size_hint(), (count - 3000, Some(count - 3000)));
    assert_eq!(lengths(rest.nth(5)), Some(run_at(&[1, 2, 3], 70, 1005)));
    assert_eq!(
        lengths(rest.nth_back(7)),
        Some(run_at(&[1, 2, 3], 70, (count - 2008) as u128))
    );
    assert_eq!(rest.advance_by(usize::MAX), Err(count - 3014));
    assert_eq!(rest.next(), None);
}

#[test]
fn nth_jumps_where_the_count_is_unknown() {
    let dictionary = Dictionary::new(&["a", "aa"]);
    let input = "a".repeat(120);
    let found = dictionary.word_segmentations(&input);
    assert_eq!(found.size_hint(), (usize::MAX, None));
    let total = ways(&["a", "aa"], 120)[0];
    for position in [0, 7, usize::MAX / 3, usize::MAX - 1, usize::MAX] {
        assert_eq!(
            lengths(found.clone().nth(position)),
            Some(run_at(&[1, 2], 120, position as u128))
        );
        assert_eq!(
            lengths(found.clone().nth_back(position)),
            Some(run_at(&[1, 2], 120, total - 1 - position as u128))
        );
    }
    let mut rest = found;
    assert_eq!(rest.advance_by(usize::MAX), Ok(()));
    assert_eq!(rest.advance_by(usize::MAX), Ok(()));
    assert_eq!(
        lengths(rest.next()),
        Some(run_at(&[1, 2], 120, 2 * (usize::MAX as u128)))
    );
    assert_eq!(rest.size_hint(), (usize::MAX, None));
}

#[test]
fn boundaries_of_a_text_and_of_its_decomposition_correspond() {
    let composed = BoundaryIndex::of("caf\u{e9}s");
    assert_eq!(composed.bounds, [0, 1, 2, 3, 5, 6]);
    assert_eq!(composed.normal, "cafe\u{301}s");
    assert_eq!(composed.normal_bounds, [0, 1, 2, 3, 6, 7]);
    assert!(composed.is_aligned("caf\u{e9}s"));
    let plain = BoundaryIndex::of("ab");
    assert_eq!(plain.bounds, [0, 1, 2]);
    assert_eq!(plain.normal, "ab");
    assert_eq!(plain.normal_bounds, [0, 1, 2]);
    assert!(plain.is_aligned("ab"));
    let empty = BoundaryIndex::of("");
    assert_eq!(empty.bounds, [0]);
    assert_eq!(empty.normal_bounds, [0]);
    assert!(empty.is_aligned(""));
    let hangul = BoundaryIndex::of("\u{d55c}\u{ae00}");
    assert_eq!(hangul.bounds, [0, 3, 6]);
    assert_eq!(hangul.normal_bounds.len(), 3);
    assert!(hangul.is_aligned("\u{d55c}\u{ae00}"));
}

#[test]
fn a_dictionary_and_its_clone_hold_the_same_words() {
    let first = Dictionary::new(&["ab", "c"]);
    let second = first.clone();
    assert_eq!(first.as_bytes(), second.as_bytes());
    assert_eq!(
        second.word_segmentations("abc").collect(),
        [vec!["ab", "c"]]
    );
}

#[test]
fn exhaustive_search_lists_what_the_enumerator_lists() {
    let cases: [(&[&str], &str); 7] = [
        (&["ab", "abc", "cd", "def", "abcd", "ef", "c"], "abcdef"),
        (&["a", "aa", "aaa"], "aaaaaaa"),
        (&["a", "abc", "d", "x"], "abcd"),
        (&["a", "b", "ab", "ba", "aba", "bab"], "abababab"),
        (&["ab", "c"], "abca"),
        (&["b"], "a"),
        (&["the", "there", "is", "here", "her", "e", "t", "he", "re"], "thereishere"),
    ];
    for (words, input) in cases {
        let dictionary = Dictionary::new(words);
        let enumerated = dictionary.word_segmentations(input).collect();
        let searched = break_into_words(input, &dictionary);
        assert_eq!(searched, enumerated);
        assert_eq!(try_break_into_words(input, &dictionary), Some(searched));
    }
}

#[test]
fn exhaustive_search_gives_decomposed_words() {
    let dictionary = Dictionary::new(&["caf\u{e9}", "s"]);
    assert_eq!(
        break_into_words("caf\u{e9}s", &dictionary),
        [vec!["cafe\u{301}", "s"]]
    );
    assert_eq!(
        break_into_words("cafe\u{301}s", &dictionary),
        [vec!["cafe\u{301}", "s"]]
    );
}

#[test]
fn exhaustive_search_finds_nothing_in_the_empty_word() {
    let dictionary = Dictionary::new(&["a"]);
    assert!(break_into_words("", &dictionary).is_empty());
    assert_eq!(try_break_into_words("", &dictionary), Some(Vec::new()));
    assert!(break_text(&dictionary, "", &vec![0]).is_empty());
}

#[test]
fn exhaustive_search_takes_the_boundaries_as_given() {
    let dictionary = Dictionary::new(&["ab", "cd", "abcd", "a", "b"]);
    assert_eq!(
        break_text(&dictionary, "abcd", &vec![0, 1, 2, 3, 4]),
        [vec!["a", "b", "cd"], vec!["ab", "cd"], vec!["abcd"]]
    );
    assert_eq!(
        break_text(&dictionary, "abcd", &vec![0, 2, 4]),
        [vec!["ab", "cd"], vec!["abcd"]]
    );
}

#[test]
fn a_word_list_and_an_input_are_segmented_in_one_call() {
    let found = segment(&["ab", "abc", "cd", "def", "abcd", "ef", "c"], "abcdef").unwrap();
    assert_eq!(found.clone().count(), 4);
    assert_eq!(found.collect()[3], ["abcd", "ef"]);
    assert_eq!(segment(&["b"], "a").unwrap().count(), 0);
    assert_eq!(segment(&["b"], "").unwrap().count(), 1);
    assert_eq!(
        break_into(&["ab", "c", "abc"], "abc"),
        Some(vec![
            vec!["ab".to_string(), "c".to_string()],
            vec!["abc".to_string()]
        ])
    );
    assert_eq!(break_into(&["b"], "a"), Some(Vec::new()));
}
