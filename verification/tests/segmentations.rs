use wordbreaker::Dictionary;

#[test]
fn abcdef_test() {
    let dictionary = Dictionary::new(&["ab", "abc", "cd", "def", "abcd", "ef", "c"]);
    let word_segmentations = dictionary.word_segmentations("abcdef");

    assert_eq!(
        word_segmentations.clone().collect(),
        [
            vec!["ab", "c", "def"],
            vec!["ab", "cd", "ef"],
            vec!["abc", "def"],
            vec!["abcd", "ef"]
        ]
    );
    assert_eq!(word_segmentations.clone().count(), 4);
    assert_eq!(word_segmentations.clone().last(), Some(vec!["abcd", "ef"]));
    assert_eq!(
        word_segmentations.clone().min(),
        Some(vec!["ab", "c", "def"])
    );
    assert_eq!(word_segmentations.clone().max(), Some(vec!["abcd", "ef"]));
    {
        let mut word_segmentations = word_segmentations.clone();
        assert_eq!(word_segmentations.next(), Some(vec!["ab", "c", "def"]));
        assert_eq!(word_segmentations.next(), Some(vec!["ab", "cd", "ef"]));
        assert_eq!(word_segmentations.next(), Some(vec!["abc", "def"]));
        assert_eq!(word_segmentations.next(), Some(vec!["abcd", "ef"]));
        assert_eq!(word_segmentations.next(), None);
    }
    {
        let mut word_segmentations = word_segmentations.clone();
        assert_eq!(word_segmentations.next_back(), Some(vec!["abcd", "ef"]));
        assert_eq!(word_segmentations.next_back(), Some(vec!["abc", "def"]));
        assert_eq!(word_segmentations.next_back(), Some(vec!["ab", "cd", "ef"]));
        assert_eq!(word_segmentations.next_back(), Some(vec!["ab", "c", "def"]));
        assert_eq!(word_segmentations.next_back(), None);
    }
    assert_eq!(word_segmentations.clone().nth(2), Some(vec!["abc", "def"]));
    assert_eq!(word_segmentations.clone().nth(4), None);
    assert_eq!(
        word_segmentations.clone().nth_back(2),
        Some(vec!["ab", "cd", "ef"])
    );
    assert_eq!(word_segmentations.clone().nth_back(4), None);
}

#[test]
fn empty_input_test() {
    let dictionary = Dictionary::new(&["b"]);
    let word_segmentations = dictionary.word_segmentations("");

    assert_eq!(
        word_segmentations.clone().collect(),
        [Vec::<&'static str>::new()]
    );
    assert_eq!(word_segmentations.clone().count(), 1);
    assert_eq!(word_segmentations.clone().last(), Some(vec![]));
    assert_eq!(word_segmentations.clone().min(), Some(vec![]));
    assert_eq!(word_segmentations.clone().max(), Some(vec![]));
    {
        let mut word_segmentations = word_segmentations.clone();
        assert_eq!(word_segmentations.next(), Some(vec![]));
        assert_eq!(word_segmentations.next(), None);
    }
    {
        let mut word_segmentations = word_segmentations.clone();
        assert_eq!(word_segmentations.next_back(), Some(vec![]));
        assert_eq!(word_segmentations.next_back(), None);
    }
    assert_eq!(word_segmentations.clone().nth(0), Some(vec![]));
    assert_eq!(word_segmentations.clone().nth(1), None);
    assert_eq!(word_segmentations.clone().nth_back(0), Some(vec![]));
    assert_eq!(word_segmentations.clone().nth_back(1), None);
}

#[test]
fn from_bytes_verified_test() {
    let first_dictionary = Dictionary::new(&["hello", "just", "ice", "justice"]);
    let first_dictionary_bytes = first_dictionary.as_bytes().to_vec();

    let dictionary = Dictionary::from_bytes_verified(first_dictionary_bytes).unwrap();
    let mut ways_to_segment_into_words = dictionary.word_segmentations("justice").collect();

    ways_to_segment_into_words.sort_unstable();
    assert_eq!(
        ways_to_segment_into_words,
        [vec!["just", "ice"], vec!["justice"]]
    );
}

#[test]
fn no_matching_word_segmentations_test() {
    let dictionary = Dictionary::new(&["b"]);
    let word_segmentations = dictionary.word_segmentations("a");

    assert!(word_segmentations.clone().collect().is_empty());
    assert_eq!(word_segmentations.clone().count(), 0);
    assert_eq!(word_segmentations.clone().last(), None);
    assert_eq!(word_segmentations.clone().min(), None);
    assert_eq!(word_segmentations.clone().max(), None);
    assert_eq!(word_segmentations.clone().next(), None);
    assert_eq!(word_segmentations.clone().next_back(), None);
    assert_eq!(word_segmentations.clone().nth(0), None);
    assert_eq!(word_segmentations.clone().nth_back(0), None);
}
