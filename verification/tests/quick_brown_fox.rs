use wordbreaker::Dictionary;

const PHRASE: &str = "thequickbrownfoxjumpsoverthelazydog";

const WORDS: [&str; 40] = [
    "the", "quick", "brown", "fox", "jumps", "over", "lazy", "dog", "he", "t", "qui", "ck", "row",
    "b", "n", "own", "br", "ox", "f", "jump", "s", "o", "ver", "la", "zy", "do", "g", "th", "e",
    "a", "laz", "y", "d", "og", "verth", "elazy", "quic", "k", "row", "",
];

fn dictionary() -> Dictionary {
    Dictionary::new(&WORDS)
}

#[test]
fn count_matches_repeated_next_back_test() {
    let dictionary = dictionary();
    let word_segmentations = dictionary.word_segmentations(PHRASE);

    let count = word_segmentations.clone().count();
    let next_back_count = word_segmentations.collect_back().len();

    assert_eq!(count, next_back_count);
}

#[test]
fn count_matches_repeated_next_test() {
    let dictionary = dictionary();
    let word_segmentations = dictionary.word_segmentations(PHRASE);

    let count = word_segmentations.clone().count();
    let next_count = word_segmentations.collect().len();

    assert_eq!(count, next_count);
}

#[test]
fn first_matches_repeated_next_back_test() {
    let dictionary = dictionary();
    let word_segmentations = dictionary.word_segmentations(PHRASE);

    let first = word_segmentations.clone().next();
    let mut next_back_last = None;
    let mut rest = word_segmentations;
    while let Some(item) = rest.next_back() {
        next_back_last = Some(item);
    }

    assert_eq!(first, next_back_last);
}

#[test]
fn last_matches_repeated_next_test() {
    let dictionary = dictionary();
    let word_segmentations = dictionary.word_segmentations(PHRASE);

    let last = word_segmentations.clone().last();
    let mut next_last = None;
    let mut rest = word_segmentations;
    while let Some(item) = rest.next() {
        next_last = Some(item);
    }

    assert_eq!(last, next_last);
}

#[test]
fn nth_back_test() {
    let dictionary = dictionary();
    let quick_brown_fox_iter = dictionary.word_segmentations(PHRASE);
    let expected = vec![
        "the", "quick", "brown", "fox", "jumps", "over", "the", "lazy", "dog",
    ];
    let position = quick_brown_fox_iter
        .clone()
        .collect_back()
        .iter()
        .position(|words| *words == expected)
        .unwrap();

    assert_eq!(
        quick_brown_fox_iter.clone().nth_back(position),
        Some(expected),
    );

    let mut check_iter = quick_brown_fox_iter.clone();
    for n in 0..quick_brown_fox_iter.clone().count().wrapping_add(100) {
        assert_eq!(
            check_iter.next_back(),
            quick_brown_fox_iter.clone().nth_back(n)
        );
    }
}

#[test]
fn nth_test() {
    let dictionary = dictionary();
    let quick_brown_fox_iter = dictionary.word_segmentations(PHRASE);
    let expected = vec![
        "the", "quick", "brown", "fox", "jumps", "over", "the", "lazy", "dog",
    ];
    let position = quick_brown_fox_iter
        .clone()
        .collect()
        .iter()
        .position(|words| *words == expected)
        .unwrap();

    assert_eq!(quick_brown_fox_iter.clone().nth(position), Some(expected),);

    let mut check_iter = quick_brown_fox_iter.clone();
    for n in 0..quick_brown_fox_iter.clone().count().wrapping_add(100) {
        assert_eq!(check_iter.next(), quick_brown_fox_iter.clone().nth(n));
    }
}

#[test]
fn size_hint_test() {
    let dictionary = dictionary();
    let word_segmentations = dictionary.word_segmentations(PHRASE);

    let (count, option_count) = word_segmentations.size_hint();

    let mut forward_iter = word_segmentations.clone();
    for _ in 0..count {
        assert!(forward_iter.next().is_some());
    }

    let mut reverse_iter = word_segmentations.clone();
    for _ in 0..count {
        assert!(reverse_iter.next_back().is_some());
    }

    assert_eq!(Some(count), option_count);
    assert_eq!(forward_iter.next(), None);
    assert_eq!(reverse_iter.next_back(), None);
}

#[test]
fn quick_brown_fox_count_test() {
    assert_eq!(dictionary().word_segmentations(PHRASE).count(), 10368);
}
