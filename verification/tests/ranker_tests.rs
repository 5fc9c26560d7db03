use didyoumean::closest_matches;
use didyoumean::edit_distance;
use didyoumean::ranker::RankError;
use didyoumean::ranker::Ranker;
use didyoumean::ranker::SENTINEL;

fn chars(text: &str) -> Vec<char> {
    text.chars().collect()
}

#[test]
fn ranking_keeps_the_two_nearest_and_the_first_of_equals() {
    let query = chars("appl");
    let found = closest_matches(&query, &["apple", "apply", "apt"], 2).unwrap();
    assert_eq!(found, vec![("apple", 1), ("apply", 1)]);
}

#[test]
fn ranking_by_hand_gives_the_same() {
    let query = chars("appl");
    let mut ranker = Ranker::new(2).unwrap();
    for word in ["apple", "apply", "apt"] {
        ranker.consider(word, edit_distance(&query, word));
    }
    assert_eq!(ranker.results(), vec![("apple", 1), ("apply", 1)]);
}

#[test]
fn a_ranker_without_slots_is_refused() {
    assert_eq!(Ranker::new(0).err(), Some(RankError::ZeroCapacity));
    assert_eq!(closest_matches(&chars("appl"), &["apple"], 0), Err(RankError::ZeroCapacity));
    assert_eq!(closest_matches(&chars("appl"), &[], 0), Err(RankError::ZeroCapacity));
}

#[test]
fn a_fresh_ranker_holds_only_sentinels() {
    assert_eq!(SENTINEL, usize::MAX);
    let ranker = Ranker::new(3).unwrap();
    assert_eq!(ranker.results(), vec![("", SENTINEL), ("", SENTINEL), ("", SENTINEL)]);
}

#[test]
fn spare_slots_keep_the_sentinel() {
    let found = closest_matches(&chars("appl"), &["apt", "apple"], 5).unwrap();
    assert_eq!(
        found,
        vec![("apple", 1), ("apt", 2), ("", SENTINEL), ("", SENTINEL), ("", SENTINEL)]
    );
    let none = closest_matches(&chars("appl"), &[], 2).unwrap();
    assert_eq!(none, vec![("", SENTINEL), ("", SENTINEL)]);
}

#[test]
fn results_always_have_as_many_entries_as_slots() {
    let words = ["a", "b", "c", "d", "e", "f", "g"];
    for number in 1..10 {
        for offered in 0..words.len() {
            let found = closest_matches(&chars("abc"), &words[..offered], number).unwrap();
            assert_eq!(found.len(), number);
        }
    }
}

#[test]
fn results_are_in_ascending_order_with_true_distances() {
    let query = chars("sitting");
    let words = ["kitten", "sitting", "fitting", "sit", "", "mitten", "setting", "sittign"];
    let found = closest_matches(&query, &words, 6).unwrap();
    assert_eq!(
        found,
        vec![
            ("sitting", 0),
            ("fitting", 1),
            ("setting", 1),
            ("sittign", 1),
            ("kitten", 3),
            ("mitten", 3),
        ]
    );
    for pair in found.windows(2) {
        assert!(pair[0].1 <= pair[1].1);
    }
    for (word, distance) in found {
        assert_eq!(distance, edit_distance(&query, word));
    }
}

#[test]
fn the_first_of_equal_candidates_stays_first() {
    let mut ranker = Ranker::new(3).unwrap();
    ranker.consider("first", 2);
    ranker.consider("second", 2);
    ranker.consider("third", 2);
    ranker.consider("fourth", 2);
    assert_eq!(ranker.results(), vec![("first", 2), ("second", 2), ("third", 2)]);
    ranker.consider("nearer", 1);
    assert_eq!(ranker.results(), vec![("nearer", 1), ("first", 2), ("second", 2)]);
    ranker.consider("as near", 1);
    assert_eq!(ranker.results(), vec![("nearer", 1), ("as near", 1), ("first", 2)]);
}

#[test]
fn a_candidate_no_better_than_the_worst_is_dropped() {
    let mut ranker = Ranker::new(2).unwrap();
    ranker.consider("far", 7);
    ranker.consider("near", 3);
    ranker.consider("as far", 7);
    ranker.consider("farther", 9);
    assert_eq!(ranker.results(), vec![("near", 3), ("far", 7)]);
    ranker.consider("between", 5);
    assert_eq!(ranker.results(), vec![("near", 3), ("between", 5)]);
}

#[test]
fn a_far_candidate_takes_a_free_slot() {
    let mut ranker = Ranker::new(2).unwrap();
    ranker.consider("far", 1000);
    assert_eq!(ranker.results(), vec![("far", 1000), ("", SENTINEL)]);
    ranker.consider("farthest", SENTINEL - 1);
    assert_eq!(ranker.results(), vec![("far", 1000), ("farthest", SENTINEL - 1)]);
    // A candidate many times as long as the query is listed all the same.
    let found = closest_matches(&chars("a"), &["bcdefghijklm", "b"], 2).unwrap();
    assert_eq!(found, vec![("b", 1), ("bcdefghijklm", 12)]);
    let alone = closest_matches(&chars("a"), &["bcdefghijklm"], 1).unwrap();
    assert_eq!(alone, vec![("bcdefghijklm", 12)]);
}

#[test]
fn an_empty_query_ranks_by_length() {
    let found = closest_matches(&[], &["ab", "", "a"], 2).unwrap();
    assert_eq!(found, vec![("", 0), ("a", 1)]);
    let one = closest_matches(&[], &["abc"], 2).unwrap();
    assert_eq!(one, vec![("abc", 3), ("", SENTINEL)]);
    let single = closest_matches(&[], &["abc"], 1).unwrap();
    assert_eq!(single, vec![("abc", 3)]);
}

#[test]
fn with_fewer_candidates_than_slots_each_has_a_row() {
    let words = ["zzzzzzzzzzzzzzzzzzzzzzzz", "b", "", "a", "abc"];
    for offered in 0..words.len() {
        let found = closest_matches(&chars("a"), &words[..offered], words.len()).unwrap();
        for word in &words[..offered] {
            assert!(found[..offered].iter().any(|(kept, _)| kept == word));
        }
        for row in &found[offered..] {
            assert_eq!(*row, ("", SENTINEL));
        }
    }
}

#[test]
fn the_first_row_holds_the_nearest() {
    let query = chars("kitten");
    let words = ["sitting", "mitten", "kitchen", "a much longer candidate than the query"];
    for number in 1..6 {
        let found = closest_matches(&query, &words, number).unwrap();
        assert_eq!(found[0], ("mitten", 1));
    }
}

#[test]
fn a_single_slot_holds_the_nearest() {
    let found = closest_matches(&chars("tset"), &["toast", "test", "tset", "set"], 1).unwrap();
    assert_eq!(found, vec![("tset", 0)]);
}

#[test]
fn a_repeated_candidate_is_listed_as_often_as_offered() {
    let found = closest_matches(&chars("cat"), &["cut", "cut", "dog"], 3).unwrap();
    assert_eq!(found, vec![("cut", 1), ("cut", 1), ("dog", 3)]);
}
