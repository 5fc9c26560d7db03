use didyoumean::edit_distance;

fn chars(text: &str) -> Vec<char> {
    text.chars().collect()
}

fn dist(a: &str, b: &str) -> usize {
    edit_distance(&chars(a), b)
}

#[test]
fn sitting_to_kitten_takes_three_edits() {
    assert_eq!(dist("sitting", "kitten"), 3);
}

#[test]
fn one_replaced_character_costs_one() {
    assert_eq!(dist("cat", "cut"), 1);
}

#[test]
fn swapped_neighbours_cost_one() {
    assert_eq!(dist("test", "tset"), 1);
    assert_eq!(dist("tset", "test"), 1);
    assert_eq!(dist("ab", "ba"), 1);
}

#[test]
fn empty_query_costs_the_length_of_the_candidate() {
    assert_eq!(dist("", "abc"), 3);
    assert_eq!(dist("abc", ""), 3);
    assert_eq!(dist("", ""), 0);
}

#[test]
fn one_inserted_character_costs_one() {
    assert_eq!(dist("geek", "gesek"), 1);
}

#[test]
fn sunday_to_saturday_takes_three_edits() {
    assert_eq!(dist("sunday", "saturday"), 3);
}

#[test]
fn a_sequence_is_at_distance_zero_from_itself() {
    for word in ["", "a", "kitten", "did you mean", "aa", "naïve"] {
        assert_eq!(dist(word, word), 0);
    }
}

#[test]
fn distance_is_the_same_in_both_directions() {
    let words = ["", "a", "ab", "ba", "kitten", "sitting", "saturday", "sunday", "tset"];
    for a in words {
        for b in words {
            assert_eq!(dist(a, b), dist(b, a));
        }
    }
}

#[test]
fn distance_stays_within_the_lengths() {
    let words = ["", "a", "ab", "ba", "kitten", "sitting", "saturday", "sunday", "xyz"];
    for a in words {
        for b in words {
            let d = dist(a, b);
            let (la, lb) = (a.chars().count(), b.chars().count());
            assert!(d <= la + lb);
            assert!(d <= la.max(lb));
            assert!(d >= la.max(lb) - la.min(lb));
        }
    }
}

#[test]
fn nothing_in_common_costs_the_longer_length() {
    assert_eq!(dist("abc", "xyz"), 3);
    assert_eq!(dist("abc", "vwxyz"), 5);
}

#[test]
fn an_exchanged_pair_is_not_edited_again() {
    // Turning "ca" into "abc" would take two edits if a character could be
    // put between two that were exchanged; without that it takes three.
    assert_eq!(dist("ca", "abc"), 3);
}

#[test]
fn swapping_equal_neighbours_changes_nothing() {
    assert_eq!(dist("aab", "aab"), 0);
}

#[test]
fn characters_count_not_bytes() {
    assert_eq!(dist("héllo", "hello"), 1);
    assert_eq!(dist("", "äöü"), 3);
    assert_eq!(dist("日本語", "日本"), 1);
    assert_eq!(dist("éa", "aé"), 1);
}

#[test]
fn one_query_serves_many_candidates() {
    let query = chars("abartclat");
    assert_eq!(edit_distance(&query, "abarthrosis"), 6);
    assert_eq!(edit_distance(&query, "abarticular"), 3);
    assert_eq!(edit_distance(&query, "abarticulation"), 5);
}
