use cryptarithm::encoder::{lookup_digit, word_to_number};
use cryptarithm::letters::{collect_letters, contains_char};
use cryptarithm::solver::{is_valid_solution, solve, zip_mapping};

fn chars_of(s: &str) -> Vec<char> {
    s.chars().collect()
}

fn words_of(ws: &[&str]) -> Vec<Vec<char>> {
    ws.iter().map(|w| chars_of(w)).collect()
}

fn digit(mapping: &Vec<(char, u32)>, c: char) -> u32 {
    mapping.iter().find(|p| p.0 == c).unwrap().1
}

fn assert_sound(words: &Vec<Vec<char>>, result: &Vec<char>, mapping: &Vec<(char, u32)>) {
    let sum: u64 = words.iter().map(|w| word_to_number(w, mapping)).sum();
    assert_eq!(sum, word_to_number(result, mapping));
}

fn assert_injective(mapping: &Vec<(char, u32)>) {
    for i in 0..mapping.len() {
        for j in 0..mapping.len() {
            if i != j {
                assert_ne!(mapping[i].0, mapping[j].0);
                assert_ne!(mapping[i].1, mapping[j].1);
            }
        }
    }
}

#[test]
fn word_to_number_positional() {
    let mapping = vec![('A', 1), ('B', 2), ('C', 3)];
    assert_eq!(word_to_number(&chars_of("ABC"), &mapping), 123);
    assert_eq!(word_to_number(&chars_of("CAB"), &mapping), 312);
    assert_eq!(word_to_number(&chars_of("AAA"), &mapping), 111);
}

#[test]
fn word_to_number_leading_zero() {
    let mapping = vec![('A', 0), ('B', 5)];
    assert_eq!(word_to_number(&chars_of("AB"), &mapping), 5);
    assert_eq!(word_to_number(&chars_of("BA"), &mapping), 50);
}

#[test]
fn word_to_number_empty_word() {
    let mapping = vec![('A', 7)];
    assert_eq!(word_to_number(&chars_of(""), &mapping), 0);
}

#[test]
fn lookup_digit_takes_first_binding() {
    let mapping = vec![('A', 1), ('A', 9), ('B', 2)];
    assert_eq!(lookup_digit(&mapping, 'A'), 1);
    assert_eq!(lookup_digit(&mapping, 'B'), 2);
}

#[test]
fn is_valid_solution_classic_mapping() {
    let words = words_of(&["SEND", "MORE"]);
    let result = chars_of("MONEY");
    let mapping = vec![
        ('S', 9),
        ('E', 5),
        ('N', 6),
        ('D', 7),
        ('M', 1),
        ('O', 0),
        ('R', 8),
        ('Y', 2),
    ];
    assert!(is_valid_solution(&words, &result, &mapping));
}

#[test]
fn is_valid_solution_rejects_wrong_mapping() {
    let words = words_of(&["SEND", "MORE"]);
    let result = chars_of("MONEY");
    let mapping = vec![
        ('S', 9),
        ('E', 5),
        ('N', 6),
        ('D', 7),
        ('M', 1),
        ('O', 0),
        ('R', 8),
        ('Y', 3),
    ];
    assert!(!is_valid_solution(&words, &result, &mapping));
}

#[test]
fn collect_letters_first_occurrence_order() {
    let words = words_of(&["SEND", "MORE"]);
    let result = chars_of("MONEY");
    let letters = collect_letters(&words, &result);
    assert_eq!(letters, vec!['S', 'E', 'N', 'D', 'M', 'O', 'R', 'Y']);
}

#[test]
fn collect_letters_deduplicates() {
    let words = words_of(&["AA", "AB"]);
    let result = chars_of("BA");
    let letters = collect_letters(&words, &result);
    assert_eq!(letters, vec!['A', 'B']);
    assert!(contains_char(&letters, 'A'));
    assert!(!contains_char(&letters, 'C'));
}

#[test]
fn zip_mapping_pairs_positionally() {
    let letters = vec!['X', 'Y'];
    let digits = vec![4, 2];
    assert_eq!(zip_mapping(&letters, &digits), vec![('X', 4), ('Y', 2)]);
}

#[test]
fn send_more_money_solved() {
    let words = words_of(&["SEND", "MORE"]);
    let result = chars_of("MONEY");
    let solution = solve(&words, &result).expect("SEND + MORE = MONEY has a solution");
    assert_sound(&words, &result, &solution);
    assert_injective(&solution);
    let letters: Vec<char> = solution.iter().map(|p| p.0).collect();
    assert_eq!(letters, vec!['S', 'E', 'N', 'D', 'M', 'O', 'R', 'Y']);
    // Leading zeros are permitted, so the classic assignment (O=0, M=1, Y=2,
    // E=5, N=6, D=7, R=8, S=9) need not be the one found; it must still pass
    // the validity check.
    let classic = vec![
        ('S', 9),
        ('E', 5),
        ('N', 6),
        ('D', 7),
        ('M', 1),
        ('O', 0),
        ('R', 8),
        ('Y', 2),
    ];
    assert!(is_valid_solution(&words, &result, &classic));
}

#[test]
fn two_two_four_solved() {
    let words = words_of(&["TWO", "TWO"]);
    let result = chars_of("FOUR");
    let letters = collect_letters(&words, &result);
    assert_eq!(letters.len(), 6);
    let solution = solve(&words, &result).expect("TWO + TWO = FOUR has a solution");
    assert_sound(&words, &result, &solution);
    assert_injective(&solution);
    assert_eq!(
        2 * word_to_number(&chars_of("TWO"), &solution),
        word_to_number(&chars_of("FOUR"), &solution)
    );
}

#[test]
fn a_plus_a_equals_b_solved() {
    let words = words_of(&["A", "A"]);
    let result = chars_of("B");
    let solution = solve(&words, &result).expect("A + A = B has a solution");
    assert_sound(&words, &result, &solution);
    assert_injective(&solution);
    assert_eq!(2 * digit(&solution, 'A'), digit(&solution, 'B'));
}

#[test]
fn eleven_distinct_letters_rejected() {
    let words = words_of(&["ABCDEFGHIJ"]);
    let result = chars_of("K");
    assert_eq!(solve(&words, &result), None);
}

#[test]
fn one_one_two_outcome_is_sound() {
    let words = words_of(&["ONE", "ONE"]);
    let result = chars_of("TWO");
    match solve(&words, &result) {
        Some(solution) => {
            assert_sound(&words, &result, &solution);
            assert_injective(&solution);
        }
        None => {}
    }
}

#[test]
fn repeated_calls_agree() {
    let words = words_of(&["TWO", "TWO"]);
    let result = chars_of("FOUR");
    let first = solve(&words, &result);
    let second = solve(&words, &result);
    assert_eq!(first, second);
    let unsolvable = words_of(&["A"]);
    let unsolvable_result = chars_of("BC");
    assert_eq!(
        solve(&unsolvable, &unsolvable_result),
        solve(&unsolvable, &unsolvable_result)
    );
}

#[test]
fn exhausted_search_returns_none() {
    // A single digit can never equal a two-digit numeral over distinct digits:
    // B = 0 forces A = C, and B > 0 makes the result too large.
    let words = words_of(&["A"]);
    let result = chars_of("BC");
    assert_eq!(solve(&words, &result), None);
}

#[test]
fn no_addends_sums_to_zero() {
    let words: Vec<Vec<char>> = Vec::new();
    let result = chars_of("A");
    let solution = solve(&words, &result).expect("an empty sum is matched by A = 0");
    assert_eq!(solution, vec![('A', 0)]);
}

#[test]
fn single_letter_identity() {
    let words = words_of(&["A"]);
    let result = chars_of("A");
    let solution = solve(&words, &result).expect("A = A holds for any digit");
    assert_sound(&words, &result, &solution);
    assert_eq!(solution.len(), 1);
}
