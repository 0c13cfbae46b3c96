//! The solver: collects the distinct letters, rejects puzzles that need more
//! than ten of them, and otherwise tries the candidate digit assignments in
//! the fixed enumeration order until one satisfies the sum.

use vstd::prelude::*;
use crate::encoder::{
    covers, digit_of, digits_in_range, has_letter, lemma_digit_of_first_match, lemma_pow10_19,
    lemma_pow10_monotone, word_to_number, word_value,
};
use crate::letters::{
    collect_letters, lemma_dedup_first_no_dup, lemma_puzzle_letters_cover, puzzle_chars,
    puzzle_letters, views,
};
use crate::perms::{
    is_selection, perm_list, perm_stream, perm_stream_next, stream_rest, PermStream,
};

verus! {

/// The ten decimal digits, in the order they are handed to the enumerator.
pub open spec fn digit_source() -> Seq<u32> {
    seq![0u32, 1u32, 2u32, 3u32, 4u32, 5u32, 6u32, 7u32, 8u32, 9u32]
}

pub proof fn lemma_digit_source()
    ensures
        digit_source().len() == 10,
        forall|i: int| 0 <= i < 10 ==> digit_source()[i] == i as u32,
        digit_source().no_duplicates(),
        forall|d: u32| d <= 9 ==> digit_source().contains(d),
        forall|d: u32| digit_source().contains(d) ==> d <= 9,
{
    assert forall|i: int| 0 <= i < 10 implies digit_source()[i] == i as u32 by {
        assert(digit_source()[0] == 0u32);
        assert(digit_source()[1] == 1u32);
        assert(digit_source()[2] == 2u32);
        assert(digit_source()[3] == 3u32);
        assert(digit_source()[4] == 4u32);
        assert(digit_source()[5] == 5u32);
        assert(digit_source()[6] == 6u32);
        assert(digit_source()[7] == 7u32);
        assert(digit_source()[8] == 8u32);
        assert(digit_source()[9] == 9u32);
    }
    assert forall|d: u32| d <= 9 implies digit_source().contains(d) by {
        assert(digit_source()[d as int] == d);
    }
}

/// `letters` and `digits` paired positionally into a mapping.
pub open spec fn paired_mapping(letters: Seq<char>, digits: Seq<u32>) -> Seq<(char, u32)> {
    Seq::new(letters.len(), |i: int| (letters[i], digits[i]))
}

/// The sum of the values of all words under the mapping `m`.
pub open spec fn sum_values(words: Seq<Seq<char>>, m: Seq<(char, u32)>) -> int
    decreases words.len(),
{
    if words.len() == 0 {
        0
    } else {
        sum_values(words.drop_last(), m) + word_value(words.last(), m)
    }
}

/// The arithmetic constraint: the addends' values sum to the result's value.
pub open spec fn spec_valid(words: Seq<Seq<char>>, result: Seq<char>, m: Seq<(char, u32)>) -> bool {
    sum_values(words, m) == word_value(result, m)
}

/// No two pairs of the mapping share a letter, and none share a digit.
pub open spec fn injective_mapping(m: Seq<(char, u32)>) -> bool {
    forall|i: int, j: int| 0 <= i < m.len() && 0 <= j < m.len() && i != j ==> (#[trigger] m[i]).0
        != (#[trigger] m[j]).0 && m[i].1 != m[j].1
}

/// The first candidate of `perms` that, paired with `letters`, solves the
/// puzzle; `None` when none does.
pub open spec fn first_solution(
    perms: Seq<Seq<u32>>,
    letters: Seq<char>,
    words: Seq<Seq<char>>,
    result: Seq<char>,
) -> Option<Seq<(char, u32)>>
    decreases perms.len(),
{
    if perms.len() == 0 {
        None
    } else if spec_valid(words, result, paired_mapping(letters, perms[0])) {
        Some(paired_mapping(letters, perms[0]))
    } else {
        first_solution(perms.drop_first(), letters, words, result)
    }
}

/// What `solve` returns, as a function of its inputs alone: the feasibility
/// gate, then the first satisfying candidate in enumeration order.
pub open spec fn spec_solve(words: Seq<Seq<char>>, result: Seq<char>) -> Option<Seq<(char, u32)>> {
    let letters = puzzle_letters(words, result);
    if letters.len() > 10 {
        None
    } else {
        first_solution(perm_list(digit_source(), letters.len()), letters, words, result)
    }
}

/// Checks whether the mapping satisfies the puzzle: the addends' values,
/// summed, equal the result word's value.
pub fn is_valid_solution(
    words: &Vec<Vec<char>>,
    result: &Vec<char>,
    mapping: &Vec<(char, u32)>,
) -> (ok: bool)
    requires
        forall|i: int| 0 <= i < words@.len() ==> (#[trigger] words@[i])@.len() <= 19,
        forall|i: int| 0 <= i < words@.len() ==> covers(mapping@, (#[trigger] words@[i])@),
        result@.len() <= 19,
        covers(mapping@, result@),
        digits_in_range(mapping@),
    ensures
        ok == spec_valid(views(words@), result@, mapping@),
{
    let mut sum: u128 = 0;
    let mut i: usize = 0;
    while i < words.len()
        invariant
            0 <= i <= words@.len(),
            forall|j: int| 0 <= j < words@.len() ==> (#[trigger] words@[j])@.len() <= 19,
            forall|j: int| 0 <= j < words@.len() ==> covers(mapping@, (#[trigger] words@[j])@),
            digits_in_range(mapping@),
            sum == sum_values(views(words@).take(i as int), mapping@),
            sum <= (i as int) * 10_000_000_000_000_000_000,
        decreases words@.len() - i,
    {
        let v: u64 = word_to_number(&words[i], mapping);
        proof {
            lemma_pow10_monotone(words@[i as int]@.len() as nat, 19);
            lemma_pow10_19();
            assert(views(words@).take(i + 1).drop_last() =~= views(words@).take(i as int));
            assert(views(words@).take(i + 1).last() == words@[i as int]@);
        }
        sum = sum + (v as u128);
        i = i + 1;
    }
    proof {
        assert(views(words@).take(words@.len() as int) =~= views(words@));
    }
    let rv: u64 = word_to_number(result, mapping);
    sum == (rv as u128)
}

/// Pairs each letter with the digit at the same position.
pub fn zip_mapping(letters: &Vec<char>, digits: &Vec<u32>) -> (m: Vec<(char, u32)>)
    requires
        letters@.len() == digits@.len(),
    ensures
        m@ == paired_mapping(letters@, digits@),
{
    let mut m: Vec<(char, u32)> = Vec::new();
    let mut i: usize = 0;
    while i < letters.len()
        invariant
            0 <= i <= letters@.len(),
            letters@.len() == digits@.len(),
            m@.len() == i,
            forall|j: int| 0 <= j < i ==> #[trigger] m@[j] == (letters@[j], digits@[j]),
        decreases letters@.len() - i,
    {
        m.push((letters[i], digits[i]));
        i = i + 1;
    }
    proof {
        assert(m@ =~= paired_mapping(letters@, digits@));
    }
    m
}

/// Looking a letter up in a paired mapping yields the digit at its position.
pub proof fn lemma_paired_lookup(letters: Seq<char>, digits: Seq<u32>, i: int)
    requires
        letters.no_duplicates(),
        digits.len() == letters.len(),
        0 <= i < letters.len(),
    ensures
        digit_of(paired_mapping(letters, digits), letters[i]) == digits[i],
{
    let m = paired_mapping(letters, digits);
    assert forall|j: int| 0 <= j < i implies (#[trigger] m[j]).0 != letters[i] by {
        assert(m[j].0 == letters[j]);
    }
    lemma_digit_of_first_match(m, letters[i], i);
}

/// A paired mapping binds exactly the letters it was built from.
pub proof fn lemma_paired_has_letter(letters: Seq<char>, digits: Seq<u32>, c: char)
    ensures
        has_letter(paired_mapping(letters, digits), c) <==> letters.contains(c),
{
    let m = paired_mapping(letters, digits);
    if letters.contains(c) {
        let i = choose|i: int| 0 <= i < letters.len() && letters[i] == c;
        assert(m[i].0 == c);
    }
    if has_letter(m, c) {
        let i = choose|i: int| 0 <= i < m.len() && (#[trigger] m[i]).0 == c;
        assert(letters[i] == c);
    }
}

/// The value of `word` under a total letter-to-digit function.
pub open spec fn map_word_value(word: Seq<char>, dm: Map<char, u32>) -> int
    decreases word.len(),
{
    if word.len() == 0 {
        0
    } else {
        map_word_value(word.drop_last(), dm) * 10 + dm[word.last()]
    }
}

/// The sum of the values of all words under a total letter-to-digit function.
pub open spec fn map_sum_values(words: Seq<Seq<char>>, dm: Map<char, u32>) -> int
    decreases words.len(),
{
    if words.len() == 0 {
        0
    } else {
        map_sum_values(words.drop_last(), dm) + map_word_value(words.last(), dm)
    }
}

/// `dm` solves the puzzle: it binds every letter of the puzzle to a decimal
/// digit, no two letters to the same digit, and satisfies the sum.
pub open spec fn solves_puzzle(words: Seq<Seq<char>>, result: Seq<char>, dm: Map<char, u32>) -> bool {
    let ls = puzzle_letters(words, result);
    &&& forall|c: char| #[trigger] ls.contains(c) ==> dm.dom().contains(c) && dm[c] <= 9
    &&& forall|c1: char, c2: char| ls.contains(c1) && ls.contains(c2) && c1 != c2 ==> dm[c1]
        != dm[c2]
    &&& map_sum_values(words, dm) == map_word_value(result, dm)
}

/// Two mappings that agree on every letter of a word give it the same value.
proof fn lemma_word_value_agree(word: Seq<char>, m: Seq<(char, u32)>, dm: Map<char, u32>)
    requires
        forall|c: char| #[trigger] word.contains(c) ==> digit_of(m, c) == dm[c],
    ensures
        word_value(word, m) == map_word_value(word, dm),
    decreases word.len(),
{
    if word.len() > 0 {
        assert forall|c: char| #[trigger] word.drop_last().contains(c) implies digit_of(m, c)
            == dm[c] by {
            let i = choose|i: int| 0 <= i < word.drop_last().len() && word.drop_last()[i] == c;
            assert(word[i] == c);
            assert(word.contains(c));
        }
        lemma_word_value_agree(word.drop_last(), m, dm);
        assert(word[word.len() - 1] == word.last());
        assert(word.contains(word.last()));
    }
}

/// Two mappings that agree on every letter of every word give the same sum.
proof fn lemma_sum_values_agree(words: Seq<Seq<char>>, m: Seq<(char, u32)>, dm: Map<char, u32>)
    requires
        forall|i: int, c: char|
            0 <= i < words.len() && #[trigger] words[i].contains(c) ==> digit_of(m, c) == dm[c],
    ensures
        sum_values(words, m) == map_sum_values(words, dm),
    decreases words.len(),
{
    if words.len() > 0 {
        assert forall|i: int, c: char|
            0 <= i < words.drop_last().len() && #[trigger] words.drop_last()[i].contains(c)
            implies digit_of(m, c) == dm[c] by {
            assert(words.drop_last()[i] == words[i]);
        }
        lemma_sum_values_agree(words.drop_last(), m, dm);
        assert(words[words.len() - 1] == words.last());
        assert forall|c: char| #[trigger] words.last().contains(c) implies digit_of(m, c)
            == dm[c] by {
            assert(words[words.len() - 1].contains(c));
        }
        lemma_word_value_agree(words.last(), m, dm);
    }
}

/// If the candidate at position `i` solves the puzzle, the scan returns one.
proof fn lemma_first_solution_finds(
    perms: Seq<Seq<u32>>,
    letters: Seq<char>,
    words: Seq<Seq<char>>,
    result: Seq<char>,
    i: int,
)
    requires
        0 <= i < perms.len(),
        spec_valid(words, result, paired_mapping(letters, perms[i])),
    ensures
        first_solution(perms, letters, words, result) is Some,
    decreases i,
{
    if !spec_valid(words, result, paired_mapping(letters, perms[0])) {
        assert(perms.drop_first()[i - 1] == perms[i]);
        lemma_first_solution_finds(perms.drop_first(), letters, words, result, i - 1);
    }
}

/// When some mapping solves the puzzle, the digit selection it induces on the
/// letter ordering is one of the candidates of a complete enumeration, and
/// the scan over the enumeration succeeds.
proof fn lemma_complete_scan(
    words: Seq<Seq<char>>,
    result: Seq<char>,
    perms: Seq<Seq<u32>>,
    dm: Map<char, u32>,
)
    requires
        solves_puzzle(words, result, dm),
        forall|p: Seq<u32>|
            is_selection(p, digit_source(), puzzle_letters(words, result).len())
                ==> perms.contains(p),
    ensures
        first_solution(perms, puzzle_letters(words, result), words, result) is Some,
{
    let ls = puzzle_letters(words, result);
    lemma_dedup_first_no_dup(puzzle_chars(words, result));
    lemma_digit_source();
    let p = Seq::new(ls.len(), |i: int| dm[ls[i]]);
    assert forall|i: int, j: int| 0 <= i < p.len() && 0 <= j < p.len() && i != j implies p[i]
        != p[j] by {
        assert(ls.contains(ls[i]));
        assert(ls.contains(ls[j]));
        assert(ls[i] != ls[j]);
    }
    assert(p.no_duplicates());
    assert forall|i: int| 0 <= i < p.len() implies digit_source().contains(#[trigger] p[i]) by {
        assert(ls.contains(ls[i]));
        assert(dm[ls[i]] <= 9);
    }
    assert(is_selection(p, digit_source(), ls.len()));
    assert(perms.contains(p));
    let idx = choose|idx: int| 0 <= idx < perms.len() && perms[idx] == p;
    let m = paired_mapping(ls, p);
    assert forall|c: char| #[trigger] ls.contains(c) implies digit_of(m, c) == dm[c] by {
        let j = choose|j: int| 0 <= j < ls.len() && ls[j] == c;
        lemma_paired_lookup(ls, p, j);
    }
    assert forall|i: int, c: char|
        0 <= i < words.len() && #[trigger] words[i].contains(c) implies digit_of(m, c)
        == dm[c] by {
        lemma_puzzle_letters_cover(words, result, c);
        assert(ls.contains(c));
    }
    lemma_sum_values_agree(words, m, dm);
    assert forall|c: char| #[trigger] result.contains(c) implies digit_of(m, c) == dm[c] by {
        lemma_puzzle_letters_cover(words, result, c);
        assert(ls.contains(c));
    }
    lemma_word_value_agree(result, m, dm);
    assert(spec_valid(words, result, m));
    lemma_first_solution_finds(perms, ls, words, result, idx);
}

/// Determinism: what `solve` returns is a function of the puzzle alone. Any
/// two results that its contract admits on the same input are equal.
pub proof fn lemma_solve_deterministic(
    words: Seq<Seq<char>>,
    result: Seq<char>,
    r1: Option<Seq<(char, u32)>>,
    r2: Option<Seq<(char, u32)>>,
)
    requires
        r1 == spec_solve(words, result),
        r2 == spec_solve(words, result),
    ensures
        r1 == r2,
{
}

/// Solves the cryptarithmetic puzzle: finds an assignment of distinct decimal
/// digits to the distinct letters of the addends and the result word under
/// which the addends, read as base-10 numerals, sum to the result's value.
///
/// The returned mapping pairs each distinct letter, in first-occurrence
/// order, with its digit. Puzzles with more than ten distinct letters have no
/// injective assignment and are rejected at once; otherwise candidates are
/// tried in the fixed enumeration order and the first satisfying one is
/// returned, so the outcome is a function of the puzzle alone (`spec_solve`).
#[verifier::loop_isolation(false)]
pub fn solve(words: &Vec<Vec<char>>, result: &Vec<char>) -> (r: Option<Vec<(char, u32)>>)
    requires
        forall|i: int| 0 <= i < words@.len() ==> (#[trigger] words@[i])@.len() <= 19,
        result@.len() <= 19,
    ensures
        (match r {
            Some(m) => spec_solve(views(words@), result@) == Some(m@),
            None => spec_solve(views(words@), result@) is None,
        }),
        r matches Some(m) ==> spec_valid(views(words@), result@, m@),
        r matches Some(m) ==> injective_mapping(m@) && digits_in_range(m@),
        r matches Some(m) ==> m@.len() == puzzle_letters(views(words@), result@).len()
            && forall|i: int|
                0 <= i < m@.len() ==> (#[trigger] m@[i]).0
                    == puzzle_letters(views(words@), result@)[i],
        puzzle_letters(views(words@), result@).len() > 10 ==> r is None,
        (puzzle_letters(views(words@), result@).len() <= 10 && exists|dm: Map<char, u32>|
            solves_puzzle(views(words@), result@, dm)) ==> r is Some,
{
    let ghost wsv = views(words@);
    let ghost resv = result@;
    let letters = collect_letters(words, result);
    let ghost ls = letters@;
    let k: usize = letters.len();
    if k > 10 {
        return None;
    }
    let mut digits: Vec<u32> = Vec::new();
    digits.push(0);
    digits.push(1);
    digits.push(2);
    digits.push(3);
    digits.push(4);
    digits.push(5);
    digits.push(6);
    digits.push(7);
    digits.push(8);
    digits.push(9);
    proof {
        lemma_digit_source();
        assert(digits@ =~= digit_source());
    }
    let mut stream = perm_stream(digits, k);
    let ghost full = perm_list(digit_source(), k as nat);
    loop
        invariant
            first_solution(full, ls, wsv, resv) == first_solution(
                stream_rest(stream),
                ls,
                wsv,
                resv,
            ),
            forall|i: int|
                0 <= i < stream_rest(stream).len() ==> is_selection(
                    #[trigger] stream_rest(stream)[i],
                    digit_source(),
                    k as nat,
                ),
        decreases stream_rest(stream).len(),
    {
        let ghost pre = stream;
        match perm_stream_next(&mut stream) {
            None => {
                proof {
                    assert(stream_rest(pre).len() == 0);
                    assert(first_solution(full, ls, wsv, resv) is None);
                    assert forall|dm: Map<char, u32>| !solves_puzzle(wsv, resv, dm) by {
                        if solves_puzzle(wsv, resv, dm) {
                            lemma_complete_scan(wsv, resv, full, dm);
                        }
                    }
                }
                return None;
            },
            Some(p) => {
                proof {
                    assert(stream_rest(pre).len() > 0);
                    assert(p@ == stream_rest(pre)[0]);
                    assert(is_selection(p@, digit_source(), k as nat));
                }
                let mapping = zip_mapping(&letters, &p);
                proof {
                    assert(mapping@ == paired_mapping(ls, p@));
                    lemma_digit_source();
                    assert forall|j: int| 0 <= j < mapping@.len() implies (#[trigger] mapping@[j]).1
                        <= 9 by {
                        assert(digit_source().contains(p@[j]));
                    }
                    assert forall|wi: int| 0 <= wi < words@.len() implies covers(
                        mapping@,
                        (#[trigger] words@[wi])@,
                    ) by {
                        assert forall|ci: int| 0 <= ci < words@[wi]@.len() implies has_letter(
                            mapping@,
                            #[trigger] words@[wi]@[ci],
                        ) by {
                            let c = words@[wi]@[ci];
                            assert(wsv[wi] == words@[wi]@);
                            assert(wsv[wi].contains(c));
                            lemma_puzzle_letters_cover(wsv, resv, c);
                            assert(ls.contains(c));
                            lemma_paired_has_letter(ls, p@, c);
                        }
                    }
                    assert forall|ci: int| 0 <= ci < result@.len() implies has_letter(
                        mapping@,
                        #[trigger] result@[ci],
                    ) by {
                        let c = result@[ci];
                        assert(resv.contains(c));
                        lemma_puzzle_letters_cover(wsv, resv, c);
                        assert(ls.contains(c));
                        lemma_paired_has_letter(ls, p@, c);
                    }
                }
                if is_valid_solution(words, result, &mapping) {
                    proof {
                        assert(first_solution(stream_rest(pre), ls, wsv, resv) == Some(mapping@));
                        assert(spec_solve(wsv, resv) == Some(mapping@));
                        assert forall|i: int, j: int|
                            0 <= i < mapping@.len() && 0 <= j < mapping@.len() && i != j implies (
                        #[trigger] mapping@[i]).0 != (#[trigger] mapping@[j]).0 && mapping@[i].1
                            != mapping@[j].1 by {
                            assert(mapping@[i] == (ls[i], p@[i]));
                            assert(mapping@[j] == (ls[j], p@[j]));
                        }
                    }
                    return Some(mapping);
                }
                proof {
                    assert(first_solution(stream_rest(pre), ls, wsv, resv) == first_solution(
                        stream_rest(pre).drop_first(),
                        ls,
                        wsv,
                        resv,
                    ));
                    assert forall|i: int| 0 <= i < stream_rest(stream).len() implies is_selection(
                        #[trigger] stream_rest(stream)[i],
                        digit_source(),
                        k as nat,
                    ) by {
                        assert(stream_rest(stream)[i] == stream_rest(pre)[i + 1]);
                    }
                }
            },
        }
    }
}

} // verus!
