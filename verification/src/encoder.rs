//! The encoder: reading a word as a base-10 numeral under a letter-to-digit
//! mapping. A mapping is an association list of `(letter, digit)` pairs; a
//! lookup takes the first pair that binds the letter.

use vstd::prelude::*;

verus! {

/// Whether some pair of the mapping binds the letter `c`.
pub open spec fn has_letter(m: Seq<(char, u32)>, c: char) -> bool {
    exists|i: int| 0 <= i < m.len() && (#[trigger] m[i]).0 == c
}

/// The digit bound to `c`: the second component of the first pair whose
/// letter is `c`, or 0 when no pair binds `c`.
pub open spec fn digit_of(m: Seq<(char, u32)>, c: char) -> u32
    decreases m.len(),
{
    if m.len() == 0 {
        0
    } else if m[0].0 == c {
        m[0].1
    } else {
        digit_of(m.drop_first(), c)
    }
}

/// Every digit of the mapping is a decimal digit.
pub open spec fn digits_in_range(m: Seq<(char, u32)>) -> bool {
    forall|i: int| 0 <= i < m.len() ==> (#[trigger] m[i]).1 <= 9
}

/// Every letter of `word` is bound by the mapping `m`.
pub open spec fn covers(m: Seq<(char, u32)>, word: Seq<char>) -> bool {
    forall|i: int| 0 <= i < word.len() ==> has_letter(m, #[trigger] word[i])
}

/// 10 to the power `n`.
pub open spec fn pow10(n: nat) -> nat
    decreases n,
{
    if n == 0 {
        1
    } else {
        10 * pow10((n - 1) as nat)
    }
}

/// The value of `word` read as a base-10 numeral whose digits are given by
/// `m`: the leftmost letter is the most significant digit.
pub open spec fn word_value(word: Seq<char>, m: Seq<(char, u32)>) -> int
    decreases word.len(),
{
    if word.len() == 0 {
        0
    } else {
        word_value(word.drop_last(), m) * 10 + digit_of(m, word.last())
    }
}

pub proof fn lemma_pow10_pos(n: nat)
    ensures pow10(n) >= 1,
    decreases n,
{
    if n > 0 {
        lemma_pow10_pos((n - 1) as nat);
    }
}

pub proof fn lemma_pow10_monotone(a: nat, b: nat)
    requires a <= b,
    ensures pow10(a) <= pow10(b),
    decreases b,
{
    if a < b {
        lemma_pow10_monotone(a, (b - 1) as nat);
        lemma_pow10_pos((b - 1) as nat);
    }
}

/// The largest word value this library works with: a 19-letter word is worth
/// less than 10^19, which a `u64` holds.
pub proof fn lemma_pow10_19()
    ensures pow10(19) == 10_000_000_000_000_000_000,
{
    reveal_with_fuel(pow10, 20);
}

pub proof fn lemma_digit_of_range(m: Seq<(char, u32)>, c: char)
    requires digits_in_range(m),
    ensures digit_of(m, c) <= 9,
    decreases m.len(),
{
    if m.len() > 0 && m[0].0 != c {
        assert forall|i: int| 0 <= i < m.drop_first().len() implies
            (#[trigger] m.drop_first()[i]).1 <= 9 by {
            assert(m.drop_first()[i] == m[i + 1]);
        }
        lemma_digit_of_range(m.drop_first(), c);
    }
}

/// The first matching pair decides the lookup: if no pair before `i` binds
/// `c` and the pair at `i` does, the lookup yields that pair's digit.
pub proof fn lemma_digit_of_first_match(m: Seq<(char, u32)>, c: char, i: int)
    requires
        0 <= i < m.len(),
        m[i].0 == c,
        forall|j: int| 0 <= j < i ==> (#[trigger] m[j]).0 != c,
    ensures digit_of(m, c) == m[i].1,
    decreases i,
{
    if i > 0 {
        assert forall|j: int| 0 <= j < i - 1 implies
            (#[trigger] m.drop_first()[j]).0 != c by {
            assert(m.drop_first()[j] == m[j + 1]);
        }
        assert(m.drop_first()[i - 1] == m[i]);
        lemma_digit_of_first_match(m.drop_first(), c, i - 1);
    }
}

/// Looks up the digit bound to `c`, scanning the mapping from the front.
pub fn lookup_digit(mapping: &Vec<(char, u32)>, c: char) -> (d: u32)
    requires has_letter(mapping@, c),
    ensures d == digit_of(mapping@, c),
{
    let mut i: usize = 0;
    while i < mapping.len()
        invariant
            0 <= i <= mapping@.len(),
            has_letter(mapping@, c),
            forall|j: int| 0 <= j < i ==> (#[trigger] mapping@[j]).0 != c,
        decreases mapping@.len() - i,
    {
        if mapping[i].0 == c {
            proof {
                lemma_digit_of_first_match(mapping@, c, i as int);
            }
            return mapping[i].1;
        }
        i = i + 1;
    }
    proof {
        assert(false);
    }
    0
}

/// Converts a word to its numeric value under the given mapping, by a
/// left-to-right fold `number = number * 10 + digit`. A 64-bit accumulator
/// is used, so words are bounded at 19 letters.
pub fn word_to_number(word: &Vec<char>, mapping: &Vec<(char, u32)>) -> (number: u64)
    requires
        word@.len() <= 19,
        covers(mapping@, word@),
        digits_in_range(mapping@),
    ensures
        number == word_value(word@, mapping@),
        number < pow10(word@.len() as nat),
{
    let mut number: u64 = 0;
    let mut i: usize = 0;
    while i < word.len()
        invariant
            0 <= i <= word@.len() <= 19,
            covers(mapping@, word@),
            digits_in_range(mapping@),
            number == word_value(word@.take(i as int), mapping@),
            number < pow10(i as nat),
        decreases word@.len() - i,
    {
        let d: u32 = lookup_digit(mapping, word[i]);
        proof {
            lemma_digit_of_range(mapping@, word@[i as int]);
            lemma_pow10_monotone((i + 1) as nat, 19);
            lemma_pow10_19();
            assert(word@.take(i + 1).drop_last() =~= word@.take(i as int));
            assert(word@.take(i + 1).last() == word@[i as int]);
        }
        number = number * 10 + (d as u64);
        i = i + 1;
    }
    proof {
        assert(word@.take(word@.len() as int) =~= word@);
    }
    number
}

} // verus!
