//! Letter extraction: the distinct letters of a puzzle, collected in order of
//! first occurrence over the addends (in order) and then the result word.
//! This fixed ordering is what candidate digit permutations are paired with.

use vstd::prelude::*;

verus! {

/// The sequence of views of a sequence of vectors.
pub open spec fn views(words: Seq<Vec<char>>) -> Seq<Seq<char>> {
    words.map_values(|w: Vec<char>| w@)
}

/// The concatenation of all words, in order.
pub open spec fn concat_all(words: Seq<Seq<char>>) -> Seq<char>
    decreases words.len(),
{
    if words.len() == 0 {
        Seq::empty()
    } else {
        concat_all(words.drop_last()) + words.last()
    }
}

/// All characters of the puzzle: the addends, in order, then the result word.
pub open spec fn puzzle_chars(words: Seq<Seq<char>>, result: Seq<char>) -> Seq<char> {
    concat_all(words) + result
}

/// The distinct elements of `s`, each at its first occurrence, in order.
pub open spec fn dedup_first(s: Seq<char>) -> Seq<char>
    decreases s.len(),
{
    if s.len() == 0 {
        Seq::empty()
    } else {
        let rest = dedup_first(s.drop_last());
        if rest.contains(s.last()) {
            rest
        } else {
            rest.push(s.last())
        }
    }
}

/// The distinct letters of the puzzle, in order of first occurrence.
pub open spec fn puzzle_letters(words: Seq<Seq<char>>, result: Seq<char>) -> Seq<char> {
    dedup_first(puzzle_chars(words, result))
}

/// Deduplication keeps exactly the elements of the sequence.
pub proof fn lemma_dedup_first_contains(s: Seq<char>, c: char)
    ensures dedup_first(s).contains(c) <==> s.contains(c),
    decreases s.len(),
{
    if s.len() > 0 {
        lemma_dedup_first_contains(s.drop_last(), c);
        let rest = dedup_first(s.drop_last());
        if s.contains(c) {
            let i = choose|i: int| 0 <= i < s.len() && s[i] == c;
            if i < s.len() - 1 {
                assert(s.drop_last()[i] == c);
                assert(s.drop_last().contains(c));
                let k = choose|k: int| 0 <= k < rest.len() && rest[k] == c;
                assert(dedup_first(s)[k] == c);
            } else {
                if rest.contains(c) {
                    let k = choose|k: int| 0 <= k < rest.len() && rest[k] == c;
                    assert(dedup_first(s)[k] == c);
                } else {
                    assert(dedup_first(s)[rest.len() as int] == c);
                }
            }
            assert(dedup_first(s).contains(c));
        }
        if dedup_first(s).contains(c) {
            let k = choose|k: int| 0 <= k < dedup_first(s).len() && dedup_first(s)[k] == c;
            if k < rest.len() {
                assert(rest[k] == c);
                assert(rest.contains(c));
                let i = choose|i: int| 0 <= i < s.drop_last().len() && s.drop_last()[i] == c;
                assert(s[i] == c);
            } else {
                assert(s[s.len() - 1] == c);
            }
            assert(s.contains(c));
        }
    }
}

/// Deduplication leaves no duplicates.
pub proof fn lemma_dedup_first_no_dup(s: Seq<char>)
    ensures dedup_first(s).no_duplicates(),
    decreases s.len(),
{
    if s.len() > 0 {
        lemma_dedup_first_no_dup(s.drop_last());
        let rest = dedup_first(s.drop_last());
        if !rest.contains(s.last()) {
            assert forall|i: int, j: int|
                0 <= i < rest.push(s.last()).len() && 0 <= j < rest.push(s.last()).len() && i != j
                implies rest.push(s.last())[i] != rest.push(s.last())[j] by {
                if i < rest.len() && j < rest.len() {
                    assert(rest.push(s.last())[i] == rest[i]);
                    assert(rest.push(s.last())[j] == rest[j]);
                } else if i == rest.len() {
                    assert(rest.push(s.last())[j] == rest[j]);
                    assert(!rest.contains(s.last()));
                    assert(rest[j] != s.last());
                } else {
                    assert(rest.push(s.last())[i] == rest[i]);
                    assert(rest[i] != s.last());
                }
            }
        }
    }
}

/// A character stands in the concatenation exactly when some word holds it.
pub proof fn lemma_concat_all_contains(words: Seq<Seq<char>>, c: char)
    ensures
        concat_all(words).contains(c) <==> exists|i: int|
            0 <= i < words.len() && (#[trigger] words[i]).contains(c),
    decreases words.len(),
{
    if words.len() > 0 {
        lemma_concat_all_contains(words.drop_last(), c);
        let prefix = concat_all(words.drop_last());
        if concat_all(words).contains(c) {
            let k = choose|k: int| 0 <= k < concat_all(words).len() && concat_all(words)[k] == c;
            if k < prefix.len() {
                assert(prefix[k] == c);
                let i = choose|i: int|
                    0 <= i < words.drop_last().len() && (#[trigger] words.drop_last()[i]).contains(c);
                assert(words[i].contains(c));
            } else {
                assert(words.last()[k - prefix.len()] == c);
                assert(words[words.len() - 1].contains(c));
            }
        }
        if exists|i: int| 0 <= i < words.len() && (#[trigger] words[i]).contains(c) {
            let i = choose|i: int| 0 <= i < words.len() && (#[trigger] words[i]).contains(c);
            if i < words.len() - 1 {
                assert(words.drop_last()[i].contains(c));
                let k = choose|k: int| 0 <= k < prefix.len() && prefix[k] == c;
                assert(concat_all(words)[k] == c);
            } else {
                let k = choose|k: int| 0 <= k < words.last().len() && words.last()[k] == c;
                assert(concat_all(words)[prefix.len() + k] == c);
            }
        }
    }
}

/// Every letter of every addend and of the result stands in `puzzle_letters`.
pub proof fn lemma_puzzle_letters_cover(words: Seq<Seq<char>>, result: Seq<char>, c: char)
    ensures
        puzzle_letters(words, result).contains(c) <==> (result.contains(c) || exists|i: int|
            0 <= i < words.len() && (#[trigger] words[i]).contains(c)),
{
    lemma_dedup_first_contains(puzzle_chars(words, result), c);
    lemma_concat_all_contains(words, c);
    let all = puzzle_chars(words, result);
    let cat = concat_all(words);
    if all.contains(c) {
        let k = choose|k: int| 0 <= k < all.len() && all[k] == c;
        if k < cat.len() {
            assert(cat[k] == c);
        } else {
            assert(result[k - cat.len()] == c);
        }
    }
    if cat.contains(c) {
        let k = choose|k: int| 0 <= k < cat.len() && cat[k] == c;
        assert(all[k] == c);
    }
    if result.contains(c) {
        let k = choose|k: int| 0 <= k < result.len() && result[k] == c;
        assert(all[cat.len() + k] == c);
    }
}

/// Whether the vector holds the character.
pub fn contains_char(v: &Vec<char>, c: char) -> (b: bool)
    ensures b == v@.contains(c),
{
    let mut i: usize = 0;
    while i < v.len()
        invariant
            0 <= i <= v@.len(),
            forall|j: int| 0 <= j < i ==> v@[j] != c,
        decreases v@.len() - i,
    {
        if v[i] == c {
            return true;
        }
        i = i + 1;
    }
    false
}

/// Appends `c` unless it is already present.
fn push_if_new(letters: &mut Vec<char>, c: char)
    ensures
        final(letters)@ == if old(letters)@.contains(c) {
            old(letters)@
        } else {
            old(letters)@.push(c)
        },
{
    if !contains_char(letters, c) {
        letters.push(c);
    }
}

/// One deduplication step: taking one more character of the source either
/// leaves the result alone or appends that character.
proof fn lemma_dedup_first_step(s: Seq<char>, c: char)
    ensures
        dedup_first(s.push(c)) == if dedup_first(s).contains(c) {
            dedup_first(s)
        } else {
            dedup_first(s).push(c)
        },
{
    assert(s.push(c).drop_last() =~= s);
    assert(s.push(c).last() == c);
}

/// Collects the distinct letters of the puzzle, in first-occurrence order.
pub fn collect_letters(words: &Vec<Vec<char>>, result: &Vec<char>) -> (letters: Vec<char>)
    ensures
        letters@ == puzzle_letters(views(words@), result@),
        letters@.no_duplicates(),
{
    let mut letters: Vec<char> = Vec::new();
    let mut i: usize = 0;
    proof {
        assert(views(words@).take(0) =~= Seq::<Seq<char>>::empty());
    }
    while i < words.len()
        invariant
            0 <= i <= words@.len(),
            letters@ == dedup_first(concat_all(views(words@).take(i as int))),
        decreases words@.len() - i,
    {
        let word: &Vec<char> = &words[i];
        let ghost base = concat_all(views(words@).take(i as int));
        let mut j: usize = 0;
        proof {
            assert(base + word@.take(0) =~= base);
        }
        while j < word.len()
            invariant
                0 <= j <= word@.len(),
                0 <= i < words@.len(),
                word@ == views(words@)[i as int],
                base == concat_all(views(words@).take(i as int)),
                letters@ == dedup_first(base + word@.take(j as int)),
            decreases word@.len() - j,
        {
            let c = word[j];
            push_if_new(&mut letters, c);
            proof {
                assert(base + word@.take(j + 1) =~= (base + word@.take(j as int)).push(c));
                lemma_dedup_first_step(base + word@.take(j as int), c);
            }
            j = j + 1;
        }
        proof {
            assert(views(words@).take(i + 1).drop_last() =~= views(words@).take(i as int));
            assert(views(words@).take(i + 1).last() == word@);
            assert(word@.take(word@.len() as int) =~= word@);
            assert(concat_all(views(words@).take(i + 1)) =~= base + word@);
        }
        i = i + 1;
    }
    proof {
        assert(views(words@).take(words@.len() as int) =~= views(words@));
    }
    let ghost cat = concat_all(views(words@));
    let mut j: usize = 0;
    proof {
        assert(cat + result@.take(0) =~= cat);
    }
    while j < result.len()
        invariant
            0 <= j <= result@.len(),
            cat == concat_all(views(words@)),
            letters@ == dedup_first(cat + result@.take(j as int)),
        decreases result@.len() - j,
    {
        let c = result[j];
        push_if_new(&mut letters, c);
        proof {
            assert(cat + result@.take(j + 1) =~= (cat + result@.take(j as int)).push(c));
            lemma_dedup_first_step(cat + result@.take(j as int), c);
        }
        j = j + 1;
    }
    proof {
        assert(cat + result@.take(result@.len() as int) =~= puzzle_chars(views(words@), result@));
        lemma_dedup_first_no_dup(puzzle_chars(views(words@), result@));
    }
    letters
}

} // verus!
