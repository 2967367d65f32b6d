use vstd::prelude::*;

use crate::guesser::{fits, is_choice, survivors};

verus! {

proof fn lemma_filter_keeps_all<A>(s: Seq<A>, pred: spec_fn(A) -> bool)
    requires
        forall|i: int| 0 <= i < s.len() ==> pred(#[trigger] s[i]),
    ensures
        s.filter(pred) == s,
    decreases s.len(),
{
    if s.len() == 0 {
        reveal(Seq::filter);
    } else {
        let init = s.drop_last();
        assert forall|i: int| 0 <= i < init.len() implies pred(#[trigger] init[i]) by {
            assert(init[i] == s[i]);
        }
        lemma_filter_keeps_all(init, pred);
        init.lemma_filter_push(s.last(), pred);
        assert(init.push(s.last()) =~= s);
    }
}

/// After elimination, every remaining word has the pattern's length and fits
/// each slot: the known letter where it is known, a letter not yet guessed
/// where it is not.
pub proof fn elim_sound<'a>(words: Seq<&'a str>, pattern: Seq<Option<char>>, guessed: Seq<char>)
    ensures
        forall|k: int|
            0 <= k < survivors(words, pattern, guessed).len() ==> fits(
                (#[trigger] survivors(words, pattern, guessed)[k])@,
                pattern,
                guessed,
            ),
{
    let pred = |w: &'a str| fits(w@, pattern, guessed);
    assert forall|k: int|
        0 <= k < survivors(words, pattern, guessed).len() implies fits(
        (#[trigger] survivors(words, pattern, guessed)[k])@,
        pattern,
        guessed,
    ) by {
        words.lemma_filter_pred(pred, k);
    }
}

/// Elimination only removes words: each word kept was among the words before,
/// and there are no more of them.
pub proof fn elim_shrinks<'a>(words: Seq<&'a str>, pattern: Seq<Option<char>>, guessed: Seq<char>)
    ensures
        survivors(words, pattern, guessed).len() <= words.len(),
        forall|k: int|
            0 <= k < survivors(words, pattern, guessed).len() ==> words.contains(
                #[trigger] survivors(words, pattern, guessed)[k],
            ),
{
    let pred = |w: &'a str| fits(w@, pattern, guessed);
    words.lemma_filter_len(pred);
    assert forall|k: int|
        0 <= k < survivors(words, pattern, guessed).len() implies words.contains(
        #[trigger] survivors(words, pattern, guessed)[k],
    ) by {
        let w = survivors(words, pattern, guessed)[k];
        assert(words.filter(pred).contains(w));
        words.lemma_filter_contains_rev(pred, w);
    }
}

/// Eliminating a second time, with the pattern and the guessed letters
/// unchanged, keeps every word that the first elimination kept.
pub proof fn elim_idempotent<'a>(
    words: Seq<&'a str>,
    pattern: Seq<Option<char>>,
    guessed: Seq<char>,
)
    ensures
        survivors(survivors(words, pattern, guessed), pattern, guessed) == survivors(
            words,
            pattern,
            guessed,
        ),
{
    let kept = survivors(words, pattern, guessed);
    let pred = |w: &'a str| fits(w@, pattern, guessed);
    assert forall|i: int| 0 <= i < kept.len() implies pred(#[trigger] kept[i]) by {
        words.lemma_filter_pred(pred, i);
    }
    lemma_filter_keeps_all(kept, pred);
}

/// For given remaining words and guessed letters there is one letter to
/// propose, or none: two results that both meet the selection rule are equal.
pub proof fn choice_is_unique<'a>(
    words: Seq<&'a str>,
    guessed: Seq<char>,
    r1: Option<char>,
    r2: Option<char>,
)
    requires
        is_choice(words, guessed, r1),
        is_choice(words, guessed, r2),
    ensures
        r1 == r2,
{
    match (r1, r2) {
        (Some(c1), Some(c2)) => {
            assert(crate::guesser::open_letter(words, guessed, c2));
            assert(crate::guesser::open_letter(words, guessed, c1));
        },
        (Some(c1), None) => {
            assert(crate::guesser::open_letter(words, guessed, c1));
        },
        (None, Some(c2)) => {
            assert(crate::guesser::open_letter(words, guessed, c2));
        },
        (None, None) => {},
    }
}

} // verus!
