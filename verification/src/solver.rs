use vstd::prelude::*;

use crate::knowledge::Knowledge;
use crate::knowledge::lemma_allows_feedback_safe;
use crate::knowledge::step;
use crate::state::Game;
use crate::word::Word;
use crate::word::wf_word;

verus! {

broadcast use vstd::seq_lib::group_filter_ensures;

/// The subsequence of `words` still consistent with knowledge `k`, in the
/// order of `words`.
pub open spec fn possible_of(k: Knowledge, words: Seq<Word>) -> Seq<Word> {
    words.filter(|w: Word| k.allows(w@))
}

/// How many of `possible` would remain possible after the feedback of
/// guessing `guess` when the true answer is `answer`.
pub open spec fn remaining_after(
    k: Knowledge,
    possible: Seq<Word>,
    answer: Word,
    guess: Word,
) -> int {
    possible_of(step(k, answer@, guess@), possible).len() as int
}

/// The worst case of `remaining_after` over the answers in `answers`.
pub open spec fn worst_over(
    k: Knowledge,
    possible: Seq<Word>,
    answers: Seq<Word>,
    guess: Word,
) -> int
    decreases answers.len(),
{
    if answers.len() == 0 {
        0
    } else {
        let rest = worst_over(k, possible, answers.drop_last(), guess);
        let cur = remaining_after(k, possible, answers.last(), guess);
        if cur > rest {
            cur
        } else {
            rest
        }
    }
}

/// The minimax score of `guess`: the worst-case number of candidates that
/// could remain possible after its feedback.
pub open spec fn score(k: Knowledge, possible: Seq<Word>, guess: Word) -> int {
    worst_over(k, possible, possible, guess)
}

/// `r`, standing at index `i` of the guess list, is the first minimax
/// optimum: it is revealing, no revealing guess scores below it, and every
/// earlier revealing guess scores strictly above it.
pub open spec fn chosen_at(
    k: Knowledge,
    poss: Seq<Word>,
    guesses: Seq<Word>,
    r: Word,
    i: int,
) -> bool {
    &&& 0 <= i < guesses.len()
    &&& guesses[i] == r
    &&& k.revealing(r@)
    &&& forall|j: int|
        0 <= j < guesses.len() && k.revealing(#[trigger] guesses[j]@) ==> score(k, poss, guesses[j])
            >= score(k, poss, r)
    &&& forall|j: int|
        0 <= j < i && k.revealing(#[trigger] guesses[j]@) ==> score(k, poss, guesses[j]) > score(
            k,
            poss,
            r,
        )
}

/// What `best_guess` returns: the single remaining candidate when exactly
/// one is left, and otherwise the first revealing guess of minimal worst-case
/// score, in the guess list's own order.
pub open spec fn chosen_guess(k: Knowledge, answers: Seq<Word>, guesses: Seq<Word>, r: Word) -> bool {
    let poss = possible_of(k, answers);
    if poss.len() == 1 {
        r == poss[0]
    } else {
        exists|i: int| chosen_at(k, poss, guesses, r, i)
    }
}

/// Picks the guess that minimizes the worst-case number of remaining
/// possible answers (minimax), breaking ties by the guess list's order. When
/// a single candidate remains it is returned at once, whether or not it
/// could still reveal anything.
#[verifier::loop_isolation(false)]
pub fn best_guess(game: &Game, answer_words: &[Word], guess_words: &[Word]) -> (r: Word)
    requires
        forall|i: int| 0 <= i < answer_words@.len() ==> wf_word(#[trigger] answer_words@[i]@),
        forall|i: int| 0 <= i < guess_words@.len() ==> wf_word(#[trigger] guess_words@[i]@),
        possible_of(game@, answer_words@).len() > 0,
        possible_of(game@, answer_words@).len() == 1 || exists|i: int|
            0 <= i < guess_words@.len() && game@.revealing(#[trigger] guess_words@[i]@),
        game@.turns < u32::MAX,
    ensures
        chosen_guess(game@, answer_words@, guess_words@, r),
{
    let ghost k = game@;
    // Words never become possible again, so filter once up front.
    let mut possible: Vec<Word> = Vec::new();
    for i in 0..answer_words.len()
        invariant
            possible@ == possible_of(k, answer_words@.take(i as int)),
            forall|j: int| 0 <= j < possible@.len() ==> wf_word(#[trigger] possible@[j]@),
    {
        let w = answer_words[i];
        let ghost prefix = answer_words@.take(i as int);
        proof {
            assert(answer_words@.take(i + 1).drop_last() =~= prefix);
            assert(answer_words@.take(i + 1).last() == w);
            reveal_with_fuel(Seq::filter, 2);
        }
        if game.is_possible(w) {
            possible.push(w);
        }
    }
    proof {
        assert(answer_words@.take(answer_words@.len() as int) =~= answer_words@);
    }
    let ghost poss = possible_of(k, answer_words@);
    if possible.len() == 1 {
        // The single remaining candidate must be the answer; it is returned
        // even though guessing it can reveal nothing new.
        return possible[0];
    }
    let mut best: Option<Word> = None;
    let mut best_score: usize = 0;
    let ghost mut best_idx: int = 0;
    for gi in 0..guess_words.len()
        invariant
            best is None ==> forall|j: int|
                0 <= j < gi ==> !k.revealing(#[trigger] guess_words@[j]@),
            best matches Some(b) ==> {
                &&& 0 <= best_idx < gi
                &&& guess_words@[best_idx] == b
                &&& k.revealing(b@)
                &&& best_score == score(k, poss, b)
                &&& forall|j: int|
                    0 <= j < gi && k.revealing(#[trigger] guess_words@[j]@) ==> score(
                        k,
                        poss,
                        guess_words@[j],
                    ) >= best_score
                &&& forall|j: int|
                    0 <= j < best_idx && k.revealing(#[trigger] guess_words@[j]@) ==> score(
                        k,
                        poss,
                        guess_words@[j],
                    ) > best_score
            },
    {
        let gw = guess_words[gi];
        if game.is_revealing(gw) {
            let mut max_answers: usize = 0;
            for ai in 0..possible.len()
                invariant
                    max_answers == worst_over(k, poss, poss.take(ai as int), gw),
                    max_answers <= poss.len(),
            {
                let a = possible[ai];
                proof {
                    assert(poss[ai as int] == a);
                    assert(k.allows(a@));
                    lemma_allows_feedback_safe(k, a@, gw@);
                }
                let mut sim = *game;
                sim.guess(a, gw);
                let mut answers: usize = 0;
                for ni in 0..possible.len()
                    invariant
                        sim@ == step(k, a@, gw@),
                        answers == possible_of(sim@, poss.take(ni as int)).len(),
                        answers <= ni,
                {
                    let na = possible[ni];
                    let ghost prefix = poss.take(ni as int);
                    proof {
                        assert(poss.take(ni + 1).drop_last() =~= prefix);
                        assert(poss.take(ni + 1).last() == na);
                        reveal_with_fuel(Seq::filter, 2);
                    }
                    if sim.is_possible(na) {
                        answers = answers + 1;
                    }
                }
                proof {
                    assert(poss.take(poss.len() as int) =~= poss);
                    assert(answers == remaining_after(k, poss, a, gw));
                    assert(poss.take(ai + 1).drop_last() =~= poss.take(ai as int));
                    assert(poss.take(ai + 1).last() == a);
                }
                if answers > max_answers {
                    max_answers = answers;
                }
            }
            proof {
                assert(poss.take(poss.len() as int) =~= poss);
                assert(max_answers == score(k, poss, gw));
            }
            match best {
                Option::None => {
                    best = Some(gw);
                    best_score = max_answers;
                    proof {
                        best_idx = gi as int;
                    }
                },
                Option::Some(_) => {
                    if max_answers < best_score {
                        best = Some(gw);
                        best_score = max_answers;
                        proof {
                            best_idx = gi as int;
                        }
                    }
                },
            }
        }
    }
    match best {
        Option::Some(b) => {
            proof {
                assert(chosen_at(k, poss, guess_words@, b, best_idx));
            }
            b
        },
        Option::None => {
            // A revealing guess exists whenever more than one candidate
            // remains, so this branch cannot be reached.
            proof {
                assert(false);
            }
            guess_words[0]
        },
    }
}

} // verus!
