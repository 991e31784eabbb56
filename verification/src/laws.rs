use vstd::prelude::*;

use crate::knowledge::Knowledge;
use crate::knowledge::excl_count;
use crate::knowledge::step;
use crate::solver::chosen_at;
use crate::solver::chosen_guess;
use crate::solver::possible_of;
use crate::solver::score;
use crate::word::Word;
use crate::word::has_letter;
use crate::word::lidx;
use crate::word::wf_word;

verus! {

broadcast use vstd::seq_lib::group_filter_ensures;

/// A sequence all of whose elements satisfy the predicate is its own filter.
proof fn lemma_filter_all(s: Seq<Word>, pred: spec_fn(Word) -> bool)
    requires
        forall|j: int| 0 <= j < s.len() ==> pred(#[trigger] s[j]),
    ensures
        s.filter(pred) == s,
    decreases s.len(),
{
    reveal(Seq::filter);
    if s.len() > 0 {
        lemma_filter_all(s.drop_last(), pred);
        assert(s.drop_last().push(s.last()) =~= s);
        assert(s.filter(pred) =~= s);
    } else {
        assert(s.filter(pred) =~= s);
    }
}

/// Everything a filter keeps was in the sequence and satisfies the predicate.
proof fn lemma_filter_member(s: Seq<Word>, pred: spec_fn(Word) -> bool, x: Word)
    requires
        s.filter(pred).contains(x),
    ensures
        s.contains(x),
        pred(x),
    decreases s.len(),
{
    reveal(Seq::filter);
    if s.len() > 0 {
        if pred(s.last()) && x == s.last() {
            assert(s[s.len() - 1] == x);
        } else {
            assert(s.drop_last().filter(pred).contains(x));
            lemma_filter_member(s.drop_last(), pred, x);
            let j = choose|j: int| 0 <= j < s.drop_last().len() && s.drop_last()[j] == x;
            assert(s[j] == x);
        }
    }
}

/// Filtering is a pure predicate: applying the same filter twice keeps
/// exactly what applying it once keeps.
pub proof fn lemma_filter_idempotent(k: Knowledge, words: Seq<Word>)
    ensures
        possible_of(k, possible_of(k, words)) == possible_of(k, words),
{
    lemma_filter_all(possible_of(k, words), |w: Word| k.allows(w@));
}

/// Incorporating feedback only ever adds knowledge: a word the new state
/// still allows was already allowed by the old state, as long as the
/// feedback was taken against an answer the old state allowed.
pub proof fn lemma_step_narrows(k: Knowledge, answer: Seq<u8>, w: Seq<u8>, x: Seq<u8>)
    requires
        k.allows(answer),
        step(k, answer, w).allows(x),
    ensures
        k.allows(x),
{
    let k2 = step(k, answer, w);
    assert forall|i: int| 0 <= i < 5 implies (#[trigger] k.greens[i] matches Some(l) ==> x[i]
        == l) by {
        if k.greens[i] is Some {
            assert(k2.greens[i] == k.greens[i] || (w[i] == answer[i] && k2.greens[i] == Some(
                w[i],
            )));
        }
    }
    assert forall|i: int| 0 <= i < 5 implies !k.excluded.contains((#[trigger] lidx(x, i), i))
        && !k.absent.contains(lidx(x, i)) by {
        assert(!k2.excluded.contains((lidx(x, i), i)) && !k2.absent.contains(lidx(x, i)));
    }
    assert forall|c: int| #[trigger] k.present.contains(c) implies has_letter(x, c) by {
        assert(k2.present.contains(c));
    }
}

/// Monotonic narrowing: after a further piece of feedback, the possible set
/// computed from the same candidate universe only ever shrinks. Chaining
/// this over a whole sequence of feedback steps keeps the sets nested.
pub proof fn lemma_monotonic_narrowing(k: Knowledge, answer: Seq<u8>, w: Seq<u8>, words: Seq<Word>)
    requires
        k.allows(answer),
    ensures
        forall|x: Word|
            #[trigger] possible_of(step(k, answer, w), words).contains(x) ==> possible_of(
                k,
                words,
            ).contains(x),
{
    let k2 = step(k, answer, w);
    assert forall|x: Word| #[trigger] possible_of(k2, words).contains(x) implies possible_of(
        k,
        words,
    ).contains(x) by {
        lemma_filter_member(words, |v: Word| k2.allows(v@), x);
        lemma_step_narrows(k, answer, w, x@);
        let j = choose|j: int| 0 <= j < words.len() && words[j] == x;
        assert(words.filter(|v: Word| k.allows(v@)).contains(words[j]));
    }
}

/// The fresh knowledge allows every word: nothing is excluded yet.
pub proof fn lemma_init_allows(w: Seq<u8>)
    ensures
        Knowledge::init().allows(w),
{
}

/// The true answer stays possible under its own feedback, whatever the
/// guess: truthful play can never rule out the truth.
pub proof fn lemma_step_keeps_answer(k: Knowledge, answer: Seq<u8>, w: Seq<u8>)
    requires
        k.allows(answer),
    ensures
        step(k, answer, w).allows(answer),
{
    let k2 = step(k, answer, w);
    assert forall|i: int| 0 <= i < 5 implies (#[trigger] k2.greens[i] matches Some(l) ==> answer[i]
        == l) by {}
    assert forall|i: int| 0 <= i < 5 implies !k2.excluded.contains((#[trigger] lidx(answer, i), i))
        && !k2.absent.contains(lidx(answer, i)) by {
        assert(!k.excluded.contains((lidx(answer, i), i)));
        assert(has_letter(answer, lidx(answer, i)));
    }
    assert forall|c: int| #[trigger] k2.present.contains(c) implies has_letter(answer, c) by {}
}

/// The knowledge after a whole game's worth of guesses, each incorporated
/// against the same true answer.
pub open spec fn play_steps(k: Knowledge, answer: Seq<u8>, ws: Seq<Word>) -> Knowledge
    decreases ws.len(),
{
    if ws.len() == 0 {
        k
    } else {
        step(play_steps(k, answer, ws.drop_last()), answer, ws.last()@)
    }
}

/// Monotonic narrowing over a whole sequence of feedback steps: however many
/// guesses are incorporated against the same true answer, the possible set
/// computed from the same candidate universe only ever shrinks, and the
/// answer itself stays possible throughout.
pub proof fn lemma_narrowing_sequence(
    k: Knowledge,
    answer: Seq<u8>,
    ws: Seq<Word>,
    words: Seq<Word>,
)
    requires
        k.allows(answer),
    ensures
        play_steps(k, answer, ws).allows(answer),
        forall|x: Word|
            #[trigger] possible_of(play_steps(k, answer, ws), words).contains(x) ==> possible_of(
                k,
                words,
            ).contains(x),
    decreases ws.len(),
{
    if ws.len() > 0 {
        let prev = play_steps(k, answer, ws.drop_last());
        lemma_narrowing_sequence(k, answer, ws.drop_last(), words);
        lemma_step_keeps_answer(prev, answer, ws.last()@);
        lemma_monotonic_narrowing(prev, answer, ws.last()@, words);
    }
}

/// Self-consistency: a word that is still possible stays possible after
/// incorporating the feedback of guessing it against itself (a full match).
pub proof fn lemma_self_consistency(k: Knowledge, w: Seq<u8>)
    requires
        wf_word(w),
        k.allows(w),
    ensures
        step(k, w, w).allows(w),
{
    let k2 = step(k, w, w);
    assert forall|i: int| 0 <= i < 5 implies (#[trigger] k2.greens[i] matches Some(l) ==> w[i]
        == l) by {}
    assert forall|i: int| 0 <= i < 5 implies !k2.excluded.contains((#[trigger] lidx(w, i), i))
        && !k2.absent.contains(lidx(w, i)) by {
        assert(!k.excluded.contains((lidx(w, i), i)));
        assert(has_letter(w, lidx(w, i)));
    }
    assert forall|c: int| #[trigger] k2.present.contains(c) implies has_letter(w, c) by {}
}

/// Deduction correctness: when a letter of the guess is known present after
/// the feedback and is excluded from exactly four of the five positions, the
/// remaining position is confirmed.
pub proof fn lemma_deduction(k: Knowledge, answer: Seq<u8>, w: Seq<u8>, c: int, i: int)
    requires
        wf_word(w),
        has_letter(w, c),
        step(k, answer, w).present.contains(c),
        excl_count(step(k, answer, w).excluded, c, 5) == 4,
        0 <= i < 5,
        !step(k, answer, w).excluded.contains((c, i)),
    ensures
        step(k, answer, w).confirmed.contains((c, i)),
{
    let j = choose|j: int| 0 <= j < 5 && lidx(w, j) == c;
    assert(97 <= w[j] <= 122);
    assert(0 <= c < 26);
}

/// Two exclusion sets that agree on letter `c` below position `n` count the
/// same number of exclusions for it.
proof fn lemma_excl_count_congruent(ex1: Set<(int, int)>, ex2: Set<(int, int)>, c: int, n: int)
    requires
        forall|j: int| 0 <= j < n ==> ex1.contains((c, j)) == ex2.contains((c, j)),
    ensures
        excl_count(ex1, c, n) == excl_count(ex2, c, n),
    decreases n,
{
    if n > 0 {
        lemma_excl_count_congruent(ex1, ex2, c, n - 1);
    }
}

/// With four of five positions excluded and position `i` not among them,
/// every other position is excluded.
proof fn lemma_four_excluded(ex: Set<(int, int)>, c: int, i: int)
    requires
        excl_count(ex, c, 5) == 4,
        0 <= i < 5,
        !ex.contains((c, i)),
    ensures
        forall|j: int| 0 <= j < 5 && j != i ==> ex.contains((c, j)),
{
    reveal_with_fuel(excl_count, 6);
}

/// The empty knowledge is well formed.
pub proof fn lemma_init_inv()
    ensures
        Knowledge::init().inv(),
{
}

/// Incorporating feedback against an answer the state still allows keeps the
/// knowledge well formed: the per-letter flags stay mutually consistent,
/// every confirmation stays justified, and the deduction-by-elimination
/// closure still holds.
pub proof fn lemma_step_preserves_inv(k: Knowledge, answer: Seq<u8>, w: Seq<u8>)
    requires
        k.inv(),
        wf_word(answer),
        wf_word(w),
        k.allows(answer),
    ensures
        step(k, answer, w).inv(),
{
    let k2 = step(k, answer, w);
    // Anything the old state confirms, the answer indeed has there.
    assert forall|p: (int, int)| #[trigger] k.confirmed.contains(p) implies answer[p.1] == p.0
        + 97 by {
        if k.greens[p.1] == Some((p.0 + 97) as u8) {
            assert(k.greens[p.1] matches Some(l) ==> answer[p.1] == l);
        } else {
            let j = choose|j: int| 0 <= j < 5 && lidx(answer, j) == p.0;
            assert(!k.excluded.contains((lidx(answer, j), j)));
            assert(j == p.1);
        }
    }
    assert forall|c: int| #[trigger] k2.present.contains(c) implies 0 <= c < 26 by {
        if !k.present.contains(c) {
            let j = choose|j: int| 0 <= j < 5 && lidx(w, j) == c;
            assert(97 <= w[j] <= 122);
        }
    }
    assert forall|c: int| #[trigger] k2.absent.contains(c) implies 0 <= c < 26
        && !k2.present.contains(c) by {
        if k.absent.contains(c) {
            if k2.present.contains(c) && !k.present.contains(c) {
                let j = choose|j: int| 0 <= j < 5 && lidx(answer, j) == c;
                assert(!k.absent.contains(lidx(answer, j)));
            }
        } else {
            let j = choose|j: int| 0 <= j < 5 && lidx(w, j) == c;
            assert(97 <= w[j] <= 122);
            assert(!has_letter(answer, c));
            if k2.present.contains(c) && k.present.contains(c) {
                assert(has_letter(answer, c));
            }
        }
    }
    assert forall|p: (int, int)| #[trigger] k2.excluded.contains(p) implies 0 <= p.0 < 26 && 0
        <= p.1 < 5 by {
        if !k.excluded.contains(p) {
            assert(97 <= w[p.1] <= 122);
        }
    }
    assert forall|p: (int, int)| #[trigger] k2.confirmed.contains(p) implies 0 <= p.0 < 26 && 0
        <= p.1 < 5 && !k2.excluded.contains(p) && k2.present.contains(p.0) by {
        if k.confirmed.contains(p) {
            assert(answer[p.1] == p.0 + 97);
            assert(k.present.contains(p.0));
            if k2.excluded.contains(p) && !k.excluded.contains(p) {
                assert(w[p.1] == p.0 + 97);
            }
        } else if 0 <= p.1 < 5 && lidx(w, p.1) == p.0 && w[p.1] == answer[p.1] {
            assert(97 <= w[p.1] <= 122);
            assert(lidx(answer, p.1) == p.0);
            assert(has_letter(answer, p.0) && has_letter(w, p.0));
            assert(!k.excluded.contains((lidx(answer, p.1), p.1)));
        }
    }
    assert forall|i: int| 0 <= i < 5 implies (#[trigger] k2.greens[i] matches Some(l) ==> 97 <= l
        <= 122 && k2.confirmed.contains((l - 97, i))) by {
        if w[i] == answer[i] {
            assert(k2.greens[i] == Some(w[i]));
            assert(lidx(w, i) == w[i] - 97);
        } else {
            assert(k2.greens[i] == k.greens[i]);
        }
    }
    assert forall|p: (int, int)| #[trigger] k2.confirmed.contains(p) implies k2.greens[p.1] == Some(
        (p.0 + 97) as u8,
    ) || (forall|j: int| 0 <= j < 5 && j != p.1 ==> k2.excluded.contains((p.0, j))) by {
        if k.confirmed.contains(p) {
            if k.greens[p.1] == Some((p.0 + 97) as u8) {
                assert(answer[p.1] == p.0 + 97);
                assert(k2.greens[p.1] == Some((p.0 + 97) as u8));
            } else {
                assert(forall|j: int| 0 <= j < 5 && j != p.1 ==> k.excluded.contains((p.0, j)));
                assert forall|j: int| 0 <= j < 5 && j != p.1 implies k2.excluded.contains(
                    (p.0, j),
                ) by {
                    assert(k.excluded.contains((p.0, j)));
                }
            }
        } else if 0 <= p.1 < 5 && lidx(w, p.1) == p.0 && w[p.1] == answer[p.1] {
            assert(k2.greens[p.1] == Some(w[p.1]));
        } else {
            lemma_four_excluded(k2.excluded, p.0, p.1);
        }
    }
    assert forall|c: int, i: int|
        #![trigger k2.present.contains(c), k2.excluded.contains((c, i))]
        k2.present.contains(c) && excl_count(k2.excluded, c, 5) == 4 && 0 <= i < 5
            && !k2.excluded.contains((c, i)) implies k2.confirmed.contains((c, i)) by {
        if has_letter(w, c) {
            assert(0 <= c < 26);
        } else {
            assert forall|j: int| 0 <= j < 5 implies k2.excluded.contains((c, j))
                == k.excluded.contains((c, j)) by {
                if k2.excluded.contains((c, j)) && !k.excluded.contains((c, j)) {
                    assert(lidx(w, j) == c);
                    assert(has_letter(w, c));
                }
            }
            lemma_excl_count_congruent(k.excluded, k2.excluded, c, 5);
            assert(k.present.contains(c));
            assert(k.confirmed.contains((c, i)));
        }
    }
}

/// Tie-break determinism: the choice contract pins the result down, so any
/// two runs on identical inputs return the identical word, whatever order
/// the candidates were evaluated in.
pub proof fn lemma_choice_unique(
    k: Knowledge,
    answers: Seq<Word>,
    guesses: Seq<Word>,
    r1: Word,
    r2: Word,
)
    requires
        chosen_guess(k, answers, guesses, r1),
        chosen_guess(k, answers, guesses, r2),
    ensures
        r1 == r2,
{
    let poss = possible_of(k, answers);
    if poss.len() != 1 {
        let i1 = choose|i: int| chosen_at(k, poss, guesses, r1, i);
        let i2 = choose|i: int| chosen_at(k, poss, guesses, r2, i);
        assert(chosen_at(k, poss, guesses, r1, i1));
        assert(chosen_at(k, poss, guesses, r2, i2));
        assert(score(k, poss, guesses[i1]) >= score(k, poss, r2));
        assert(score(k, poss, guesses[i2]) >= score(k, poss, r1));
        if i1 < i2 {
            assert(score(k, poss, guesses[i1]) > score(k, poss, r2));
            assert(false);
        }
        if i2 < i1 {
            assert(score(k, poss, guesses[i2]) > score(k, poss, r1));
            assert(false);
        }
    }
}

} // verus!
