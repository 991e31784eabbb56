use vstd::prelude::*;

use crate::word::has_letter;
use crate::word::lidx;
use crate::word::wf_word;

verus! {

/// Mathematical model of everything a game has learned so far.
///
/// Letters are alphabet indices `0..26`, positions are `0..5`.
#[verifier::ext_equal]
pub ghost struct Knowledge {
    /// The letter confirmed at each position by exact-position feedback, if any.
    pub greens: Seq<Option<u8>>,
    /// Pairs `(c, i)`: letter `c` is known not to stand at position `i`.
    pub excluded: Set<(int, int)>,
    /// Pairs `(c, i)`: letter `c` is known to stand at position `i`.
    pub confirmed: Set<(int, int)>,
    /// Letters known to occur somewhere in the answer.
    pub present: Set<int>,
    /// Letters known to occur nowhere in the answer.
    pub absent: Set<int>,
    /// How many guesses have been incorporated.
    pub turns: nat,
}

impl Knowledge {
    /// The knowledge at the start of a game: nothing is known.
    pub open spec fn init() -> Knowledge {
        Knowledge {
            greens: Seq::new(5, |i: int| None),
            excluded: Set::empty(),
            confirmed: Set::empty(),
            present: Set::empty(),
            absent: Set::empty(),
            turns: 0,
        }
    }

    /// Word `w` is still consistent with everything learned: every confirmed
    /// position matches, no letter stands at an excluded position or is known
    /// absent, and every known-present letter occurs somewhere in `w`.
    pub open spec fn allows(self, w: Seq<u8>) -> bool {
        &&& forall|i: int|
            0 <= i < 5 ==> (#[trigger] self.greens[i] matches Some(l) ==> w[i] == l)
        &&& forall|i: int|
            0 <= i < 5 ==> !self.excluded.contains((#[trigger] lidx(w, i), i)) && !self.absent.contains(
                lidx(w, i),
            )
        &&& forall|c: int| #[trigger] self.present.contains(c) ==> has_letter(w, c)
    }

    /// Guessing `w` could still teach something: some letter of `w` is not
    /// known absent and is either not yet known present, or not yet resolved
    /// (confirmed or excluded) at that exact position.
    pub open spec fn revealing(self, w: Seq<u8>) -> bool {
        exists|i: int|
            0 <= i < 5 && !self.absent.contains(#[trigger] lidx(w, i)) && (!self.present.contains(
                lidx(w, i),
            ) || (!self.excluded.contains((lidx(w, i), i)) && !self.confirmed.contains(
                (lidx(w, i), i),
            )))
    }

    /// Feedback for guess `w` against `answer` never marks a letter present
    /// that is known absent, nor absent one that is known present.
    pub open spec fn feedback_safe(self, answer: Seq<u8>, w: Seq<u8>) -> bool {
        forall|i: int|
            0 <= i < 5 ==> {
                let c = #[trigger] lidx(w, i);
                &&& (has_letter(answer, c) ==> !self.absent.contains(c))
                &&& (!has_letter(answer, c) ==> !self.present.contains(c))
            }
    }

    /// Well-formedness of accumulated knowledge: flags stay in range and
    /// mutually consistent, confirmations are justified, and the
    /// deduction-by-elimination closure holds.
    pub open spec fn inv(self) -> bool {
        &&& self.greens.len() == 5
        &&& forall|c: int| #[trigger] self.present.contains(c) ==> 0 <= c < 26
        &&& forall|c: int|
            #[trigger] self.absent.contains(c) ==> 0 <= c < 26 && !self.present.contains(c)
        &&& forall|p: (int, int)| #[trigger] self.excluded.contains(p) ==> 0 <= p.0 < 26 && 0 <= p.1 < 5
        &&& forall|p: (int, int)|
            #[trigger] self.confirmed.contains(p) ==> 0 <= p.0 < 26 && 0 <= p.1 < 5
                && !self.excluded.contains(p) && self.present.contains(p.0)
        &&& forall|i: int|
            0 <= i < 5 ==> (#[trigger] self.greens[i] matches Some(l) ==> 97 <= l <= 122
                && self.confirmed.contains((l - 97, i)))
        &&& forall|p: (int, int)|
            #[trigger] self.confirmed.contains(p) ==> self.greens[p.1] == Some((p.0 + 97) as u8)
                || (forall|j: int| 0 <= j < 5 && j != p.1 ==> self.excluded.contains((p.0, j)))
        &&& forall|c: int, i: int|
            #![trigger self.present.contains(c), self.excluded.contains((c, i))]
            self.present.contains(c) && excl_count(self.excluded, c, 5) == 4 && 0 <= i < 5
                && !self.excluded.contains((c, i)) ==> self.confirmed.contains((c, i))
    }
}

/// How many of the positions `0..n` are excluded for letter `c`.
pub open spec fn excl_count(ex: Set<(int, int)>, c: int, n: int) -> int
    decreases n,
{
    if n <= 0 {
        0
    } else {
        excl_count(ex, c, n - 1) + if ex.contains((c, n - 1)) {
            1int
        } else {
            0int
        }
    }
}

/// The knowledge after incorporating the feedback of guessing `w` against the
/// true `answer`: exact matches confirm positions, mismatches exclude them,
/// letters of `w` become known present or absent according to whether they
/// occur in `answer`, and the deduction by elimination is re-run for the
/// letters of `w`.
pub open spec fn step(k: Knowledge, answer: Seq<u8>, w: Seq<u8>) -> Knowledge {
    let excluded = Set::new(
        |p: (int, int)|
            k.excluded.contains(p) || (0 <= p.1 < 5 && lidx(w, p.1) == p.0 && w[p.1] != answer[p.1]),
    );
    let present = Set::new(
        |c: int| k.present.contains(c) || (has_letter(w, c) && has_letter(answer, c)),
    );
    let absent = Set::new(
        |c: int| k.absent.contains(c) || (has_letter(w, c) && !has_letter(answer, c)),
    );
    let confirmed = Set::new(
        |p: (int, int)|
            k.confirmed.contains(p) || (0 <= p.1 < 5 && lidx(w, p.1) == p.0 && w[p.1] == answer[p.1])
                || (0 <= p.0 < 26 && 0 <= p.1 < 5 && has_letter(w, p.0) && present.contains(p.0)
                && excl_count(excluded, p.0, 5) == 4 && !excluded.contains((p.0, p.1))),
    );
    Knowledge {
        greens: Seq::new(
            5,
            |i: int|
                if w[i] == answer[i] {
                    Some(w[i])
                } else {
                    k.greens[i]
                },
        ),
        excluded,
        confirmed,
        present,
        absent,
        turns: k.turns + 1,
    }
}

/// Feedback against an answer that is still possible can never conflict with
/// what is already known, whatever the guess.
pub proof fn lemma_allows_feedback_safe(k: Knowledge, answer: Seq<u8>, w: Seq<u8>)
    requires
        k.allows(answer),
        wf_word(answer),
    ensures
        k.feedback_safe(answer, w),
{
    assert forall|i: int| #![trigger lidx(w, i)] 0 <= i < 5 implies {
        let c = lidx(w, i);
        &&& (has_letter(answer, c) ==> !k.absent.contains(c))
        &&& (!has_letter(answer, c) ==> !k.present.contains(c))
    } by {
        let c = lidx(w, i);
        if has_letter(answer, c) {
            let j = choose|j: int| 0 <= j < 5 && lidx(answer, j) == c;
            assert(!k.absent.contains(lidx(answer, j)));
        }
    }
}

/// The knowledge after the per-position phase of feedback incorporation has
/// processed positions `0..n` of guess `w`, before deduction by elimination.
pub open spec fn step_partial(k: Knowledge, answer: Seq<u8>, w: Seq<u8>, n: int) -> Knowledge {
    Knowledge {
        greens: Seq::new(
            5,
            |i: int|
                if 0 <= i < n && w[i] == answer[i] {
                    Some(w[i])
                } else {
                    k.greens[i]
                },
        ),
        excluded: Set::new(
            |p: (int, int)|
                k.excluded.contains(p) || (0 <= p.1 < n && lidx(w, p.1) == p.0 && w[p.1]
                    != answer[p.1]),
        ),
        confirmed: Set::new(
            |p: (int, int)|
                k.confirmed.contains(p) || (0 <= p.1 < n && lidx(w, p.1) == p.0 && w[p.1]
                    == answer[p.1]),
        ),
        present: Set::new(
            |c: int|
                k.present.contains(c) || ((exists|j: int| 0 <= j < n && lidx(w, j) == c)
                    && has_letter(answer, c)),
        ),
        absent: Set::new(
            |c: int|
                k.absent.contains(c) || ((exists|j: int| 0 <= j < n && lidx(w, j) == c)
                    && !has_letter(answer, c)),
        ),
        turns: k.turns + 1,
    }
}

/// The knowledge after deduction by elimination has been re-run for the
/// letters at positions `0..n` of guess `w`, starting from `mid`.
pub open spec fn deduced_partial(mid: Knowledge, w: Seq<u8>, n: int) -> Knowledge {
    Knowledge {
        greens: mid.greens,
        excluded: mid.excluded,
        confirmed: Set::new(
            |p: (int, int)|
                mid.confirmed.contains(p) || ((exists|j: int| 0 <= j < n && lidx(w, j) == p.0) && 0
                    <= p.1 < 5 && mid.present.contains(p.0) && excl_count(mid.excluded, p.0, 5) == 4
                    && !mid.excluded.contains((p.0, p.1))),
        ),
        present: mid.present,
        absent: mid.absent,
        turns: mid.turns,
    }
}

/// Incorporating feedback is the per-position phase over all five positions,
/// followed by deduction by elimination for the guessed letters.
pub proof fn lemma_step_decomposition(k: Knowledge, answer: Seq<u8>, w: Seq<u8>)
    requires
        wf_word(w),
    ensures
        step(k, answer, w) == deduced_partial(step_partial(k, answer, w, 5), w, 5),
{
    let mid = step_partial(k, answer, w, 5);
    let full = step(k, answer, w);
    let ded = deduced_partial(mid, w, 5);
    assert(full.greens =~= ded.greens);
    assert(full.excluded =~= ded.excluded);
    assert(full.present =~= ded.present);
    assert(full.absent =~= ded.absent);
    assert forall|p: (int, int)| full.confirmed.contains(p) == ded.confirmed.contains(p) by {
        assert(has_letter(w, p.0) == (exists|j: int| 0 <= j < 5 && lidx(w, j) == p.0));
        if has_letter(w, p.0) {
            let j = choose|j: int| 0 <= j < 5 && lidx(w, j) == p.0;
            assert(97 <= w[j] <= 122);
            assert(0 <= p.0 < 26);
        }
    }
    assert(full.confirmed =~= ded.confirmed);
    assert(full =~= ded);
}

} // verus!
