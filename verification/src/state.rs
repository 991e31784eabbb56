use vstd::prelude::*;

use crate::knowledge::Knowledge;
use crate::knowledge::deduced_partial;
use crate::knowledge::excl_count;
use crate::knowledge::lemma_step_decomposition;
use crate::knowledge::step;
use crate::knowledge::step_partial;
use crate::word::Word;
use crate::word::has_letter;
use crate::word::lidx;
use crate::word::wf_word;

verus! {

/// Whether bit `i` of `b` is set.
pub open spec fn bit(b: u8, i: u8) -> bool {
    b & (1u8 << i) != 0
}

/// A small set of flags packed into one byte.
#[derive(Clone, Copy, PartialEq, Eq)]
pub struct BitField(pub u8);

impl BitField {
    /// Reads bit `idx`.
    fn get(self, idx: usize) -> (r: bool)
        requires
            idx < 8,
        ensures
            r == bit(self.0, idx as u8),
    {
        let idx = idx as u8;
        self.0 & (1u8 << idx) != 0
    }

    /// Sets bit `idx`, leaving every other bit as it was.
    fn set(&mut self, idx: usize)
        requires
            idx < 8,
        ensures
            forall|j: u8| j < 8 ==> bit(final(self).0, j) == (bit(old(self).0, j) || j == idx),
    {
        let i = idx as u8;
        let b = self.0;
        self.0 = b | (1u8 << i);
        proof {
            assert(forall|j: u8|
                j < 8 ==> ((b | (1u8 << i)) & (1u8 << j) != 0) == ((b & (1u8 << j) != 0) || j
                    == i)) by (bit_vector)
                requires
                    i < 8,
            ;
        }
    }
}

/// What is known of one letter of the alphabet: at which positions it is
/// known absent or known to stand, and whether it is known in or out of the
/// answer as a whole.
#[derive(Clone, Copy)]
pub struct CharInfo {
    /// Bits 0-4: positions that do NOT hold the letter. Bit 7: the letter is
    /// known to be out of the answer.
    pub neg: BitField,
    /// Bits 0-4: positions that DO hold the letter. Bit 7: the letter is
    /// known to be in the answer.
    pub pos: BitField,
}

impl CharInfo {
    /// The letter is known not to stand at position `i`.
    pub open spec fn excluded(self, i: u8) -> bool {
        bit(self.neg.0, i)
    }

    /// The letter is known to stand at position `i`.
    pub open spec fn confirmed(self, i: u8) -> bool {
        bit(self.pos.0, i)
    }

    /// The letter is known to occur somewhere in the answer.
    pub open spec fn is_in_spec(self) -> bool {
        bit(self.pos.0, 7)
    }

    /// The letter is known to occur nowhere in the answer.
    pub open spec fn is_out_spec(self) -> bool {
        bit(self.neg.0, 7)
    }

    /// How many of the five positions are excluded for this letter.
    pub open spec fn excluded_count(self, n: int) -> int
        decreases n,
    {
        if n <= 0 {
            0
        } else {
            self.excluded_count(n - 1) + if self.excluded((n - 1) as u8) {
                1int
            } else {
                0int
            }
        }
    }

    fn unknown() -> (r: CharInfo)
        ensures
            r.neg.0 == 0 && r.pos.0 == 0,
    {
        CharInfo { neg: BitField(0), pos: BitField(0) }
    }

    fn is_in(&self) -> (r: bool)
        ensures
            r == self.is_in_spec(),
    {
        self.pos.get(7)
    }

    fn is_out(&self) -> (r: bool)
        ensures
            r == self.is_out_spec(),
    {
        self.neg.get(7)
    }

    fn set_in(&mut self)
        requires
            !old(self).is_out_spec(),
        ensures
            final(self).is_in_spec(),
            final(self).is_out_spec() == old(self).is_out_spec(),
            final(self).neg == old(self).neg,
            forall|i: u8| i < 5 ==> final(self).confirmed(i) == old(self).confirmed(i),
    {
        self.pos.set(7);
    }

    fn set_out(&mut self)
        requires
            !old(self).is_in_spec(),
        ensures
            final(self).is_out_spec(),
            final(self).is_in_spec() == old(self).is_in_spec(),
            final(self).pos == old(self).pos,
            forall|i: u8| i < 5 ==> final(self).excluded(i) == old(self).excluded(i),
    {
        self.neg.set(7);
    }

    /// Deduction by elimination: when the letter is known present and is
    /// excluded from exactly four of the five positions, the remaining
    /// position must hold it, so it becomes confirmed.
    fn deduce(&mut self)
        ensures
            final(self).neg == old(self).neg,
            final(self).is_in_spec() == old(self).is_in_spec(),
            forall|i: u8|
                i < 5 ==> final(self).confirmed(i) == (old(self).confirmed(i) || (old(
                    self,
                ).is_in_spec() && old(self).excluded_count(5) == 4 && !old(self).excluded(i))),
    {
        if self.is_in() {
            let mut negs: u32 = 0;
            for i in 0..5usize
                invariant
                    negs == self.excluded_count(i as int),
                    negs <= i,
            {
                if self.neg.get(i) {
                    negs += 1;
                }
            }
            if negs == 4 {
                let ghost orig = *self;
                for i in 0..5usize
                    invariant
                        self.neg == orig.neg,
                        self.is_in_spec() == orig.is_in_spec(),
                        forall|j: u8|
                            j < 5 ==> self.confirmed(j) == (orig.confirmed(j) || (j < i
                                && !orig.excluded(j))),
                {
                    if !self.neg.get(i) {
                        self.pos.set(i);
                    }
                }
            }
        }
    }
}

/// The knowledge a game has accumulated: per-position confirmed letters
/// (denormalized from exact-position feedback for fast lookup), the 26
/// per-letter records, and a turn counter. Cheap to copy, so the search can
/// simulate many hypothetical futures from the same state.
#[derive(Clone, Copy)]
pub struct Game {
    positions: [Option<u8>; 5],
    chars: [CharInfo; 26],
    pub guesses: u32,
}

impl View for Game {
    type V = Knowledge;

    closed spec fn view(&self) -> Knowledge {
        Knowledge {
            greens: self.positions@,
            excluded: Set::new(
                |p: (int, int)|
                    0 <= p.0 < 26 && 0 <= p.1 < 5 && self.chars@[p.0].excluded(p.1 as u8),
            ),
            confirmed: Set::new(
                |p: (int, int)|
                    0 <= p.0 < 26 && 0 <= p.1 < 5 && self.chars@[p.0].confirmed(p.1 as u8),
            ),
            present: Set::new(|c: int| 0 <= c < 26 && self.chars@[c].is_in_spec()),
            absent: Set::new(|c: int| 0 <= c < 26 && self.chars@[c].is_out_spec()),
            turns: self.guesses as nat,
        }
    }
}

impl Game {
    /// A fresh game: nothing is known yet.
    pub fn new() -> (r: Game)
        ensures
            r@ == Knowledge::init(),
    {
        let g = Game {
            positions: [None; 5],
            chars: [CharInfo { neg: BitField(0), pos: BitField(0) }; 26],
            guesses: 0,
        };
        proof {
            assert forall|i: u8| i < 8 implies !bit(0u8, i) by {
                assert(0u8 & (1u8 << i) == 0) by (bit_vector);
            }
            assert(g@.excluded =~= Set::empty());
            assert(g@.confirmed =~= Set::empty());
            assert(g@.present =~= Set::empty());
            assert(g@.absent =~= Set::empty());
            assert(g@.greens =~= Seq::new(5, |i: int| None));
            assert(g@ =~= Knowledge::init());
        }
        g
    }

    /// Letter `c` is known to occur somewhere in the answer.
    pub fn known_present(&self, c: u8) -> (r: bool)
        requires
            97 <= c <= 122,
        ensures
            r == self@.present.contains(c - 97),
    {
        self.chars[(c - 97) as usize].is_in()
    }

    /// Letter `c` is known to occur nowhere in the answer.
    pub fn known_absent(&self, c: u8) -> (r: bool)
        requires
            97 <= c <= 122,
        ensures
            r == self@.absent.contains(c - 97),
    {
        self.chars[(c - 97) as usize].is_out()
    }

    /// Letter `c` is known not to stand at position `i`.
    pub fn excluded_at(&self, c: u8, i: usize) -> (r: bool)
        requires
            97 <= c <= 122,
            i < 5,
        ensures
            r == self@.excluded.contains((c - 97, i as int)),
    {
        self.chars[(c - 97) as usize].neg.get(i)
    }

    /// Letter `c` is known to stand at position `i`.
    pub fn confirmed_at(&self, c: u8, i: usize) -> (r: bool)
        requires
            97 <= c <= 122,
            i < 5,
        ensures
            r == self@.confirmed.contains((c - 97, i as int)),
    {
        self.chars[(c - 97) as usize].pos.get(i)
    }

    /// The letter confirmed at position `i` by exact-position feedback, if any.
    pub fn confirmed_letter(&self, i: usize) -> (r: Option<u8>)
        requires
            i < 5,
        ensures
            r == self@.greens[i as int],
    {
        self.positions[i]
    }

    /// Word `w` is still consistent with everything learned so far.
    pub fn is_possible(&self, w: Word) -> (r: bool)
        requires
            wf_word(w@),
        ensures
            r == self@.allows(w@),
    {
        // Confirmed letters must stand at their positions.
        for i in 0..5usize
            invariant
                wf_word(w@),
                forall|j: int|
                    0 <= j < i ==> (#[trigger] self@.greens[j] matches Some(l) ==> w@[j] == l),
        {
            if let Some(c) = self.positions[i] {
                if w.0[i] != c {
                    proof {
                        assert(self@.greens[i as int] matches Some(l) && w@[i as int] != l);
                    }
                    return false;
                }
            }
        }
        // No letter at an excluded position, no letter known absent.
        for i in 0..5usize
            invariant
                wf_word(w@),
                forall|j: int|
                    0 <= j < i ==> !self@.excluded.contains((#[trigger] lidx(w@, j), j))
                        && !self@.absent.contains(lidx(w@, j)),
        {
            let c = w.0[i];
            let idx = (c - 97) as usize;
            let info = self.chars[idx];
            if info.is_out() {
                proof {
                    assert(self@.absent.contains(lidx(w@, i as int)));
                }
                return false;
            }
            if info.neg.get(i) {
                proof {
                    assert(self@.excluded.contains((lidx(w@, i as int), i as int)));
                }
                return false;
            }
        }
        // Every letter known present must occur somewhere in `w`.
        for ci in 0..26usize
            invariant
                wf_word(w@),
                forall|c: int|
                    0 <= c < ci ==> (#[trigger] self@.present.contains(c) ==> has_letter(w@, c)),
        {
            let info = self.chars[ci];
            if info.is_in() {
                if !w.contains_letter(97 + ci as u8) {
                    proof {
                        assert(self@.present.contains(ci as int));
                        assert(!has_letter(w@, ci as int)) by {
                            assert(forall|j: int|
                                0 <= j < 5 ==> w@[j] != 97 + ci ==> lidx(w@, j) != ci);
                        }
                    }
                    return false;
                }
                proof {
                    assert(has_letter(w@, ci as int)) by {
                        let j = choose|j: int| 0 <= j < 5 && w@[j] == 97 + ci;
                        assert(lidx(w@, j) == ci);
                    }
                }
            } else {
                proof {
                    assert(!self@.present.contains(ci as int));
                }
            }
        }
        true
    }

    /// Guessing `w` could still yield new knowledge.
    pub fn is_revealing(&self, w: Word) -> (r: bool)
        requires
            wf_word(w@),
        ensures
            r == self@.revealing(w@),
    {
        for i in 0..5usize
            invariant
                wf_word(w@),
                forall|j: int|
                    0 <= j < i ==> !(!self@.absent.contains(#[trigger] lidx(w@, j))
                        && (!self@.present.contains(lidx(w@, j)) || (!self@.excluded.contains(
                        (lidx(w@, j), j),
                    ) && !self@.confirmed.contains((lidx(w@, j), j))))),
        {
            let c = w.0[i];
            let idx = (c - 97) as usize;
            let info = self.chars[idx];
            // A letter known out of the answer can teach nothing more.
            if !info.is_out() {
                if !info.is_in() {
                    proof {
                        assert(!self@.absent.contains(lidx(w@, i as int))
                            && !self@.present.contains(lidx(w@, i as int)));
                    }
                    return true;
                }
                if !info.neg.get(i) && !info.pos.get(i) {
                    // This exact position is still unresolved for this letter.
                    proof {
                        assert(!self@.absent.contains(lidx(w@, i as int))
                            && !self@.excluded.contains((lidx(w@, i as int), i as int))
                            && !self@.confirmed.contains((lidx(w@, i as int), i as int)));
                    }
                    return true;
                }
            }
        }
        false
    }
    /// Incorporates the feedback of guessing `w` against the true `answer`:
    /// exact matches confirm positions, mismatches exclude them, each guessed
    /// letter becomes known present or absent according to whether it occurs
    /// in `answer`, deduction by elimination is re-run for the guessed
    /// letters, and the turn counter advances.
    pub fn guess(&mut self, answer: Word, w: Word)
        requires
            wf_word(answer@),
            wf_word(w@),
            old(self)@.feedback_safe(answer@, w@),
            old(self)@.turns < u32::MAX,
        ensures
            final(self)@ == step(old(self)@, answer@, w@),
    {
        let ghost k0 = old(self)@;
        self.guesses = self.guesses + 1;
        proof {
            assert(self@ =~= step_partial(k0, answer@, w@, 0));
        }
        for i in 0..5usize
            invariant
                wf_word(answer@),
                wf_word(w@),
                k0 == old(self)@,
                k0.feedback_safe(answer@, w@),
                self@ == step_partial(k0, answer@, w@, i as int),
        {
            let ghost pre = self@;
            let c = w.0[i];
            let idx = (c - 97) as usize;
            let ghost ci = idx as int;
            let mut info = self.chars[idx];
            let ghost info0 = info;
            proof {
                assert(pre.absent.contains(ci) == info.is_out_spec());
                assert(pre.present.contains(ci) == info.is_in_spec());
                assert(lidx(w@, i as int) == ci);
            }
            if w.0[i] == answer.0[i] {
                self.positions[i] = Some(w.0[i]);
                proof {
                    // The letter occurs in `answer` at this very position, so
                    // it cannot be known absent.
                    assert(lidx(answer@, i as int) == ci);
                    assert(has_letter(answer@, ci));
                    assert(!k0.absent.contains(ci));
                }
                info.set_in();
                info.pos.set(i);
            } else {
                info.neg.set(i);
            }
            if answer.contains_letter(c) {
                proof {
                    assert(has_letter(answer@, ci)) by {
                        let j = choose|j: int| 0 <= j < 5 && answer@[j] == c;
                        assert(lidx(answer@, j) == ci);
                    }
                    assert(!k0.absent.contains(ci));
                    assert(!pre.absent.contains(ci));
                }
                info.set_in();
            } else {
                proof {
                    assert(!has_letter(answer@, ci)) by {
                        assert(forall|j: int|
                            0 <= j < 5 ==> answer@[j] != c ==> lidx(answer@, j) != ci);
                    }
                    assert(!k0.present.contains(ci));
                    assert(!pre.present.contains(ci));
                }
                info.set_out();
            }
            self.chars[idx] = info;
            proof {
                let next = step_partial(k0, answer@, w@, i + 1);
                assert forall|p: (int, int)| self@.excluded.contains(p) == next.excluded.contains(
                    p,
                ) by {
                    if 0 <= p.0 < 26 && 0 <= p.1 < 5 {
                        if p.0 == ci {
                            assert(self@.excluded.contains(p) == info.excluded(p.1 as u8));
                            assert(pre.excluded.contains(p) == info0.excluded(p.1 as u8));
                        } else {
                            assert(self@.excluded.contains(p) == pre.excluded.contains(p));
                        }
                    } else {
                        assert(!self@.excluded.contains(p));
                        assert(!k0.excluded.contains(p));
                    }
                }
                assert(self@.excluded =~= next.excluded);
                assert forall|p: (int, int)| self@.confirmed.contains(p) == next.confirmed.contains(
                    p,
                ) by {
                    if 0 <= p.0 < 26 && 0 <= p.1 < 5 {
                        if p.0 == ci {
                            assert(self@.confirmed.contains(p) == info.confirmed(p.1 as u8));
                            assert(pre.confirmed.contains(p) == info0.confirmed(p.1 as u8));
                        } else {
                            assert(self@.confirmed.contains(p) == pre.confirmed.contains(p));
                        }
                    } else {
                        assert(!self@.confirmed.contains(p));
                        assert(!k0.confirmed.contains(p));
                    }
                }
                assert(self@.confirmed =~= next.confirmed);
                assert forall|c2: int| self@.present.contains(c2) == next.present.contains(c2) by {
                    if 0 <= c2 < 26 {
                        if c2 == ci {
                            assert(self@.present.contains(c2) == info.is_in_spec());
                            assert(pre.present.contains(c2) == info0.is_in_spec());
                        } else {
                            assert(self@.present.contains(c2) == pre.present.contains(c2));
                            if next.present.contains(c2) && !k0.present.contains(c2) {
                                let j = choose|j: int| 0 <= j < i + 1 && lidx(w@, j) == c2;
                                assert(j < i);
                                assert(pre.present.contains(c2));
                            }
                            if pre.present.contains(c2) && !k0.present.contains(c2) {
                                let j = choose|j: int| 0 <= j < i && lidx(w@, j) == c2;
                                assert(next.present.contains(c2));
                            }
                        }
                    } else {
                        assert(!self@.present.contains(c2));
                        assert(!k0.present.contains(c2));
                    }
                }
                assert(self@.present =~= next.present);
                assert forall|c2: int| self@.absent.contains(c2) == next.absent.contains(c2) by {
                    if 0 <= c2 < 26 {
                        if c2 == ci {
                            assert(self@.absent.contains(c2) == info.is_out_spec());
                            assert(pre.absent.contains(c2) == info0.is_out_spec());
                        } else {
                            assert(self@.absent.contains(c2) == pre.absent.contains(c2));
                            if next.absent.contains(c2) && !k0.absent.contains(c2) {
                                let j = choose|j: int| 0 <= j < i + 1 && lidx(w@, j) == c2;
                                assert(j < i);
                                assert(pre.absent.contains(c2));
                            }
                            if pre.absent.contains(c2) && !k0.absent.contains(c2) {
                                let j = choose|j: int| 0 <= j < i && lidx(w@, j) == c2;
                                assert(next.absent.contains(c2));
                            }
                        }
                    } else {
                        assert(!self@.absent.contains(c2));
                        assert(!k0.absent.contains(c2));
                    }
                }
                assert(self@.absent =~= next.absent);
                assert(self@.greens =~= next.greens);
                assert(self@ =~= next);
            }
        }
        let ghost mid = step_partial(k0, answer@, w@, 5);
        proof {
            assert(self@ =~= deduced_partial(mid, w@, 0));
        }
        for i in 0..5usize
            invariant
                wf_word(w@),
                k0 == old(self)@,
                mid == step_partial(k0, answer@, w@, 5),
                self@ == deduced_partial(mid, w@, i as int),
        {
            let ghost pre = self@;
            let c = w.0[i];
            let idx = (c - 97) as usize;
            let ghost ci = idx as int;
            let mut info = self.chars[idx];
            let ghost info0 = info;
            proof {
                assert(lidx(w@, i as int) == ci);
                assert(pre.present.contains(ci) == info.is_in_spec());
                assert(forall|j: u8|
                    j < 5 ==> pre.excluded.contains((ci, j as int)) == info.excluded(j));
                lemma_count_bridge(info, pre.excluded, ci, 5);
            }
            info.deduce();
            self.chars[idx] = info;
            proof {
                let next = deduced_partial(mid, w@, i + 1);
                assert(pre.excluded == mid.excluded && pre.present == mid.present);
                assert forall|p: (int, int)| self@.confirmed.contains(p) == next.confirmed.contains(
                    p,
                ) by {
                    if 0 <= p.0 < 26 && 0 <= p.1 < 5 {
                        if p.0 == ci {
                            assert(self@.confirmed.contains(p) == info.confirmed(p.1 as u8));
                            assert(pre.confirmed.contains(p) == info0.confirmed(p.1 as u8));
                            assert(mid.excluded.contains((ci, p.1)) == info0.excluded(p.1 as u8));
                        } else {
                            assert(self@.confirmed.contains(p) == pre.confirmed.contains(p));
                            if next.confirmed.contains(p) && !mid.confirmed.contains(p) {
                                let j = choose|j: int| 0 <= j < i + 1 && lidx(w@, j) == p.0;
                                assert(j < i);
                                assert(pre.confirmed.contains(p));
                            }
                            if pre.confirmed.contains(p) && !mid.confirmed.contains(p) {
                                let j = choose|j: int| 0 <= j < i && lidx(w@, j) == p.0;
                                assert(next.confirmed.contains(p));
                            }
                        }
                    } else {
                        assert(!self@.confirmed.contains(p));
                        assert(!mid.confirmed.contains(p));
                    }
                }
                assert(self@.confirmed =~= next.confirmed);
                assert(self@.excluded =~= next.excluded);
                assert(self@.present =~= next.present);
                assert(self@.absent =~= next.absent);
                assert(self@.greens =~= next.greens);
                assert(self@ =~= next);
            }
        }
        proof {
            lemma_step_decomposition(k0, answer@, w@);
            assert(self@ =~= step(k0, answer@, w@));
        }
    }
}

/// A letter's packed exclusion flags count the same positions as the model's
/// exclusion set, as long as the two agree position by position.
proof fn lemma_count_bridge(info: CharInfo, ex: Set<(int, int)>, c: int, n: int)
    requires
        0 <= n <= 5,
        forall|j: int| 0 <= j < n ==> ex.contains((c, j)) == info.excluded(j as u8),
    ensures
        info.excluded_count(n) == excl_count(ex, c, n),
    decreases n,
{
    if n > 0 {
        lemma_count_bridge(info, ex, c, n - 1);
    }
}

} // verus!
