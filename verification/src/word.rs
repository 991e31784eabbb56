use vstd::prelude::*;

verus! {

/// A five-letter word. Each byte is an ASCII lowercase letter `a`-`z`.
#[derive(Clone, Copy, PartialEq, Eq, PartialOrd, Ord, Hash, Debug)]
pub struct Word(pub [u8; 5]);

impl View for Word {
    type V = Seq<u8>;

    open spec fn view(&self) -> Seq<u8> {
        self.0@
    }
}

/// A word is well formed when it holds exactly five lowercase ASCII letters.
pub open spec fn wf_word(w: Seq<u8>) -> bool {
    &&& w.len() == 5
    &&& forall|i: int| 0 <= i < 5 ==> 97 <= #[trigger] w[i] <= 122
}

/// The alphabet index (0 for `a` through 25 for `z`) of the letter at position `i`.
pub open spec fn lidx(w: Seq<u8>, i: int) -> int {
    w[i] - 97
}

/// Letter `c` (as an alphabet index) occurs somewhere in `w`.
pub open spec fn has_letter(w: Seq<u8>, c: int) -> bool {
    exists|i: int| 0 <= i < 5 && lidx(w, i) == c
}

/// A `Word` packed into one machine word, one byte per letter.
pub struct Word64(pub u64);

/// The packed numeric encoding of a word: byte `i` scaled by `256^i`.
pub open spec fn packed(w: Seq<u8>) -> int {
    w[0] + w[1] * 0x100 + w[2] * 0x1_0000 + w[3] * 0x100_0000 + w[4] * 0x1_0000_0000
}

impl Word {
    /// The packed encoding carries exactly the information of the five bytes.
    pub fn to_u64(self) -> (r: Word64)
        ensures
            r.0 == packed(self@),
    {
        let b0 = self.0[0] as u64;
        let b1 = self.0[1] as u64;
        let b2 = self.0[2] as u64;
        let b3 = self.0[3] as u64;
        let b4 = self.0[4] as u64;
        proof {
            assert(b1 << 8 == b1 * 0x100 && b2 << 16 == b2 * 0x1_0000 && b3 << 24 == b3
                * 0x100_0000 && b4 << 32 == b4 * 0x1_0000_0000) by (bit_vector)
                requires
                    b1 < 0x100 && b2 < 0x100 && b3 < 0x100 && b4 < 0x100,
            ;
        }
        let u = b0 + (b1 << 8) + (b2 << 16) + (b3 << 24) + (b4 << 32);
        Word64(u)
    }

    /// Whether letter `c` occurs anywhere in this word.
    pub fn contains_letter(self, c: u8) -> (r: bool)
        ensures
            r == (exists|i: int| 0 <= i < 5 && self@[i] == c),
    {
        for i in 0..5usize
            invariant
                forall|j: int| 0 <= j < i ==> self@[j] != c,
        {
            if self.0[i] == c {
                proof {
                    assert(self@[i as int] == c);
                }
                return true;
            }
        }
        false
    }
}

/// Builds a `Word` from a line of bytes, accepting exactly five lowercase
/// ASCII letters and rejecting anything else.
pub fn word_from_bytes(bs: &[u8]) -> (r: Option<Word>)
    ensures
        r is Some <==> wf_word(bs@),
        r matches Some(w) ==> w@ == bs@,
{
    if bs.len() != 5 {
        return None;
    }
    let mut letters: [u8; 5] = [0u8; 5];
    for i in 0..5usize
        invariant
            bs@.len() == 5,
            forall|j: int| 0 <= j < i ==> 97 <= #[trigger] bs@[j] <= 122,
            forall|j: int| 0 <= j < i ==> letters@[j] == bs@[j],
    {
        let b = bs[i];
        if b < 97 || b > 122 {
            return None;
        }
        letters[i] = b;
    }
    let w = Word(letters);
    proof {
        assert(w@ =~= bs@);
    }
    Some(w)
}

} // verus!
