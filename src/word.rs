use vstd::prelude::*;
use vstd::string::{is_ascii, is_ascii_spec_bytes};

verus! {

/// Number of letters in every word.
pub const WORD_LENGTH: usize = 5;

/// Number of letters in the alphabet.
pub const ALPHABET_LENGTH: usize = 26;

/// One letter of the alphabet, as its position: `0` is `a`, `25` is `z`.
#[derive(Clone, Copy, PartialEq, Eq, Structural, Hash, Debug)]
pub struct Letter(pub u8);

impl Letter {
    /// A letter is valid when it names one of the 26 alphabet positions.
    pub open spec fn valid(self) -> bool {
        self.0 < 26
    }

    /// The lower-case character of this letter.
    pub fn to_char(&self) -> (c: char)
        requires
            self.valid(),
        ensures
            c == letter_char(self.0),
    {
        (97u8 + self.0) as char
    }
}

/// The lower-case character for alphabet position `l`.
pub open spec fn letter_char(l: u8) -> char {
    ((97 + l) as u8) as char
}

/// The alphabet position of an ASCII letter of either case, if `c` is one.
pub open spec fn letter_of_char(c: char) -> Option<u8> {
    if 'a' <= c <= 'z' {
        Some((c as u32 - 97) as u8)
    } else if 'A' <= c <= 'Z' {
        Some((c as u32 - 65) as u8)
    } else {
        None
    }
}

/// A five-letter word, with the set of distinct letters it uses kept beside
/// the letters for quick membership tests.
#[derive(Clone, Copy, Hash, Debug)]
pub struct Word {
    letters: [Letter; WORD_LENGTH],
    unique_letters: [bool; ALPHABET_LENGTH],
}

impl View for Word {
    type V = Seq<u8>;

    /// The word as its sequence of alphabet positions.
    closed spec fn view(&self) -> Seq<u8> {
        Seq::new(5, |i: int| self.letters[i].0)
    }
}

impl Word {
    /// Every letter is valid, and the letter set holds exactly the letters used.
    pub closed spec fn wf(self) -> bool {
        &&& forall|i: int| 0 <= i < 5 ==> #[trigger] self.letters[i].0 < 26
        &&& forall|l: int|
            0 <= l < 26 ==> (#[trigger] self.unique_letters[l] <==> exists|i: int|
                0 <= i < 5 && self.letters[i].0 == l)
    }

    /// What a well-formed word's view is made of.
    pub proof fn lemma_wf(self)
        requires
            self.wf(),
        ensures
            self@.len() == 5,
            forall|i: int| 0 <= i < 5 ==> #[trigger] self@[i] < 26,
    {
    }

    /// Builds a word from its five letters.
    pub fn new(letters: [Letter; WORD_LENGTH]) -> (w: Word)
        requires
            forall|i: int| 0 <= i < 5 ==> #[trigger] letters[i].valid(),
        ensures
            w.wf(),
            w@ == Seq::new(5, |i: int| letters[i].0),
    {
        let mut unique_letters = [false; ALPHABET_LENGTH];
        let mut i: usize = 0;
        while i < WORD_LENGTH
            invariant
                0 <= i <= 5,
                forall|k: int| 0 <= k < 5 ==> #[trigger] letters[k].valid(),
                forall|l: int|
                    0 <= l < 26 ==> (#[trigger] unique_letters[l] <==> exists|k: int|
                        0 <= k < i && letters[k].0 == l),
            decreases 5 - i,
        {
            let l = letters[i].0;
            assert(letters[i as int].valid());
            unique_letters[l as usize] = true;
            assert forall|m: int| 0 <= m < 26 implies (#[trigger] unique_letters[m] <==> exists|k: int|
                0 <= k < i + 1 && letters[k].0 == m) by {
                if m == l {
                    assert(letters[i as int].0 == m);
                }
            }
            i = i + 1;
        }
        let w = Word { letters, unique_letters };
        assert forall|k: int| 0 <= k < 5 implies #[trigger] w.letters[k].0 < 26 by {
            assert(letters[k].valid());
        }
        assert(w@ =~= Seq::new(5, |i: int| letters[i].0));
        w
    }

    /// Reads a word from text: exactly five ASCII letters, of either case.
    /// Anything else is refused with `None`.
    pub fn from_text(s: &str) -> (r: Option<Word>)
        ensures
            r is Some <==> (s@.len() == 5 && forall|i: int|
                0 <= i < 5 ==> #[trigger] letter_of_char(s@[i]) is Some),
            r matches Some(w) ==> w.wf() && w@ == Seq::new(5, |i: int| letter_of_char(s@[i])->0),
    {
        if !s.is_ascii() {
            proof {
                let i = choose|i: int| 0 <= i < s@.len() && !('\0' <= #[trigger] s@[i] <= '\u{7f}');
                assert(letter_of_char(s@[i]) is None);
            }
            return None;
        }
        let bytes = s.as_bytes();
        proof {
            is_ascii_spec_bytes(s);
        }
        assert(bytes@ =~= Seq::new(s@.len(), |i: int| s@[i] as u8));
        if bytes.len() != WORD_LENGTH {
            return None;
        }
        let mut letters = [Letter(0); WORD_LENGTH];
        let mut i: usize = 0;
        while i < WORD_LENGTH
            invariant
                bytes@ == Seq::new(s@.len(), |k: int| s@[k] as u8),
                is_ascii(s),
                s@.len() == 5,
                0 <= i <= 5,
                forall|k: int|
                    0 <= k < i ==> #[trigger] letter_of_char(s@[k]) is Some
                        && letters[k].0 == letter_of_char(s@[k])->0 && letters[k].valid(),
            decreases 5 - i,
        {
            let b = bytes[i];
            assert(s@[i as int] as u32 == b as u32);
            let l: u8;
            if 97 <= b && b <= 122 {
                l = b - 97;
            } else if 65 <= b && b <= 90 {
                l = b - 65;
            } else {
                assert(letter_of_char(s@[i as int]) is None);
                return None;
            }
            letters[i] = Letter(l);
            i = i + 1;
        }
        assert forall|k: int| 0 <= k < 5 implies #[trigger] letters[k].valid() by {
            assert(letter_of_char(s@[k]) is Some);
        }
        let w = Word::new(letters);
        assert(w@ =~= Seq::new(5, |i: int| letter_of_char(s@[i])->0));
        Some(w)
    }

    /// The word as lower-case text.
    pub fn to_text(&self) -> (r: String)
        requires
            self.wf(),
        ensures
            r@ == Seq::new(5, |i: int| letter_char(self@[i])),
    {
        let mut r = String::new();
        let mut i: usize = 0;
        while i < WORD_LENGTH
            invariant
                self.wf(),
                0 <= i <= 5,
                r@ == Seq::new(i as nat, |k: int| letter_char(self@[k])),
            decreases 5 - i,
        {
            let c = self.letters[i].to_char();
            push_char(&mut r, c);
            assert(r@ =~= Seq::new((i + 1) as nat, |k: int| letter_char(self@[k])));
            i = i + 1;
        }
        r
    }

    /// The letter at position `i`, as its alphabet position.
    pub fn letter(&self, i: usize) -> (r: u8)
        requires
            i < 5,
        ensures
            r == self@[i as int],
    {
        self.letters[i].0
    }

    /// Whether letter `l` occurs anywhere in the word.
    pub fn contains_letter(&self, l: u8) -> (r: bool)
        requires
            self.wf(),
            l < 26,
        ensures
            r == self@.contains(l),
    {
        let r = self.unique_letters[l as usize];
        proof {
            if r {
                let i = choose|i: int| 0 <= i < 5 && self.letters[i].0 == l;
                assert(self@[i] == l);
            }
        }
        r
    }
}

impl PartialEq for Word {
    /// Words are equal when their letters are.
    fn eq(&self, other: &Word) -> (r: bool)
        ensures
            r == (self@ == other@),
    {
        let mut i: usize = 0;
        while i < WORD_LENGTH
            invariant
                0 <= i <= 5,
                forall|k: int| 0 <= k < i ==> self@[k] == other@[k],
            decreases 5 - i,
        {
            if self.letters[i].0 != other.letters[i].0 {
                assert(self@[i as int] != other@[i as int]);
                return false;
            }
            i = i + 1;
        }
        assert(self@ =~= other@);
        true
    }
}

impl vstd::std_specs::cmp::PartialEqSpecImpl for Word {
    open spec fn obeys_eq_spec() -> bool {
        true
    }

    open spec fn eq_spec(&self, other: &Word) -> bool {
        self@ == other@
    }
}

impl Eq for Word {
}

/// Relies on String::push: the character is appended at the end.
#[verifier::external_body]
fn push_char(s: &mut String, c: char)
    ensures
        final(s)@ == old(s)@.push(c),
{
    s.push(c);
}

} // verus!
