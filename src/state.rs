use vstd::prelude::*;
use crate::word::{Letter, Word, WORD_LENGTH, ALPHABET_LENGTH};

verus! {

/// Number of indices in `[0, n)` at which `f` holds.
pub open spec fn count_upto(n: int, f: spec_fn(int) -> bool) -> int
    decreases n,
{
    if n <= 0 {
        0
    } else {
        count_upto(n - 1, f) + if f(n - 1) { 1int } else { 0int }
    }
}

/// The last index in `[0, n)` at which `s` holds, or `-1` if there is none.
pub open spec fn last_true(s: Seq<bool>, n: int) -> int
    decreases n,
{
    if n <= 0 {
        -1
    } else if s[n - 1] {
        n - 1
    } else {
        last_true(s, n - 1)
    }
}

/// Occurrences of letter `l` among the first `n` letters of `w`.
pub open spec fn occ_upto(w: Seq<u8>, l: u8, n: int) -> int {
    count_upto(n, |j: int| w[j] == l)
}

/// Occurrences of letter `l` in the word `w`.
pub open spec fn letter_count(w: Seq<u8>, l: u8) -> int {
    occ_upto(w, l, 5)
}

/// Positions below `n` where guess `g` and answer `a` both hold `l`.
pub open spec fn exact_upto(g: Seq<u8>, a: Seq<u8>, l: u8, n: int) -> int {
    count_upto(n, |j: int| g[j] == l && a[j] == l)
}

/// Positions below `n` where guess `g` holds `l` and answer `a` does not.
pub open spec fn loose_upto(g: Seq<u8>, a: Seq<u8>, l: u8, n: int) -> int {
    count_upto(n, |j: int| g[j] == l && a[j] != l)
}

/// Positions below `n` that `s` allows.
pub open spec fn allowed_upto(s: Seq<bool>, n: int) -> int {
    count_upto(n, |p: int| s[p])
}

/// Occurrences of `l` in guess `g` that have been checked against answer `a`
/// once position `i` has been looked at: every exact one, and the others up to
/// and including `i`.
pub open spec fn checked_count(g: Seq<u8>, a: Seq<u8>, l: u8, i: int) -> int {
    exact_upto(g, a, l, 5) + loose_upto(g, a, l, i + 1)
}

/// A word of five valid letters.
pub open spec fn valid_word(w: Seq<u8>) -> bool {
    w.len() == 5 && forall|i: int| 0 <= i < 5 ==> #[trigger] w[i] < 26
}

/// What is known of a letter that occurs in the target: its count lies in
/// `[min, max)`, and it is not at any position where `allowed` is false.
pub ghost struct BoundView {
    pub min: int,
    pub max: int,
    pub allowed: Seq<bool>,
}

/// Everything learned about the target.
#[verifier::ext_equal]
pub ghost struct StateView {
    /// Letters known not to occur at all, indexed by letter.
    pub absent: Seq<bool>,
    /// Bounds on letters known to occur, indexed by letter.
    pub bounds: Seq<Option<BoundView>>,
    /// The letter known to stand at each position.
    pub pinned: Seq<Option<u8>>,
}

/// The sizes of a state's tables.
pub open spec fn shaped(s: StateView) -> bool {
    &&& s.absent.len() == 26
    &&& s.bounds.len() == 26
    &&& s.pinned.len() == 5
    &&& forall|l: int| 0 <= l < 26 && #[trigger] s.bounds[l] is Some ==> s.bounds[l]->0.allowed.len() == 5
}

/// The state before any feedback: nothing known.
pub open spec fn empty_state() -> StateView {
    StateView {
        absent: Seq::new(26, |l: int| false),
        bounds: Seq::new(26, |l: int| None),
        pinned: Seq::new(5, |p: int| None),
    }
}

/// `s` with letter `l` known to be absent.
pub open spec fn set_absent(s: StateView, l: u8) -> StateView {
    StateView { absent: s.absent.update(l as int, true), ..s }
}

/// `s` with the bound on letter `l` replaced by `b`.
pub open spec fn set_bound(s: StateView, l: u8, b: Option<BoundView>) -> StateView {
    StateView { bounds: s.bounds.update(l as int, b), ..s }
}

/// `s` with letter `l` known to stand at position `p`.
pub open spec fn set_pinned(s: StateView, p: int, l: u8) -> StateView {
    StateView { pinned: s.pinned.update(p, Some(l)), ..s }
}

/// The bound given to a letter when it is first seen to occur.
pub open spec fn fresh_bound() -> BoundView {
    BoundView { min: 1, max: 6, allowed: seq![true, true, true, true, true] }
}

/// Number of positions a bound still allows.
pub open spec fn allowed_count(b: BoundView) -> int {
    allowed_upto(b.allowed, 5)
}

/// Deduction on letter `l`: when a single position is left for it and an
/// occurrence is still unplaced, that position holds it.
pub open spec fn after_deduce(s: StateView, l: u8) -> StateView {
    match s.bounds[l as int] {
        None => s,
        Some(b) => if allowed_count(b) == 1 && b.min >= 1 {
            let s1 = set_pinned(s, last_true(b.allowed, 5), l);
            if b.min == 1 {
                set_bound(s1, l, None)
            } else {
                set_bound(s1, l, Some(BoundView { min: b.min - 1, ..b }))
            }
        } else {
            s
        },
    }
}

/// Feedback on a non-exact occurrence of `l` at position `i`, the `c`-th of its
/// letter checked, where the answer holds `t` of that letter.
pub open spec fn after_mark(s: StateView, l: u8, i: int, c: int, t: int) -> StateView {
    if t == 0 {
        set_absent(s, l)
    } else {
        let b0 = match s.bounds[l as int] {
            Some(b) => b,
            None => fresh_bound(),
        };
        let b1 = if c > t {
            BoundView { max: t + 1, allowed: b0.allowed.update(i, false), ..b0 }
        } else {
            BoundView {
                min: if c > b0.min { c } else { b0.min },
                allowed: b0.allowed.update(i, false),
                ..b0
            }
        };
        after_deduce(set_bound(s, l, Some(b1)), l)
    }
}

/// Pins every position where the guess matches the answer.
pub open spec fn with_exact(s: StateView, g: Seq<u8>, a: Seq<u8>) -> StateView {
    StateView {
        pinned: Seq::new(5, |p: int| if g[p] == a[p] { Some(g[p]) } else { s.pinned[p] }),
        ..s
    }
}

/// The state once the exact positions and the first `n` positions of guess
/// `g` have been handled against answer `a`.
pub open spec fn run(s: StateView, g: Seq<u8>, a: Seq<u8>, n: int) -> StateView
    decreases n,
{
    if n <= 0 {
        with_exact(s, g, a)
    } else {
        let s0 = run(s, g, a, n - 1);
        let i = n - 1;
        if g[i] == a[i] {
            s0
        } else {
            after_mark(s0, g[i], i, checked_count(g, a, g[i], i), letter_count(a, g[i]))
        }
    }
}

/// The state after learning the feedback of guess `g` against answer `a`.
pub open spec fn feedback(s: StateView, g: Seq<u8>, a: Seq<u8>) -> StateView {
    run(s, g, a, 5)
}

/// Word `w` meets bound `b` on letter `l`.
pub open spec fn fits(b: BoundView, w: Seq<u8>, l: u8) -> bool {
    &&& b.min <= letter_count(w, l) < b.max
    &&& forall|p: int| 0 <= p < 5 && !b.allowed[p] ==> #[trigger] w[p] != l
}

/// Word `w` could still be the target, given what `s` knows.
pub open spec fn consistent(s: StateView, w: Seq<u8>) -> bool {
    &&& forall|l: int| 0 <= l < 26 && #[trigger] s.absent[l] ==> !w.contains(l as u8)
    &&& forall|p: int| 0 <= p < 5 && #[trigger] s.pinned[p] is Some ==> s.pinned[p]->0 == w[p]
    &&& forall|l: int|
        0 <= l < 26 && #[trigger] s.bounds[l] is Some ==> fits(s.bounds[l]->0, w, l as u8)
}

/// Bounds on one letter: `count` is `(min, max)` with `max` exclusive, and
/// `positions[p]` is false where the letter is known not to stand.
#[derive(Clone, Copy, Debug)]
pub struct PossibleLetter {
    count: (u8, u8),
    positions: [bool; WORD_LENGTH],
}

impl View for PossibleLetter {
    type V = BoundView;

    closed spec fn view(&self) -> BoundView {
        BoundView { min: self.count.0 as int, max: self.count.1 as int, allowed: self.positions@ }
    }
}

impl PossibleLetter {
    /// A bound with count in `[min_count, max_count)` and the given allowed positions.
    pub fn new(min_count: u8, max_count: u8, positions: [bool; WORD_LENGTH]) -> (r: Self)
        ensures
            r@ == (BoundView { min: min_count as int, max: max_count as int, allowed: positions@ }),
    {
        PossibleLetter { count: (min_count, max_count), positions }
    }

    /// The least number of occurrences still possible.
    pub fn min_count(&self) -> (r: u8)
        ensures
            r as int == self@.min,
    {
        self.count.0
    }

    /// One more than the greatest number of occurrences still possible.
    pub fn max_count(&self) -> (r: u8)
        ensures
            r as int == self@.max,
    {
        self.count.1
    }

    /// Whether the letter may still stand at position `p`.
    pub fn allows(&self, p: usize) -> (r: bool)
        requires
            p < 5,
        ensures
            r == self@.allowed[p as int],
    {
        self.positions[p]
    }
}

/// The accumulated knowledge about the hidden target.
#[derive(Clone, Copy, Debug)]
pub struct WordleState {
    /// Letters known to be absent, indexed by letter.
    pub incorrect_letters: [bool; ALPHABET_LENGTH],
    /// Bounds on letters known to be present, indexed by letter.
    pub possible_letters: [Option<PossibleLetter>; ALPHABET_LENGTH],
    /// Letters known to stand at each position.
    pub exact_letters: [Option<Letter>; WORD_LENGTH],
}

impl View for WordleState {
    type V = StateView;

    open spec fn view(&self) -> StateView {
        StateView {
            absent: self.incorrect_letters@,
            bounds: Seq::new(
                26,
                |l: int|
                    match self.possible_letters[l] {
                        Some(b) => Some(b@),
                        None => None,
                    },
            ),
            pinned: Seq::new(
                5,
                |p: int|
                    match self.exact_letters[p] {
                        Some(x) => Some(x.0),
                        None => None,
                    },
            ),
        }
    }
}

impl Default for WordleState {
    /// A state that knows nothing yet.
    fn default() -> (r: Self)
        ensures
            r@ == empty_state(),
    {
        WordleState::new()
    }
}

impl WordleState {
    /// The view of every state has tables of the right sizes.
    pub proof fn lemma_shaped(&self)
        ensures
            shaped(self@),
    {
        assert forall|l: int| 0 <= l < 26 && #[trigger] self@.bounds[l] is Some implies self@.bounds[l]->0.allowed.len()
            == 5 by {
            let b = self.possible_letters[l]->0;
            assert(b@.allowed == b.positions@);
        }
    }

    /// A state that knows nothing yet.
    pub fn new() -> (r: Self)
        ensures
            r@ == empty_state(),
    {
        let r = WordleState {
            incorrect_letters: [false; ALPHABET_LENGTH],
            possible_letters: [None; ALPHABET_LENGTH],
            exact_letters: [None; WORD_LENGTH],
        };
        assert(r@ =~= empty_state());
        r
    }

    /// Learns the feedback that `guess` gets against `answer`.
    pub fn guess(&mut self, guess: &Word, answer: &Word)
        requires
            guess.wf(),
            answer.wf(),
        ensures
            final(self)@ == feedback(old(self)@, guess@, answer@),
    {
        proof {
            guess.lemma_wf();
            answer.lemma_wf();
        }
        let ghost g = guess@;
        let ghost a = answer@;
        let ghost s0 = self@;
        let mut totals = [0u8; ALPHABET_LENGTH];
        let mut i: usize = 0;
        while i < WORD_LENGTH
            invariant
                0 <= i <= 5,
                a == answer@,
                valid_word(a),
                forall|l: int| 0 <= l < 26 ==> #[trigger] totals[l] == occ_upto(a, l as u8, i as int),
                forall|l: int| 0 <= l < 26 ==> #[trigger] totals[l] <= i,
            decreases 5 - i,
        {
            let l = answer.letter(i) as usize;
            totals[l] = totals[l] + 1;
            i = i + 1;
        }
        let mut checked = [0u8; ALPHABET_LENGTH];
        let mut p: usize = 0;
        while p < WORD_LENGTH
            invariant
                0 <= p <= 5,
                a == answer@,
                g == guess@,
                valid_word(a),
                valid_word(g),
                forall|l: int| 0 <= l < 26 ==> #[trigger] checked[l] == exact_upto(g, a, l as u8, p as int),
                forall|l: int| 0 <= l < 26 ==> #[trigger] checked[l] <= p,
                self@.absent == s0.absent,
                self@.bounds == s0.bounds,
                self@.pinned.len() == 5,
                s0.pinned.len() == 5,
                forall|q: int|
                    0 <= q < 5 ==> #[trigger] self@.pinned[q] == if q < p && g[q] == a[q] {
                        Some(g[q])
                    } else {
                        s0.pinned[q]
                    },
            decreases 5 - p,
        {
            let l = guess.letter(p);
            let ghost before = self@;
            if answer.letter(p) == l {
                checked[l as usize] = checked[l as usize] + 1;
                self.exact_letters[p] = Some(Letter(l));
                assert(self@.pinned =~= before.pinned.update(p as int, Some(l)));
            }
            p = p + 1;
        }
        assert(self@ =~= run(s0, g, a, 0));
        let mut i: usize = 0;
        while i < WORD_LENGTH
            invariant
                0 <= i <= 5,
                a == answer@,
                g == guess@,
                valid_word(a),
                valid_word(g),
                forall|l: int| 0 <= l < 26 ==> #[trigger] totals[l] == letter_count(a, l as u8),
                forall|l: int| 0 <= l < 26 ==> #[trigger] totals[l] <= 5,
                forall|l: int|
                    0 <= l < 26 ==> #[trigger] checked[l] == exact_upto(g, a, l as u8, 5) + loose_upto(
                        g,
                        a,
                        l as u8,
                        i as int,
                    ),
                forall|l: int| 0 <= l < 26 ==> #[trigger] checked[l] <= 5 + i,
                self@ == run(s0, g, a, i as int),
            decreases 5 - i,
        {
            let l = guess.letter(i);
            if answer.letter(i) != l {
                checked[l as usize] = checked[l as usize] + 1;
                assert(checked[l as int] == checked_count(g, a, l, i as int));
                self.mark_letter(l, i, checked[l as usize], totals[l as usize]);
            }
            i = i + 1;
        }
    }

    /// Whether `guess` could still be the target, given what is known.
    pub fn is_valid(&self, guess: &Word) -> (r: bool)
        requires
            guess.wf(),
        ensures
            r == consistent(self@, guess@),
    {
        proof {
            guess.lemma_wf();
        }
        let mut l: usize = 0;
        while l < ALPHABET_LENGTH
            invariant
                0 <= l <= 26,
                guess.wf(),
                forall|m: int| 0 <= m < l && #[trigger] self@.absent[m] ==> !guess@.contains(m as u8),
            decreases 26 - l,
        {
            if self.incorrect_letters[l] && guess.contains_letter(l as u8) {
                assert(self@.absent[l as int]);
                return false;
            }
            l = l + 1;
        }
        let mut p: usize = 0;
        while p < WORD_LENGTH
            invariant
                0 <= p <= 5,
                guess@.len() == 5,
                forall|q: int|
                    0 <= q < p && #[trigger] self@.pinned[q] is Some ==> self@.pinned[q]->0 == guess@[q],
            decreases 5 - p,
        {
            match self.exact_letters[p] {
                Some(x) => {
                    if x.0 != guess.letter(p) {
                        assert(self@.pinned[p as int] is Some);
                        return false;
                    }
                },
                None => {},
            }
            p = p + 1;
        }
        let mut l: usize = 0;
        while l < ALPHABET_LENGTH
            invariant
                0 <= l <= 26,
                guess.wf(),
                guess@.len() == 5,
                forall|m: int|
                    0 <= m < l && #[trigger] self@.bounds[m] is Some ==> fits(
                        self@.bounds[m]->0,
                        guess@,
                        m as u8,
                    ),
            decreases 26 - l,
        {
            match self.possible_letters[l] {
                Some(pl) => {
                    assert(self@.bounds[l as int] == Some(pl@));
                    let mut n: u8 = 0;
                    let mut q: usize = 0;
                    while q < WORD_LENGTH
                        invariant
                            0 <= q <= 5,
                            l < 26,
                            guess@.len() == 5,
                            self@.bounds[l as int] == Some(pl@),
                            n <= q,
                            n == occ_upto(guess@, l as u8, q as int),
                            forall|j: int|
                                0 <= j < q && !pl@.allowed[j] ==> #[trigger] guess@[j] != l as u8,
                        decreases 5 - q,
                    {
                        if guess.letter(q) == l as u8 {
                            if !pl.positions[q] {
                                assert(!pl@.allowed[q as int] && guess@[q as int] == l as u8);
                                assert(!fits(self@.bounds[l as int]->0, guess@, l as u8));
                                return false;
                            }
                            n = n + 1;
                        }
                        q = q + 1;
                    }
                    assert(n == letter_count(guess@, l as u8));
                    if n < pl.count.0 || n >= pl.count.1 {
                        assert(!fits(self@.bounds[l as int]->0, guess@, l as u8));
                        return false;
                    }
                },
                None => {},
            }
            l = l + 1;
        }
        true
    }

    /// Deduction on `letter` (see `after_deduce`).
    fn check_possible_letter(&mut self, letter: &Letter)
        requires
            letter.0 < 26,
        ensures
            final(self)@ == after_deduce(old(self)@, letter.0),
    {
        let l = letter.0 as usize;
        let pl = match self.possible_letters[l] {
            Some(v) => v,
            None => {
                return ;
            },
        };
        assert(self@.bounds[l as int] == Some(pl@));
        let mut n: u8 = 0;
        let mut pos: usize = 0;
        let mut p: usize = 0;
        while p < WORD_LENGTH
            invariant
                0 <= p <= 5,
                n <= p,
                n == allowed_upto(pl@.allowed, p as int),
                n > 0 ==> pos == last_true(pl@.allowed, p as int),
                n > 0 ==> pos < 5,
            decreases 5 - p,
        {
            if pl.positions[p] {
                n = n + 1;
                pos = p;
            }
            p = p + 1;
        }
        if n != 1 || pl.count.0 == 0 {
            return ;
        }
        let mut pl2 = pl;
        pl2.count.0 = pl.count.0 - 1;
        let ghost s0 = self@;
        self.exact_letters[pos] = Some(Letter(letter.0));
        if pl2.count.0 == 0 {
            self.possible_letters[l] = None;
        } else {
            self.possible_letters[l] = Some(pl2);
        }
        proof {
            let b = pl@;
            let s1 = set_pinned(s0, last_true(b.allowed, 5), letter.0);
            if b.min == 1 {
                assert(self@ =~= set_bound(s1, letter.0, None));
            } else {
                assert(pl2@ == BoundView { min: b.min - 1, ..b });
                assert(self@ =~= set_bound(s1, letter.0, Some(BoundView { min: b.min - 1, ..b })));
            }
        }
    }

    /// Feedback on a non-exact occurrence of letter `l` at position `i` (see
    /// `after_mark`).
    fn mark_letter(&mut self, l: u8, i: usize, c: u8, t: u8)
        requires
            l < 26,
            i < 5,
            t <= 5,
        ensures
            final(self)@ == after_mark(old(self)@, l, i as int, c as int, t as int),
    {
        if t == 0 {
            let ghost s0 = self@;
            self.incorrect_letters[l as usize] = true;
            assert(self@ =~= set_absent(s0, l));
            return ;
        }
        let ghost s0 = self@;
        let mut pl = match self.possible_letters[l as usize] {
            Some(v) => v,
            None => PossibleLetter { count: (1, 6), positions: [true; WORD_LENGTH] },
        };
        assert(pl@.allowed =~= (match s0.bounds[l as int] {
            Some(b) => b,
            None => fresh_bound(),
        }).allowed);
        if c > t {
            pl.count.1 = t + 1;
        } else if c > pl.count.0 {
            pl.count.0 = c;
        }
        pl.positions[i] = false;
        self.possible_letters[l as usize] = Some(pl);
        let ghost b0 = match s0.bounds[l as int] {
            Some(b) => b,
            None => fresh_bound(),
        };
        let ghost b1 = if c > t {
            BoundView { max: t + 1, allowed: b0.allowed.update(i as int, false), ..b0 }
        } else {
            BoundView {
                min: if c > b0.min { c as int } else { b0.min },
                allowed: b0.allowed.update(i as int, false),
                ..b0
            }
        };
        assert(pl@ == b1);
        assert(self@ =~= set_bound(s0, l, Some(b1)));
        self.check_possible_letter(&Letter(l));
    }
}

} // verus!
