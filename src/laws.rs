use vstd::prelude::*;
use crate::state::{
    after_deduce, after_mark, allowed_count, allowed_upto, checked_count, consistent, occ_upto,
    empty_state, feedback, fits, fresh_bound, last_true, letter_count, run, shaped, valid_word,
    with_exact, BoundView, StateView,
};

verus! {

proof fn lemma_occ_bounds(w: Seq<u8>, l: u8, n: int)
    requires
        n >= 0,
    ensures
        0 <= occ_upto(w, l, n) <= n,
    decreases n,
{
    if n > 0 {
        lemma_occ_bounds(w, l, n - 1);
    }
}

proof fn lemma_occ_none(w: Seq<u8>, l: u8, n: int)
    requires
        forall|j: int| 0 <= j < n ==> #[trigger] w[j] != l,
    ensures
        occ_upto(w, l, n) == 0,
    decreases n,
{
    if n > 0 {
        lemma_occ_none(w, l, n - 1);
    }
}

proof fn lemma_occ_positive(w: Seq<u8>, l: u8, n: int, k: int)
    requires
        0 <= k < n,
        w[k] == l,
    ensures
        occ_upto(w, l, n) >= 1,
    decreases n,
{
    if k < n - 1 {
        lemma_occ_positive(w, l, n - 1, k);
    } else {
        lemma_occ_bounds(w, l, n - 1);
    }
}

proof fn lemma_occ_witness(w: Seq<u8>, l: u8, n: int) -> (j: int)
    requires
        occ_upto(w, l, n) > 0,
    ensures
        0 <= j < n,
        w[j] == l,
    decreases n,
{
    if w[n - 1] == l {
        n - 1
    } else {
        lemma_occ_witness(w, l, n - 1)
    }
}

proof fn lemma_allowed_positive(s: Seq<bool>, n: int, k: int)
    requires
        0 <= k < n,
        s[k],
    ensures
        allowed_upto(s, n) >= 1,
    decreases n,
{
    if k < n - 1 {
        lemma_allowed_positive(s, n - 1, k);
    } else {
        lemma_allowed_bounds(s, n - 1);
    }
}

proof fn lemma_allowed_bounds(s: Seq<bool>, n: int)
    requires
        n >= 0,
    ensures
        0 <= allowed_upto(s, n) <= n,
    decreases n,
{
    if n > 0 {
        lemma_allowed_bounds(s, n - 1);
    }
}

proof fn lemma_single_is_last(s: Seq<bool>, n: int, p: int)
    requires
        0 <= p < n,
        s[p],
        allowed_upto(s, n) == 1,
    ensures
        last_true(s, n) == p,
    decreases n,
{
    if s[n - 1] {
        if p != n - 1 {
            lemma_allowed_positive(s, n - 1, p);
        }
    } else {
        lemma_single_is_last(s, n - 1, p);
    }
}

proof fn lemma_deduce_sound(s: StateView, a: Seq<u8>, l: u8)
    requires
        shaped(s),
        consistent(s, a),
        valid_word(a),
        l < 26,
    ensures
        shaped(after_deduce(s, l)),
        consistent(after_deduce(s, l), a),
{
    if let Some(b) = s.bounds[l as int] {
        if allowed_count(b) == 1 && b.min >= 1 {
            assert(fits(b, a, l));
            let p = lemma_occ_witness(a, l, 5);
            assert(b.allowed[p]);
            lemma_single_is_last(b.allowed, 5, p);
            let s1 = after_deduce(s, l);
            assert forall|q: int| 0 <= q < 5 && #[trigger] s1.pinned[q] is Some implies s1.pinned[q]->0
                == a[q] by {
                if q != p {
                    assert(s.pinned[q] is Some);
                }
            }
            assert forall|m: int| 0 <= m < 26 && #[trigger] s1.bounds[m] is Some implies fits(
                s1.bounds[m]->0,
                a,
                m as u8,
            ) && s1.bounds[m]->0.allowed.len() == 5 by {
                assert(s.bounds[m] is Some);
            }
        }
    }
}

proof fn lemma_mark_sound(s: StateView, g: Seq<u8>, a: Seq<u8>, i: int)
    requires
        shaped(s),
        consistent(s, a),
        valid_word(g),
        valid_word(a),
        0 <= i < 5,
        g[i] != a[i],
    ensures
        shaped(after_mark(s, g[i], i, checked_count(g, a, g[i], i), letter_count(a, g[i]))),
        consistent(after_mark(s, g[i], i, checked_count(g, a, g[i], i), letter_count(a, g[i])), a),
{
    let l = g[i];
    let t = letter_count(a, l);
    let c = checked_count(g, a, l, i);
    lemma_occ_bounds(a, l, 5);
    if t == 0 {
        assert forall|k: int| 0 <= k < 5 implies a[k] != l by {
            if a[k] == l {
                lemma_occ_positive(a, l, 5, k);
            }
        }
        let s1 = after_mark(s, l, i, c, t);
        assert forall|m: int| 0 <= m < 26 && #[trigger] s1.absent[m] implies !a.contains(m as u8) by {
            if m != l {
                assert(s.absent[m]);
            }
        }
    } else {
        let b0 = match s.bounds[l as int] {
            Some(b) => b,
            None => fresh_bound(),
        };
        assert(fits(b0, a, l) && b0.allowed.len() == 5);
        let b1 = if c > t {
            BoundView { max: t + 1, allowed: b0.allowed.update(i, false), ..b0 }
        } else {
            BoundView {
                min: if c > b0.min { c } else { b0.min },
                allowed: b0.allowed.update(i, false),
                ..b0
            }
        };
        assert(fits(b1, a, l));
        let s1 = StateView { bounds: s.bounds.update(l as int, Some(b1)), ..s };
        assert forall|m: int| 0 <= m < 26 && #[trigger] s1.bounds[m] is Some implies fits(
            s1.bounds[m]->0,
            a,
            m as u8,
        ) && s1.bounds[m]->0.allowed.len() == 5 by {
            if m != l {
                assert(s.bounds[m] is Some);
            }
        }
        lemma_deduce_sound(s1, a, l);
    }
}

proof fn lemma_run_sound(s: StateView, g: Seq<u8>, a: Seq<u8>, n: int)
    requires
        shaped(s),
        consistent(s, a),
        valid_word(g),
        valid_word(a),
        0 <= n <= 5,
    ensures
        shaped(run(s, g, a, n)),
        consistent(run(s, g, a, n), a),
    decreases n,
{
    if n == 0 {
        let s1 = with_exact(s, g, a);
        assert forall|p: int| 0 <= p < 5 && #[trigger] s1.pinned[p] is Some implies s1.pinned[p]->0
            == a[p] by {
            if g[p] != a[p] {
                assert(s.pinned[p] is Some);
            }
        }
    } else {
        lemma_run_sound(s, g, a, n - 1);
        if g[n - 1] != a[n - 1] {
            lemma_mark_sound(run(s, g, a, n - 1), g, a, n - 1);
        }
    }
}

/// Before any feedback, every word is consistent.
pub proof fn lemma_empty_state_consistent(w: Seq<u8>)
    requires
        valid_word(w),
    ensures
        shaped(empty_state()),
        consistent(empty_state(), w),
{
}

/// The answer is never excluded by the feedback it produced: from any state
/// that the answer meets, the state after a guess against that answer still
/// admits the answer.
pub proof fn lemma_answer_stays_consistent(s: StateView, g: Seq<u8>, a: Seq<u8>)
    requires
        shaped(s),
        consistent(s, a),
        valid_word(g),
        valid_word(a),
    ensures
        shaped(feedback(s, g, a)),
        consistent(feedback(s, g, a), a),
{
    lemma_run_sound(s, g, a, 5);
}

proof fn lemma_run_absent(s: StateView, g: Seq<u8>, a: Seq<u8>, n: int)
    requires
        shaped(s),
        valid_word(g),
        valid_word(a),
        forall|p: int, q: int| 0 <= p < 5 && 0 <= q < 5 ==> g[p] != a[q],
        0 <= n <= 5,
    ensures
        run(s, g, a, n).absent.len() == 26,
        forall|p: int| 0 <= p < n ==> #[trigger] run(s, g, a, n).absent[g[p] as int],
    decreases n,
{
    if n > 0 {
        lemma_run_absent(s, g, a, n - 1);
        let l = g[n - 1];
        assert(g[n - 1] != a[n - 1]);
        lemma_occ_none(a, l, 5);
        assert(letter_count(a, l) == 0);
        let s0 = run(s, g, a, n - 1);
        assert forall|p: int| 0 <= p < n implies #[trigger] run(s, g, a, n).absent[g[p] as int] by {
            if p < n - 1 {
                assert(s0.absent[g[p] as int]);
            }
        }
    }
}

/// A guess that shares no letter with the answer marks each of its letters
/// absent.
pub proof fn lemma_disjoint_guess_marks_absent(s: StateView, g: Seq<u8>, a: Seq<u8>)
    requires
        shaped(s),
        valid_word(g),
        valid_word(a),
        forall|p: int, q: int| 0 <= p < 5 && 0 <= q < 5 ==> g[p] != a[q],
    ensures
        forall|p: int| 0 <= p < 5 ==> #[trigger] feedback(s, g, a).absent[g[p] as int],
{
    lemma_run_absent(s, g, a, 5);
}

} // verus!
