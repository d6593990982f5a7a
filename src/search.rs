use vstd::prelude::*;
use crate::laws::lemma_answer_stays_consistent;
use crate::state::{consistent, empty_state, feedback, shaped, valid_word, StateView, WordleState};
use crate::word::Word;

verus! {

/// Every word of the pool is well formed.
pub open spec fn all_wf(pool: Seq<Word>) -> bool {
    forall|j: int| 0 <= j < pool.len() ==> #[trigger] pool[j].wf()
}

/// Word `w` is one of the pool's words.
pub open spec fn in_pool(w: Seq<u8>, pool: Seq<Word>) -> bool {
    exists|j: int| 0 <= j < pool.len() && #[trigger] pool[j]@ == w
}

/// How many of the first `n` words of `pool` state `s` rules out.
pub open spec fn eliminated(s: StateView, pool: Seq<Word>, n: int) -> int
    decreases n,
{
    if n <= 0 {
        0
    } else {
        eliminated(s, pool, n - 1) + if consistent(s, pool[n - 1]@) { 0int } else { 1int }
    }
}

/// Eliminations of guess `g`, summed over the first `n` words of `pool` taken
/// as the answer: each counts the words of `pool` ruled out by that feedback.
pub open spec fn score_upto(s: StateView, g: Seq<u8>, pool: Seq<Word>, n: int) -> int
    decreases n,
{
    if n <= 0 {
        0
    } else {
        score_upto(s, g, pool, n - 1) + eliminated(feedback(s, g, pool[n - 1]@), pool, pool.len() as int)
    }
}

/// The elimination score of guess `g` against the answer pool.
pub open spec fn elimination_score(s: StateView, g: Seq<u8>, pool: Seq<Word>) -> int {
    score_upto(s, g, pool, pool.len() as int)
}

/// Guess `i` ranks no higher than guess `j`: a lower score, or an equal one
/// where `j` is a possible answer whenever `i` is.
pub open spec fn ranks_at_most(s: StateView, guesses: Seq<Word>, answers: Seq<Word>, i: int, j: int) -> bool {
    let si = elimination_score(s, guesses[i]@, answers);
    let sj = elimination_score(s, guesses[j]@, answers);
    si < sj || (si == sj && (in_pool(guesses[i]@, answers) ==> in_pool(guesses[j]@, answers)))
}

/// Guess `r` is the top of the ranking: nothing ranks above it, and every later
/// guess ranks strictly below it (of equal ones, the last wins).
pub open spec fn is_best(s: StateView, guesses: Seq<Word>, answers: Seq<Word>, r: int) -> bool {
    &&& 0 <= r < guesses.len()
    &&& forall|j: int| 0 <= j < guesses.len() ==> #[trigger] ranks_at_most(s, guesses, answers, j, r)
    &&& forall|j: int| r < j < guesses.len() ==> !#[trigger] ranks_at_most(s, guesses, answers, r, j)
}

/// The words of `pool` that state `s` still admits, in order.
pub open spec fn narrowed(s: StateView, pool: Seq<Word>) -> Seq<Word> {
    pool.filter(|w: Word| consistent(s, w@))
}

/// Counts the words of `pool` that `state` rules out.
fn count_eliminated(state: &WordleState, pool: &Vec<Word>) -> (r: u32)
    requires
        all_wf(pool@),
        pool.len() <= 65535,
    ensures
        r == eliminated(state@, pool@, pool.len() as int),
{
    let mut r: u32 = 0;
    let mut i: usize = 0;
    while i < pool.len()
        invariant
            0 <= i <= pool.len(),
            pool.len() <= 65535,
            all_wf(pool@),
            r == eliminated(state@, pool@, i as int),
            r <= i,
        decreases pool.len() - i,
    {
        if !state.is_valid(&pool[i]) {
            r = r + 1;
        }
        i = i + 1;
    }
    r
}

/// The elimination score of `guess`: for each word of `answers` taken as the
/// answer, the number of words of `answers` its feedback rules out, summed.
pub fn score_guess(state: &WordleState, guess: &Word, answers: &Vec<Word>) -> (r: u32)
    requires
        guess.wf(),
        all_wf(answers@),
        answers.len() <= 65535,
    ensures
        r == elimination_score(state@, guess@, answers@),
{
    let mut r: u32 = 0;
    let mut i: usize = 0;
    let n = answers.len();
    while i < n
        invariant
            0 <= i <= n,
            n == answers.len(),
            n <= 65535,
            guess.wf(),
            all_wf(answers@),
            r == score_upto(state@, guess@, answers@, i as int),
            r <= i * n,
        decreases n - i,
    {
        let mut trial = *state;
        trial.guess(guess, &answers[i]);
        let e = count_eliminated(&trial, answers);
        proof {
            lemma_eliminated_bound(trial@, answers@, n as int);
            assert((i + 1) * n == i * n + n) by (nonlinear_arith);
            assert((i + 1) * n <= 65535 * 65535) by (nonlinear_arith)
                requires
                    i + 1 <= n,
                    n <= 65535,
            ;
        }
        r = r + e;
        i = i + 1;
    }
    r
}

proof fn lemma_eliminated_bound(s: StateView, pool: Seq<Word>, n: int)
    requires
        n >= 0,
    ensures
        0 <= eliminated(s, pool, n) <= n,
    decreases n,
{
    if n > 0 {
        lemma_eliminated_bound(s, pool, n - 1);
    }
}

/// Whether `w` is one of the words of `pool`.
pub fn is_member(w: &Word, pool: &Vec<Word>) -> (r: bool)
    ensures
        r == in_pool(w@, pool@),
{
    let mut i: usize = 0;
    while i < pool.len()
        invariant
            0 <= i <= pool.len(),
            forall|j: int| 0 <= j < i ==> #[trigger] pool@[j]@ != w@,
        decreases pool.len() - i,
    {
        if pool[i] == *w {
            assert(pool@[i as int]@ == w@);
            return true;
        }
        i = i + 1;
    }
    false
}

/// The elimination score of each guess, in the order of `guesses`.
pub fn score_guesses(state: &WordleState, guesses: &Vec<Word>, answers: &Vec<Word>) -> (r: Vec<u32>)
    requires
        all_wf(guesses@),
        all_wf(answers@),
        answers.len() <= 65535,
    ensures
        r.len() == guesses.len(),
        forall|j: int|
            0 <= j < guesses.len() ==> #[trigger] r[j] == elimination_score(
                state@,
                guesses[j]@,
                answers@,
            ),
{
    let mut r: Vec<u32> = Vec::new();
    let mut i: usize = 0;
    while i < guesses.len()
        invariant
            0 <= i <= guesses.len(),
            all_wf(guesses@),
            all_wf(answers@),
            answers.len() <= 65535,
            r.len() == i,
            forall|j: int|
                0 <= j < i ==> #[trigger] r[j] == elimination_score(state@, guesses[j]@, answers@),
        decreases guesses.len() - i,
    {
        let s = score_guess(state, &guesses[i], answers);
        r.push(s);
        i = i + 1;
    }
    r
}

/// The index of the best guess: the highest elimination score, ties going to
/// a guess that is itself a possible answer, and then to the later guess.
pub fn best_guess(state: &WordleState, guesses: &Vec<Word>, answers: &Vec<Word>) -> (r: usize)
    requires
        guesses.len() > 0,
        all_wf(guesses@),
        all_wf(answers@),
        answers.len() <= 65535,
    ensures
        is_best(state@, guesses@, answers@, r as int),
{
    let scores = score_guesses(state, guesses, answers);
    let mut best: usize = 0;
    let mut best_score: u32 = scores[0];
    let mut best_member: bool = is_member(&guesses[0], answers);
    let mut i: usize = 1;
    while i < guesses.len()
        invariant
            1 <= i <= guesses.len(),
            best < i,
            scores.len() == guesses.len(),
            forall|j: int|
                0 <= j < guesses.len() ==> #[trigger] scores[j] == elimination_score(
                    state@,
                    guesses[j]@,
                    answers@,
                ),
            best_score == scores[best as int],
            best_member == in_pool(guesses[best as int]@, answers@),
            forall|j: int|
                0 <= j < i ==> #[trigger] ranks_at_most(state@, guesses@, answers@, j, best as int),
            forall|j: int|
                best < j < i ==> !#[trigger] ranks_at_most(state@, guesses@, answers@, best as int, j),
        decreases guesses.len() - i,
    {
        let s = scores[i];
        let m = is_member(&guesses[i], answers);
        if best_score < s || (best_score == s && (!best_member || m)) {
            assert(ranks_at_most(state@, guesses@, answers@, best as int, i as int));
            assert forall|j: int| 0 <= j < i + 1 implies #[trigger] ranks_at_most(
                state@,
                guesses@,
                answers@,
                j,
                i as int,
            ) by {
                if j < i {
                    assert(ranks_at_most(state@, guesses@, answers@, j, best as int));
                }
            }
            best = i;
            best_score = s;
            best_member = m;
        }
        i = i + 1;
    }
    best
}

/// Guess `i` comes before guess `j` in the ranking: it ranks strictly higher,
/// or as high and stands later in the pool.
pub open spec fn ranked_before(s: StateView, guesses: Seq<Word>, answers: Seq<Word>, i: int, j: int) -> bool {
    !ranks_at_most(s, guesses, answers, i, j) || (ranks_at_most(s, guesses, answers, j, i) && i > j)
}

/// `order` lists indices of `guesses`, one per guess, best first.
pub open spec fn is_ranking(s: StateView, guesses: Seq<Word>, answers: Seq<Word>, order: Seq<int>) -> bool {
    &&& order.len() == guesses.len()
    &&& forall|k: int| 0 <= k < order.len() ==> 0 <= #[trigger] order[k] < guesses.len()
    &&& forall|a: int, b: int|
        0 <= a < b < order.len() ==> ranked_before(s, guesses, answers, #[trigger] order[a], #[trigger] order[b])
}

/// Every guess with its elimination score, best first: higher scores first,
/// then possible answers before other guesses, then later guesses first.
pub fn get_guesses(state: &WordleState, guesses: &Vec<Word>, answers: &Vec<Word>) -> (r: Vec<(u32, Word)>)
    requires
        all_wf(guesses@),
        all_wf(answers@),
        answers.len() <= 65535,
    ensures
        exists|order: Seq<int>|
            {
                &&& is_ranking(state@, guesses@, answers@, order)
                &&& r.len() == order.len()
                &&& forall|k: int|
                    0 <= k < r.len() ==> (#[trigger] r[k]).0 == elimination_score(
                        state@,
                        guesses[order[k]]@,
                        answers@,
                    ) && r[k].1 == guesses[order[k]]
            },
{
    let ghost s = state@;
    let ghost gs = guesses@;
    let ghost as_ = answers@;
    let n = guesses.len();
    let scores = score_guesses(state, guesses, answers);
    let mut members: Vec<bool> = Vec::new();
    let mut i: usize = 0;
    while i < n
        invariant
            0 <= i <= n,
            n == guesses.len(),
            members.len() == i,
            forall|j: int| 0 <= j < i ==> #[trigger] members[j] == in_pool(guesses[j]@, answers@),
        decreases n - i,
    {
        members.push(is_member(&guesses[i], answers));
        i = i + 1;
    }
    let mut order: Vec<usize> = Vec::new();
    let mut i: usize = 0;
    while i < n
        invariant
            0 <= i <= n,
            n == guesses.len(),
            scores.len() == n,
            members.len() == n,
            forall|j: int| 0 <= j < n ==> #[trigger] scores[j] == elimination_score(s, gs[j]@, as_),
            forall|j: int| 0 <= j < n ==> #[trigger] members[j] == in_pool(gs[j]@, as_),
            s == state@,
            gs == guesses@,
            as_ == answers@,
            order.len() == i,
            forall|k: int| 0 <= k < i ==> #[trigger] order[k] < i,
            forall|a: int, b: int|
                0 <= a < b < i ==> ranked_before(s, gs, as_, #[trigger] order[a] as int, #[trigger] order[b] as int),
        decreases n - i,
    {
        let mut pos: usize = 0;
        let mut found = false;
        while pos < order.len() && !found
            invariant
                0 <= pos <= order.len(),
                found ==> pos < order.len() && ranked_before(s, gs, as_, i as int, order[pos as int] as int),
                order.len() == i,
                i < n,
                n == gs.len(),
                scores.len() == n,
                members.len() == n,
                forall|j: int| 0 <= j < n ==> #[trigger] scores[j] == elimination_score(s, gs[j]@, as_),
                forall|j: int| 0 <= j < n ==> #[trigger] members[j] == in_pool(gs[j]@, as_),
                forall|k: int| 0 <= k < i ==> #[trigger] order[k] < i,
                forall|a: int| 0 <= a < pos ==> ranked_before(s, gs, as_, #[trigger] order[a] as int, i as int),
            decreases order.len() - pos + if found { 0int } else { 1int },
        {
            let j = order[pos];
            let si = scores[i];
            let sj = scores[j];
            if si > sj || (si == sj && ((members[i] && !members[j]) || (members[i] == members[j] && i > j))) {
                assert(ranked_before(s, gs, as_, i as int, j as int));
                found = true;
            } else {
                pos = pos + 1;
            }
        }
        let ghost old_order = order@;
        order.insert(pos, i);
        assert forall|a: int, b: int|
            0 <= a < b < i + 1 implies ranked_before(s, gs, as_, #[trigger] order[a] as int, #[trigger] order[b] as int) by {
            if b < pos {
                assert(order[a] == old_order[a] && order[b] == old_order[b]);
            } else if b == pos {
                assert(order[a] == old_order[a]);
            } else if a == pos {
                assert(order[b] == old_order[b - 1]);
                assert(found);
                if b - 1 > pos {
                    assert(ranked_before(s, gs, as_, old_order[pos as int] as int, old_order[b - 1] as int));
                }
            } else if a < pos {
                assert(order[a] == old_order[a] && order[b] == old_order[b - 1]);
            } else {
                assert(order[a] == old_order[a - 1] && order[b] == old_order[b - 1]);
            }
        }
        assert forall|k: int| 0 <= k < i + 1 implies #[trigger] order[k] < i + 1 by {
            if k < pos {
                assert(order[k] == old_order[k]);
            } else if k > pos {
                assert(order[k] == old_order[k - 1]);
            }
        }
        i = i + 1;
    }
    let mut r: Vec<(u32, Word)> = Vec::new();
    let mut k: usize = 0;
    while k < n
        invariant
            0 <= k <= n,
            n == guesses.len(),
            order.len() == n,
            scores.len() == n,
            forall|j: int| 0 <= j < n ==> #[trigger] scores[j] == elimination_score(s, gs[j]@, as_),
            forall|m: int| 0 <= m < n ==> #[trigger] order[m] < n,
            s == state@,
            gs == guesses@,
            as_ == answers@,
            r.len() == k,
            forall|m: int|
                0 <= m < k ==> (#[trigger] r[m]).0 == elimination_score(s, gs[order[m] as int]@, as_)
                    && r[m].1 == gs[order[m] as int],
        decreases n - k,
    {
        let j = order[k];
        r.push((scores[j], guesses[j]));
        k = k + 1;
    }
    let ghost order_int = order@.map_values(|x: usize| x as int);
    assert(is_ranking(s, gs, as_, order_int));
    r
}

/// Keeps the words of `pool` that `state` still admits, in order.
pub fn filter_consistent(state: &WordleState, pool: &Vec<Word>) -> (r: Vec<Word>)
    requires
        all_wf(pool@),
    ensures
        r@ == narrowed(state@, pool@),
        r.len() <= pool.len(),
        all_wf(r@),
{
    let mut r: Vec<Word> = Vec::new();
    let mut i: usize = 0;
    while i < pool.len()
        invariant
            0 <= i <= pool.len(),
            all_wf(pool@),
            all_wf(r@),
            r@ == narrowed(state@, pool@.take(i as int)),
        decreases pool.len() - i,
    {
        proof {
            reveal(Seq::filter);
            assert(pool@.take(i + 1).drop_last() =~= pool@.take(i as int));
            assert(pool@.take(i + 1).last() == pool@[i as int]);
        }
        if state.is_valid(&pool[i]) {
            r.push(pool[i]);
        }
        i = i + 1;
    }
    assert(pool@.take(pool.len() as int) =~= pool@);
    proof {
        pool@.lemma_filter_len(|w: Word| consistent(state@, w@));
    }
    r
}

/// Narrowing a pool that holds the answer, by the feedback of a guess against
/// that answer, never makes the pool larger and keeps the answer in it.
pub proof fn lemma_narrowing_keeps_answer(s: StateView, g: Seq<u8>, answer: Word, pool: Seq<Word>)
    requires
        shaped(s),
        consistent(s, answer@),
        valid_word(g),
        answer.wf(),
        in_pool(answer@, pool),
    ensures
        narrowed(feedback(s, g, answer@), pool).len() <= pool.len(),
        in_pool(answer@, narrowed(feedback(s, g, answer@), pool)),
{
    answer.lemma_wf();
    lemma_answer_stays_consistent(s, g, answer@);
    let s1 = feedback(s, g, answer@);
    let f = |w: Word| consistent(s1, w@);
    pool.lemma_filter_len(f);
    let j = choose|j: int| 0 <= j < pool.len() && #[trigger] pool[j]@ == answer@;
    pool.lemma_filter_contains(f, j);
    let k = choose|k: int| 0 <= k < pool.filter(f).len() && pool.filter(f)[k] == pool[j];
    assert(narrowed(s1, pool)[k]@ == answer@);
}

/// The top-ranked guess (see `is_best`).
pub open spec fn best_of(s: StateView, guesses: Seq<Word>, answers: Seq<Word>) -> int {
    choose|r: int| is_best(s, guesses, answers, r)
}

proof fn lemma_best_unique(s: StateView, guesses: Seq<Word>, answers: Seq<Word>, r: int)
    requires
        is_best(s, guesses, answers, r),
    ensures
        best_of(s, guesses, answers) == r,
{
    let r2 = best_of(s, guesses, answers);
    assert(is_best(s, guesses, answers, r2));
    if r < r2 {
        assert(ranks_at_most(s, guesses, answers, r, r2));
    } else if r2 < r {
        assert(ranks_at_most(s, guesses, answers, r2, r));
    }
}

/// The guesses played from state `s` with pools `guesses` and `answers`,
/// starting with `guess`, until the answer is guessed, with at most `turns`
/// guesses after this one: `None` when the turns or the guesses run out.
pub open spec fn play(
    s: StateView,
    guesses: Seq<Word>,
    answers: Seq<Word>,
    answer: Seq<u8>,
    guess: Word,
    turns: nat,
) -> Option<Seq<Word>>
    decreases turns,
{
    if guess@ == answer {
        Some(seq![guess])
    } else if turns == 0 {
        None
    } else {
        let s1 = feedback(s, guess@, answer);
        let gs1 = narrowed(s1, guesses);
        let as1 = narrowed(s1, answers);
        if gs1.len() == 0 {
            None
        } else {
            prepend(seq![guess], play(s1, gs1, as1, answer, gs1[best_of(s1, gs1, as1)], (turns - 1) as nat))
        }
    }
}

/// A finished game starts with its first guess, ends with the answer, guesses
/// the answer nowhere before, and takes at most one guess more than the turns
/// it was allowed.
pub proof fn lemma_play_shape(
    s: StateView,
    guesses: Seq<Word>,
    answers: Seq<Word>,
    answer: Seq<u8>,
    guess: Word,
    turns: nat,
)
    ensures
        play(s, guesses, answers, answer, guess, turns) matches Some(p) ==> {
            &&& 1 <= p.len() <= turns + 1
            &&& p[0] == guess
            &&& p.last()@ == answer
            &&& forall|k: int| 0 <= k < p.len() - 1 ==> #[trigger] p[k]@ != answer
        },
    decreases turns,
{
    if guess@ != answer && turns > 0 {
        let s1 = feedback(s, guess@, answer);
        let gs1 = narrowed(s1, guesses);
        let as1 = narrowed(s1, answers);
        if gs1.len() > 0 {
            let next = gs1[best_of(s1, gs1, as1)];
            lemma_play_shape(s1, gs1, as1, answer, next, (turns - 1) as nat);
            if let Some(rest) = play(s1, gs1, as1, answer, next, (turns - 1) as nat) {
                let p = seq![guess] + rest;
                assert forall|k: int| 0 <= k < p.len() - 1 implies #[trigger] p[k]@ != answer by {
                    if k > 0 {
                        assert(p[k] == rest[k - 1]);
                    }
                }
            }
        }
    }
}

/// `path` followed by the guesses of `rest`, if there are any.
pub open spec fn prepend(path: Seq<Word>, rest: Option<Seq<Word>>) -> Option<Seq<Word>> {
    match rest {
        Some(p) => Some(path + p),
        None => None,
    }
}

fn copy_pool(pool: &Vec<Word>) -> (r: Vec<Word>)
    ensures
        r@ == pool@,
{
    let mut r: Vec<Word> = Vec::new();
    let mut i: usize = 0;
    while i < pool.len()
        invariant
            0 <= i <= pool.len(),
            r@ == pool@.take(i as int),
        decreases pool.len() - i,
    {
        r.push(pool[i]);
        assert(r@ =~= pool@.take(i + 1));
        i = i + 1;
    }
    assert(pool@.take(pool.len() as int) =~= pool@);
    r
}

/// Solves for `answer`: plays `opener` first, then each turn the best guess
/// over the pools narrowed to what is still consistent, until the answer is
/// guessed. Gives up with `None` after one guess more than there are answers,
/// or when no guess is left.
pub fn solve(answer: &Word, guesses: &Vec<Word>, answers: &Vec<Word>, opener: &Word) -> (r: Option<
    Vec<Word>,
>)
    requires
        answer.wf(),
        opener.wf(),
        all_wf(guesses@),
        all_wf(answers@),
        answers.len() <= 65535,
    ensures
        match play(empty_state(), guesses@, answers@, answer@, *opener, answers.len() as nat) {
            Some(p) => r is Some && r->0@ == p,
            None => r is None,
        },
{
    let ghost goal = play(empty_state(), guesses@, answers@, answer@, *opener, answers.len() as nat);
    let mut state = WordleState::new();
    let mut gs = copy_pool(guesses);
    let mut as_ = copy_pool(answers);
    let mut guess = *opener;
    let mut path: Vec<Word> = Vec::new();
    let mut turns: usize = answers.len();
    loop
        invariant
            answer.wf(),
            guess.wf(),
            all_wf(gs@),
            all_wf(as_@),
            as_.len() <= 65535,
            goal == play(empty_state(), guesses@, answers@, answer@, *opener, answers.len() as nat),
            goal == prepend(path@, play(state@, gs@, as_@, answer@, guess, turns as nat)),
        decreases turns,
    {
        let ghost before = path@;
        path.push(guess);
        if guess == *answer {
            assert(before + seq![guess] =~= path@);
            return Some(path);
        }
        if turns == 0 {
            return None;
        }
        state.guess(&guess, answer);
        gs = filter_consistent(&state, &gs);
        as_ = filter_consistent(&state, &as_);
        if gs.len() == 0 {
            return None;
        }
        let idx = best_guess(&state, &gs, &as_);
        proof {
            lemma_best_unique(state@, gs@, as_@, idx as int);
        }
        let ghost rest = play(state@, gs@, as_@, answer@, gs[idx as int], (turns - 1) as nat);
        guess = gs[idx];
        turns = turns - 1;
        proof {
            if rest is Some {
                assert(before + (seq![path@.last()] + rest->0) =~= path@ + rest->0);
            }
        }
    }
}

} // verus!
