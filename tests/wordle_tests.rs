use wordle::{
    best_guess, filter_consistent, get_guesses, score_guess, score_guesses, solve, Letter,
    PossibleLetter,
    Word, WordleState,
};

fn w(s: &str) -> Word {
    Word::from_text(s).unwrap()
}

fn idx(c: char) -> usize {
    (c as u8 - b'a') as usize
}

fn pool(words: &[&str]) -> Vec<Word> {
    words.iter().map(|s| w(s)).collect()
}

const ANSWERS: [&str; 12] = [
    "crane", "crate", "trace", "caret", "react", "sassy", "lemon", "melon", "style", "brick",
    "tacit", "eerie",
];

#[test]
fn word_text_round_trip() {
    assert_eq!(w("crane").to_text(), "crane");
    assert_eq!(w("CrAnE").to_text(), "crane");
    assert_eq!(w("zebra").letter(0), 25);
    assert_eq!(w("zebra").letter(4), 0);
}

#[test]
fn word_rejects_malformed_text() {
    assert!(Word::from_text("abcd").is_none());
    assert!(Word::from_text("abcdef").is_none());
    assert!(Word::from_text("ab1de").is_none());
    assert!(Word::from_text("").is_none());
}

#[test]
fn word_new_matches_text() {
    let letters = [Letter(2), Letter(17), Letter(0), Letter(13), Letter(4)];
    let word = Word::new(letters);
    assert!(word == w("crane"));
    assert!(word != w("crate"));
    assert!(word.contains_letter(13));
    assert!(!word.contains_letter(19));
}

#[test]
fn letter_to_char() {
    assert_eq!(Letter(0).to_char(), 'a');
    assert_eq!(Letter(25).to_char(), 'z');
}

#[test]
fn fresh_state_admits_everything() {
    let state = WordleState::new();
    for a in ANSWERS {
        assert!(state.is_valid(&w(a)));
    }
    let d = WordleState::default();
    assert_eq!(d.incorrect_letters, state.incorrect_letters);
}

#[test]
fn answer_stays_consistent_after_feedback() {
    for a in ANSWERS {
        let mut state = WordleState::new();
        for g in ANSWERS {
            let mut one = WordleState::new();
            one.guess(&w(g), &w(a));
            assert!(one.is_valid(&w(a)), "{g} against {a}");
            state.guess(&w(g), &w(a));
            assert!(state.is_valid(&w(a)), "after {g}, answer {a}");
        }
    }
}

#[test]
fn disjoint_guess_marks_all_letters_absent() {
    let mut state = WordleState::new();
    state.guess(&w("brick"), &w("sassy"));
    for c in "brick".chars() {
        assert!(state.incorrect_letters[idx(c)]);
    }
    assert!(!state.incorrect_letters[idx('s')]);
}

#[test]
fn duplicate_letters_sessy_against_sassy() {
    let mut state = WordleState::new();
    state.guess(&w("sessy"), &w("sassy"));
    // Every s of the guess stands where the answer has one, so each is exact.
    assert_eq!(state.exact_letters[0], Some(Letter(idx('s') as u8)));
    assert_eq!(state.exact_letters[2], Some(Letter(idx('s') as u8)));
    assert_eq!(state.exact_letters[3], Some(Letter(idx('s') as u8)));
    assert_eq!(state.exact_letters[4], Some(Letter(idx('y') as u8)));
    assert_eq!(state.exact_letters[1], None);
    assert!(state.incorrect_letters[idx('e')]);
    assert!(state.is_valid(&w("sassy")));
    assert!(!state.is_valid(&w("sessy")));
}

#[test]
fn duplicate_letters_misplaced_and_excess() {
    // Guess "sassa" against "pasta": the first s is misplaced, the second is
    // an excess occurrence, and the last a is misplaced.
    let mut state = WordleState::new();
    state.guess(&w("sassa"), &w("pasta"));
    let s = state.possible_letters[idx('s')].unwrap();
    assert_eq!(s.min_count(), 1);
    assert_eq!(s.max_count(), 2);
    assert!(!s.allows(0));
    assert!(s.allows(2));
    assert!(!s.allows(3));
    assert_eq!(state.exact_letters[1], Some(Letter(0)));
    assert!(state.is_valid(&w("pasta")));
}

#[test]
fn opens_against_lemon() {
    let mut state = WordleState::new();
    state.guess(&w("opens"), &w("lemon"));
    assert!(state.incorrect_letters[idx('s')]);
    assert!(state.incorrect_letters[idx('p')]);
    assert!(!state.incorrect_letters[idx('o')]);
    assert!(!state.incorrect_letters[idx('n')]);
    let o = state.possible_letters[idx('o')].unwrap();
    assert_eq!(o.min_count(), 1);
    assert!(!o.allows(0));
    let n = state.possible_letters[idx('n')].unwrap();
    assert_eq!(n.min_count(), 1);
    assert!(!n.allows(3));
    assert!(state.possible_letters[idx('s')].is_none());
    assert!(state.is_valid(&w("lemon")));
    assert!(state.is_valid(&w("melon")));
    assert!(!state.is_valid(&w("olden")));
}

#[test]
fn deduction_pins_last_position() {
    // Four misplaced e's leave only position 4 for e.
    let mut state = WordleState::new();
    state.guess(&w("eabcd"), &w("xyzwe"));
    state.guess(&w("aebcd"), &w("xyzwe"));
    state.guess(&w("abecd"), &w("xyzwe"));
    assert_eq!(state.exact_letters[4], None);
    state.guess(&w("abced"), &w("xyzwe"));
    assert_eq!(state.exact_letters[4], Some(Letter(idx('e') as u8)));
    assert!(state.possible_letters[idx('e')].is_none());
    assert!(state.is_valid(&w("xyzwe")));
}

#[test]
fn possible_letter_new() {
    let p = PossibleLetter::new(1, 3, [true, false, true, true, false]);
    assert_eq!(p.min_count(), 1);
    assert_eq!(p.max_count(), 3);
    assert!(p.allows(0));
    assert!(!p.allows(1));
}

#[test]
fn is_valid_is_repeatable() {
    let mut state = WordleState::new();
    state.guess(&w("crane"), &w("trace"));
    for c in ANSWERS {
        let first = state.is_valid(&w(c));
        let second = state.is_valid(&w(c));
        assert_eq!(first, second);
    }
}

#[test]
fn score_exact_values() {
    let answers = pool(&["crane", "crate"]);
    let state = WordleState::new();
    assert_eq!(score_guess(&state, &w("crane"), &answers), 2);
    assert_eq!(score_guess(&state, &w("zzzzz"), &answers), 0);
    let guesses = pool(&["zzzzz", "crane", "zzzzy"]);
    assert_eq!(score_guesses(&state, &guesses, &answers), vec![0, 2, 0]);
    assert_eq!(best_guess(&state, &guesses, &answers), 1);
}

#[test]
fn best_guess_prefers_answers_on_ties() {
    let answers = pool(&["crane"]);
    let state = WordleState::new();
    // With one answer nothing is ever eliminated: all scores are zero.
    let guesses = pool(&["zzzzz", "crane", "yyyyy"]);
    assert_eq!(best_guess(&state, &guesses, &answers), 1);
    let guesses = pool(&["zzzzz", "yyyyy"]);
    assert_eq!(best_guess(&state, &guesses, &answers), 1);
}

#[test]
fn answer_pool_shrinks_and_keeps_answer() {
    let all = pool(&ANSWERS);
    for a in ANSWERS {
        let answer = w(a);
        let mut state = WordleState::new();
        let mut answers = all.clone();
        for g in ["roate", "lemon", "style", "crate"] {
            state.guess(&w(g), &answer);
            let next = filter_consistent(&state, &answers);
            assert!(next.len() <= answers.len());
            assert!(next.contains(&answer));
            answers = next;
        }
    }
}

#[test]
fn crane_end_to_end() {
    let answers = pool(&ANSWERS);
    let mut guesses = pool(&["roate", "slate", "irate", "trace"]);
    guesses.extend(answers.iter().copied());
    let answer = w("crane");
    let mut state = WordleState::new();
    state.guess(&w("roate"), &answer);
    let gs = filter_consistent(&state, &guesses);
    let as_ = filter_consistent(&state, &answers);
    assert!(as_.contains(&answer));
    let scores = score_guesses(&state, &gs, &as_);
    let best = best_guess(&state, &gs, &as_);
    let top = *scores.iter().max().unwrap();
    assert_eq!(scores[best], top);
    for (i, s) in scores.iter().enumerate() {
        if *s == top && as_.contains(&gs[i]) {
            assert!(as_.contains(&gs[best]));
        }
    }
    let path = solve(&answer, &guesses, &answers, &w("roate")).unwrap();
    assert!(path[0] == w("roate"));
    assert!(path[path.len() - 1] == answer);
}

#[test]
fn solver_terminates_for_every_answer() {
    let answers = pool(&ANSWERS);
    let guesses = answers.clone();
    for a in ANSWERS {
        let answer = w(a);
        let path = solve(&answer, &guesses, &answers, &w("roate")).unwrap();
        assert!(path.len() <= answers.len() + 1);
        assert!(path[path.len() - 1] == answer);
        for g in &path[..path.len() - 1] {
            assert!(*g != answer);
        }
    }
}

#[test]
fn solver_with_opening_answer() {
    let answers = pool(&["crane", "crate"]);
    let path = solve(&w("crane"), &answers, &answers, &w("crane")).unwrap();
    assert_eq!(path.len(), 1);
}

#[test]
fn ranking_orders_by_score_then_membership_then_position() {
    let answers = pool(&["crane", "crate"]);
    let state = WordleState::new();
    let guesses = pool(&["zzzzz", "crane", "yyyyy", "crate", "qqqqq"]);
    let ranked = get_guesses(&state, &guesses, &answers);
    let words: Vec<String> = ranked.iter().map(|(_, w)| w.to_text()).collect();
    assert_eq!(words, vec!["crate", "crane", "qqqqq", "yyyyy", "zzzzz"]);
    let scores: Vec<u32> = ranked.iter().map(|(s, _)| *s).collect();
    assert_eq!(scores, vec![2, 2, 0, 0, 0]);
    let best = best_guess(&state, &guesses, &answers);
    assert!(guesses[best] == ranked[0].1);
}

#[test]
fn ranking_of_empty_pool_is_empty() {
    let answers = pool(&["crane"]);
    let state = WordleState::new();
    assert!(get_guesses(&state, &Vec::new(), &answers).is_empty());
}
