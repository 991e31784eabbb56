use wordle::{best_guess, word_from_bytes, Game, Word};

fn toy_words() -> Vec<Word> {
    vec![Word(*b"abide"), Word(*b"chase"), Word(*b"zonal")]
}

fn possible_words(game: &Game, words: &[Word]) -> Vec<Word> {
    words.iter().filter(|&&w| game.is_possible(w)).copied().collect()
}

/// The worst-case remaining-candidate count of one guess, recomputed by the
/// definition: simulate every possible answer and count what stays possible.
fn exhaustive_score(game: &Game, possible: &[Word], guess: Word) -> usize {
    let mut worst = 0;
    for &a in possible {
        let mut sim = *game;
        sim.guess(a, guess);
        let remaining = possible.iter().filter(|&&na| sim.is_possible(na)).count();
        if remaining > worst {
            worst = remaining;
        }
    }
    worst
}

#[test]
fn packed_encoding_exact_value() {
    // 97 + 98*2^8 + 99*2^16 + 100*2^24 + 101*2^32
    assert_eq!(Word(*b"abcde").to_u64().0, 435475931745u64);
    assert_eq!(Word(*b"aaaaa").to_u64().0 & 0xff, 97);
}

#[test]
fn word_from_bytes_accepts_exactly_five_lowercase_letters() {
    let w = word_from_bytes(b"crane").unwrap();
    assert_eq!(w, Word(*b"crane"));
    assert!(word_from_bytes(b"cran").is_none());
    assert!(word_from_bytes(b"cranes").is_none());
    assert!(word_from_bytes(b"Crane").is_none());
    assert!(word_from_bytes(b"cran1").is_none());
    assert!(word_from_bytes(b"").is_none());
}

#[test]
fn fresh_game_knows_nothing() {
    let game = Game::new();
    assert_eq!(game.guesses, 0);
    for c in b'a'..=b'z' {
        assert!(!game.known_present(c));
        assert!(!game.known_absent(c));
    }
    for i in 0..5 {
        assert_eq!(game.confirmed_letter(i), None);
    }
    for &w in &toy_words() {
        assert!(game.is_possible(w));
        assert!(game.is_revealing(w));
    }
}

#[test]
fn incorporate_crane_trace() {
    let mut game = Game::new();
    game.guess(Word(*b"crane"), Word(*b"trace"));
    assert_eq!(game.guesses, 1);

    // t: not in the answer, and in particular excluded at position 0.
    assert!(game.excluded_at(b't', 0));
    assert!(game.known_absent(b't'));
    assert!(!game.known_present(b't'));

    // r: an exact-position match, so confirmed at position 1 and present.
    assert!(game.confirmed_at(b'r', 1));
    assert!(game.known_present(b'r'));
    assert_eq!(game.confirmed_letter(1), Some(b'r'));

    // a: an exact-position match at position 2.
    assert!(game.confirmed_at(b'a', 2));
    assert!(game.known_present(b'a'));
    assert_eq!(game.confirmed_letter(2), Some(b'a'));

    // c: in the answer but not at position 3.
    assert!(game.excluded_at(b'c', 3));
    assert!(game.known_present(b'c'));
    assert!(!game.known_absent(b'c'));

    // e: an exact-position match at position 4.
    assert!(game.confirmed_at(b'e', 4));
    assert!(game.known_present(b'e'));
    assert_eq!(game.confirmed_letter(4), Some(b'e'));

    // Position 0 saw no exact match.
    assert_eq!(game.confirmed_letter(0), None);
}

#[test]
fn filtering_is_a_pure_predicate() {
    let mut game = Game::new();
    game.guess(Word(*b"chase"), Word(*b"abide"));
    let words = toy_words();
    for &w in &words {
        assert_eq!(game.is_possible(w), game.is_possible(w));
    }
    let once = possible_words(&game, &words);
    let twice = possible_words(&game, &once);
    assert_eq!(once, twice);
}

#[test]
fn monotonic_narrowing() {
    let words = toy_words();
    let mut game = Game::new();
    let before = possible_words(&game, &words);
    game.guess(Word(*b"chase"), Word(*b"abide"));
    let after = possible_words(&game, &words);
    for w in &after {
        assert!(before.contains(w));
    }
    game.guess(Word(*b"chase"), Word(*b"zonal"));
    let after2 = possible_words(&game, &words);
    for w in &after2 {
        assert!(after.contains(w));
    }
}

#[test]
fn self_consistency() {
    for &w in &[
        Word(*b"abide"),
        Word(*b"chase"),
        Word(*b"zonal"),
        Word(*b"crane"),
        Word(*b"llama"),
    ] {
        let mut game = Game::new();
        game.guess(w, w);
        assert!(game.is_possible(w));
    }
}

#[test]
fn deduction_confirms_the_fifth_position() {
    // The answer holds `a` only at position 4; four guesses exclude `a` from
    // positions 0 through 3, and the fourth exclusion triggers the deduction.
    let answer = Word(*b"cccca");
    let mut game = Game::new();
    game.guess(answer, Word(*b"abbbb"));
    game.guess(answer, Word(*b"babbb"));
    game.guess(answer, Word(*b"bbabb"));
    assert!(game.known_present(b'a'));
    assert!(!game.confirmed_at(b'a', 4));
    game.guess(answer, Word(*b"bbbab"));
    assert!(game.excluded_at(b'a', 0));
    assert!(game.excluded_at(b'a', 1));
    assert!(game.excluded_at(b'a', 2));
    assert!(game.excluded_at(b'a', 3));
    assert!(game.confirmed_at(b'a', 4));
}

#[test]
fn tie_break_is_deterministic() {
    let words = toy_words();
    let game = Game::new();
    let first = best_guess(&game, &words, &words);
    let second = best_guess(&game, &words, &words);
    assert_eq!(first, second);
}

#[test]
fn single_candidate_is_returned_even_when_not_revealing() {
    let words = toy_words();
    let mut game = Game::new();
    game.guess(Word(*b"abide"), Word(*b"abide"));
    let possible = possible_words(&game, &words);
    assert_eq!(possible, vec![Word(*b"abide")]);
    // Guessing the last candidate can reveal nothing new, yet it must be
    // chosen: it is the answer.
    assert!(!game.is_revealing(Word(*b"abide")));
    assert_eq!(best_guess(&game, &words, &words), Word(*b"abide"));
}

#[test]
fn toy_minimax_scenario() {
    let words = toy_words();
    let game = Game::new();
    let chosen = best_guess(&game, &words, &words);
    let possible = possible_words(&game, &words);
    assert_eq!(possible.len(), 3);

    // By hand enumeration: guessing abide or chase fully separates the three
    // candidates (worst case 1), while zonal's feedback cannot tell abide
    // from chase (worst case 2). The tie between abide and chase goes to the
    // first word in guess-list order.
    let scores: Vec<usize> = words
        .iter()
        .map(|&g| exhaustive_score(&game, &possible, g))
        .collect();
    assert_eq!(scores, vec![1, 1, 2]);
    let best = *scores.iter().min().unwrap();
    assert_eq!(exhaustive_score(&game, &possible, chosen), best);
    assert_eq!(chosen, Word(*b"abide"));
}

#[test]
fn turn_counter_advances() {
    let mut game = Game::new();
    game.guess(Word(*b"crane"), Word(*b"trace"));
    game.guess(Word(*b"crane"), Word(*b"crane"));
    assert_eq!(game.guesses, 2);
}

#[test]
fn full_game_reaches_the_answer() {
    let words = toy_words();
    let answer = Word(*b"zonal");
    let mut game = Game::new();
    loop {
        let w = best_guess(&game, &words, &words);
        game.guess(answer, w);
        assert!(game.is_possible(answer));
        if w == answer {
            break;
        }
    }
    // The first guess abide rules everything but zonal out, so the second
    // guess wins.
    assert_eq!(game.guesses, 2);
}

#[test]
fn revealing_reflects_what_is_left_to_learn() {
    let mut game = Game::new();
    game.guess(Word(*b"crane"), Word(*b"trace"));
    // Every letter known absent: nothing to learn.
    assert!(!game.is_revealing(Word(*b"ttttt")));
    // The answer itself still resolves position 0.
    assert!(game.is_revealing(Word(*b"crane")));
}
