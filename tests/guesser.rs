use word_guesser::Guesser;

fn fits(w: &str, pattern: &[Option<char>], guessed: &[char]) -> bool {
    let cs: Vec<char> = w.chars().collect();
    cs.len() == pattern.len()
        && cs.iter().zip(pattern.iter()).all(|(c, p)| match p {
            Some(k) => c == k,
            None => !guessed.contains(c),
        })
}

#[test]
fn new_from_dict_starts_blank() {
    let dict = ["cat", "dog", "horse"];
    let g = Guesser::new_from_dict(&dict, 3);
    assert_eq!(g.remaining_words, vec!["cat", "dog", "horse"]);
    assert!(g.guessed.is_empty());
    assert_eq!(g.word, vec![None, None, None]);
}

#[test]
fn new_from_default_takes_the_list() {
    let words = vec!["alpha", "beta"];
    let g = Guesser::new_from_default(words, 4);
    assert_eq!(g.remaining_words, vec!["alpha", "beta"]);
    assert!(g.guessed.is_empty());
    assert_eq!(g.word, vec![None; 4]);
}

#[test]
fn new_with_zero_length() {
    let g = Guesser::new_from_dict(&["a"], 0);
    assert!(g.word.is_empty());
    assert!(g.win());
}

#[test]
fn scenario_tie_goes_to_greater_letter() {
    let dict = ["cat", "car", "can"];
    let mut g = Guesser::new_from_dict(&dict, 3);
    assert_eq!(g.guess(), Some('c'));
    assert_eq!(g.guessed, vec!['c']);
    // 'a' is the only letter left with three occurrences.
    assert_eq!(g.guess(), Some('a'));
    // 'n', 'r', 't' once each: the greatest comes first.
    assert_eq!(g.guess(), Some('t'));
    assert_eq!(g.guess(), Some('r'));
    assert_eq!(g.guess(), Some('n'));
    assert_eq!(g.guess(), None);
    assert_eq!(g.guessed, vec!['c', 'a', 't', 'r', 'n']);
}

#[test]
fn scenario_known_first_letter_keeps_all() {
    let dict = ["cat", "car", "can"];
    let mut g = Guesser::new_from_dict(&dict, 3);
    g.word = vec![Some('c'), None, None];
    g.elim();
    assert_eq!(g.remaining_words, vec!["cat", "car", "can"]);
}

#[test]
fn scenario_guessed_letter_removes_word() {
    let dict = ["cat", "car", "can"];
    let mut g = Guesser::new_from_dict(&dict, 3);
    g.word = vec![Some('c'), None, None];
    g.guessed = vec!['t'];
    g.elim();
    assert_eq!(g.remaining_words, vec!["car", "can"]);
}

#[test]
fn scenario_empty_dictionary() {
    let dict: [&str; 0] = [];
    let mut g = Guesser::new_from_dict(&dict, 3);
    g.elim();
    assert_eq!(g.guess(), None);
    assert!(g.guessed.is_empty());
}

#[test]
fn scenario_all_letters_guessed() {
    let mut g = Guesser::new_from_dict(&["abba"], 4);
    g.guessed = vec!['a', 'b'];
    assert_eq!(g.guess(), None);
    assert_eq!(g.guessed, vec!['a', 'b']);
    assert_eq!(g.remaining_words, vec!["abba"]);
}

#[test]
fn elim_filters_by_length() {
    let mut g = Guesser::new_from_dict(&["a", "ab", "abc", "abcd", "xyz"], 3);
    g.elim();
    assert_eq!(g.remaining_words, vec!["abc", "xyz"]);
}

#[test]
fn elim_known_letter_must_match() {
    let mut g = Guesser::new_from_dict(&["cat", "bat", "cot", "cut"], 3);
    g.word = vec![None, Some('a'), None];
    g.elim();
    assert_eq!(g.remaining_words, vec!["cat", "bat"]);
}

#[test]
fn elim_guessed_letter_not_in_unknown_slot() {
    // 'a' is known at position 1; a second 'a' in an unknown slot rules a word out.
    let mut g = Guesser::new_from_dict(&["aab", "bab", "cac"], 3);
    g.word = vec![None, Some('a'), None];
    g.guessed = vec!['a'];
    g.elim();
    assert_eq!(g.remaining_words, vec!["bab", "cac"]);
}

#[test]
fn elim_counts_characters_not_bytes() {
    let mut g = Guesser::new_from_dict(&["ça", "abc", "éé"], 2);
    g.elim();
    assert_eq!(g.remaining_words, vec!["ça", "éé"]);
}

#[test]
fn elim_sound_on_sample() {
    let dict = ["tree", "trap", "trip", "tram", "stop", "tee", "true"];
    let mut g = Guesser::new_from_dict(&dict, 4);
    g.word = vec![Some('t'), Some('r'), None, None];
    g.guessed = vec!['t', 'r', 'e'];
    g.elim();
    assert_eq!(g.remaining_words, vec!["trap", "trip", "tram"]);
    for w in &g.remaining_words {
        assert!(fits(w, &g.word, &g.guessed));
    }
}

#[test]
fn elim_keeps_a_subset() {
    let dict = ["tree", "trap", "trip", "tram", "stop", "tee", "true"];
    let mut g = Guesser::new_from_dict(&dict, 4);
    g.guessed = vec!['p'];
    let before = g.remaining_words.clone();
    g.elim();
    assert_eq!(g.remaining_words, vec!["tree", "tram", "true"]);
    assert!(g.remaining_words.len() <= before.len());
    for w in &g.remaining_words {
        assert!(before.contains(w));
    }
}

#[test]
fn elim_twice_same_as_once() {
    let dict = ["tree", "trap", "trip", "tram", "stop", "tee", "true"];
    let mut g = Guesser::new_from_dict(&dict, 4);
    g.word = vec![Some('t'), None, None, None];
    g.guessed = vec!['t', 'e'];
    g.elim();
    let once = g.remaining_words.clone();
    g.elim();
    assert_eq!(g.remaining_words, once);
    assert_eq!(once, vec!["trap", "trip", "tram"]);
}

#[test]
fn guess_is_deterministic() {
    let dict = ["hello", "world", "lemon", "melon"];
    let mut a = Guesser::new_from_dict(&dict, 5);
    let mut b = Guesser::new_from_dict(&dict, 5);
    let ra = a.guess();
    let rb = b.guess();
    assert_eq!(ra, rb);
    // 'l' occurs 5 times, 'o' 4 times.
    assert_eq!(ra, Some('l'));
}

#[test]
fn guess_counts_repeats_within_a_word() {
    // 'z' occurs three times in one word, 'a' once in each of two words.
    let mut g = Guesser::new_from_dict(&["zzz", "ab", "ac"], 3);
    assert_eq!(g.guess(), Some('z'));
}

#[test]
fn guess_counts_duplicate_words() {
    let mut g = Guesser::new_from_dict(&["ab", "ab", "cd"], 2);
    assert_eq!(g.guess(), Some('b'));
    assert_eq!(g.guess(), Some('a'));
    assert_eq!(g.guess(), Some('d'));
    assert_eq!(g.guess(), Some('c'));
    assert_eq!(g.guess(), None);
}

#[test]
fn guess_skips_guessed_letters() {
    let mut g = Guesser::new_from_dict(&["cat", "car", "can"], 3);
    g.guessed = vec!['c', 'a'];
    assert_eq!(g.guess(), Some('t'));
    assert_eq!(g.guessed, vec!['c', 'a', 't']);
}

#[test]
fn guess_adds_one_new_letter() {
    let mut g = Guesser::new_from_dict(&["apple", "angle", "ample"], 5);
    let mut previous = g.guessed.clone();
    while let Some(c) = g.guess() {
        assert!(!previous.contains(&c));
        assert_eq!(g.guessed.len(), previous.len() + 1);
        assert_eq!(g.guessed[..previous.len()], previous[..]);
        assert_eq!(*g.guessed.last().unwrap(), c);
        previous = g.guessed.clone();
    }
    assert_eq!(g.guessed, previous);
    assert_eq!(g.guessed.len(), 7);
}

#[test]
fn guess_non_ascii_letters() {
    let mut g = Guesser::new_from_dict(&["éte", "été"], 3);
    // 'é' occurs three times.
    assert_eq!(g.guess(), Some('é'));
    assert_eq!(g.guess(), Some('t'));
    assert_eq!(g.guess(), Some('e'));
}

#[test]
fn win_iff_all_slots_known() {
    let mut g = Guesser::new_from_dict(&["cat"], 3);
    assert!(!g.win());
    g.word = vec![Some('c'), None, Some('t')];
    assert!(!g.win());
    g.word = vec![Some('c'), Some('a'), Some('t')];
    assert!(g.win());
}

#[test]
fn wrong_counts_unrevealed_guesses() {
    let mut g = Guesser::new_from_dict(&["cat"], 3);
    assert_eq!(g.wrong(), 0);
    g.guessed = vec!['e', 'a', 's', 't', 'z'];
    g.word = vec![None, Some('a'), Some('t')];
    assert_eq!(g.wrong(), 3);
    g.word = vec![None, None, None];
    assert_eq!(g.wrong(), 5);
}

#[test]
fn full_game_reaches_a_win() {
    let dict = ["cat", "car", "can", "dog", "cow"];
    let secret = "cow";
    let mut g = Guesser::new_from_dict(&dict, 3);
    let mut rounds = 0;
    while !g.win() {
        g.elim();
        let c = g.guess().expect("a letter is open");
        assert!(g.guessed.contains(&c));
        g.word = secret
            .chars()
            .map(|s| if g.guessed.contains(&s) { Some(s) } else { None })
            .collect();
        rounds += 1;
        assert!(rounds <= 10);
    }
    assert_eq!(g.word, vec![Some('c'), Some('o'), Some('w')]);
    assert_eq!(g.remaining_words, vec!["cow"]);
}
