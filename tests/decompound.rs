use decompound::{decompound, DecompositionError, DecompositionOptions};

fn owned(words: &[&str]) -> Vec<String> {
    words.iter().map(|w| w.to_string()).collect()
}

fn run(word: &str, words: &[&str], options: DecompositionOptions) -> Result<Vec<String>, DecompositionError> {
    decompound(word, &|w: &str| words.contains(&w), options)
}

fn tc() -> DecompositionOptions {
    DecompositionOptions::try_titlecase_suffix()
}

fn hy() -> DecompositionOptions {
    DecompositionOptions::split_hyphenated()
}

fn sh() -> DecompositionOptions {
    DecompositionOptions::shatter()
}

fn none() -> DecompositionOptions {
    DecompositionOptions::empty()
}

fn every() -> DecompositionOptions {
    DecompositionOptions::all()
}

const ABC: &[&str] = &["A", "B", "C"];

#[test]
fn two_letters_split() {
    assert_eq!(run("AB", ABC, none()), Ok(owned(&["A", "B"])));
}

#[test]
fn lowercase_suffix_titlecased() {
    assert_eq!(run("Ab", ABC, tc()), Ok(owned(&["A", "B"])));
    assert_eq!(run("Ab", ABC, none()), Err(DecompositionError::NothingValid));
}

#[test]
fn hyphenated_parts_are_constituents() {
    let words = &["self", "esteem"];
    assert_eq!(run("self-esteem", words, hy()), Ok(owned(&["self", "esteem"])));
    assert_eq!(run("self-esteem", words, none()), Err(DecompositionError::NothingValid));
}

#[test]
fn hyphenated_word_valid_as_a_whole() {
    let words = &["self", "esteem", "self-esteem"];
    assert_eq!(
        run("self-esteem", words, none()),
        Err(DecompositionError::SingleWord("self-esteem".to_string()))
    );
    assert_eq!(
        run("self-esteem", words, tc()),
        Err(DecompositionError::SingleWord("self-esteem".to_string()))
    );
    assert_eq!(run("self-esteem", words, hy()), Ok(owned(&["self", "esteem"])));
    assert_eq!(run("self-esteem", words, every()), Ok(owned(&["self", "esteem"])));
}

#[test]
fn hyphenated_word_only_whole_in_list() {
    let words = &["self-esteem"];
    assert_eq!(run("self-esteem", words, hy()), Err(DecompositionError::NothingValid));
    assert_eq!(run("self-esteem", words, every()), Err(DecompositionError::NothingValid));
}

#[test]
fn case_sensitive_suffix() {
    let words = &["Haus", "Boot"];
    assert_eq!(run("Hausboot", words, none()), Err(DecompositionError::NothingValid));
    assert_eq!(run("Hausboot", words, tc()), Ok(owned(&["Haus", "Boot"])));
}

#[test]
fn split_preferred_over_single_word() {
    let words = &["foot", "ball", "football"];
    for options in [none(), tc(), hy(), sh(), every()] {
        assert_eq!(run("football", words, options), Ok(owned(&["foot", "ball"])));
    }
}

#[test]
fn empty_predicate_finds_nothing() {
    let words: &[&str] = &[];
    for options in [none(), tc(), hy(), sh(), every()] {
        assert_eq!(run("word", words, options), Err(DecompositionError::NothingValid));
        assert_eq!(run("", words, options), Err(DecompositionError::NothingValid));
    }
}

#[test]
fn single_letters() {
    for options in [none(), tc(), hy(), every()] {
        assert_eq!(run("A", ABC, options), Err(DecompositionError::SingleWord("A".to_string())));
        assert_eq!(run("AA", ABC, options), Ok(owned(&["A", "A"])));
        assert_eq!(run("AAA", ABC, options), Ok(owned(&["A", "A", "A"])));
        assert_eq!(run("ABC", ABC, options), Ok(owned(&["A", "B", "C"])));
        assert_eq!(run("a", ABC, options), Err(DecompositionError::NothingValid));
        assert_eq!(run("ab", ABC, options), Err(DecompositionError::NothingValid));
        assert_eq!(run("aB", ABC, options), Err(DecompositionError::NothingValid));
    }
}

#[test]
fn titlecase_only_on_suffixes() {
    assert_eq!(run("Aa", ABC, none()), Err(DecompositionError::NothingValid));
    assert_eq!(run("Aa", ABC, hy()), Err(DecompositionError::NothingValid));
    assert_eq!(run("Aa", ABC, tc()), Ok(owned(&["A", "A"])));
    assert_eq!(run("AaAa", ABC, tc()), Ok(owned(&["A", "A", "A", "A"])));
    assert_eq!(run("Abc", ABC, every()), Ok(owned(&["A", "B", "C"])));
    assert_eq!(run("ABc", ABC, tc()), Ok(owned(&["A", "B", "C"])));
    assert_eq!(run("AbC", ABC, tc()), Ok(owned(&["A", "B", "C"])));
    assert_eq!(run("AbC", ABC, none()), Err(DecompositionError::NothingValid));
}

#[test]
fn german_compounds() {
    let words = &["Süßwasser", "schwimm", "Bäder"];
    assert_eq!(run("Süßwasserschwimmbäder", words, none()), Err(DecompositionError::NothingValid));
    assert_eq!(
        run("Süßwasserschwimmbäder", words, tc()),
        Ok(owned(&["Süßwasser", "schwimm", "Bäder"]))
    );
    assert_eq!(
        run("Süßwasserbäderbäder", words, every()),
        Ok(owned(&["Süßwasser", "Bäder", "Bäder"]))
    );
    assert_eq!(run("süßwasserschwimmbäder", words, every()), Err(DecompositionError::NothingValid));
    assert_eq!(run("Süßwasserfisch", words, every()), Err(DecompositionError::NothingValid));
    assert_eq!(
        run("Bäder", words, every()),
        Err(DecompositionError::SingleWord("Bäder".to_string()))
    );
    assert_eq!(run("bäder", words, every()), Err(DecompositionError::NothingValid));
}

#[test]
fn german_word_already_in_dictionary() {
    let words = &["Fuß", "Ball", "Fußball", "Fern", "sehen", "Fernsehen", "hell"];
    assert_eq!(
        run("Fußball", words, none()),
        Err(DecompositionError::SingleWord("Fußball".to_string()))
    );
    assert_eq!(
        run("Fußball", words, hy()),
        Err(DecompositionError::SingleWord("Fußball".to_string()))
    );
    assert_eq!(run("Fußball", words, tc()), Ok(owned(&["Fuß", "Ball"])));
    assert_eq!(run("Fernsehen", words, none()), Ok(owned(&["Fern", "sehen"])));
    assert_eq!(run("Fernsehen", words, every()), Ok(owned(&["Fern", "sehen"])));
    assert_eq!(run("Hellsehen", words, every()), Err(DecompositionError::NothingValid));
}

#[test]
fn german_hyphenated_compounds() {
    let words = &[
        "Küchen", "Fühler", "Tiger", "Tür", "Angel", "Gerät", "Prüfer", "Schwing", "Schleifer",
        "Überlast", "Schutz", "hören",
    ];
    assert_eq!(run("Küchenfühler-Tiger", words, hy()), Err(DecompositionError::NothingValid));
    assert_eq!(run("Küchenfühler-Tiger", words, tc()), Err(DecompositionError::NothingValid));
    assert_eq!(
        run("Küchenfühler-Tiger", words, every()),
        Ok(owned(&["Küchen", "Fühler", "Tiger"]))
    );
    assert_eq!(
        run("Türangel-Gerätprüfer", words, every()),
        Ok(owned(&["Tür", "Angel", "Gerät", "Prüfer"]))
    );
    assert_eq!(
        run("Schwingschleifer-Überlast-Schutzhören", words, every()),
        Ok(owned(&["Schwing", "Schleifer", "Überlast", "Schutz", "hören"]))
    );
}

#[test]
fn hyphenated_all_constituents() {
    let words = &["room", "bed", "super", "hero", "in", "side"];
    assert_eq!(
        run("bedroom-superhero-inside", words, none()),
        Err(DecompositionError::NothingValid)
    );
    assert_eq!(
        run("bedroom-superhero-inside", words, hy()),
        Ok(owned(&["bed", "room", "super", "hero", "in", "side"]))
    );
}

#[test]
fn hyphenated_invalid_part_fails_all() {
    let words = &["room", "bed"];
    assert_eq!(run("bedroom-error", words, hy()), Err(DecompositionError::NothingValid));
}

#[test]
fn hyphen_edges_are_empty_parts() {
    let words = &["a", "b"];
    assert_eq!(run("a-", words, hy()), Err(DecompositionError::NothingValid));
    assert_eq!(run("a--b", words, hy()), Err(DecompositionError::NothingValid));
    let with_empty = &["a", "b", ""];
    assert_eq!(run("a-", with_empty, hy()), Ok(owned(&["a", ""])));
    assert_eq!(run("-", with_empty, hy()), Ok(owned(&["", ""])));
    assert_eq!(run("", with_empty, hy()), Err(DecompositionError::SingleWord(String::new())));
}

#[test]
fn hyphenated_single_part_is_single_word() {
    let words = &["ab"];
    assert_eq!(run("ab", words, hy()), Err(DecompositionError::SingleWord("ab".to_string())));
}

#[test]
fn shatter_prefers_most_constituents() {
    let words = &["Entnahme", "Stelle", "Elle", "St"];
    assert_eq!(run("Entnahmestelle", words, tc()), Ok(owned(&["Entnahme", "Stelle"])));
    assert_eq!(
        run("Entnahmestelle", words, tc() | sh()),
        Ok(owned(&["Entnahme", "St", "Elle"]))
    );
}

#[test]
fn shatter_not_greedy() {
    let words = &["Empfänger", "Empfängers", "Station", "tat", "Ion"];
    assert_eq!(run("Empfängerstation", words, tc()), Ok(owned(&["Empfänger", "Station"])));
    assert_eq!(
        run("Empfängerstation", words, tc() | sh()),
        Ok(owned(&["Empfängers", "tat", "Ion"]))
    );
}

#[test]
fn ties_go_to_first_found() {
    let ascii = |w: &str| !w.is_empty() && w.chars().all(|c| c.is_ascii_alphabetic());
    assert_eq!(decompound("football", &ascii, none()), Ok(owned(&["f", "ootball"])));
    // Candidates come in code point order: the titlecased one first.
    assert_eq!(decompound("football", &ascii, tc()), Ok(owned(&["f", "Ootball"])));
    assert_eq!(
        decompound("football", &ascii, sh()),
        Ok(owned(&["f", "o", "o", "t", "b", "a", "l", "l"]))
    );
    let ab = &["a", "b", "ab", "ba"];
    // [a, ba] and [ab, a] have two constituents; [a, b, a] has three.
    assert_eq!(run("aba", ab, none()), Ok(owned(&["a", "ba"])));
    assert_eq!(run("aba", ab, sh()), Ok(owned(&["a", "b", "a"])));
}

#[test]
fn any_character_splits() {
    let anything = |_: &str| true;
    for options in [none(), tc(), hy(), every()] {
        assert_eq!(decompound("🦀🦀", &anything, options), Ok(owned(&["🦀", "🦀"])));
        assert_eq!(
            decompound("🦀", &anything, options),
            Err(DecompositionError::SingleWord("🦀".to_string()))
        );
        assert_eq!(
            decompound("\n", &anything, options),
            Err(DecompositionError::SingleWord("\n".to_string()))
        );
        assert_eq!(
            decompound("", &anything, options),
            Err(DecompositionError::SingleWord(String::new()))
        );
        assert_eq!(decompound("中文", &anything, options), Ok(owned(&["中", "文"])));
    }
    for options in [none(), tc(), hy()] {
        assert_eq!(decompound("日本語", &anything, options), Ok(owned(&["日", "本語"])));
    }
    assert_eq!(decompound("日本語", &anything, every()), Ok(owned(&["日", "本", "語"])));
}

#[test]
fn titlecase_expanding_character() {
    // 'ß' titlecases to "Ss": a longer candidate is tested but not split further.
    let words = &["a", "Ss"];
    assert_eq!(run("aß", words, tc()), Ok(owned(&["a", "Ss"])));
    assert_eq!(run("aß", words, none()), Err(DecompositionError::NothingValid));
}

#[test]
fn concatenation_spells_word() {
    let words = &["Küchen", "fühler", "Tiger", "Kü", "chen"];
    for options in [none(), sh(), hy(), hy() | sh()] {
        if let Ok(parts) = run("Küchenfühler-Tiger", words, options) {
            assert_eq!(parts.concat(), "KüchenfühlerTiger");
        }
        if let Ok(parts) = run("Küchenfühler", words, options) {
            assert_eq!(parts.concat(), "Küchenfühler");
        }
    }
    assert_eq!(
        run("Küchenfühler-Tiger", words, hy() | sh()),
        Ok(owned(&["Kü", "chen", "fühler", "Tiger"]))
    );
}

#[test]
fn constituents_are_valid() {
    let words = &["Haus", "Boot", "Bootshaus", "Boots", "haus", "Haus"];
    for options in [none(), tc(), sh(), every()] {
        if let Ok(parts) = run("Hausbootshaus", words, options) {
            assert!(parts.iter().all(|p| words.contains(&p.as_str())));
        }
    }
    assert_eq!(run("Hausbootshaus", words, tc() | sh()), Ok(owned(&["Haus", "Boots", "Haus"])));
}

#[test]
fn valid_word_without_split_is_single() {
    let words = &["Haus", "Hausboot"];
    for options in [none(), tc(), hy(), sh(), every()] {
        assert_eq!(
            run("Hausboot", words, options),
            Err(DecompositionError::SingleWord("Hausboot".to_string()))
        );
    }
}

#[test]
fn titlecase_never_breaks_a_split() {
    let words = &["foot", "ball", "Ball", "cup", "cake"];
    for word in ["football", "cupcake", "footBall", "cupball"] {
        for base in [none(), hy(), sh()] {
            let plain = run(word, words, base);
            let titled = run(word, words, base | tc());
            if plain.is_ok() {
                assert!(titled.is_ok());
            }
        }
    }
}

#[test]
fn shatter_is_strictly_longer() {
    let words = &["a", "b", "ab", "ba"];
    let few = run("abab", words, none()).unwrap();
    let many = run("abab", words, sh()).unwrap();
    assert_eq!(few, owned(&["ab", "ab"]));
    assert_eq!(many, owned(&["a", "b", "a", "b"]));
    assert!(many.len() > few.len());
}

#[test]
fn option_set_operations() {
    let both = tc() | sh();
    assert!(both.contains(tc()));
    assert!(both.contains(sh()));
    assert!(!both.contains(hy()));
    assert_eq!(both - sh(), tc());
    assert_eq!(every() - hy(), tc().union(sh()));
    assert_eq!(every().difference(every()), none());
    assert!(none().is_empty());
    assert!(!every().is_empty());
    assert!(every().contains(none()));
}

#[test]
fn error_messages() {
    assert_eq!(
        DecompositionError::SingleWord("Haus".to_string()).message(),
        "Not a compound, but valid single word: Haus"
    );
    assert_eq!(DecompositionError::NothingValid.message(), "No valid decomposition found");
}
