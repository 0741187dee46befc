use vstd::prelude::*;

use crate::hyphen::{
    hyphen_parts, lemma_concat_append, lemma_concat_single, lemma_hyphen_parts, split_hyphens,
    strip_hyphens,
};
use crate::options::DecompositionOptions;
use crate::policy::{pick, select_split};
use crate::predicate::{accepts, ask, callable, computes};
use crate::search::{compound_splits, concat, sound_split, splits, splits_view, words_view};

verus! {

/// Error cases for the result of `decompound`.
#[derive(Clone, Debug, PartialEq, Eq, PartialOrd, Ord)]
pub enum DecompositionError {
    /// The word is not a compound, but a valid single word. In any case
    /// decomposition failed, but the word is handed back for further processing.
    SingleWord(String),
    /// Nothing valid was found: neither a compound word nor a single word.
    NothingValid,
}

impl DecompositionError {
    /// A sentence that describes the error.
    pub fn message(&self) -> (r: String)
        ensures
            self matches DecompositionError::SingleWord(w) ==> r@
                == "Not a compound, but valid single word: "@ + w@,
            self is NothingValid ==> r@ == "No valid decomposition found"@,
    {
        match self {
            DecompositionError::SingleWord(w) => {
                String::from_str("Not a compound, but valid single word: ").concat(w.as_str())
            },
            DecompositionError::NothingValid => String::from_str("No valid decomposition found"),
        }
    }
}

/// The result of `decompound`: the constituents, or why there are none.
pub type DecompositionResult = Result<Vec<String>, DecompositionError>;

/// What a decomposition comes to, over views.
pub ghost enum Outcome {
    /// These constituents, in order.
    Split(Seq<Seq<char>>),
    /// Not a compound, but this valid single word.
    Single(Seq<char>),
    /// Nothing valid.
    Nothing,
}

/// The outcome that a result stands for.
pub open spec fn outcome_of(r: DecompositionResult) -> Outcome {
    match r {
        Ok(v) => Outcome::Split(words_view(v@)),
        Err(DecompositionError::SingleWord(s)) => Outcome::Single(s@),
        Err(DecompositionError::NothingValid) => Outcome::Nothing,
    }
}

/// The partition of `w` that the selection policy takes among all that the
/// compound search finds.
pub open spec fn chosen(
    valid: spec_fn(Seq<char>) -> bool,
    titlecase: bool,
    shatter: bool,
    w: Seq<char>,
) -> Seq<Seq<char>> {
    let ps = splits(valid, titlecase, w);
    ps[pick(ps, shatter)]
}

/// The outcome for one word without hyphen splitting: the chosen partition where
/// the search finds one, else the word itself where it is valid.
pub open spec fn word_outcome(
    valid: spec_fn(Seq<char>) -> bool,
    titlecase: bool,
    shatter: bool,
    w: Seq<char>,
) -> Outcome {
    if splits(valid, titlecase, w).len() > 0 {
        Outcome::Split(chosen(valid, titlecase, shatter, w))
    } else if valid(w) {
        Outcome::Single(w)
    } else {
        Outcome::Nothing
    }
}

/// The constituents that the hyphen-separated `parts` give together, or `None`
/// where one of them is not valid at all.
pub open spec fn collect(
    valid: spec_fn(Seq<char>) -> bool,
    titlecase: bool,
    shatter: bool,
    parts: Seq<Seq<char>>,
) -> Option<Seq<Seq<char>>>
    decreases parts.len(),
{
    if parts.len() == 0 {
        Some(Seq::empty())
    } else {
        match collect(valid, titlecase, shatter, parts.drop_last()) {
            None => None,
            Some(acc) => match word_outcome(valid, titlecase, shatter, parts.last()) {
                Outcome::Split(cs) => Some(acc + cs),
                Outcome::Single(x) => Some(acc.push(x)),
                Outcome::Nothing => None,
            },
        }
    }
}

/// The outcome of decomposing `w` with `options` where `valid` tells single words.
pub open spec fn outcome(
    valid: spec_fn(Seq<char>) -> bool,
    w: Seq<char>,
    options: DecompositionOptions,
) -> Outcome {
    let titlecase = options.try_titlecase_suffix;
    let shatter = options.shatter;
    if options.split_hyphenated {
        let c = collect(valid, titlecase, shatter, hyphen_parts(w));
        if c is None || c->0.len() == 0 {
            Outcome::Nothing
        } else if c->0.len() == 1 {
            Outcome::Single(w)
        } else {
            Outcome::Split(c->0)
        }
    } else {
        word_outcome(valid, titlecase, shatter, w)
    }
}

/// What holds of a result for `w` whatever the predicate: constituents as
/// `sound_split` says, and a single word that is `w` itself and accepted.
pub open spec fn sound_result<F: Fn(&str) -> bool>(
    f: &F,
    titlecase: bool,
    w: Seq<char>,
    r: DecompositionResult,
) -> bool {
    match r {
        Ok(v) => sound_split(f, titlecase, w, words_view(v@)),
        Err(DecompositionError::SingleWord(s)) => s@ == w && accepts(f, w),
        Err(DecompositionError::NothingValid) => true,
    }
}

proof fn lemma_collect_abort(
    valid: spec_fn(Seq<char>) -> bool,
    titlecase: bool,
    shatter: bool,
    parts: Seq<Seq<char>>,
    k: int,
)
    requires
        0 <= k <= parts.len(),
        collect(valid, titlecase, shatter, parts.subrange(0, k)) is None,
    ensures
        collect(valid, titlecase, shatter, parts) is None,
    decreases parts.len() - k,
{
    if k < parts.len() {
        assert(parts.subrange(0, k + 1).drop_last() =~= parts.subrange(0, k));
        lemma_collect_abort(valid, titlecase, shatter, parts, k + 1);
    } else {
        assert(parts.subrange(0, k) =~= parts);
    }
}

/// Whether `word` is a compound of valid words. Where it is, the partition that
/// the selection policy takes is appended to `constituents`.
fn is_valid_compound_word<F: Fn(&str) -> bool>(
    word: &str,
    is_valid_single_word: &F,
    options: DecompositionOptions,
    constituents: &mut Vec<String>,
) -> (r: bool)
    requires
        callable(is_valid_single_word),
    ensures
        forall|valid: spec_fn(Seq<char>) -> bool| #[trigger]
            computes(is_valid_single_word, valid) ==> r == (splits(
                valid,
                options.try_titlecase_suffix,
                word@,
            ).len() > 0),
        forall|valid: spec_fn(Seq<char>) -> bool| #[trigger]
            computes(is_valid_single_word, valid) && r ==> words_view(final(constituents)@)
                == words_view(old(constituents)@) + chosen(
                valid,
                options.try_titlecase_suffix,
                options.shatter,
                word@,
            ),
        !r ==> final(constituents)@ == old(constituents)@,
        r ==> final(constituents)@.len() >= old(constituents)@.len(),
        r ==> final(constituents)@.subrange(0, old(constituents)@.len() as int) == old(constituents)@,
        r ==> sound_split(
            is_valid_single_word,
            options.try_titlecase_suffix,
            word@,
            words_view(final(constituents)@).subrange(
                old(constituents)@.len() as int,
                final(constituents)@.len() as int,
            ),
        ),
{
    let all = compound_splits(word, is_valid_single_word, options.try_titlecase_suffix);
    if all.len() == 0 {
        return false;
    }
    let k = select_split(&all, options.shatter);
    let part = &all[k];
    let ghost init = constituents@;
    let ghost q = splits_view(all@)[k as int];
    proof {
        assert(q == words_view(part@));
    }
    let mut t: usize = 0;
    while t < part.len()
        invariant
            t <= part.len(),
            q == words_view(part@),
            constituents@.len() == init.len() + t,
            constituents@.subrange(0, init.len() as int) == init,
            words_view(constituents@) == words_view(init) + q.subrange(0, t as int),
        decreases part.len() - t,
    {
        let ghost before = constituents@;
        constituents.push(part[t].clone());
        proof {
            assert(constituents@.subrange(0, init.len() as int) =~= before.subrange(0, init.len() as int));
            assert(words_view(constituents@) =~= words_view(before).push(q[t as int]));
            assert(q.subrange(0, t + 1) =~= q.subrange(0, t as int).push(q[t as int]));
        }
        t += 1;
    }
    proof {
        assert(q.subrange(0, t as int) =~= q);
        assert(words_view(constituents@).subrange(init.len() as int, constituents@.len() as int) =~= q);
        assert forall|valid: spec_fn(Seq<char>) -> bool| #[trigger]
            computes(is_valid_single_word, valid) implies words_view(constituents@) == words_view(init)
            + chosen(valid, options.try_titlecase_suffix, options.shatter, word@) by {
            assert(splits_view(all@) == splits(valid, options.try_titlecase_suffix, word@));
        }
    }
    true
}

/// Decomposes one word without hyphen splitting: into the chosen partition where
/// the compound search finds one, else into the word itself where it is valid.
fn decompose_word<F: Fn(&str) -> bool>(
    word: &str,
    is_valid_single_word: &F,
    options: DecompositionOptions,
) -> (r: DecompositionResult)
    requires
        callable(is_valid_single_word),
    ensures
        forall|valid: spec_fn(Seq<char>) -> bool| #[trigger]
            computes(is_valid_single_word, valid) ==> outcome_of(r) == word_outcome(
            valid,
            options.try_titlecase_suffix,
            options.shatter,
            word@,
        ),
        sound_result(is_valid_single_word, options.try_titlecase_suffix, word@, r),
{
    let mut constituents: Vec<String> = Vec::new();
    if is_valid_compound_word(word, is_valid_single_word, options, &mut constituents) {
        proof {
            assert(words_view(constituents@).subrange(0, constituents@.len() as int) =~= words_view(
                constituents@,
            ));
            assert(words_view(Seq::<String>::empty()) =~= Seq::<Seq<char>>::empty());
            assert(Seq::<Seq<char>>::empty() + words_view(constituents@) =~= words_view(constituents@));
        }
        Ok(constituents)
    } else if ask(is_valid_single_word, word) {
        Err(DecompositionError::SingleWord(word.to_owned()))
    } else {
        Err(DecompositionError::NothingValid)
    }
}

/// Decomposes `word` into its constituents, each of which `is_valid_single_word`
/// accepts.
///
/// Without `split_hyphenated`, every split point of the word is tried, every
/// partition into two or more valid constituents is found, and the one with the
/// fewest constituents is taken (the most, with `shatter`; the first found on a
/// tie). Where there is none, the word is a `SingleWord` if it is valid itself,
/// else `NothingValid`.
///
/// With `split_hyphenated`, each part between hyphens is decomposed on its own;
/// a part that is a single word stands as one constituent, and a part with nothing
/// valid makes the whole word `NothingValid`.
///
/// Where the predicate computes some `valid` over the characters of a string, the
/// result is exactly the one `outcome` describes for `valid`. Whatever it answers,
/// the result has the shape that `sound_result` describes.
pub fn decompound<F: Fn(&str) -> bool>(
    word: &str,
    is_valid_single_word: &F,
    options: DecompositionOptions,
) -> (r: DecompositionResult)
    requires
        callable(is_valid_single_word),
    ensures
        forall|valid: spec_fn(Seq<char>) -> bool| #[trigger]
            computes(is_valid_single_word, valid) ==> outcome_of(r) == outcome(
            valid,
            word@,
            options,
        ),
        sound_result(
            is_valid_single_word,
            options.try_titlecase_suffix,
            if options.split_hyphenated {
                strip_hyphens(word@)
            } else {
                word@
            },
            r,
        ),
        r matches Err(DecompositionError::SingleWord(s)) ==> s@ == word@,
{
    if !options.split_hyphenated {
        return decompose_word(word, is_valid_single_word, options);
    }
    let ghost titlecase = options.try_titlecase_suffix;
    let ghost shatter = options.shatter;
    // Hyphens are not split again inside the parts.
    let inner = options - DecompositionOptions::split_hyphenated();
    let parts = split_hyphens(word);
    let ghost ps = parts@.map_values(|s: &str| s@);
    proof {
        lemma_hyphen_parts(word@);
        assert(ps.subrange(0, 0) =~= Seq::<Seq<char>>::empty());
        assert(words_view(Seq::<String>::empty()) =~= Seq::<Seq<char>>::empty());
    }
    let mut constituents: Vec<String> = Vec::new();
    let mut k: usize = 0;
    while k < parts.len()
        invariant
            callable(is_valid_single_word),
            titlecase == inner.try_titlecase_suffix,
            shatter == inner.shatter,
            titlecase == options.try_titlecase_suffix,
            shatter == options.shatter,
            options.split_hyphenated,
            ps == parts@.map_values(|s: &str| s@),
            ps == hyphen_parts(word@),
            k <= parts.len(),
            constituents.len() >= k,
            k >= 1 && constituents.len() == 1 ==> k == 1 && words_view(constituents@) == seq![ps[0]],
            forall|valid: spec_fn(Seq<char>) -> bool| #[trigger]
                computes(is_valid_single_word, valid) ==> collect(valid, titlecase, shatter, ps.subrange(0, k as int))
                    == Some(words_view(constituents@)),
            forall|t: int|
                0 <= t < constituents.len() ==> accepts(
                    is_valid_single_word,
                    #[trigger] words_view(constituents@)[t],
                ),
            !titlecase ==> concat(words_view(constituents@)) == concat(ps.subrange(0, k as int)),
        decreases parts.len() - k,
    {
        let part = parts[k];
        let ghost before = words_view(constituents@);
        let ghost head = ps.subrange(0, k + 1);
        proof {
            assert(head.drop_last() =~= ps.subrange(0, k as int));
            assert(head.last() == part@);
            assert(head =~= ps.subrange(0, k as int) + seq![part@]);
            lemma_concat_append(ps.subrange(0, k as int), seq![part@]);
            lemma_concat_single(part@);
        }
        match decompose_word(part, is_valid_single_word, inner) {
            Ok(mut words) => {
                let ghost added = words_view(words@);
                constituents.append(&mut words);
                proof {
                    assert(words_view(constituents@) =~= before + added);
                    lemma_concat_append(before, added);
                    assert forall|t: int|
                        0 <= t < constituents.len() implies accepts(
                        is_valid_single_word,
                        #[trigger] words_view(constituents@)[t],
                    ) by {
                        if t >= before.len() {
                            assert(words_view(constituents@)[t] == added[t - before.len()]);
                        } else {
                            assert(words_view(constituents@)[t] == before[t]);
                        }
                    }
                }
            },
            Err(DecompositionError::SingleWord(w)) => {
                constituents.push(w);
                proof {
                    assert(words_view(constituents@) =~= before.push(part@));
                    assert(before.push(part@) =~= before + seq![part@]);
                    lemma_concat_append(before, seq![part@]);
                    assert forall|t: int|
                        0 <= t < constituents.len() implies accepts(
                        is_valid_single_word,
                        #[trigger] words_view(constituents@)[t],
                    ) by {
                        if t < before.len() {
                            assert(words_view(constituents@)[t] == before[t]);
                        }
                    }
                    if constituents.len() == 1 {
                        assert(words_view(constituents@) =~= seq![ps[0]]);
                    }
                }
            },
            Err(DecompositionError::NothingValid) => {
                proof {
                    assert forall|valid: spec_fn(Seq<char>) -> bool| #[trigger]
                        computes(is_valid_single_word, valid) implies collect(valid, titlecase, shatter, ps) is None by {
                        assert(word_outcome(valid, titlecase, shatter, part@) == Outcome::Nothing);
                        assert(collect(valid, titlecase, shatter, head) is None);
                        lemma_collect_abort(valid, titlecase, shatter, ps, k + 1);
                    }
                }
                return Err(DecompositionError::NothingValid);
            },
        }
        k += 1;
    }
    proof {
        assert(ps.subrange(0, k as int) =~= ps);
    }
    if constituents.len() == 0 {
        Err(DecompositionError::NothingValid)
    } else if constituents.len() == 1 {
        proof {
            assert(ps =~= seq![word@]);
            assert(words_view(constituents@)[0] == word@);
            lemma_concat_single(word@);
        }
        Err(DecompositionError::SingleWord(word.to_owned()))
    } else {
        Ok(constituents)
    }
}

} // verus!
