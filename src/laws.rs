use vstd::prelude::*;

use crate::casing::candidates;
use crate::decompose::{collect, outcome, word_outcome, Outcome};
use crate::hyphen::{hyphen_parts, lemma_concat_append, lemma_concat_single, lemma_hyphen_parts, strip_hyphens};
use crate::options::DecompositionOptions;
use crate::policy::{lemma_pick, pick};
use crate::search::{concat, extend, gather, lemma_concat_pair, lemma_concat_prepend, splits, splits_from};

verus! {

/// A partition of `w` as the search must find it: two or more constituents, each
/// valid, which spell `w` where suffixes are not titlecased.
pub open spec fn valid_partition(
    valid: spec_fn(Seq<char>) -> bool,
    titlecase: bool,
    w: Seq<char>,
    q: Seq<Seq<char>>,
) -> bool {
    &&& q.len() >= 2
    &&& forall|k: int| 0 <= k < q.len() ==> valid(#[trigger] q[k])
    &&& !titlecase ==> concat(q) == w
}

proof fn lemma_extend_valid(
    valid: spec_fn(Seq<char>) -> bool,
    titlecase: bool,
    w: Seq<char>,
    p: Seq<char>,
    c: Seq<char>,
)
    requires
        valid(p),
        !titlecase ==> p + c == w,
    ensures
        forall|t: int|
            0 <= t < extend(valid, titlecase, w, p, c).len() ==> valid_partition(
                valid,
                titlecase,
                w,
                #[trigger] extend(valid, titlecase, w, p, c)[t],
            ),
    decreases w.len(), 0int, 1int,
{
    let whole: Seq<Seq<Seq<char>>> = if valid(c) {
        seq![seq![p, c]]
    } else {
        seq![]
    };
    let deeper: Seq<Seq<Seq<char>>> = if c.len() < w.len() {
        splits_from(valid, titlecase, c, 1).map_values(|q: Seq<Seq<char>>| seq![p] + q)
    } else {
        seq![]
    };
    assert(extend(valid, titlecase, w, p, c) == whole + deeper);
    if c.len() < w.len() {
        lemma_splits_from_valid(valid, titlecase, c, 1);
    }
    assert forall|t: int|
        0 <= t < extend(valid, titlecase, w, p, c).len() implies valid_partition(
        valid,
        titlecase,
        w,
        #[trigger] extend(valid, titlecase, w, p, c)[t],
    ) by {
        if t < whole.len() {
            let q = seq![p, c];
            assert(whole[t] == q);
            assert(q[0] == p && q[1] == c);
            lemma_concat_pair(p, c);
        } else {
            let r = splits_from(valid, titlecase, c, 1)[t - whole.len()];
            let q = seq![p] + r;
            assert(deeper[t - whole.len()] == q);
            assert(valid_partition(valid, titlecase, c, r));
            assert forall|k: int| 0 <= k < q.len() implies valid(#[trigger] q[k]) by {
                if k > 0 {
                    assert(q[k] == r[k - 1]);
                }
            }
            lemma_concat_prepend(p, r);
        }
    }
}

proof fn lemma_gather_valid(
    valid: spec_fn(Seq<char>) -> bool,
    titlecase: bool,
    w: Seq<char>,
    p: Seq<char>,
    cs: Seq<Seq<char>>,
    j: int,
)
    requires
        valid(p),
        forall|m: int| 0 <= m < cs.len() ==> (!titlecase ==> p + #[trigger] cs[m] == w),
    ensures
        forall|t: int|
            0 <= t < gather(valid, titlecase, w, p, cs, j).len() ==> valid_partition(
                valid,
                titlecase,
                w,
                #[trigger] gather(valid, titlecase, w, p, cs, j)[t],
            ),
    decreases w.len(), 0int, 2 + cs.len() - j,
{
    if 0 <= j < cs.len() {
        let a = extend(valid, titlecase, w, p, cs[j]);
        let b = gather(valid, titlecase, w, p, cs, j + 1);
        assert(!titlecase ==> p + cs[j] == w);
        lemma_extend_valid(valid, titlecase, w, p, cs[j]);
        lemma_gather_valid(valid, titlecase, w, p, cs, j + 1);
        assert forall|t: int| 0 <= t < (a + b).len() implies valid_partition(
            valid,
            titlecase,
            w,
            #[trigger] (a + b)[t],
        ) by {
            if t < a.len() {
                assert((a + b)[t] == a[t]);
            } else {
                assert((a + b)[t] == b[t - a.len()]);
            }
        }
    }
}

/// Every partition that the split points `i..` of `w` yield is a valid partition.
pub proof fn lemma_splits_from_valid(
    valid: spec_fn(Seq<char>) -> bool,
    titlecase: bool,
    w: Seq<char>,
    i: int,
)
    ensures
        forall|t: int|
            0 <= t < splits_from(valid, titlecase, w, i).len() ==> valid_partition(
                valid,
                titlecase,
                w,
                #[trigger] splits_from(valid, titlecase, w, i)[t],
            ),
    decreases w.len(), w.len() - i, 0int,
{
    if 0 < i < w.len() {
        let p = w.subrange(0, i);
        let s = w.subrange(i, w.len() as int);
        let cs = candidates(s, titlecase);
        let here = if valid(p) {
            gather(valid, titlecase, w, p, cs, 0)
        } else {
            seq![]
        };
        let rest = splits_from(valid, titlecase, w, i + 1);
        if valid(p) {
            assert(w =~= p + s);
            assert forall|m: int| 0 <= m < cs.len() && !titlecase implies p + #[trigger] cs[m] == w by {
                if !titlecase {
                    assert(cs =~= seq![s]);
                }
            }
            lemma_gather_valid(valid, titlecase, w, p, cs, 0);
        }
        lemma_splits_from_valid(valid, titlecase, w, i + 1);
        assert forall|t: int| 0 <= t < (here + rest).len() implies valid_partition(
            valid,
            titlecase,
            w,
            #[trigger] (here + rest)[t],
        ) by {
            if t < here.len() {
                assert((here + rest)[t] == here[t]);
            } else {
                assert((here + rest)[t] == rest[t - here.len()]);
            }
        }
    }
}

/// The outcome for one word: a chosen partition is valid, and a single word is the
/// word itself, valid.
pub proof fn lemma_word_outcome(
    valid: spec_fn(Seq<char>) -> bool,
    titlecase: bool,
    shatter: bool,
    w: Seq<char>,
)
    ensures
        word_outcome(valid, titlecase, shatter, w) matches Outcome::Split(cs) ==> valid_partition(
            valid,
            titlecase,
            w,
            cs,
        ),
        word_outcome(valid, titlecase, shatter, w) matches Outcome::Single(x) ==> x == w && valid(w),
{
    let ps = splits(valid, titlecase, w);
    if ps.len() > 0 {
        lemma_pick(ps, shatter);
        lemma_splits_from_valid(valid, titlecase, w, 1);
        assert(valid_partition(valid, titlecase, w, ps[pick(ps, shatter)]));
    }
}

/// What the hyphen-separated parts give together: valid constituents that spell
/// the parts one after another, where suffixes are not titlecased.
pub proof fn lemma_collect_valid(
    valid: spec_fn(Seq<char>) -> bool,
    titlecase: bool,
    shatter: bool,
    parts: Seq<Seq<char>>,
)
    ensures
        collect(valid, titlecase, shatter, parts) matches Some(cs) ==> (forall|k: int|
            0 <= k < cs.len() ==> valid(#[trigger] cs[k])) && (!titlecase ==> concat(cs) == concat(
            parts,
        )) && cs.len() >= parts.len(),
    decreases parts.len(),
{
    if parts.len() > 0 {
        let front = parts.drop_last();
        let x = parts.last();
        lemma_collect_valid(valid, titlecase, shatter, front);
        lemma_word_outcome(valid, titlecase, shatter, x);
        assert(parts =~= front + seq![x]);
        lemma_concat_append(front, seq![x]);
        lemma_concat_single(x);
        if let Some(acc) = collect(valid, titlecase, shatter, front) {
            match word_outcome(valid, titlecase, shatter, x) {
                Outcome::Split(more) => {
                    lemma_concat_append(acc, more);
                    let cs = acc + more;
                    assert forall|k: int| 0 <= k < cs.len() implies valid(#[trigger] cs[k]) by {
                        if k < acc.len() {
                            assert(cs[k] == acc[k]);
                        } else {
                            assert(cs[k] == more[k - acc.len()]);
                        }
                    }
                },
                Outcome::Single(y) => {
                    assert(acc.push(y) =~= acc + seq![y]);
                    lemma_concat_append(acc, seq![y]);
                    lemma_concat_single(y);
                    let cs = acc.push(y);
                    assert forall|k: int| 0 <= k < cs.len() implies valid(#[trigger] cs[k]) by {
                        if k < acc.len() {
                            assert(cs[k] == acc[k]);
                        }
                    }
                },
                Outcome::Nothing => {},
            }
        }
    } else {
        assert(concat(Seq::<Seq<char>>::empty()) == Seq::<char>::empty());
    }
}

/// Concatenation: the constituents of a successful decomposition spell the word,
/// without its hyphens where hyphens are split, wherever suffixes are not
/// titlecased.
pub proof fn law_concatenation(
    valid: spec_fn(Seq<char>) -> bool,
    w: Seq<char>,
    options: DecompositionOptions,
)
    requires
        !options.try_titlecase_suffix,
    ensures
        outcome(valid, w, options) matches Outcome::Split(cs) ==> concat(cs) == if options.split_hyphenated {
            strip_hyphens(w)
        } else {
            w
        },
{
    lemma_word_outcome(valid, false, options.shatter, w);
    lemma_collect_valid(valid, false, options.shatter, hyphen_parts(w));
    lemma_hyphen_parts(w);
}

/// Validity: every constituent of a successful decomposition is a valid word.
pub proof fn law_constituents_valid(
    valid: spec_fn(Seq<char>) -> bool,
    w: Seq<char>,
    options: DecompositionOptions,
)
    ensures
        outcome(valid, w, options) matches Outcome::Split(cs) ==> forall|k: int|
            0 <= k < cs.len() ==> valid(#[trigger] cs[k]),
{
    lemma_word_outcome(valid, options.try_titlecase_suffix, options.shatter, w);
    lemma_collect_valid(valid, options.try_titlecase_suffix, options.shatter, hyphen_parts(w));
}

/// A valid word with no further valid split is exactly a single word, wherever its
/// hyphens are not split.
pub proof fn law_single_word(valid: spec_fn(Seq<char>) -> bool, w: Seq<char>, options: DecompositionOptions)
    requires
        valid(w),
        splits(valid, options.try_titlecase_suffix, w).len() == 0,
        !options.split_hyphenated || !w.contains('-'),
    ensures
        outcome(valid, w, options) == Outcome::Single(w),
{
    lemma_hyphen_parts(w);
    let parts = hyphen_parts(w);
    if options.split_hyphenated {
        let tc = options.try_titlecase_suffix;
        let sh = options.shatter;
        assert(parts.drop_last() =~= Seq::<Seq<char>>::empty());
        assert(parts.last() == w);
        assert(collect(valid, tc, sh, Seq::<Seq<char>>::empty()) == Some(Seq::<Seq<char>>::empty()));
        assert(word_outcome(valid, tc, sh, w) == Outcome::Single(w));
        assert(Seq::<Seq<char>>::empty().push(w) =~= seq![w]);
        assert(collect(valid, tc, sh, parts) == Some(seq![w]));
    }
}

proof fn lemma_gather_nonempty(
    valid: spec_fn(Seq<char>) -> bool,
    titlecase: bool,
    w: Seq<char>,
    p: Seq<char>,
    cs: Seq<Seq<char>>,
    j: int,
    m: int,
)
    requires
        0 <= j <= m < cs.len(),
        extend(valid, titlecase, w, p, cs[m]).len() > 0,
    ensures
        gather(valid, titlecase, w, p, cs, j).len() > 0,
    decreases m - j,
{
    if j < m {
        lemma_gather_nonempty(valid, titlecase, w, p, cs, j + 1, m);
    }
}

/// A word that the search splits without titlecased suffixes, it splits with them.
pub proof fn lemma_titlecase_keeps_splits(valid: spec_fn(Seq<char>) -> bool, w: Seq<char>, i: int)
    requires
        splits_from(valid, false, w, i).len() > 0,
    ensures
        splits_from(valid, true, w, i).len() > 0,
    decreases w.len(), w.len() - i,
{
    if 0 < i < w.len() {
        let p = w.subrange(0, i);
        let s = w.subrange(i, w.len() as int);
        if splits_from(valid, false, w, i + 1).len() > 0 {
            lemma_titlecase_keeps_splits(valid, w, i + 1);
        } else {
            assert(valid(p));
            let plain = candidates(s, false);
            assert(plain =~= seq![s]);
            assert(gather(valid, false, w, p, plain, 0) == extend(valid, false, w, p, s) + gather(
                valid,
                false,
                w,
                p,
                plain,
                1,
            ));
            assert(extend(valid, false, w, p, s).len() > 0);
            if !valid(s) {
                lemma_titlecase_keeps_splits(valid, s, 1);
            }
            assert(extend(valid, true, w, p, s).len() > 0);
            let cs = candidates(s, true);
            let m: int = if cs[0] == s {
                0
            } else {
                1
            };
            assert(cs[m] == s);
            lemma_gather_nonempty(valid, true, w, p, cs, 0, m);
        }
    }
}

proof fn lemma_titlecase_keeps_collect(
    valid: spec_fn(Seq<char>) -> bool,
    shatter: bool,
    parts: Seq<Seq<char>>,
)
    requires
        collect(valid, false, shatter, parts) is Some,
    ensures
        collect(valid, true, shatter, parts) is Some,
        collect(valid, true, shatter, parts)->0.len() >= 2 || collect(valid, true, shatter, parts)->0.len()
            >= collect(valid, false, shatter, parts)->0.len(),
    decreases parts.len(),
{
    if parts.len() > 0 {
        let front = parts.drop_last();
        let x = parts.last();
        lemma_titlecase_keeps_collect(valid, shatter, front);
        lemma_word_outcome(valid, false, shatter, x);
        lemma_word_outcome(valid, true, shatter, x);
        if splits(valid, false, x).len() > 0 {
            lemma_titlecase_keeps_splits(valid, x, 1);
        }
    }
}

/// Monotonicity of titlecasing: turning on titlecased suffixes never turns a
/// successful decomposition into a failure.
pub proof fn law_titlecase_monotone(
    valid: spec_fn(Seq<char>) -> bool,
    w: Seq<char>,
    plain: DecompositionOptions,
    titled: DecompositionOptions,
)
    requires
        !plain.try_titlecase_suffix,
        titled.try_titlecase_suffix,
        plain.split_hyphenated == titled.split_hyphenated,
        plain.shatter == titled.shatter,
    ensures
        outcome(valid, w, plain) is Split ==> outcome(valid, w, titled) is Split,
{
    if outcome(valid, w, plain) is Split {
        if plain.split_hyphenated {
            lemma_titlecase_keeps_collect(valid, plain.shatter, hyphen_parts(w));
        } else {
            lemma_titlecase_keeps_splits(valid, w, 1);
        }
    }
}

/// Shatter inversion: where the search finds partitions of two different lengths,
/// the one taken with `shatter` has strictly more constituents than the one taken
/// without it.
pub proof fn law_shatter_longer(
    valid: spec_fn(Seq<char>) -> bool,
    w: Seq<char>,
    few: DecompositionOptions,
    many: DecompositionOptions,
    a: int,
    b: int,
)
    requires
        !few.split_hyphenated,
        !many.split_hyphenated,
        !few.shatter,
        many.shatter,
        few.try_titlecase_suffix == many.try_titlecase_suffix,
        0 <= a < splits(valid, few.try_titlecase_suffix, w).len(),
        0 <= b < splits(valid, few.try_titlecase_suffix, w).len(),
        splits(valid, few.try_titlecase_suffix, w)[a].len() != splits(valid, few.try_titlecase_suffix, w)[b].len(),
    ensures
        outcome(valid, w, few) is Split,
        outcome(valid, w, many) is Split,
        outcome(valid, w, many)->Split_0.len() > outcome(valid, w, few)->Split_0.len(),
{
    let ps = splits(valid, few.try_titlecase_suffix, w);
    lemma_pick(ps, true);
    lemma_pick(ps, false);
    assert(ps[a].len() <= ps[pick(ps, true)].len());
    assert(ps[b].len() <= ps[pick(ps, true)].len());
    assert(ps[a].len() >= ps[pick(ps, false)].len());
    assert(ps[b].len() >= ps[pick(ps, false)].len());
}

} // verus!
