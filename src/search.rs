use vstd::prelude::*;

use crate::casing::{candidates, suffix_candidates};
use crate::predicate::{accepts, ask, callable, computes};

verus! {

/// The characters of the constituents of `q`, one after another.
pub open spec fn concat(q: Seq<Seq<char>>) -> Seq<char>
    decreases q.len(),
{
    if q.len() == 0 {
        Seq::empty()
    } else {
        q[0] + concat(q.drop_first())
    }
}

/// The views of the strings of `q`.
pub open spec fn words_view(q: Seq<String>) -> Seq<Seq<char>> {
    q.map_values(|s: String| s@)
}

/// The views of the partitions of `ps`.
pub open spec fn splits_view(ps: Seq<Vec<String>>) -> Seq<Seq<Seq<char>>> {
    ps.map_values(|q: Vec<String>| words_view(q@))
}

/// The partitions that one suffix candidate `c` contributes after the valid prefix
/// `p`: `[p, c]` where `c` is itself valid, then `p` before each complete partition
/// of `c`. A candidate is searched further only where it is shorter than the word
/// `w` being split, which bounds the recursion.
pub open spec fn extend(
    valid: spec_fn(Seq<char>) -> bool,
    titlecase: bool,
    w: Seq<char>,
    p: Seq<char>,
    c: Seq<char>,
) -> Seq<Seq<Seq<char>>>
    decreases w.len(), 0int, 1int,
{
    let whole: Seq<Seq<Seq<char>>> = if valid(c) {
        seq![seq![p, c]]
    } else {
        seq![]
    };
    let deeper: Seq<Seq<Seq<char>>> = if c.len() < w.len() {
        splits_from(valid, titlecase, c, 1).map_values(|q: Seq<Seq<char>>| seq![p] + q)
    } else {
        seq![]
    };
    whole + deeper
}

/// What the candidates `cs[j..]` contribute after the valid prefix `p` of `w`.
pub open spec fn gather(
    valid: spec_fn(Seq<char>) -> bool,
    titlecase: bool,
    w: Seq<char>,
    p: Seq<char>,
    cs: Seq<Seq<char>>,
    j: int,
) -> Seq<Seq<Seq<char>>>
    decreases w.len(), 0int, 2 + cs.len() - j,
{
    if 0 <= j < cs.len() {
        extend(valid, titlecase, w, p, cs[j]) + gather(valid, titlecase, w, p, cs, j + 1)
    } else {
        seq![]
    }
}

/// The complete partitions of `w` that the split points `i..` yield, in the order
/// in which the search finds them: ascending prefix length, then candidate order.
pub open spec fn splits_from(
    valid: spec_fn(Seq<char>) -> bool,
    titlecase: bool,
    w: Seq<char>,
    i: int,
) -> Seq<Seq<Seq<char>>>
    decreases w.len(), w.len() - i, 0int,
{
    if 0 < i < w.len() {
        let p = w.subrange(0, i);
        let here = if valid(p) {
            gather(valid, titlecase, w, p, candidates(w.subrange(i, w.len() as int), titlecase), 0)
        } else {
            seq![]
        };
        here + splits_from(valid, titlecase, w, i + 1)
    } else {
        seq![]
    }
}

/// Every complete partition of `w` into two or more valid constituents that the
/// compound search finds, in the order of finding.
pub open spec fn splits(valid: spec_fn(Seq<char>) -> bool, titlecase: bool, w: Seq<char>) -> Seq<
    Seq<Seq<char>>,
> {
    splits_from(valid, titlecase, w, 1)
}

/// What holds of every partition the search returns, whatever the predicate:
/// two or more constituents, each accepted, which spell `w` where suffixes are
/// not titlecased.
pub open spec fn sound_split<F: Fn(&str) -> bool>(
    f: &F,
    titlecase: bool,
    w: Seq<char>,
    q: Seq<Seq<char>>,
) -> bool {
    &&& q.len() >= 2
    &&& forall|k: int| 0 <= k < q.len() ==> accepts(f, #[trigger] q[k])
    &&& !titlecase ==> concat(q) == w
}

/// A constituent put before others spells itself before them.
pub proof fn lemma_concat_prepend(p: Seq<char>, q: Seq<Seq<char>>)
    ensures
        concat(seq![p] + q) == p + concat(q),
{
    assert((seq![p] + q).drop_first() =~= q);
}

/// Two constituents spell one after the other.
pub proof fn lemma_concat_pair(p: Seq<char>, c: Seq<char>)
    ensures
        concat(seq![p, c]) == p + c,
{
    reveal_with_fuel(concat, 3);
    assert(seq![p, c].drop_first() =~= seq![c]);
    assert(seq![c].drop_first() =~= Seq::<Seq<char>>::empty());
    assert(c + Seq::<char>::empty() =~= c);
}

/// A new partition: `p` followed by the constituents of `q`.
fn prepend(p: &str, q: &Vec<String>) -> (r: Vec<String>)
    ensures
        words_view(r@) == seq![p@] + words_view(q@),
{
    let mut r: Vec<String> = Vec::new();
    r.push(p.to_owned());
    let mut t: usize = 0;
    while t < q.len()
        invariant
            t <= q.len(),
            words_view(r@) == seq![p@] + words_view(q@.subrange(0, t as int)),
        decreases q.len() - t,
    {
        let ghost before = words_view(r@);
        r.push(q[t].clone());
        proof {
            assert(words_view(r@) =~= before.push(q@[t as int]@));
            assert(words_view(q@.subrange(0, t + 1)) =~= words_view(q@.subrange(0, t as int)).push(
                q@[t as int]@,
            ));
        }
        t += 1;
    }
    proof {
        assert(q@.subrange(0, t as int) =~= q@);
    }
    r
}

proof fn lemma_gather_step(
    valid: spec_fn(Seq<char>) -> bool,
    titlecase: bool,
    w: Seq<char>,
    p: Seq<char>,
    cs: Seq<Seq<char>>,
    j: int,
    before: Seq<Seq<Seq<char>>>,
    after: Seq<Seq<Seq<char>>>,
    rest: Seq<Seq<Seq<char>>>,
)
    requires
        0 <= j < cs.len(),
        after == before + extend(valid, titlecase, w, p, cs[j]),
    ensures
        after + gather(valid, titlecase, w, p, cs, j + 1) + rest == before + gather(
            valid,
            titlecase,
            w,
            p,
            cs,
            j,
        ) + rest,
{
    let e = extend(valid, titlecase, w, p, cs[j]);
    let g = gather(valid, titlecase, w, p, cs, j + 1);
    assert(gather(valid, titlecase, w, p, cs, j) == e + g);
    assert(before + e + g + rest =~= before + (e + g) + rest);
}

/// Every complete partition of `word` into valid constituents, as `splits`
/// describes them for every predicate that `f` computes.
pub fn compound_splits<F: Fn(&str) -> bool>(word: &str, f: &F, titlecase: bool) -> (r: Vec<
    Vec<String>,
>)
    requires
        callable(f),
    ensures
        forall|valid: spec_fn(Seq<char>) -> bool| #[trigger]
            computes(f, valid) ==> splits_view(r@) == splits(valid, titlecase, word@),
        forall|k: int| 0 <= k < r.len() ==> sound_split(f, titlecase, word@, #[trigger] splits_view(r@)[k]),
    decreases word@.len(),
{
    let ghost w = word@;
    let n = word.unicode_len();
    let mut out: Vec<Vec<String>> = Vec::new();
    let mut i: usize = 1;
    proof {
        assert forall|valid: spec_fn(Seq<char>) -> bool| #[trigger] computes(f, valid) implies splits_view(out@)
            + splits_from(valid, titlecase, w, i as int) == splits(valid, titlecase, w) by {
            assert(splits_view(out@) + splits_from(valid, titlecase, w, 1) =~= splits_from(valid, titlecase, w, 1));
        }
    }
    while i < n
        invariant
            callable(f),
            n == w.len(),
            1 <= i,
            w == word@,
            forall|valid: spec_fn(Seq<char>) -> bool| #[trigger]
                computes(f, valid) ==> splits_view(out@) + splits_from(valid, titlecase, w, i as int)
                    == splits(valid, titlecase, w),
            forall|k: int| 0 <= k < out.len() ==> sound_split(f, titlecase, w, #[trigger] splits_view(out@)[k]),
        decreases n - i,
    {
        let prefix = word.substring_char(0, i);
        let suffix = word.substring_char(i, n);
        proof {
            assert(w =~= prefix@ + suffix@);
        }
        let ghost start = splits_view(out@);
        if ask(f, prefix) {
            let cands = suffix_candidates(suffix, titlecase);
            let ghost cs = cands@.map_values(|c: String| c@);
            let mut j: usize = 0;
            proof {
                assert forall|valid: spec_fn(Seq<char>) -> bool| #[trigger] computes(f, valid) implies splits_view(out@)
                    + gather(valid, titlecase, w, prefix@, cs, 0) + splits_from(valid, titlecase, w, i + 1)
                    == splits(valid, titlecase, w) by {
                    let g = gather(valid, titlecase, w, prefix@, cs, 0);
                    let rest = splits_from(valid, titlecase, w, i + 1);
                    assert(valid(prefix@));
                    assert(splits_from(valid, titlecase, w, i as int) == g + rest);
                    assert(start + g + rest =~= start + (g + rest));
                }
            }
            while j < cands.len()
                invariant
                    callable(f),
                    n == w.len(),
                    1 <= i < n,
                    w == word@,
                    prefix@ == w.subrange(0, i as int),
                    suffix@ == w.subrange(i as int, n as int),
                    w == prefix@ + suffix@,
                    accepts(f, prefix@),
                    cs == cands@.map_values(|c: String| c@),
                    cs == candidates(suffix@, titlecase),
                    j <= cands.len(),
                    forall|valid: spec_fn(Seq<char>) -> bool| #[trigger]
                        computes(f, valid) ==> splits_view(out@) + gather(valid, titlecase, w, prefix@, cs, j as int)
                            + splits_from(valid, titlecase, w, i + 1) == splits(valid, titlecase, w),
                    forall|k: int| 0 <= k < out.len() ==> sound_split(f, titlecase, w, #[trigger] splits_view(out@)[k]),
                decreases cands.len() - j,
            {
                let c = &cands[j];
                let ghost before = splits_view(out@);
                proof {
                    assert(c@ == cs[j as int]);
                    if !titlecase {
                        assert(cs =~= seq![suffix@]);
                        assert(cs.len() == cands@.len());
                        assert(j == 0);
                        assert(c@ == suffix@);
                    }
                }
                let ok = ask(f, c.as_str());
                if ok {
                    let mut pair: Vec<String> = Vec::new();
                    pair.push(prefix.to_owned());
                    pair.push(c.clone());
                    proof {
                        assert(words_view(pair@) =~= seq![prefix@, c@]);
                    }
                    out.push(pair);
                    proof {
                        lemma_concat_pair(prefix@, c@);
                        assert(splits_view(out@) =~= before.push(seq![prefix@, c@]));
                        assert(words_view(out@[out.len() - 1]@) =~= seq![prefix@, c@]);
                        let nq = seq![prefix@, c@];
                        assert(nq[0] == prefix@);
                        assert(nq[1] == c@);
                        assert(splits_view(out@)[out.len() - 1] == nq);
                        assert(sound_split(f, titlecase, w, splits_view(out@)[out.len() - 1]));
                    }
                }
                let ghost whole = splits_view(out@);
                let ghost found: Seq<Seq<Seq<char>>> = if ok {
                    seq![seq![prefix@, c@]]
                } else {
                    seq![]
                };
                proof {
                    assert(whole =~= before + found);
                }
                if c.unicode_len() < n {
                    let rec = compound_splits(c.as_str(), f, titlecase);
                    let mut k: usize = 0;
                    while k < rec.len()
                        invariant
                            callable(f),
                            n == w.len(),
                            w == word@,
                            1 <= i < n,
                            prefix@ == w.subrange(0, i as int),
                            suffix@ == w.subrange(i as int, n as int),
                            w == prefix@ + suffix@,
                            accepts(f, prefix@),
                            k <= rec.len(),
                            splits_view(out@) == whole + splits_view(rec@.subrange(0, k as int)).map_values(
                                |q: Seq<Seq<char>>| seq![prefix@] + q),
                            forall|t: int| 0 <= t < rec.len() ==> sound_split(f, titlecase, c@, #[trigger] splits_view(rec@)[t]),
                            !titlecase ==> c@ == suffix@,
                            forall|t: int| 0 <= t < out.len() ==> sound_split(f, titlecase, w, #[trigger] splits_view(out@)[t]),
                        decreases rec.len() - k,
                    {
                        let q = prepend(prefix, &rec[k]);
                        let ghost rq = splits_view(rec@)[k as int];
                        let ghost mid = splits_view(out@);
                        out.push(q);
                        proof {
                            assert(splits_view(out@) =~= mid.push(seq![prefix@] + rq));
                            assert(splits_view(rec@.subrange(0, k + 1)) =~= splits_view(rec@.subrange(0, k as int)).push(rq));
                            assert(splits_view(out@) =~= whole + splits_view(rec@.subrange(0, k + 1)).map_values(
                                |q: Seq<Seq<char>>| seq![prefix@] + q));
                            lemma_concat_prepend(prefix@, rq);
                            let nq = seq![prefix@] + rq;
                            assert(nq[0] == prefix@);
                            assert forall|t: int| 0 <= t < nq.len() implies accepts(f, #[trigger] nq[t]) by {
                                if t > 0 {
                                    assert(nq[t] == rq[t - 1]);
                                }
                            }
                            assert(splits_view(out@)[out.len() - 1] == nq);
                            assert(sound_split(f, titlecase, w, splits_view(out@)[out.len() - 1]));
                        }
                        k += 1;
                    }
                    proof {
                        assert(rec@.subrange(0, k as int) =~= rec@);
                        assert forall|valid: spec_fn(Seq<char>) -> bool| #[trigger] computes(f, valid) implies splits_view(out@)
                            + gather(valid, titlecase, w, prefix@, cs, j + 1) + splits_from(valid, titlecase, w, i + 1)
                            == splits(valid, titlecase, w) by {
                            assert(ok == valid(c@));
                            assert(splits_view(rec@) == splits(valid, titlecase, c@));
                            assert(splits_view(out@) =~= before + extend(valid, titlecase, w, prefix@, c@));
                            lemma_gather_step(valid, titlecase, w, prefix@, cs, j as int, before, splits_view(out@),
                                splits_from(valid, titlecase, w, i + 1));
                        }
                    }
                } else {
                    proof {
                        assert forall|valid: spec_fn(Seq<char>) -> bool| #[trigger] computes(f, valid) implies splits_view(out@)
                            + gather(valid, titlecase, w, prefix@, cs, j + 1) + splits_from(valid, titlecase, w, i + 1)
                            == splits(valid, titlecase, w) by {
                            assert(ok == valid(c@));
                            assert(splits_view(out@) =~= before + extend(valid, titlecase, w, prefix@, c@));
                            lemma_gather_step(valid, titlecase, w, prefix@, cs, j as int, before, splits_view(out@),
                                splits_from(valid, titlecase, w, i + 1));
                        }
                    }
                }
                j += 1;
            }
            proof {
                assert forall|valid: spec_fn(Seq<char>) -> bool| #[trigger] computes(f, valid) implies splits_view(out@)
                    + splits_from(valid, titlecase, w, i + 1) == splits(valid, titlecase, w) by {
                    assert(gather(valid, titlecase, w, prefix@, cs, j as int) == Seq::<Seq<Seq<char>>>::empty());
                    assert(splits_view(out@) + gather(valid, titlecase, w, prefix@, cs, j as int) =~= splits_view(out@));
                }
            }
        } else {
            proof {
                assert forall|valid: spec_fn(Seq<char>) -> bool| #[trigger] computes(f, valid) implies splits_view(out@)
                    + splits_from(valid, titlecase, w, i + 1) == splits(valid, titlecase, w) by {
                    assert(!valid(prefix@));
                    assert(splits_from(valid, titlecase, w, i as int) =~= splits_from(valid, titlecase, w, i + 1));
                }
            }
        }
        i += 1;
    }
    proof {
        assert forall|valid: spec_fn(Seq<char>) -> bool| #[trigger] computes(f, valid) implies splits_view(out@)
            == splits(valid, titlecase, w) by {
            assert(splits_from(valid, titlecase, w, i as int) == Seq::<Seq<Seq<char>>>::empty());
            assert(splits_view(out@) + splits_from(valid, titlecase, w, i as int) =~= splits_view(out@));
        }
    }
    out
}

} // verus!
