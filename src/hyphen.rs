use vstd::prelude::*;

use crate::search::concat;

verus! {

/// The parts of `w` between its hyphens, in order: one more than there are hyphens,
/// empty where hyphens lead, trail or stand together.
pub open spec fn hyphen_parts(w: Seq<char>) -> Seq<Seq<char>>
    decreases w.len(),
{
    if w.len() == 0 {
        seq![Seq::empty()]
    } else {
        let ps = hyphen_parts(w.drop_last());
        if w.last() == '-' {
            ps.push(Seq::empty())
        } else {
            ps.update(ps.len() - 1, ps.last().push(w.last()))
        }
    }
}

/// `w` without its hyphens.
pub open spec fn strip_hyphens(w: Seq<char>) -> Seq<char>
    decreases w.len(),
{
    if w.len() == 0 {
        Seq::empty()
    } else if w.last() == '-' {
        strip_hyphens(w.drop_last())
    } else {
        strip_hyphens(w.drop_last()).push(w.last())
    }
}

/// The constituents of `a + b` spell those of `a`, then those of `b`.
pub proof fn lemma_concat_append(a: Seq<Seq<char>>, b: Seq<Seq<char>>)
    ensures
        concat(a + b) == concat(a) + concat(b),
    decreases a.len(),
{
    if a.len() == 0 {
        assert(a + b =~= b);
    } else {
        assert((a + b).drop_first() =~= a.drop_first() + b);
        lemma_concat_append(a.drop_first(), b);
    }
}

/// A single constituent spells itself.
pub proof fn lemma_concat_single(x: Seq<char>)
    ensures
        concat(seq![x]) == x,
{
    reveal_with_fuel(concat, 2);
    assert(seq![x].drop_first() =~= Seq::<Seq<char>>::empty());
    assert(x + Seq::<char>::empty() =~= x);
}

/// There is at least one part, and together they spell `w` without its hyphens.
pub proof fn lemma_hyphen_parts(w: Seq<char>)
    ensures
        hyphen_parts(w).len() >= 1,
        concat(hyphen_parts(w)) == strip_hyphens(w),
        !w.contains('-') ==> hyphen_parts(w) == seq![w],
        hyphen_parts(w).len() == 1 ==> hyphen_parts(w) == seq![w],
    decreases w.len(),
{
    if w.len() == 0 {
        lemma_concat_single(Seq::empty());
        assert(w =~= Seq::<char>::empty());
    } else {
        let front = w.drop_last();
        lemma_hyphen_parts(front);
        let ps = hyphen_parts(front);
        let last = (ps.len() - 1) as int;
        if w.last() == '-' {
            assert(ps.push(Seq::<char>::empty()) =~= ps + seq![Seq::<char>::empty()]);
            lemma_concat_append(ps, seq![Seq::<char>::empty()]);
            lemma_concat_single(Seq::empty());
            assert(strip_hyphens(w) =~= strip_hyphens(front) + Seq::<char>::empty());
            assert(w.contains('-')) by {
                assert(w[w.len() - 1] == '-');
            }
        } else {
            let lead = ps.subrange(0, last);
            assert(ps =~= lead + seq![ps[last]]);
            assert(ps.update(last, ps[last].push(w.last())) =~= lead + seq![ps[last].push(w.last())]);
            lemma_concat_append(lead, seq![ps[last]]);
            lemma_concat_append(lead, seq![ps[last].push(w.last())]);
            lemma_concat_single(ps[last]);
            lemma_concat_single(ps[last].push(w.last()));
            assert(concat(hyphen_parts(w)) =~= strip_hyphens(w));
            if ps.len() == 1 {
                assert(front.push(w.last()) =~= w);
                assert(hyphen_parts(w) =~= seq![w]);
            }
            if !w.contains('-') {
                assert(!front.contains('-')) by {
                    if front.contains('-') {
                        let k = choose|k: int| 0 <= k < front.len() && front[k] == '-';
                        assert(w[k] == '-');
                    }
                }
                assert(front.push(w.last()) =~= w);
            }
        }
    }
}

/// The parts of `word` between its hyphens, as `hyphen_parts` describes them.
pub fn split_hyphens<'a>(word: &'a str) -> (r: Vec<&'a str>)
    ensures
        r@.map_values(|s: &str| s@) == hyphen_parts(word@),
{
    let ghost w = word@;
    let n = word.unicode_len();
    let mut r: Vec<&'a str> = Vec::new();
    let mut start: usize = 0;
    let mut i: usize = 0;
    proof {
        assert(w.subrange(0, 0) =~= Seq::<char>::empty());
        assert(r@.map_values(|s: &str| s@) =~= Seq::<Seq<char>>::empty());
    }
    while i < n
        invariant
            n == w.len(),
            w == word@,
            start <= i <= n,
            r@.map_values(|s: &str| s@).push(w.subrange(start as int, i as int)) == hyphen_parts(
                w.subrange(0, i as int),
            ),
        decreases n - i,
    {
        let ghost before = r@.map_values(|s: &str| s@);
        let ghost head = w.subrange(0, i + 1);
        proof {
            assert(head.drop_last() =~= w.subrange(0, i as int));
            assert(head.last() == w[i as int]);
        }
        if word.get_char(i) == '-' {
            r.push(word.substring_char(start, i));
            proof {
                assert(r@.map_values(|s: &str| s@) =~= before.push(w.subrange(start as int, i as int)));
                assert(w.subrange(i + 1, i + 1) =~= Seq::<char>::empty());
            }
            start = i + 1;
        } else {
            proof {
                let ps = before.push(w.subrange(start as int, i as int));
                assert(w.subrange(start as int, i as int).push(w[i as int]) =~= w.subrange(start as int, i + 1));
                assert(ps.update(ps.len() - 1, ps.last().push(w[i as int])) =~= before.push(
                    w.subrange(start as int, i + 1),
                ));
            }
        }
        i += 1;
    }
    let ghost before = r@.map_values(|s: &str| s@);
    r.push(word.substring_char(start, n));
    proof {
        assert(r@.map_values(|s: &str| s@) =~= before.push(w.subrange(start as int, n as int)));
        assert(w.subrange(0, n as int) =~= w);
    }
    r
}

} // verus!
