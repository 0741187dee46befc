use vstd::prelude::*;

verus! {

/// The string with its first character titlecased and every other character
/// lowercased, by Unicode's full case mappings.
pub uninterp spec fn titlecase_lower_rest(s: Seq<char>) -> Seq<char>;

/// Relies on `unicode_titlecase::StrTitleCase::to_titlecase_lower_rest`, which
/// titlecases the first character and lowercases the rest: the result depends on
/// the characters alone.
#[verifier::external_body]
fn to_titlecase_lower_rest(s: &str) -> (r: String)
    ensures
        r@ == titlecase_lower_rest(s@),
{
    unicode_titlecase::StrTitleCase::to_titlecase_lower_rest(s)
}

/// `a` comes strictly before `b` in lexicographic order of code points.
pub open spec fn precedes(a: Seq<char>, b: Seq<char>) -> bool
    decreases a.len(),
{
    if b.len() == 0 {
        false
    } else if a.len() == 0 {
        true
    } else if a[0] != b[0] {
        (a[0] as u32) < (b[0] as u32)
    } else {
        precedes(a.drop_first(), b.drop_first())
    }
}

/// A suffix `s` and its titlecased form `t`, without duplicates, in lexicographic
/// order of code points.
pub open spec fn ordered_pair(s: Seq<char>, t: Seq<char>) -> Seq<Seq<char>> {
    if t == s {
        seq![s]
    } else if precedes(t, s) {
        seq![t, s]
    } else {
        seq![s, t]
    }
}

/// The suffixes to test at one split point, without duplicates, in lexicographic
/// order of code points: `s` itself and, with `titlecase`, its titlecased form.
pub open spec fn candidates(s: Seq<char>, titlecase: bool) -> Seq<Seq<char>> {
    if titlecase {
        ordered_pair(s, titlecase_lower_rest(s))
    } else {
        seq![s]
    }
}

proof fn lemma_precedes_skip(a: Seq<char>, b: Seq<char>, i: int)
    requires
        0 <= i <= a.len(),
        i <= b.len(),
        a.subrange(0, i) == b.subrange(0, i),
    ensures
        precedes(a, b) == precedes(a.subrange(i, a.len() as int), b.subrange(i, b.len() as int)),
    decreases i,
{
    if i > 0 {
        assert(a[0] == a.subrange(0, i)[0]);
        assert(b[0] == b.subrange(0, i)[0]);
        let a1 = a.drop_first();
        let b1 = b.drop_first();
        assert(a1.subrange(0, i - 1) =~= a.subrange(0, i).drop_first());
        assert(b1.subrange(0, i - 1) =~= b.subrange(0, i).drop_first());
        lemma_precedes_skip(a1, b1, i - 1);
        assert(a1.subrange(i - 1, a1.len() as int) =~= a.subrange(i, a.len() as int));
        assert(b1.subrange(i - 1, b1.len() as int) =~= b.subrange(i, b.len() as int));
    } else {
        assert(a.subrange(0, a.len() as int) =~= a);
        assert(b.subrange(0, b.len() as int) =~= b);
    }
}

/// Whether `a` comes strictly before `b` in lexicographic order of code points.
pub fn str_precedes(a: &str, b: &str) -> (r: bool)
    ensures
        r == precedes(a@, b@),
{
    let n = a.unicode_len();
    let m = b.unicode_len();
    let mut i: usize = 0;
    while i < n && i < m
        invariant
            n == a@.len(),
            m == b@.len(),
            i <= n,
            i <= m,
            a@.subrange(0, i as int) == b@.subrange(0, i as int),
        decreases n - i,
    {
        let x = a.get_char(i);
        let y = b.get_char(i);
        if x != y {
            proof {
                lemma_precedes_skip(a@, b@, i as int);
            }
            return (x as u32) < (y as u32);
        }
        proof {
            assert(a@.subrange(0, i + 1) =~= a@.subrange(0, i as int).push(x));
            assert(b@.subrange(0, i + 1) =~= b@.subrange(0, i as int).push(y));
        }
        i += 1;
    }
    proof {
        lemma_precedes_skip(a@, b@, i as int);
    }
    i < m
}

/// The suffix and its titlecased form `titled`, as `ordered_pair` orders them.
pub fn order_candidates(suffix: &str, titled: String) -> (r: Vec<String>)
    ensures
        r@.map_values(|c: String| c@) == ordered_pair(suffix@, titled@),
{
    let own = suffix.to_owned();
    let r = if titled == own {
        vec![own]
    } else if str_precedes(titled.as_str(), suffix) {
        vec![titled, own]
    } else {
        vec![own, titled]
    };
    assert(r@.map_values(|c: String| c@) =~= ordered_pair(suffix@, titled@));
    r
}

/// The suffixes to test at one split point, as `candidates` describes them.
pub fn suffix_candidates(suffix: &str, titlecase: bool) -> (r: Vec<String>)
    ensures
        r@.map_values(|c: String| c@) == candidates(suffix@, titlecase),
{
    if titlecase {
        order_candidates(suffix, to_titlecase_lower_rest(suffix))
    } else {
        let r = vec![suffix.to_owned()];
        assert(r@.map_values(|c: String| c@) =~= candidates(suffix@, titlecase));
        r
    }
}

} // verus!
