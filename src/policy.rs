use vstd::prelude::*;

use crate::search::splits_view;

verus! {

/// The index of the partition that the selection policy takes: the first one with
/// the fewest constituents, or, with `most`, the first one with the most.
pub open spec fn pick<A>(ps: Seq<Seq<A>>, most: bool) -> int
    decreases ps.len(),
{
    if ps.len() <= 1 {
        0
    } else {
        let k = pick(ps.drop_last(), most);
        let n = ps.last().len();
        let m = ps[k].len();
        if (most && n > m) || (!most && n < m) {
            ps.len() - 1
        } else {
            k
        }
    }
}

/// The taken partition has the fewest constituents (the most, with `most`), and
/// every partition before it has strictly more (strictly fewer).
pub proof fn lemma_pick<A>(ps: Seq<Seq<A>>, most: bool)
    requires
        ps.len() > 0,
    ensures
        0 <= pick(ps, most) < ps.len(),
        forall|j: int|
            0 <= j < ps.len() ==> if most {
                #[trigger] ps[j].len() <= ps[pick(ps, most)].len()
            } else {
                ps[j].len() >= ps[pick(ps, most)].len()
            },
        forall|j: int|
            0 <= j < pick(ps, most) ==> if most {
                #[trigger] ps[j].len() < ps[pick(ps, most)].len()
            } else {
                ps[j].len() > ps[pick(ps, most)].len()
            },
    decreases ps.len(),
{
    if ps.len() > 1 {
        let front = ps.drop_last();
        lemma_pick(front, most);
        let k = pick(front, most);
        assert(ps[k] == front[k]);
        assert forall|j: int| 0 <= j < ps.len() - 1 implies #[trigger] ps[j] == front[j] by {}
    }
}

/// The index of the partition that `pick` takes.
pub fn select_split(ps: &Vec<Vec<String>>, most: bool) -> (r: usize)
    requires
        ps.len() > 0,
    ensures
        r == pick(splits_view(ps@), most),
        r < ps.len(),
{
    let ghost all = splits_view(ps@);
    let mut best: usize = 0;
    let mut t: usize = 1;
    proof {
        lemma_pick(all.subrange(0, 1), most);
    }
    while t < ps.len()
        invariant
            1 <= t <= ps.len(),
            all == splits_view(ps@),
            best < t,
            best == pick(all.subrange(0, t as int), most),
        decreases ps.len() - t,
    {
        let ghost front = all.subrange(0, t as int);
        proof {
            assert(all.subrange(0, t + 1).drop_last() =~= front);
            assert(all[t as int].len() == ps[t as int].len());
            assert(all[best as int].len() == ps[best as int].len());
            assert(all.subrange(0, t + 1)[best as int] == all[best as int]);
        }
        if (most && ps[t].len() > ps[best].len()) || (!most && ps[t].len() < ps[best].len()) {
            best = t;
        }
        t += 1;
    }
    proof {
        assert(all.subrange(0, t as int) =~= all);
    }
    best
}

} // verus!
