//! The point total of a collection of notes and the level it gives.
use vstd::prelude::*;
use crate::front_matter::FrontMatter;

verus! {

/// Points needed for each level.
pub const POINTS_PER_LEVEL: u64 = 10000;

/// The points a header contributes: its value, or nothing when unset.
pub open spec fn points_of(h: FrontMatter) -> int {
    match h.xp {
        Some(n) => n as int,
        None => 0,
    }
}

/// The sum of the points of a sequence of headers.
pub open spec fn points_sum(s: Seq<FrontMatter>) -> int
    decreases s.len(),
{
    if s.len() == 0 {
        0
    } else {
        points_sum(s.drop_last()) + points_of(s.last())
    }
}

/// The level that a point total gives: whole multiples of the points per level.
pub open spec fn level_spec(total: int) -> int {
    total / (POINTS_PER_LEVEL as int)
}

/// Adds up the points of all headers, an unset value counting as zero.
pub fn total_points(headers: &Vec<FrontMatter>) -> (r: u64)
    requires
        headers@.len() <= u32::MAX,
    ensures
        r as int == points_sum(headers@),
{
    let mut total: u64 = 0;
    let mut i: usize = 0;
    while i < headers.len()
        invariant
            i <= headers@.len() <= u32::MAX,
            total as int == points_sum(headers@.subrange(0, i as int)),
            total as int <= i as int * (u32::MAX as int),
        decreases headers@.len() - i,
    {
        proof {
            assert(headers@.subrange(0, i as int + 1).drop_last() =~= headers@.subrange(0, i as int));
            assert((i as int + 1) * (u32::MAX as int) <= u64::MAX) by (nonlinear_arith)
                requires
                    i < u32::MAX,
            ;
            assert((i as int + 1) * (u32::MAX as int) == i as int * (u32::MAX as int) + u32::MAX) by (nonlinear_arith);
        }
        match headers[i].xp {
            Some(n) => {
                total = total + n as u64;
            },
            None => {},
        }
        i = i + 1;
    }
    proof {
        assert(headers@.subrange(0, i as int) =~= headers@);
    }
    total
}

/// The level of a point total: the total divided by the points per level,
/// rounded down.
pub fn level_of(total: u64) -> (r: u64)
    ensures
        r as int == level_spec(total as int),
{
    total / POINTS_PER_LEVEL
}

/// Taking one header out of a sequence takes its points out of the sum.
proof fn lemma_points_sum_remove(s: Seq<FrontMatter>, j: int)
    requires
        0 <= j < s.len(),
    ensures
        points_sum(s) == points_sum(s.remove(j)) + points_of(s[j]),
    decreases s.len(),
{
    if j == s.len() - 1 {
        assert(s.remove(j) =~= s.drop_last());
    } else {
        lemma_points_sum_remove(s.drop_last(), j);
        assert(s.remove(j).drop_last() =~= s.drop_last().remove(j));
        assert(s.remove(j).last() == s.last());
    }
}

/// The total does not depend on the order in which the headers were visited:
/// two sequences holding the same headers, each as often, have the same
/// total and therefore the same level.
pub proof fn lemma_total_order_independent(a: Seq<FrontMatter>, b: Seq<FrontMatter>)
    requires
        a.to_multiset() == b.to_multiset(),
    ensures
        points_sum(a) == points_sum(b),
        level_spec(points_sum(a)) == level_spec(points_sum(b)),
    decreases a.len(),
{
    broadcast use vstd::seq_lib::group_to_multiset_ensures;

    if a.len() == 0 {
        assert(b.len() == b.to_multiset().len());
        assert(b =~= Seq::<FrontMatter>::empty());
    } else {
        let x = a.last();
        let rest = a.drop_last();
        assert(rest.push(x) =~= a);
        assert(a.to_multiset() =~= rest.to_multiset().insert(x));
        assert(b.to_multiset().count(x) > 0);
        assert(b.contains(x));
        let j = choose|j: int| 0 <= j < b.len() && b[j] == x;
        assert(b.remove(j).to_multiset() =~= b.to_multiset().remove(x));
        assert(rest.to_multiset() =~= b.remove(j).to_multiset());
        lemma_total_order_independent(rest, b.remove(j));
        lemma_points_sum_remove(b, j);
    }
}

} // verus!
