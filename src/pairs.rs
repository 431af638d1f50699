//! Correspondence pairs and their projections onto one side.

use vstd::prelude::*;

verus! {

/// A left line number and a right line number that occupy the same place
/// in the view; `None` on one side marks an insertion or a deletion.
pub type LinePair = (Option<u32>, Option<u32>);

/// Both sides of the pair are present.
pub open spec fn is_common(p: LinePair) -> bool {
    p.0.is_some() && p.1.is_some()
}

/// The present left values of `s`, in order.
pub open spec fn lhs_of(s: Seq<LinePair>) -> Seq<u32>
    decreases s.len(),
{
    if s.len() == 0 {
        Seq::empty()
    } else {
        let prev = lhs_of(s.drop_last());
        match s.last().0 {
            Some(v) => prev.push(v),
            None => prev,
        }
    }
}

/// The present right values of `s`, in order.
pub open spec fn rhs_of(s: Seq<LinePair>) -> Seq<u32>
    decreases s.len(),
{
    if s.len() == 0 {
        Seq::empty()
    } else {
        let prev = rhs_of(s.drop_last());
        match s.last().1 {
            Some(v) => prev.push(v),
            None => prev,
        }
    }
}

/// The value of an `Option` as a sequence of zero or one elements.
pub open spec fn opt_seq(o: Option<u32>) -> Seq<u32> {
    match o {
        Some(v) => seq![v],
        None => Seq::empty(),
    }
}

/// The first and the last element of `s`, when there is one.
pub open spec fn first_last_of(s: Seq<u32>) -> Option<(u32, u32)> {
    if s.len() == 0 {
        None
    } else {
        Some((s[0], s.last()))
    }
}

proof fn lemma_prefix_step(s: Seq<LinePair>, i: int)
    requires
        0 <= i < s.len(),
    ensures
        s.subrange(0, i + 1).drop_last() == s.subrange(0, i),
        s.subrange(0, i + 1).last() == s[i],
{
    assert(s.subrange(0, i + 1).drop_last() =~= s.subrange(0, i));
}

/// The left line numbers of `items`, dropping the pairs that have none.
pub fn to_lhs_iter(items: &[LinePair]) -> (r: Vec<u32>)
    ensures
        r@ == lhs_of(items@),
{
    let mut r: Vec<u32> = Vec::new();
    let mut i: usize = 0;
    while i < items.len()
        invariant
            i <= items@.len(),
            r@ == lhs_of(items@.subrange(0, i as int)),
        decreases items@.len() - i,
    {
        proof {
            lemma_prefix_step(items@, i as int);
        }
        if let Some(v) = items[i].0 {
            r.push(v);
        }
        i = i + 1;
    }
    assert(items@.subrange(0, items@.len() as int) =~= items@);
    r
}

/// The right line numbers of `items`, dropping the pairs that have none.
pub fn to_rhs_iter(items: &[LinePair]) -> (r: Vec<u32>)
    ensures
        r@ == rhs_of(items@),
{
    let mut r: Vec<u32> = Vec::new();
    let mut i: usize = 0;
    while i < items.len()
        invariant
            i <= items@.len(),
            r@ == rhs_of(items@.subrange(0, i as int)),
        decreases items@.len() - i,
    {
        proof {
            lemma_prefix_step(items@, i as int);
        }
        if let Some(v) = items[i].1 {
            r.push(v);
        }
        i = i + 1;
    }
    assert(items@.subrange(0, items@.len() as int) =~= items@);
    r
}

/// The first and the last of `values`; both are the same element when
/// there is only one, and there are none when `values` is empty.
pub fn get_first_last(values: &[u32]) -> (r: Option<(u32, u32)>)
    ensures
        r == first_last_of(values@),
{
    if values.len() == 0 {
        None
    } else {
        Some((values[0], values[values.len() - 1]))
    }
}

} // verus!
