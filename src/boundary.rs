//! Where the right side starts before a hunk and where the left side ends
//! after it, so that common context is shown once and the gap towards the
//! hunk is filled.

use vstd::prelude::*;
use crate::pairs::{is_common, lhs_of, rhs_of, to_lhs_iter, to_rhs_iter, LinePair};

verus! {

/// Length of the leading run of common pairs of `s`.
pub open spec fn leading_common(s: Seq<LinePair>) -> nat
    decreases s.len(),
{
    if s.len() > 0 && is_common(s[0]) {
        1 + leading_common(s.drop_first())
    } else {
        0
    }
}

/// Length of the trailing run of common pairs of `s`.
pub open spec fn trailing_common(s: Seq<LinePair>) -> nat
    decreases s.len(),
{
    if s.len() > 0 && is_common(s.last()) {
        1 + trailing_common(s.drop_last())
    } else {
        0
    }
}

/// The first right line to show for a hunk whose before-context is
/// `before`: the right side of the first uncommon context pair, or else
/// the line after the last common context line when it still comes
/// before the hunk's first right line.
pub open spec fn first_rhs_spec(before: Seq<LinePair>, hunk: Seq<LinePair>) -> Option<u32> {
    let n = leading_common(before);
    if n < before.len() {
        before[n as int].1
    } else if n > 0 {
        let hr = rhs_of(hunk);
        match before[n - 1].1 {
            Some(a) => if hr.len() > 0 && a < hr[0] {
                Some((a + 1) as u32)
            } else {
                None
            },
            None => None,
        }
    } else {
        None
    }
}

/// The last left line to show for a hunk whose after-context is `after`:
/// the left side of the last uncommon context pair, or else the line
/// before the first common context line when it still comes after the
/// hunk's last left line.
pub open spec fn last_lhs_spec(after: Seq<LinePair>, hunk: Seq<LinePair>) -> Option<u32> {
    let n = trailing_common(after);
    let k = after.len() - n;
    if k > 0 {
        after[k - 1].0
    } else if n > 0 {
        let hl = lhs_of(hunk);
        match after[0].0 {
            Some(b) => if hl.len() > 0 && hl.last() < b {
                Some((b - 1) as u32)
            } else {
                None
            },
            None => None,
        }
    } else {
        None
    }
}

pub proof fn lemma_trailing_common_le(s: Seq<LinePair>)
    ensures
        trailing_common(s) <= s.len(),
    decreases s.len(),
{
    if s.len() > 0 && is_common(s.last()) {
        lemma_trailing_common_le(s.drop_last());
    }
}

/// Counts the leading common pairs of `s`.
fn count_leading_common(s: &[LinePair]) -> (n: usize)
    ensures
        n == leading_common(s@),
        n <= s@.len(),
{
    let mut i: usize = 0;
    assert(s@.subrange(0, s@.len() as int) =~= s@);
    while i < s.len() && s[i].0.is_some() && s[i].1.is_some()
        invariant
            i <= s@.len(),
            i + leading_common(s@.subrange(i as int, s@.len() as int)) == leading_common(s@),
        decreases s@.len() - i,
    {
        let ghost rest = s@.subrange(i as int, s@.len() as int);
        assert(rest.drop_first() =~= s@.subrange(i + 1, s@.len() as int));
        assert(rest[0] == s@[i as int]);
        i = i + 1;
    }
    i
}

/// Counts the trailing common pairs of `s`.
fn count_trailing_common(s: &[LinePair]) -> (n: usize)
    ensures
        n == trailing_common(s@),
        n <= s@.len(),
{
    let mut j: usize = 0;
    assert(s@.subrange(0, s@.len() as int) =~= s@);
    while j < s.len() && s[s.len() - 1 - j].0.is_some() && s[s.len() - 1 - j].1.is_some()
        invariant
            j <= s@.len(),
            j + trailing_common(s@.subrange(0, s@.len() - j)) == trailing_common(s@),
        decreases s@.len() - j,
    {
        let ghost rest = s@.subrange(0, s@.len() - j);
        assert(rest.drop_last() =~= s@.subrange(0, s@.len() - j - 1));
        assert(rest.last() == s@[s@.len() - 1 - j]);
        j = j + 1;
    }
    proof {
        lemma_trailing_common_le(s@);
    }
    j
}

/// The first right line to print for `hunk`, given its before-context.
pub fn first_rhs_line(before: &[LinePair], hunk: &[LinePair]) -> (r: Option<u32>)
    ensures
        r == first_rhs_spec(before@, hunk@),
{
    let n = count_leading_common(before);
    if n < before.len() {
        before[n].1
    } else if n > 0 {
        match before[n - 1].1 {
            Some(a) => {
                let hr = to_rhs_iter(hunk);
                if hr.len() > 0 && a < hr[0] {
                    Some(a + 1)
                } else {
                    None
                }
            },
            None => None,
        }
    } else {
        None
    }
}

/// The last left line to print for `hunk`, given its after-context.
pub fn last_lhs_line(after: &[LinePair], hunk: &[LinePair]) -> (r: Option<u32>)
    ensures
        r == last_lhs_spec(after@, hunk@),
{
    let n = count_trailing_common(after);
    let k = after.len() - n;
    if k > 0 {
        after[k - 1].0
    } else if n > 0 {
        match after[0].0 {
            Some(b) => {
                let hl = to_lhs_iter(hunk);
                if hl.len() > 0 && hl[hl.len() - 1] < b {
                    Some(b - 1)
                } else {
                    None
                }
            },
            None => None,
        }
    } else {
        None
    }
}

/// The resolved boundaries depend on the context window and the hunk's
/// pairs alone: the same window and pairs give the same boundary lines.
pub proof fn lemma_boundary_deterministic(
    window1: Seq<LinePair>,
    hunk1: Seq<LinePair>,
    window2: Seq<LinePair>,
    hunk2: Seq<LinePair>,
)
    requires
        window1 == window2,
        hunk1 == hunk2,
    ensures
        first_rhs_spec(window1, hunk1) == first_rhs_spec(window2, hunk2),
        last_lhs_spec(window1, hunk1) == last_lhs_spec(window2, hunk2),
{
}

} // verus!
