//! The printable interval of each side of a hunk, and the width of the
//! line-number column that both sides share.

use vstd::prelude::*;
use vstd::string::StrSliceExecFns;
use crate::boundary::{first_rhs_line, first_rhs_spec, last_lhs_line, last_lhs_spec};
use crate::pairs::{
    first_last_of, get_first_last, lhs_of, opt_seq, rhs_of, to_lhs_iter, to_rhs_iter, LinePair,
};

verus! {

/// The decimal digit `d` (below ten) as a character.
pub open spec fn digit_char(d: nat) -> char {
    if d == 0 { '0' }
    else if d == 1 { '1' }
    else if d == 2 { '2' }
    else if d == 3 { '3' }
    else if d == 4 { '4' }
    else if d == 5 { '5' }
    else if d == 6 { '6' }
    else if d == 7 { '7' }
    else if d == 8 { '8' }
    else { '9' }
}

/// `n` written in decimal, without leading zeros.
pub open spec fn decimal(n: nat) -> Seq<char>
    decreases n,
{
    if n < 10 {
        seq![digit_char(n)]
    } else {
        decimal(n / 10).push(digit_char(n % 10))
    }
}

/// How zero-based line `n` is shown: its one-based number in decimal.
pub open spec fn shown_line(n: u32) -> Seq<char> {
    decimal(n as nat + 1)
}

/// Relies on line_numbers::LineNumber::display, which formats the
/// one-based line number (`self.0 + 1`) in decimal.
#[verifier::external_body]
fn display_line_num(n: u32) -> (r: String)
    requires
        n < u32::MAX,
    ensures
        r@ == shown_line(n),
{
    line_numbers::LineNumber(n).display()
}

/// Every left line number that `s` holds is below `lhs_bound`, and every
/// right one below `rhs_bound`.
pub open spec fn sides_below(s: Seq<LinePair>, lhs_bound: u32, rhs_bound: u32) -> bool {
    forall|i: int|
        0 <= i < s.len() ==> (match #[trigger] s[i] {
            (l, r) => (l matches Some(v) ==> v < lhs_bound) && (r matches Some(v) ==> v < rhs_bound),
        })
}

/// Every line number that `s` holds, on either side, is below `bound`.
pub open spec fn pairs_below(s: Seq<LinePair>, bound: u32) -> bool {
    sides_below(s, bound, bound)
}

/// All left line numbers that the hunk's left interval is built from.
pub open spec fn all_lhs(before: Seq<LinePair>, hunk: Seq<LinePair>, after: Seq<LinePair>) -> Seq<u32> {
    lhs_of(before) + lhs_of(hunk) + opt_seq(last_lhs_spec(after, hunk))
}

/// All right line numbers that the hunk's right interval is built from.
pub open spec fn all_rhs(before: Seq<LinePair>, hunk: Seq<LinePair>, after: Seq<LinePair>) -> Seq<u32> {
    opt_seq(first_rhs_spec(before, hunk)) + rhs_of(hunk) + rhs_of(after)
}

/// The last line of the larger interval, or zero when there is none.
pub open spec fn max_shown(lhs: Option<(u32, u32)>, rhs: Option<(u32, u32)>) -> u32 {
    match (lhs, rhs) {
        (Some(l), Some(r)) => if l.1 >= r.1 { l.1 } else { r.1 },
        (Some(l), None) => l.1,
        (None, Some(r)) => r.1,
        (None, None) => 0,
    }
}

/// What is printed of one hunk apart from the text: the inclusive interval
/// of line numbers of each side, absent where that side shows nothing, and
/// the width of the line-number column.
pub struct HunkLayout {
    pub lhs: Option<(u32, u32)>,
    pub rhs: Option<(u32, u32)>,
    pub column_width: usize,
}

/// The layout of a hunk, as a function of its pairs and its context.
pub open spec fn layout_spec(before: Seq<LinePair>, hunk: Seq<LinePair>, after: Seq<LinePair>) -> (
    Option<(u32, u32)>,
    Option<(u32, u32)>,
    nat,
) {
    let lhs = first_last_of(all_lhs(before, hunk, after));
    let rhs = first_last_of(all_rhs(before, hunk, after));
    (lhs, rhs, shown_line(max_shown(lhs, rhs)).len())
}

proof fn lemma_side_values_below(s: Seq<LinePair>, lb: u32, rb: u32)
    requires
        sides_below(s, lb, rb),
    ensures
        forall|i: int| 0 <= i < lhs_of(s).len() ==> lhs_of(s)[i] < lb,
        forall|i: int| 0 <= i < rhs_of(s).len() ==> rhs_of(s)[i] < rb,
    decreases s.len(),
{
    if s.len() > 0 {
        let t = s.drop_last();
        assert forall|i: int| 0 <= i < t.len() implies (match #[trigger] t[i] {
            (l, r) => (l matches Some(v) ==> v < lb) && (r matches Some(v) ==> v < rb),
        }) by {
            assert(t[i] == s[i]);
        }
        lemma_side_values_below(t, lb, rb);
        lemma_pair_below(s, lb, rb, s.len() - 1);
        assert(s[s.len() - 1] == s.last());
        assert forall|i: int| 0 <= i < lhs_of(s).len() implies lhs_of(s)[i] < lb by {
            if i < lhs_of(t).len() {
                assert(lhs_of(s)[i] == lhs_of(t)[i]);
            }
        }
        assert forall|i: int| 0 <= i < rhs_of(s).len() implies rhs_of(s)[i] < rb by {
            if i < rhs_of(t).len() {
                assert(rhs_of(s)[i] == rhs_of(t)[i]);
            }
        }
    }
}

proof fn lemma_pair_below(s: Seq<LinePair>, lb: u32, rb: u32, i: int)
    requires
        sides_below(s, lb, rb),
        0 <= i < s.len(),
    ensures
        s[i].0 matches Some(v) ==> v < lb,
        s[i].1 matches Some(v) ==> v < rb,
{
}

proof fn lemma_all_below(
    before: Seq<LinePair>,
    hunk: Seq<LinePair>,
    after: Seq<LinePair>,
    lb: u32,
    rb: u32,
)
    requires
        sides_below(before, lb, rb),
        sides_below(hunk, lb, rb),
        sides_below(after, lb, rb),
    ensures
        forall|i: int| 0 <= i < all_lhs(before, hunk, after).len() ==> all_lhs(before, hunk, after)[i] < lb,
        forall|i: int| 0 <= i < all_rhs(before, hunk, after).len() ==> all_rhs(before, hunk, after)[i] < rb,
{
    lemma_side_values_below(before, lb, rb);
    lemma_side_values_below(hunk, lb, rb);
    lemma_side_values_below(after, lb, rb);
    let n = crate::boundary::trailing_common(after);
    crate::boundary::lemma_trailing_common_le(after);
    let k = after.len() - n;
    if k > 0 {
        lemma_pair_below(after, lb, rb, k - 1);
    }
    let m = crate::boundary::leading_common(before);
    if m < before.len() {
        lemma_pair_below(before, lb, rb, m as int);
    }
    let l = all_lhs(before, hunk, after);
    let r = all_rhs(before, hunk, after);
    assert forall|i: int| 0 <= i < l.len() implies l[i] < lb by {
        if i >= lhs_of(before).len() + lhs_of(hunk).len() {
        } else if i >= lhs_of(before).len() {
            assert(l[i] == lhs_of(hunk)[i - lhs_of(before).len()]);
        } else {
            assert(l[i] == lhs_of(before)[i]);
        }
    }
    assert forall|i: int| 0 <= i < r.len() implies r[i] < rb by {
        let o = opt_seq(first_rhs_spec(before, hunk)).len();
        if i >= o + rhs_of(hunk).len() {
            assert(r[i] == rhs_of(after)[i - o - rhs_of(hunk).len()]);
        } else if i >= o {
            assert(r[i] == rhs_of(hunk)[i - o]);
        }
    }
}

/// When every left line number of the context and the hunk is below
/// `lhs_count` and every right one below `rhs_count` (the number of lines
/// of each source), both intervals end inside their source: the view
/// never reaches past the last line of either side.
pub proof fn lemma_intervals_within_source(
    before: Seq<LinePair>,
    hunk: Seq<LinePair>,
    after: Seq<LinePair>,
    lhs_count: u32,
    rhs_count: u32,
)
    requires
        sides_below(before, lhs_count, rhs_count),
        sides_below(hunk, lhs_count, rhs_count),
        sides_below(after, lhs_count, rhs_count),
    ensures
        layout_spec(before, hunk, after).0 matches Some((first, last)) ==> first < lhs_count && last < lhs_count,
        layout_spec(before, hunk, after).1 matches Some((first, last)) ==> first < rhs_count && last < rhs_count,
{
    lemma_all_below(before, hunk, after, lhs_count, rhs_count);
    let l = all_lhs(before, hunk, after);
    let r = all_rhs(before, hunk, after);
    if l.len() > 0 {
        assert(l[l.len() - 1] == l.last());
    }
    if r.len() > 0 {
        assert(r[r.len() - 1] == r.last());
    }
}

/// Appends `src` to `dst`.
fn push_all(dst: &mut Vec<u32>, src: &Vec<u32>)
    ensures
        final(dst)@ == old(dst)@ + src@,
{
    let mut i: usize = 0;
    let ghost start = dst@;
    while i < src.len()
        invariant
            i <= src@.len(),
            dst@ == start + src@.subrange(0, i as int),
        decreases src@.len() - i,
    {
        dst.push(src[i]);
        i = i + 1;
        assert(dst@ =~= start + src@.subrange(0, i as int));
    }
    assert(src@.subrange(0, src@.len() as int) =~= src@);
}

/// The printable intervals of a hunk and the column width they share.
///
/// The left interval runs over the before-context, the hunk and the last
/// left boundary line; the right interval over the first right boundary
/// line, the hunk and the after-context. The width is that of the larger
/// interval end as shown (one-based, in decimal).
pub fn hunk_layout(before: &[LinePair], hunk: &[LinePair], after: &[LinePair]) -> (r: HunkLayout)
    requires
        pairs_below(before@, u32::MAX),
        pairs_below(hunk@, u32::MAX),
        pairs_below(after@, u32::MAX),
    ensures
        (r.lhs, r.rhs, r.column_width as nat) == layout_spec(before@, hunk@, after@),
{
    let last_lhs = last_lhs_line(after, hunk);
    let first_rhs = first_rhs_line(before, hunk);

    let mut lhs_values = to_lhs_iter(before);
    let hunk_lhs = to_lhs_iter(hunk);
    push_all(&mut lhs_values, &hunk_lhs);
    if let Some(v) = last_lhs {
        lhs_values.push(v);
    }
    assert(lhs_values@ =~= all_lhs(before@, hunk@, after@));

    let mut rhs_values: Vec<u32> = Vec::new();
    if let Some(v) = first_rhs {
        rhs_values.push(v);
    }
    let hunk_rhs = to_rhs_iter(hunk);
    let after_rhs = to_rhs_iter(after);
    push_all(&mut rhs_values, &hunk_rhs);
    push_all(&mut rhs_values, &after_rhs);
    assert(rhs_values@ =~= all_rhs(before@, hunk@, after@));

    let lhs = get_first_last(lhs_values.as_slice());
    let rhs = get_first_last(rhs_values.as_slice());

    let max_line: u32 = match (lhs, rhs) {
        (Some(l), Some(r)) => if l.1 >= r.1 { l.1 } else { r.1 },
        (Some(l), None) => l.1,
        (None, Some(r)) => r.1,
        (None, None) => 0,
    };
    proof {
        lemma_all_below(before@, hunk@, after@, u32::MAX, u32::MAX);
    }
    let shown = display_line_num(max_line);
    let column_width = shown.as_str().unicode_len();
    HunkLayout { lhs, rhs, column_width }
}

} // verus!
