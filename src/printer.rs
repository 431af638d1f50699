//! The lines printed for a hunk: each side's interval walked line by line,
//! each line marked novel when it is the next of the hunk's own lines on
//! that side.

use vstd::prelude::*;
use crate::boundary::{
    first_rhs_spec, last_lhs_spec, leading_common, lemma_trailing_common_le, trailing_common,
};
use crate::layout::{all_lhs, all_rhs, hunk_layout, layout_spec, pairs_below};
use crate::pairs::{lhs_of, opt_seq, rhs_of, to_lhs_iter, to_rhs_iter, LinePair};

verus! {

/// The lines from `first` on, `n` of them, each with whether it is novel:
/// a single cursor over `vals` moves on when the line equals its value.
pub open spec fn marked_lines(first: int, n: nat, vals: Seq<u32>) -> Seq<(u32, bool)>
    decreases n,
{
    if n == 0 {
        Seq::empty()
    } else {
        let novel = vals.len() > 0 && vals[0] == first;
        seq![(first as u32, novel)] + marked_lines(
            first + 1,
            (n - 1) as nat,
            if novel { vals.drop_first() } else { vals },
        )
    }
}

/// The block of one side: nothing when the side has no interval, else
/// every line of the interval with its novelty.
pub open spec fn block_spec(interval: Option<(u32, u32)>, vals: Seq<u32>) -> Seq<(u32, bool)> {
    match interval {
        Some((first, last)) => if first <= last {
            marked_lines(first as int, (last - first + 1) as nat, vals)
        } else {
            Seq::empty()
        },
        None => Seq::empty(),
    }
}

/// The lines of one side's block, from `interval` and the hunk's own
/// values `vals` on that side.
pub fn side_block(interval: Option<(u32, u32)>, vals: &Vec<u32>) -> (r: Vec<(u32, bool)>)
    ensures
        r@ == block_spec(interval, vals@),
{
    let mut out: Vec<(u32, bool)> = Vec::new();
    match interval {
        None => out,
        Some((first, last)) => {
            if first > last {
                return out;
            }
            let ghost total = (last - first + 1) as nat;
            let mut line: u64 = first as u64;
            let mut k: usize = 0;
            assert(vals@.subrange(0, vals@.len() as int) =~= vals@);
            assert(out@ + marked_lines(first as int, total, vals@) =~= marked_lines(first as int, total, vals@));
            while line <= last as u64
                invariant
                    first <= line <= last as u64 + 1,
                    k <= vals@.len(),
                    total == last - first + 1,
                    out@ + marked_lines(line as int, (last + 1 - line) as nat, vals@.subrange(k as int, vals@.len() as int))
                        == marked_lines(first as int, total, vals@),
                decreases last as u64 + 1 - line,
            {
                let ghost rest = vals@.subrange(k as int, vals@.len() as int);
                let ghost m = (last + 1 - line) as nat;
                let novel = k < vals.len() && vals[k] as u64 == line;
                proof {
                    if k < vals@.len() {
                        assert(rest[0] == vals@[k as int]);
                        assert(rest.drop_first() =~= vals@.subrange(k + 1, vals@.len() as int));
                    }
                }
                let ghost next_rest = if novel { vals@.subrange(k + 1, vals@.len() as int) } else { rest };
                assert(marked_lines(line as int, m, rest)
                    == seq![(line as u32, novel)] + marked_lines(line + 1, (m - 1) as nat, next_rest));
                out.push((line as u32, novel));
                if novel {
                    k = k + 1;
                }
                line = line + 1;
                assert(out@ + marked_lines(line as int, (last + 1 - line) as nat, vals@.subrange(k as int, vals@.len() as int))
                    =~= marked_lines(first as int, total, vals@));
            }
            out
        },
    }
}

/// Why a hunk cannot be printed.
#[derive(Debug, Clone, Copy, PartialEq, Eq, Structural)]
pub enum RenderError {
    /// An interval whose first line comes after its last.
    MalformedInterval,
    /// An interval that reaches past the lines the side has.
    LineOutOfRange,
}

/// Everything printed of a hunk but the text: the left block, the right
/// block, and the width of the line-number column of both.
pub struct HunkView {
    pub lhs_lines: Vec<(u32, bool)>,
    pub rhs_lines: Vec<(u32, bool)>,
    pub column_width: usize,
}

/// The interval is present and runs backwards.
pub open spec fn is_malformed(interval: Option<(u32, u32)>) -> bool {
    interval matches Some((first, last)) && first > last
}

/// The interval is present and ends at or past `count` lines.
pub open spec fn exceeds(interval: Option<(u32, u32)>, count: usize) -> bool {
    interval matches Some((first, last)) && last >= count
}

/// Lays out and marks one hunk. `lhs_count` and `rhs_count` are how many
/// lines each side has to print from.
pub fn render_hunk(
    before: &[LinePair],
    hunk: &[LinePair],
    after: &[LinePair],
    lhs_count: usize,
    rhs_count: usize,
) -> (r: Result<HunkView, RenderError>)
    requires
        pairs_below(before@, u32::MAX),
        pairs_below(hunk@, u32::MAX),
        pairs_below(after@, u32::MAX),
    ensures
        ({
            let (l, rr, w) = layout_spec(before@, hunk@, after@);
            &&& (r == Err::<HunkView, RenderError>(RenderError::MalformedInterval)
                <==> is_malformed(l) || is_malformed(rr))
            &&& (r == Err::<HunkView, RenderError>(RenderError::LineOutOfRange)
                <==> !is_malformed(l) && !is_malformed(rr) && (exceeds(l, lhs_count) || exceeds(rr, rhs_count)))
            &&& (r matches Ok(v) ==> {
                &&& v.lhs_lines@ == block_spec(l, lhs_of(hunk@))
                &&& v.rhs_lines@ == block_spec(rr, rhs_of(hunk@))
                &&& v.column_width == w
            })
        }),
{
    let layout = hunk_layout(before, hunk, after);
    let lhs_bad = match layout.lhs {
        Some((first, last)) => first > last,
        None => false,
    };
    let rhs_bad = match layout.rhs {
        Some((first, last)) => first > last,
        None => false,
    };
    if lhs_bad || rhs_bad {
        return Err(RenderError::MalformedInterval);
    }
    let lhs_out = match layout.lhs {
        Some((_, last)) => last as usize >= lhs_count,
        None => false,
    };
    let rhs_out = match layout.rhs {
        Some((_, last)) => last as usize >= rhs_count,
        None => false,
    };
    if lhs_out || rhs_out {
        return Err(RenderError::LineOutOfRange);
    }
    let hunk_lhs = to_lhs_iter(hunk);
    let hunk_rhs = to_rhs_iter(hunk);
    let lhs_lines = side_block(layout.lhs, &hunk_lhs);
    let rhs_lines = side_block(layout.rhs, &hunk_rhs);
    Ok(HunkView { lhs_lines, rhs_lines, column_width: layout.column_width })
}

/// `vals` is strictly increasing.
pub open spec fn strictly_increasing(vals: Seq<u32>) -> bool {
    forall|i: int, j: int| 0 <= i < j < vals.len() ==> vals[i] < vals[j]
}

proof fn lemma_marked_shape(first: int, n: nat, vals: Seq<u32>)
    requires
        0 <= first,
        first + n <= u32::MAX + 1,
    ensures
        marked_lines(first, n, vals).len() == n,
        forall|i: int| 0 <= i < n ==> #[trigger] marked_lines(first, n, vals)[i].0 == first + i,
    decreases n,
{
    if n > 0 {
        let novel = vals.len() > 0 && vals[0] == first;
        let rest = if novel { vals.drop_first() } else { vals };
        lemma_marked_shape(first + 1, (n - 1) as nat, rest);
        let m = marked_lines(first, n, vals);
        let tail = marked_lines(first + 1, (n - 1) as nat, rest);
        assert forall|i: int| 0 <= i < n implies #[trigger] m[i].0 == first + i by {
            if i > 0 {
                assert(m[i] == tail[i - 1]);
            }
        }
    }
}

proof fn lemma_marked_novel(first: int, n: nat, vals: Seq<u32>)
    requires
        0 <= first,
        first + n <= u32::MAX + 1,
        strictly_increasing(vals),
        forall|j: int| 0 <= j < vals.len() ==> first <= #[trigger] vals[j] < first + n,
    ensures
        forall|i: int| 0 <= i < n ==> (#[trigger] marked_lines(first, n, vals)[i].1
            <==> exists|j: int| 0 <= j < vals.len() && vals[j] == first + i),
    decreases n,
{
    if n > 0 {
        let novel = vals.len() > 0 && vals[0] == first;
        let rest = if novel { vals.drop_first() } else { vals };
        assert forall|j: int| 0 <= j < vals.len() implies first < #[trigger] vals[j] || (j == 0 && novel) by {
            if j > 0 {
                assert(vals[0] < vals[j]);
            }
        }
        assert forall|j: int| 0 <= j < rest.len() implies first + 1 <= #[trigger] rest[j] < first + 1 + (n - 1) by {
            if novel {
                assert(rest[j] == vals[j + 1]);
                assert(vals[0] < vals[j + 1]);
            }
        }
        assert(strictly_increasing(rest)) by {
            if novel {
                assert forall|i: int, j: int| 0 <= i < j < rest.len() implies rest[i] < rest[j] by {
                    assert(rest[i] == vals[i + 1] && rest[j] == vals[j + 1]);
                }
            }
        }
        lemma_marked_novel(first + 1, (n - 1) as nat, rest);
        lemma_marked_shape(first + 1, (n - 1) as nat, rest);
        let m = marked_lines(first, n, vals);
        let tail = marked_lines(first + 1, (n - 1) as nat, rest);
        assert forall|i: int| 0 <= i < n implies (#[trigger] m[i].1
            <==> exists|j: int| 0 <= j < vals.len() && vals[j] == first + i) by {
            if i > 0 {
                assert(m[i] == tail[i - 1]);
                if tail[i - 1].1 {
                    let j = choose|j: int| 0 <= j < rest.len() && rest[j] == first + 1 + (i - 1);
                    if novel {
                        assert(vals[j + 1] == rest[j]);
                    } else {
                        assert(vals[j] == rest[j]);
                    }
                }
                if exists|j: int| 0 <= j < vals.len() && vals[j] == first + i {
                    let j = choose|j: int| 0 <= j < vals.len() && vals[j] == first + i;
                    if novel {
                        assert(j != 0);
                        assert(rest[j - 1] == vals[j]);
                    } else {
                        assert(rest[j] == vals[j]);
                    }
                }
            }
        }
    }
}

/// Each line of a block is the successor of the line before it, from the
/// interval's first line to its last.
pub proof fn lemma_block_contiguous(interval: Option<(u32, u32)>, vals: Seq<u32>)
    ensures
        forall|i: int| 0 < i < block_spec(interval, vals).len()
            ==> #[trigger] block_spec(interval, vals)[i].0 == block_spec(interval, vals)[i - 1].0 + 1,
        match interval {
            Some((first, last)) => first <= last ==> {
                &&& block_spec(interval, vals).len() == last - first + 1
                &&& block_spec(interval, vals)[0].0 == first
                &&& block_spec(interval, vals).last().0 == last
            },
            None => block_spec(interval, vals).len() == 0,
        },
{
    if let Some((first, last)) = interval {
        if first <= last {
            lemma_marked_shape(first as int, (last - first + 1) as nat, vals);
            let b = block_spec(interval, vals);
            assert forall|i: int| 0 < i < b.len() implies #[trigger] b[i].0 == b[i - 1].0 + 1 by {
                assert(b[i].0 == first + i);
                assert(b[i - 1].0 == first + i - 1);
            }
            assert(b[b.len() - 1].0 == last);
        }
    }
}

/// No line number appears twice in a block.
pub proof fn lemma_block_no_repeats(interval: Option<(u32, u32)>, vals: Seq<u32>)
    ensures
        forall|i: int, j: int| 0 <= i < j < block_spec(interval, vals).len()
            ==> block_spec(interval, vals)[i].0 != block_spec(interval, vals)[j].0,
{
    if let Some((first, last)) = interval {
        if first <= last {
            lemma_marked_shape(first as int, (last - first + 1) as nat, vals);
        }
    }
}

/// When the hunk's values on a side are strictly increasing and lie in the
/// interval, the novel lines of the block are exactly those values: a line
/// is novel if and only if it is one of them, and each of them is printed
/// as a novel line.
pub proof fn lemma_block_novel_exact(first: u32, last: u32, vals: Seq<u32>)
    requires
        first <= last,
        strictly_increasing(vals),
        forall|j: int| 0 <= j < vals.len() ==> first <= #[trigger] vals[j] <= last,
    ensures
        forall|i: int| 0 <= i < block_spec(Some((first, last)), vals).len()
            ==> (#[trigger] block_spec(Some((first, last)), vals)[i].1
                <==> vals.contains(block_spec(Some((first, last)), vals)[i].0)),
        forall|j: int| 0 <= j < vals.len() ==> #[trigger] block_spec(Some((first, last)), vals).contains(
            (vals[j], true),
        ),
{
    let n = (last - first + 1) as nat;
    let b = block_spec(Some((first, last)), vals);
    lemma_marked_shape(first as int, n, vals);
    lemma_marked_novel(first as int, n, vals);
    assert forall|i: int| 0 <= i < b.len() implies (#[trigger] b[i].1 <==> vals.contains(b[i].0)) by {
        assert(b[i].0 == first + i);
        if vals.contains(b[i].0) {
            let j = choose|j: int| 0 <= j < vals.len() && vals[j] == b[i].0;
            assert(vals[j] == first + i);
        }
        if b[i].1 {
            let j = choose|j: int| 0 <= j < vals.len() && vals[j] == first + i;
            assert(vals[j] == b[i].0);
        }
    }
    assert forall|j: int| 0 <= j < vals.len() implies #[trigger] b.contains((vals[j], true)) by {
        let i = vals[j] - first;
        assert(b[i].0 == first + i);
        assert(vals.contains(b[i].0));
        assert(b[i] == (vals[j], true));
    }
}

/// Rendering is a function of its inputs: the same pairs, context and line
/// counts give the same layout and the same blocks.
pub proof fn lemma_render_deterministic(
    before1: Seq<LinePair>,
    hunk1: Seq<LinePair>,
    after1: Seq<LinePair>,
    before2: Seq<LinePair>,
    hunk2: Seq<LinePair>,
    after2: Seq<LinePair>,
)
    requires
        before1 == before2,
        hunk1 == hunk2,
        after1 == after2,
    ensures
        layout_spec(before1, hunk1, after1) == layout_spec(before2, hunk2, after2),
        block_spec(layout_spec(before1, hunk1, after1).0, lhs_of(hunk1))
            == block_spec(layout_spec(before2, hunk2, after2).0, lhs_of(hunk2)),
        block_spec(layout_spec(before1, hunk1, after1).1, rhs_of(hunk1))
            == block_spec(layout_spec(before2, hunk2, after2).1, rhs_of(hunk2)),
{
}

proof fn lemma_present_in_projection(s: Seq<LinePair>, i: int)
    requires
        0 <= i < s.len(),
    ensures
        s[i].0 matches Some(v) ==> lhs_of(s).contains(v),
        s[i].1 matches Some(v) ==> rhs_of(s).contains(v),
    decreases s.len(),
{
    let t = s.drop_last();
    if i < s.len() - 1 {
        assert(t[i] == s[i]);
        lemma_present_in_projection(t, i);
        if let Some(v) = s[i].0 {
            let j = choose|j: int| 0 <= j < lhs_of(t).len() && lhs_of(t)[j] == v;
            assert(lhs_of(s)[j] == v);
        }
        if let Some(v) = s[i].1 {
            let j = choose|j: int| 0 <= j < rhs_of(t).len() && rhs_of(t)[j] == v;
            assert(rhs_of(s)[j] == v);
        }
    } else {
        assert(s[i] == s.last());
        if let Some(v) = s[i].0 {
            assert(lhs_of(s)[lhs_of(s).len() - 1] == v);
        }
        if let Some(v) = s[i].1 {
            assert(rhs_of(s)[rhs_of(s).len() - 1] == v);
        }
    }
}

proof fn lemma_middle_increasing(a: Seq<u32>, b: Seq<u32>, c: Seq<u32>)
    requires
        strictly_increasing(a + b + c),
    ensures
        strictly_increasing(b),
        forall|i: int, j: int| 0 <= i < a.len() && 0 <= j < b.len() ==> a[i] < b[j],
        forall|i: int, j: int| 0 <= i < b.len() && 0 <= j < c.len() ==> b[i] < c[j],
{
    let s = a + b + c;
    assert forall|i: int, j: int| 0 <= i < j < b.len() implies b[i] < b[j] by {
        assert(s[a.len() + i] == b[i] && s[a.len() + j] == b[j]);
    }
    assert forall|i: int, j: int| 0 <= i < a.len() && 0 <= j < b.len() implies a[i] < b[j] by {
        assert(s[i] == a[i] && s[a.len() + j] == b[j]);
    }
    assert forall|i: int, j: int| 0 <= i < b.len() && 0 <= j < c.len() implies b[i] < c[j] by {
        assert(s[a.len() + i] == b[i] && s[a.len() + b.len() + j] == c[j]);
    }
}

/// When the left line numbers of the before-context, the hunk and the
/// after-context together are strictly increasing, the novel lines of the
/// left block are exactly the hunk's own left lines.
pub proof fn lemma_hunk_novel_lhs(before: Seq<LinePair>, hunk: Seq<LinePair>, after: Seq<LinePair>)
    requires
        strictly_increasing(lhs_of(before) + lhs_of(hunk) + lhs_of(after)),
    ensures
        forall|i: int| 0 <= i < block_spec(layout_spec(before, hunk, after).0, lhs_of(hunk)).len()
            ==> (#[trigger] block_spec(layout_spec(before, hunk, after).0, lhs_of(hunk))[i].1
                <==> lhs_of(hunk).contains(block_spec(layout_spec(before, hunk, after).0, lhs_of(hunk))[i].0)),
        forall|j: int| 0 <= j < lhs_of(hunk).len()
            ==> #[trigger] block_spec(layout_spec(before, hunk, after).0, lhs_of(hunk)).contains(
                (lhs_of(hunk)[j], true),
            ),
{
    let a = lhs_of(before);
    let b = lhs_of(hunk);
    let c = lhs_of(after);
    lemma_middle_increasing(a, b, c);
    let all = all_lhs(before, hunk, after);
    let x = last_lhs_spec(after, hunk);
    if let Some((first, last)) = layout_spec(before, hunk, after).0 {
        assert(first == all[0] && last == all.last());
        if b.len() > 0 {
            assert(all.len() > 0);
            if a.len() > 0 {
                assert(first == a[0]);
            } else {
                assert(first == b[0]);
            }
            assert(b[b.len() - 1] <= last) by {
                if let Some(v) = x {
                    assert(last == v);
                    let n = trailing_common(after);
                    lemma_trailing_common_le(after);
                    let k = after.len() - n;
                    if k > 0 {
                        lemma_present_in_projection(after, k - 1);
                        let m = choose|m: int| 0 <= m < c.len() && c[m] == v;
                        assert(b[b.len() - 1] < c[m]);
                    }
                } else {
                    assert(all =~= a + b);
                    assert(last == b[b.len() - 1]);
                }
            }
            assert forall|j: int| 0 <= j < b.len() implies first <= #[trigger] b[j] <= last by {
                if a.len() > 0 {
                    assert(a[0] < b[j]);
                } else if j > 0 {
                    assert(b[0] < b[j]);
                }
                if j < b.len() - 1 {
                    assert(b[j] < b[b.len() - 1]);
                }
            }
            lemma_block_novel_exact(first, last, b);
        } else if first <= last {
            lemma_block_novel_exact(first, last, b);
        }
    }
}

/// When the right line numbers of the before-context, the hunk and the
/// after-context together are strictly increasing, the novel lines of the
/// right block are exactly the hunk's own right lines.
pub proof fn lemma_hunk_novel_rhs(before: Seq<LinePair>, hunk: Seq<LinePair>, after: Seq<LinePair>)
    requires
        strictly_increasing(rhs_of(before) + rhs_of(hunk) + rhs_of(after)),
    ensures
        forall|i: int| 0 <= i < block_spec(layout_spec(before, hunk, after).1, rhs_of(hunk)).len()
            ==> (#[trigger] block_spec(layout_spec(before, hunk, after).1, rhs_of(hunk))[i].1
                <==> rhs_of(hunk).contains(block_spec(layout_spec(before, hunk, after).1, rhs_of(hunk))[i].0)),
        forall|j: int| 0 <= j < rhs_of(hunk).len()
            ==> #[trigger] block_spec(layout_spec(before, hunk, after).1, rhs_of(hunk)).contains(
                (rhs_of(hunk)[j], true),
            ),
{
    let a = rhs_of(before);
    let b = rhs_of(hunk);
    let c = rhs_of(after);
    lemma_middle_increasing(a, b, c);
    let all = all_rhs(before, hunk, after);
    let y = first_rhs_spec(before, hunk);
    let o = opt_seq(y);
    if let Some((first, last)) = layout_spec(before, hunk, after).1 {
        assert(first == all[0] && last == all.last());
        if b.len() > 0 {
            assert(first <= b[0]) by {
                if let Some(v) = y {
                    assert(first == v);
                    let n = leading_common(before);
                    if n < before.len() {
                        lemma_present_in_projection(before, n as int);
                        let m = choose|m: int| 0 <= m < a.len() && a[m] == v;
                        assert(a[m] < b[0]);
                    }
                } else {
                    assert(all =~= b + c);
                    assert(first == b[0]);
                }
            }
            if c.len() > 0 {
                assert(last == c[c.len() - 1]);
            } else {
                assert(all =~= o + b);
                assert(last == b[b.len() - 1]);
            }
            assert forall|j: int| 0 <= j < b.len() implies first <= #[trigger] b[j] <= last by {
                if j > 0 {
                    assert(b[0] < b[j]);
                }
                if c.len() > 0 {
                    assert(b[j] < c[c.len() - 1]);
                } else if j < b.len() - 1 {
                    assert(b[j] < b[b.len() - 1]);
                }
            }
            lemma_block_novel_exact(first, last, b);
        } else if first <= last {
            lemma_block_novel_exact(first, last, b);
        }
    }
}

} // verus!
