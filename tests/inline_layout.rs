use inline_display::boundary::{first_rhs_line, last_lhs_line};
use inline_display::layout::hunk_layout;
use inline_display::pairs::{get_first_last, to_lhs_iter, to_rhs_iter, LinePair};
use inline_display::printer::{render_hunk, side_block, HunkView, RenderError};

fn both(l: u32, r: u32) -> LinePair {
    (Some(l), Some(r))
}

fn left(l: u32) -> LinePair {
    (Some(l), None)
}

fn right(r: u32) -> LinePair {
    (None, Some(r))
}

fn view(before: &[LinePair], hunk: &[LinePair], after: &[LinePair], n: usize) -> HunkView {
    match render_hunk(before, hunk, after, n, n) {
        Ok(v) => v,
        Err(e) => panic!("unexpected error {:?}", e),
    }
}

fn lines(block: &[(u32, bool)]) -> Vec<u32> {
    block.iter().map(|(l, _)| *l).collect()
}

fn novel(block: &[(u32, bool)]) -> Vec<u32> {
    block.iter().filter(|(_, n)| *n).map(|(l, _)| *l).collect()
}

#[test]
fn projections_drop_absent_sides() {
    let pairs = vec![both(1, 2), left(3), right(4), both(5, 6)];
    assert_eq!(to_lhs_iter(&pairs), vec![1, 3, 5]);
    assert_eq!(to_rhs_iter(&pairs), vec![2, 4, 6]);
    assert_eq!(to_lhs_iter(&[]), Vec::<u32>::new());
}

#[test]
fn first_last_of_values() {
    assert_eq!(get_first_last(&[]), None);
    assert_eq!(get_first_last(&[7]), Some((7, 7)));
    assert_eq!(get_first_last(&[3, 4, 9]), Some((3, 9)));
}

#[test]
fn first_rhs_from_first_uncommon_pair() {
    let before = vec![both(1, 1), left(2), right(3)];
    let hunk = vec![right(5)];
    assert_eq!(first_rhs_line(&before, &hunk), None);
    let before = vec![both(1, 1), right(2), left(3)];
    assert_eq!(first_rhs_line(&before, &hunk), Some(2));
}

#[test]
fn first_rhs_after_last_common_line() {
    let before = vec![both(3, 3), both(4, 4)];
    assert_eq!(first_rhs_line(&before, &[right(5)]), Some(5));
    assert_eq!(first_rhs_line(&before, &[right(9)]), Some(5));
    // no gap towards the hunk
    assert_eq!(first_rhs_line(&before, &[right(4)]), None);
    // the hunk has no right line
    assert_eq!(first_rhs_line(&before, &[left(5)]), None);
    // empty window
    assert_eq!(first_rhs_line(&[], &[right(5)]), None);
}

#[test]
fn last_lhs_from_last_uncommon_pair() {
    let hunk = vec![left(5)];
    let after = vec![left(7), right(8), both(9, 9)];
    assert_eq!(last_lhs_line(&after, &hunk), None);
    let after = vec![right(7), left(8), both(9, 9)];
    assert_eq!(last_lhs_line(&after, &hunk), Some(8));
}

#[test]
fn last_lhs_before_first_common_line() {
    let after = vec![both(8, 8), both(9, 9)];
    assert_eq!(last_lhs_line(&after, &[left(5)]), Some(7));
    assert_eq!(last_lhs_line(&after, &[left(7)]), Some(7));
    // no gap towards the hunk
    assert_eq!(last_lhs_line(&after, &[left(8)]), None);
    assert_eq!(last_lhs_line(&after, &[right(5)]), None);
    assert_eq!(last_lhs_line(&[], &[left(5)]), None);
}

#[test]
fn boundaries_are_deterministic() {
    let before = vec![both(3, 3), both(4, 4)];
    let after = vec![both(8, 8), both(9, 9)];
    let hunk = vec![left(5), right(5)];
    assert_eq!(first_rhs_line(&before, &hunk), first_rhs_line(&before, &hunk));
    assert_eq!(last_lhs_line(&after, &hunk), last_lhs_line(&after, &hunk));
}

#[test]
fn pure_insertion_with_context() {
    let before = vec![both(3, 3), both(4, 4)];
    let hunk = vec![right(5)];
    let after = vec![both(5, 6), both(6, 7)];
    let layout = hunk_layout(&before, &hunk, &after);
    assert_eq!(layout.lhs, Some((3, 4)));
    assert_eq!(layout.rhs, Some((5, 7)));
    assert_eq!(layout.column_width, 1);
    let v = view(&before, &hunk, &after, 10);
    assert_eq!(v.lhs_lines, vec![(3, false), (4, false)]);
    assert_eq!(v.rhs_lines, vec![(5, true), (6, false), (7, false)]);
}

#[test]
fn pure_insertion_without_context() {
    let v = view(&[], &[right(5)], &[], 10);
    assert!(v.lhs_lines.is_empty());
    assert_eq!(v.rhs_lines, vec![(5, true)]);
}

#[test]
fn one_common_line_between_hunks() {
    // left 2 and left 4 are deleted; left 3 and right 2 are the same line
    let shared = both(3, 2);
    let first = view(&[both(0, 0), both(1, 1)], &[left(2)], &[shared], 10);
    let second = view(&[shared], &[left(4)], &[both(5, 3), both(6, 4)], 10);
    let mut lhs = lines(&first.lhs_lines);
    lhs.extend(lines(&second.lhs_lines));
    let mut rhs = lines(&first.rhs_lines);
    rhs.extend(lines(&second.rhs_lines));
    assert_eq!(lhs, vec![0, 1, 2, 3, 4]);
    assert_eq!(rhs, vec![2, 3, 4]);
    assert_eq!(lhs.iter().filter(|l| **l == 3).count(), 1);
    assert_eq!(rhs.iter().filter(|r| **r == 2).count(), 1);
}

#[test]
fn hunk_at_start_of_source() {
    let hunk = vec![left(0), right(0)];
    let after = vec![both(1, 1), both(2, 2)];
    let layout = hunk_layout(&[], &hunk, &after);
    assert_eq!(layout.lhs, Some((0, 0)));
    assert_eq!(layout.rhs, Some((0, 2)));
    let v = view(&[], &hunk, &after, 3);
    assert_eq!(v.lhs_lines, vec![(0, true)]);
    assert_eq!(v.rhs_lines, vec![(0, true), (1, false), (2, false)]);
}

#[test]
fn hunk_at_end_of_source() {
    let before = vec![both(2, 2), both(3, 3)];
    let hunk = vec![left(4), right(4)];
    let v = view(&before, &hunk, &[], 5);
    assert_eq!(v.lhs_lines, vec![(2, false), (3, false), (4, true)]);
    assert_eq!(v.rhs_lines, vec![(4, true)]);
    assert_eq!(
        render_hunk(&before, &hunk, &[], 4, 5).err(),
        Some(RenderError::LineOutOfRange)
    );
    assert_eq!(
        render_hunk(&before, &hunk, &[], 5, 4).err(),
        Some(RenderError::LineOutOfRange)
    );
}

#[test]
fn pure_deletion_with_context() {
    let before = vec![both(8, 8), both(9, 9)];
    let hunk = vec![left(10), left(11), left(12)];
    let after = vec![both(13, 10), both(14, 11)];
    let v = view(&before, &hunk, &after, 20);
    assert_eq!(
        v.lhs_lines,
        vec![(8, false), (9, false), (10, true), (11, true), (12, true)]
    );
    assert!(novel(&v.rhs_lines).is_empty());
    assert_eq!(v.rhs_lines, vec![(10, false), (11, false)]);
}

#[test]
fn pure_deletion_without_context() {
    let hunk = vec![left(10), left(11), left(12)];
    let v = view(&[], &hunk, &[], 20);
    assert!(v.rhs_lines.is_empty());
    assert_eq!(novel(&v.lhs_lines), vec![10, 11, 12]);
}

#[test]
fn blocks_are_contiguous_and_novel_lines_exact() {
    let before = vec![both(1, 1)];
    let hunk = vec![left(2), both(3, 2), left(4), right(3), right(4)];
    let after = vec![both(6, 6)];
    let v = view(&before, &hunk, &after, 10);
    for block in [&v.lhs_lines, &v.rhs_lines] {
        for w in block.windows(2) {
            assert_eq!(w[1].0, w[0].0 + 1);
        }
    }
    assert_eq!(novel(&v.lhs_lines), vec![2, 3, 4]);
    assert_eq!(novel(&v.rhs_lines), vec![2, 3, 4]);
    assert_eq!(lines(&v.lhs_lines), vec![1, 2, 3, 4, 5]);
    assert_eq!(lines(&v.rhs_lines), vec![2, 3, 4, 5, 6]);
}

#[test]
fn column_width_follows_largest_shown_number() {
    // line 9 is shown as 10
    let layout = hunk_layout(&[], &[left(9), right(3)], &[]);
    assert_eq!(layout.column_width, 2);
    let layout = hunk_layout(&[], &[left(8), right(3)], &[]);
    assert_eq!(layout.column_width, 1);
    let layout = hunk_layout(&[], &[left(2), right(99)], &[]);
    assert_eq!(layout.column_width, 3);
    let layout = hunk_layout(&[], &[], &[]);
    assert_eq!(layout.lhs, None);
    assert_eq!(layout.rhs, None);
    assert_eq!(layout.column_width, 1);
}

#[test]
fn rendering_twice_gives_the_same_view() {
    let before = vec![both(3, 3)];
    let hunk = vec![left(4), right(4)];
    let after = vec![both(5, 5)];
    let a = view(&before, &hunk, &after, 10);
    let b = view(&before, &hunk, &after, 10);
    assert_eq!(a.lhs_lines, b.lhs_lines);
    assert_eq!(a.rhs_lines, b.rhs_lines);
    assert_eq!(a.column_width, b.column_width);
}

#[test]
fn malformed_interval_is_refused() {
    let before = vec![left(5)];
    let hunk = vec![left(2)];
    assert_eq!(
        render_hunk(&before, &hunk, &[], 10, 10).err(),
        Some(RenderError::MalformedInterval)
    );
}

#[test]
fn side_block_marks_with_one_cursor() {
    assert_eq!(side_block(None, &vec![1]), vec![]);
    assert_eq!(side_block(Some((4, 2)), &vec![]), vec![]);
    assert_eq!(
        side_block(Some((1, 4)), &vec![2, 4]),
        vec![(1, false), (2, true), (3, false), (4, true)]
    );
    // a value below the interval holds the cursor
    assert_eq!(side_block(Some((1, 2)), &vec![0, 1]), vec![(1, false), (2, false)]);
}
