use cross_stitch_solver::grid_cell::GridCell;
use cross_stitch_solver::line_segment::LineSegment;
use cross_stitch_solver::line_segment_tree::group_lines;
use cross_stitch_solver::line_segment_tree::LineSegmentTree;
use cross_stitch_solver::line_segment_tree::LineSegmentTreeNode;

#[test]
fn test_group_lines_by_segment_no_overlapping() {
    let segments = vec![
        (GridCell::new(0, 0), GridCell::new(0, 1)),
        (GridCell::new(0, 0), GridCell::new(1, 0)),
    ];
    let result = group_lines(segments);
    assert_eq!(result.root_nodes.len(), 2)
}

#[test]
fn test_group_lines_by_segment_one_overlapping_one_not() {
    let segments = vec![
        (GridCell::new(0, 0), GridCell::new(0, 1)),
        (GridCell::new(0, 0), GridCell::new(0, 2)),
        (GridCell::new(0, 0), GridCell::new(1, 0)),
    ];
    let result = group_lines(segments);
    assert_eq!(result.root_nodes.len(), 2)
}

#[test]
fn test_group_lines_by_segment_two_overlapping_groups() {
    let segments = vec![
        (GridCell::new(0, 0), GridCell::new(0, 1)),
        (GridCell::new(0, 0), GridCell::new(0, 2)),
        (GridCell::new(0, 0), GridCell::new(0, 3)),
        (GridCell::new(0, 2), GridCell::new(0, 3)),
        (GridCell::new(0, 0), GridCell::new(1, 0)),
        (GridCell::new(0, 0), GridCell::new(2, 0)),
    ];
    let result = group_lines(segments);
    assert_eq!(result.root_nodes.len(), 2)
}

#[test]
fn test_group_lines_by_segment_two_overlapping_two_not() {
    let segments = vec![
        (GridCell::new(0, 0), GridCell::new(0, 1)),
        (GridCell::new(0, 0), GridCell::new(0, 2)),
        (GridCell::new(0, 0), GridCell::new(0, 3)),
        (GridCell::new(0, 2), GridCell::new(0, 3)),
        (GridCell::new(0, 0), GridCell::new(1, 0)),
    ];
    let result = group_lines(segments);
    assert_eq!(result.root_nodes.len(), 2);
    assert_eq!(result.root_nodes[0].line_segment.get_length(), 3);
    assert_eq!(result.root_nodes[1].line_segment.get_length(), 1);
    assert_eq!(result.root_nodes[0].children.len(), 2);
}

#[test]
fn test_group_lines_tree_two_levels() {
    let segments = vec![
        (GridCell::new(0, 0), GridCell::new(0, 2)),
        (GridCell::new(0, 0), GridCell::new(0, 1)),
    ];
    let result = group_lines(segments.clone());
    assert_eq!(result.root_nodes.len(), 1);
    assert_eq!(result.root_nodes[0].children.len(), 1);
    assert_eq!(
        result.root_nodes[0].children[0].line_segment,
        segments[1].into()
    );
}

#[test]
fn test_group_lines_tree_two_levels_rearrange() {
    let segments = vec![
        (GridCell::new(0, 0), GridCell::new(0, 1)),
        (GridCell::new(0, 0), GridCell::new(0, 2)),
    ];
    let result = group_lines(segments.clone());
    assert_eq!(result.root_nodes.len(), 1);
    assert_eq!(result.root_nodes[0].children.len(), 1);
    assert_eq!(
        result.root_nodes[0].children[0].line_segment,
        segments[0].into()
    );
}

fn vertical(from: isize, to: isize, order: usize) -> LineSegment {
    LineSegment::new(GridCell::new(0, from), GridCell::new(0, to), order)
}

fn horizontal(from: isize, to: isize, order: usize) -> LineSegment {
    LineSegment::new(GridCell::new(from, 0), GridCell::new(to, 0), order)
}

#[test]
fn empty_forest_has_no_roots_and_no_pairs() {
    let tree = LineSegmentTree::new();
    assert_eq!(tree.root_nodes.len(), 0);
    assert_eq!(tree.depth_iter(), vec![]);
    assert_eq!(group_lines(vec![]).root_nodes.len(), 0);
}

#[test]
fn new_node_has_no_children() {
    let segment = vertical(0, 4, 3);
    let node = LineSegmentTreeNode::new(segment);
    assert_eq!(node.line_segment, segment);
    assert_eq!(node.children.len(), 0);
}

#[test]
fn same_segment_once_and_twice() {
    let segment = vertical(0, 2, 0);
    let mut tree = LineSegmentTree::new();
    tree.add_child(segment);
    assert_eq!(tree.root_nodes.len(), 1);
    assert_eq!(tree.root_nodes[0].line_segment, segment);
    assert_eq!(tree.root_nodes[0].children.len(), 0);
    tree.add_child(segment);
    assert_eq!(tree.root_nodes.len(), 1);
    assert_eq!(tree.root_nodes[0].line_segment, segment);
    assert_eq!(tree.root_nodes[0].children.len(), 1);
    assert_eq!(tree.root_nodes[0].children[0].line_segment, segment);
    assert_eq!(tree.root_nodes[0].children[0].children.len(), 0);
}

#[test]
fn same_segment_many_times_forms_a_chain() {
    let mut tree = LineSegmentTree::new();
    for order in 0..4 {
        tree.add_child(vertical(0, 2, order));
    }
    // The first copy stays at the root; each later one goes below the ones before it.
    assert_eq!(
        tree.depth_iter(),
        vec![
            (vertical(0, 2, 0), 0),
            (vertical(0, 2, 1), 1),
            (vertical(0, 2, 2), 2),
            (vertical(0, 2, 3), 3),
        ]
    );
    assert_eq!(tree.root_nodes.len(), 1);
    assert_eq!(tree.root_nodes[0].children.len(), 1);
}

#[test]
fn growing_segments_form_a_chain_with_the_longest_at_the_root() {
    let mut tree = LineSegmentTree::new();
    for length in 1..=4 {
        tree.add_child(vertical(0, length, length as usize));
    }
    assert_eq!(tree.root_nodes.len(), 1);
    assert_eq!(tree.root_nodes[0].line_segment, vertical(0, 4, 4));
    assert_eq!(
        tree.depth_iter(),
        vec![
            (vertical(0, 4, 4), 0),
            (vertical(0, 3, 3), 1),
            (vertical(0, 2, 2), 2),
            (vertical(0, 1, 1), 3),
        ]
    );
}

#[test]
fn children_are_placed_by_descending_length_after_equal_ones() {
    let mut node = LineSegmentTreeNode::new(horizontal(0, 100, 0));
    node.add_child(horizontal(10, 13, 1));
    node.add_child(horizontal(20, 25, 2));
    node.add_child(horizontal(30, 33, 3));
    node.add_child(horizontal(40, 44, 4));
    node.add_child(horizontal(50, 51, 5));
    node.add_child(horizontal(60, 65, 6));
    let orders: Vec<usize> = node
        .children
        .iter()
        .map(|child| child.line_segment.order)
        .collect();
    assert_eq!(orders, vec![2, 6, 4, 1, 3, 5]);
    assert_eq!(node.line_segment, horizontal(0, 100, 0));
}

#[test]
fn longer_segment_takes_the_node_and_the_shorter_goes_below() {
    let mut node = LineSegmentTreeNode::new(horizontal(0, 2, 0));
    LineSegmentTreeNode::_prioritise_node_lengths(horizontal(1, 9, 1), &mut node);
    assert_eq!(node.line_segment, horizontal(1, 9, 1));
    assert_eq!(node.children.len(), 1);
    assert_eq!(node.children[0].line_segment, horizontal(0, 2, 0));
    // A tie favours the segment that is there.
    LineSegmentTreeNode::_prioritise_node_lengths(horizontal(2, 10, 2), &mut node);
    assert_eq!(node.line_segment, horizontal(1, 9, 1));
}

#[test]
fn promotion_below_a_node_leaves_the_siblings_where_they_are() {
    let mut tree = LineSegmentTree::new();
    tree.add_child(horizontal(0, 100, 0));
    tree.add_child(horizontal(0, 5, 1));
    tree.add_child(horizontal(10, 13, 2));
    tree.add_child(horizontal(9, 15, 3));
    assert_eq!(
        tree.depth_iter(),
        vec![
            (horizontal(0, 100, 0), 0),
            (horizontal(0, 5, 1), 1),
            (horizontal(9, 15, 3), 1),
            (horizontal(10, 13, 2), 2),
        ]
    );
}

#[test]
fn depth_first_pairs_of_two_groups() {
    let tree = group_lines(vec![
        (GridCell::new(0, 0), GridCell::new(0, 1)),
        (GridCell::new(0, 0), GridCell::new(0, 2)),
        (GridCell::new(0, 0), GridCell::new(0, 3)),
        (GridCell::new(0, 2), GridCell::new(0, 3)),
        (GridCell::new(0, 0), GridCell::new(1, 0)),
    ]);
    assert_eq!(
        tree.depth_iter(),
        vec![
            (vertical(0, 3, 0), 0),
            (vertical(0, 2, 0), 1),
            (vertical(0, 1, 0), 2),
            (vertical(2, 3, 0), 1),
            (horizontal(0, 1, 0), 0),
        ]
    );
}

#[test]
fn clone_of_a_forest_has_the_same_pairs() {
    let mut tree = LineSegmentTree::new();
    tree.add_child(vertical(0, 3, 0));
    tree.add_child(vertical(1, 2, 1));
    tree.add_child(horizontal(0, 3, 2));
    let copy = tree.clone();
    assert_eq!(copy.depth_iter(), tree.depth_iter());
    assert_eq!(copy.root_nodes[0].clone().children.len(), 1);
}
