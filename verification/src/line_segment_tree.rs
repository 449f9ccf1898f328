use vstd::prelude::*;
use crate::grid_cell::GridCell;
use crate::line_segment::LineSegment;

verus! {

/// A node of a tree of segments as a mathematical value: a segment and,
/// in order, the nodes below it.
pub struct NodeModel {
    pub segment: LineSegment,
    pub children: Seq<NodeModel>,
}

/// A node without children.
pub open spec fn leaf(segment: LineSegment) -> NodeModel {
    NodeModel { segment, children: Seq::empty() }
}

/// The first place from `from` on at which a node's segment overlaps
/// `segment`; the number of nodes if there is none.
pub open spec fn first_overlap_from(nodes: Seq<NodeModel>, segment: LineSegment, from: int) -> int
    decreases nodes.len() - from,
{
    if from >= nodes.len() {
        nodes.len() as int
    } else if nodes[from].segment.overlaps_with(segment) {
        from
    } else {
        first_overlap_from(nodes, segment, from + 1)
    }
}

/// The first place at which a node's segment overlaps `segment`; the number
/// of nodes if there is none.
pub open spec fn first_overlap(nodes: Seq<NodeModel>, segment: LineSegment) -> int {
    first_overlap_from(nodes, segment, 0)
}

/// The place between `low` and `high` at which a binary search for
/// descending lengths puts a new node of the given length: a node at least
/// as long sends the search to its right, a shorter one to its left.
pub open spec fn search_place(nodes: Seq<NodeModel>, length: nat, low: int, high: int) -> int
    decreases high - low,
{
    if low >= high {
        low
    } else {
        let middle = low + (high - low) / 2;
        if nodes[middle].segment.length() >= length {
            search_place(nodes, length, middle + 1, high)
        } else {
            search_place(nodes, length, low, middle)
        }
    }
}

/// The place at which a new node of the given length goes among `nodes`.
pub open spec fn place_for(nodes: Seq<NodeModel>, length: nat) -> int {
    search_place(nodes, length, 0, nodes.len() as int)
}

/// The nodes after `segment` has been put among them: into the first node
/// whose segment overlaps it, or else as a new node without children at
/// the place that the search by length gives.
pub open spec fn insert_into_nodes(nodes: Seq<NodeModel>, segment: LineSegment) -> Seq<NodeModel>
    decreases nodes,
{
    let place = first_overlap(nodes, segment);
    if 0 <= place < nodes.len() {
        nodes.update(place, insert_into_node(nodes[place], segment))
    } else {
        nodes.insert(place_for(nodes, segment.length()), leaf(segment))
    }
}

/// The node after `segment` has been put into it. A segment that is not
/// longer than the node's own goes among the children. A longer one takes
/// the place of the node's own segment, which goes among the children
/// instead.
pub open spec fn insert_into_node(node: NodeModel, segment: LineSegment) -> NodeModel
    decreases node,
{
    if node.segment.length() >= segment.length() {
        NodeModel { segment: node.segment, children: insert_into_nodes(node.children, segment) }
    } else {
        NodeModel { segment, children: insert_into_nodes(node.children, node.segment) }
    }
}

/// The roots after `segment` has been put into the forest: into the first
/// root whose segment overlaps it, or else as a new last root.
pub open spec fn insert_root(roots: Seq<NodeModel>, segment: LineSegment) -> Seq<NodeModel> {
    let place = first_overlap(roots, segment);
    if 0 <= place < roots.len() {
        roots.update(place, insert_into_node(roots[place], segment))
    } else {
        roots.push(leaf(segment))
    }
}

/// A segment and, below it, the segments that were put into the node after
/// they were found to overlap the segment that the node held then.
#[derive(Debug)]
pub struct LineSegmentTreeNode {
    pub line_segment: LineSegment,
    pub children: Vec<LineSegmentTreeNode>,
}

/// The nodes as mathematical values.
pub open spec fn models(nodes: Seq<LineSegmentTreeNode>) -> Seq<NodeModel>
    decreases nodes,
{
    Seq::new(
        nodes.len(),
        |i: int|
            if 0 <= i < nodes.len() {
                nodes[i].model()
            } else {
                arbitrary()
            },
    )
}

impl LineSegmentTreeNode {
    /// The node as a mathematical value.
    pub open spec fn model(self) -> NodeModel
        decreases self,
    {
        NodeModel { segment: self.line_segment, children: models(self.children@) }
    }
}

impl View for LineSegmentTreeNode {
    type V = NodeModel;

    open spec fn view(&self) -> NodeModel {
        self.model()
    }
}

impl LineSegmentTreeNode {
    pub fn new(line_segment: LineSegment) -> (node: Self)
        ensures
            node@ == leaf(line_segment),
    {
        let node = Self { line_segment, children: vec![] };
        assert(models(node.children@) =~= Seq::<NodeModel>::empty());
        node
    }
}

impl Clone for LineSegmentTreeNode {
    fn clone(&self) -> (copy: Self)
        ensures
            copy@ == self@,
        decreases self,
    {
        let mut children: Vec<LineSegmentTreeNode> = Vec::new();
        let mut i: usize = 0;
        while i < self.children.len()
            invariant
                0 <= i <= self.children.len(),
                children@.len() == i,
                forall|j: int| 0 <= j < i ==> (#[trigger] children@[j])@ == self.children@[j]@,
            decreases self.children.len() - i,
        {
            let child = &self.children[i];
            children.push(child.clone());
            i += 1;
        }
        assert(models(children@) =~= models(self.children@));
        LineSegmentTreeNode { line_segment: self.line_segment, children }
    }
}

/// The first place at which a node's segment overlaps `segment`, if there is one.
fn find_overlap(nodes: &Vec<LineSegmentTreeNode>, segment: &LineSegment) -> (found: Option<usize>)
    ensures
        match found {
            Some(place) => place < nodes.len() && place == first_overlap(models(nodes@), *segment),
            None => first_overlap(models(nodes@), *segment) == nodes.len(),
        },
{
    let mut i: usize = 0;
    while i < nodes.len()
        invariant
            0 <= i <= nodes.len(),
            first_overlap(models(nodes@), *segment) == first_overlap_from(
                models(nodes@),
                *segment,
                i as int,
            ),
        decreases nodes.len() - i,
    {
        if nodes[i].line_segment.overlaps(segment) {
            return Some(i);
        }
        i += 1;
    }
    None
}

/// The place at which a binary search for descending lengths puts a new node
/// of the given length.
fn find_place(nodes: &Vec<LineSegmentTreeNode>, length: usize) -> (place: usize)
    ensures
        place <= nodes.len(),
        place == place_for(models(nodes@), length as nat),
{
    let mut low: usize = 0;
    let mut high: usize = nodes.len();
    while low < high
        invariant
            0 <= low <= high <= nodes.len(),
            place_for(models(nodes@), length as nat) == search_place(
                models(nodes@),
                length as nat,
                low as int,
                high as int,
            ),
        decreases high - low,
    {
        let middle = low + (high - low) / 2;
        if nodes[middle].line_segment.get_length() >= length {
            low = middle + 1;
        } else {
            high = middle;
        }
    }
    low
}

impl LineSegmentTreeNode {
    /// Puts `child` among the children of the node.
    pub fn add_child(&mut self, child: LineSegment)
        ensures
            final(self)@ == (NodeModel {
                segment: old(self)@.segment,
                children: insert_into_nodes(old(self)@.children, child),
            }),
        decreases *old(self), 1nat,
    {
        Self::insert_segment(&mut self.children, child);
    }

    /// Puts `line_segment` into `parent_node`, whose segment it overlaps.
    /// The longer of the two segments stays at, or moves to, the node; the
    /// other goes among the node's children.
    pub fn _prioritise_node_lengths(line_segment: LineSegment, parent_node: &mut LineSegmentTreeNode)
        ensures
            final(parent_node)@ == insert_into_node(old(parent_node)@, line_segment),
        decreases *old(parent_node), 2nat,
    {
        if parent_node.line_segment.get_length() >= line_segment.get_length() {
            parent_node.add_child(line_segment);
        } else {
            // If the given line segment is larger than the existing node,
            // then it needs to be the root of the subtree.
            let old_root = parent_node.line_segment;
            parent_node.line_segment = line_segment;
            Self::insert_segment(&mut parent_node.children, old_root);
        }
    }

    /// Puts `child` among `children`: into the first node whose segment
    /// overlaps it, or else as a new node at its place by length.
    pub fn insert_segment(children: &mut Vec<LineSegmentTreeNode>, child: LineSegment)
        ensures
            models(final(children)@) == insert_into_nodes(models(old(children)@), child),
        decreases *old(children), 0nat,
    {
        // If there is a containing node, add to as a child.
        match find_overlap(children, &child) {
            Some(place) => {
                let ghost before = children@;
                Self::_prioritise_node_lengths(child, &mut children[place]);
                assert(models(children@) =~= models(before).update(
                    place as int,
                    insert_into_node(before[place as int]@, child),
                ));
            },
            None => {
                // There is no containing node, so we must find the best place to put the child.
                // It should be in order of size,
                // and we add to the series of same-sized elements at the end
                // to avoid moving a lot of elements down.
                let new_node = LineSegmentTreeNode::new(child);
                let place = find_place(children, new_node.line_segment.get_length());
                let ghost before = children@;
                children.insert(place, new_node);
                assert(models(children@) =~= models(before).insert(place as int, leaf(child)));
            },
        }
    }
}

/// A forest of nodes: each root stands for a group of segments that lie
/// over one another on one line.
#[derive(Debug)]
pub struct LineSegmentTree {
    pub root_nodes: Vec<LineSegmentTreeNode>,
}

impl View for LineSegmentTree {
    type V = Seq<NodeModel>;

    open spec fn view(&self) -> Seq<NodeModel> {
        models(self.root_nodes@)
    }
}

impl Clone for LineSegmentTree {
    fn clone(&self) -> (copy: Self)
        ensures
            copy@ == self@,
    {
        let mut root_nodes: Vec<LineSegmentTreeNode> = Vec::new();
        let mut i: usize = 0;
        while i < self.root_nodes.len()
            invariant
                0 <= i <= self.root_nodes.len(),
                root_nodes@.len() == i,
                forall|j: int| 0 <= j < i ==> (#[trigger] root_nodes@[j])@ == self.root_nodes@[j]@,
            decreases self.root_nodes.len() - i,
        {
            let root = &self.root_nodes[i];
            root_nodes.push(root.clone());
            i += 1;
        }
        assert(models(root_nodes@) =~= models(self.root_nodes@));
        LineSegmentTree { root_nodes }
    }
}

/// The segment from the first point of the pair to the second, with order 0.
pub open spec fn segment_between(ends: (GridCell, GridCell)) -> LineSegment {
    LineSegment { start: ends.0, end: ends.1, order: 0 }
}

/// The roots after the segments have been put into an empty forest one
/// after the other.
pub open spec fn inserted_all(segments: Seq<LineSegment>) -> Seq<NodeModel>
    decreases segments.len(),
{
    if segments.len() == 0 {
        Seq::empty()
    } else {
        insert_root(inserted_all(segments.drop_last()), segments.last())
    }
}

/// The depth below `depth`; the largest `usize` has no depth below it and
/// stands for itself.
pub open spec fn deeper(depth: usize) -> usize {
    if depth < usize::MAX {
        (depth + 1) as usize
    } else {
        depth
    }
}

/// The segments of the first `count` of `nodes` and of all that is below
/// them, depth first, each with its depth; `nodes` are at `depth`.
pub open spec fn flattened(nodes: Seq<NodeModel>, depth: usize, count: nat) -> Seq<
    (LineSegment, usize),
>
    decreases nodes, count,
{
    if count == 0 || count > nodes.len() {
        Seq::empty()
    } else {
        flattened(nodes, depth, (count - 1) as nat) + flattened_node(nodes[count - 1], depth)
    }
}

/// The segment of `node`, which is at `depth`, followed by the segments
/// below it, depth first, each with its depth.
pub open spec fn flattened_node(node: NodeModel, depth: usize) -> Seq<(LineSegment, usize)>
    decreases node, 0nat,
{
    seq![(node.segment, depth)] + flattened(node.children, deeper(depth), node.children.len())
}

/// Appends to `out` the segments of `nodes`, which are at `depth`, and of
/// all that is below them, depth first.
fn collect_depth_first(
    nodes: &Vec<LineSegmentTreeNode>,
    depth: usize,
    out: &mut Vec<(LineSegment, usize)>,
)
    ensures
        final(out)@ == old(out)@ + flattened(models(nodes@), depth, nodes@.len()),
    decreases nodes,
{
    let mut i: usize = 0;
    assert(out@ =~= old(out)@ + flattened(models(nodes@), depth, 0));
    while i < nodes.len()
        invariant
            0 <= i <= nodes.len(),
            out@ == old(out)@ + flattened(models(nodes@), depth, i as nat),
        decreases nodes.len() - i,
    {
        let node = &nodes[i];
        let ghost before = out@;
        out.push((node.line_segment, depth));
        let below = if depth < usize::MAX {
            depth + 1
        } else {
            depth
        };
        collect_depth_first(&node.children, below, out);
        proof {
            assert(models(nodes@)[i as int] == node@);
            assert(out@ =~= before + flattened_node(node@, depth));
            assert(out@ =~= old(out)@ + flattened(models(nodes@), depth, (i + 1) as nat));
        }
        i += 1;
    }
}

impl LineSegmentTree {
    pub fn new() -> (tree: Self)
        ensures
            tree@ == Seq::<NodeModel>::empty(),
    {
        let tree = Self { root_nodes: vec![] };
        assert(tree@ =~= Seq::<NodeModel>::empty());
        tree
    }

    /// Puts `line_segment` into the forest: into the first root whose
    /// segment overlaps it, or else as a new last root.
    pub fn add_child(&mut self, line_segment: LineSegment)
        ensures
            final(self)@ == insert_root(old(self)@, line_segment),
    {
        match find_overlap(&self.root_nodes, &line_segment) {
            Some(place) => {
                let ghost before = self.root_nodes@;
                LineSegmentTreeNode::_prioritise_node_lengths(
                    line_segment,
                    &mut self.root_nodes[place],
                );
                assert(models(self.root_nodes@) =~= models(before).update(
                    place as int,
                    insert_into_node(before[place as int]@, line_segment),
                ));
            },
            None => {
                let new_node = LineSegmentTreeNode::new(line_segment);
                let ghost before = self.root_nodes@;
                self.root_nodes.push(new_node);
                assert(models(self.root_nodes@) =~= models(before).push(leaf(line_segment)));
            },
        }
    }

    /// Every segment of the forest with its depth, depth first: a root has
    /// depth 0, a child one more than its parent; the children of a node
    /// come in their order.
    pub fn depth_iter(&self) -> (pairs: Vec<(LineSegment, usize)>)
        ensures
            pairs@ == flattened(self@, 0, self@.len()),
    {
        let mut pairs: Vec<(LineSegment, usize)> = Vec::new();
        collect_depth_first(&self.root_nodes, 0, &mut pairs);
        pairs
    }
}

/// Groups the lines, each given by its two ends, into a forest: puts them
/// into an empty forest one after the other, each with order 0.
pub fn group_lines(lines: Vec<(GridCell, GridCell)>) -> (tree: LineSegmentTree)
    ensures
        tree@ == inserted_all(lines@.map_values(|ends: (GridCell, GridCell)| segment_between(ends))),
{
    let ghost segments = lines@.map_values(|ends: (GridCell, GridCell)| segment_between(ends));
    let mut tree = LineSegmentTree::new();
    let mut i: usize = 0;
    assert(segments.take(0) =~= Seq::<LineSegment>::empty());
    while i < lines.len()
        invariant
            0 <= i <= lines.len(),
            segments == lines@.map_values(|ends: (GridCell, GridCell)| segment_between(ends)),
            tree@ == inserted_all(segments.take(i as int)),
        decreases lines.len() - i,
    {
        let (start, end) = lines[i];
        tree.add_child(LineSegment::new(start, end, 0));
        proof {
            assert(segments.take(i + 1).drop_last() =~= segments.take(i as int));
            assert(segments.take(i + 1).last() == segment_between(lines@[i as int]));
        }
        i += 1;
    }
    assert(segments.take(i as int) =~= segments);
    tree
}

/// The lengths of the nodes' segments never increase.
pub open spec fn descending_lengths(nodes: Seq<NodeModel>) -> bool {
    forall|i: int, j: int|
        0 <= i <= j < nodes.len() ==> nodes[i].segment.length() >= nodes[j].segment.length()
}

/// The search for a place stays between its bounds. Among nodes of
/// descending lengths, where every node before `low` is at least as long as
/// the new one and every node from `high` on is shorter, the place it finds
/// parts the nodes that are at least as long from the shorter ones: the new
/// node goes behind the nodes of its own length.
pub proof fn lemma_search_place(nodes: Seq<NodeModel>, length: nat, low: int, high: int)
    requires
        0 <= low <= high <= nodes.len(),
    ensures
        low <= search_place(nodes, length, low, high) <= high,
        descending_lengths(nodes) && (forall|j: int|
            0 <= j < low ==> nodes[j].segment.length() >= length) && (forall|j: int|
            high <= j < nodes.len() ==> nodes[j].segment.length() < length) ==> {
            let place = search_place(nodes, length, low, high);
            &&& forall|j: int| 0 <= j < place ==> nodes[j].segment.length() >= length
            &&& forall|j: int| place <= j < nodes.len() ==> nodes[j].segment.length() < length
        },
    decreases high - low,
{
    if low < high {
        let middle = low + (high - low) / 2;
        if nodes[middle].segment.length() >= length {
            lemma_search_place(nodes, length, middle + 1, high);
        } else {
            lemma_search_place(nodes, length, low, middle);
        }
    }
}

/// Among nodes of descending lengths a new node is placed behind every node
/// that is at least as long and before every shorter one.
pub proof fn lemma_place_among_descending(nodes: Seq<NodeModel>, length: nat)
    requires
        descending_lengths(nodes),
    ensures
        0 <= place_for(nodes, length) <= nodes.len(),
        forall|j: int| 0 <= j < place_for(nodes, length) ==> nodes[j].segment.length() >= length,
        forall|j: int|
            place_for(nodes, length) <= j < nodes.len() ==> nodes[j].segment.length() < length,
{
    lemma_search_place(nodes, length, 0, nodes.len() as int);
}

/// The nesting of segments one inside the other: the last segment at the
/// root, and as its only child the nesting of the segments before it.
pub open spec fn nested(segments: Seq<LineSegment>) -> NodeModel
    decreases segments.len(),
{
    if segments.len() <= 1 {
        leaf(segments[0])
    } else {
        NodeModel { segment: segments.last(), children: seq![nested(segments.drop_last())] }
    }
}

/// Every segment overlaps every other one.
pub open spec fn overlap_pairwise(segments: Seq<LineSegment>) -> bool {
    forall|i: int, j: int|
        0 <= i < j < segments.len() ==> #[trigger] segments[i].overlaps_with(
            #[trigger] segments[j],
        )
}

/// Each segment is longer than the one before it.
pub open spec fn growing_lengths(segments: Seq<LineSegment>) -> bool {
    forall|i: int, j: int|
        0 <= i < j < segments.len() ==> #[trigger] segments[i].length()
            < #[trigger] segments[j].length()
}

/// A segment put into an empty list of nodes becomes its only node.
proof fn lemma_insert_into_no_nodes(segment: LineSegment)
    ensures
        insert_into_nodes(Seq::empty(), segment) == seq![leaf(segment)],
{
    let nodes = Seq::<NodeModel>::empty();
    assert(first_overlap(nodes, segment) == 0);
    assert(place_for(nodes, segment.length()) == 0);
    assert(nodes.insert(0, leaf(segment)) =~= seq![leaf(segment)]);
}

/// A segment put among a single node whose segment it overlaps goes into
/// that node.
proof fn lemma_insert_into_one_node(node: NodeModel, segment: LineSegment)
    requires
        node.segment.overlaps_with(segment),
    ensures
        insert_into_nodes(seq![node], segment) == seq![insert_into_node(node, segment)],
{
    let nodes = seq![node];
    assert(first_overlap(nodes, segment) == 0);
    assert(nodes.update(0, insert_into_node(node, segment)) =~= seq![
        insert_into_node(node, segment),
    ]);
}

/// A segment that overlaps all segments of a nesting and is longer than
/// all of them takes the root, and the nesting moves below it.
proof fn lemma_longer_segment_takes_root(segments: Seq<LineSegment>, longer: LineSegment)
    requires
        segments.len() >= 1,
        growing_lengths(segments.push(longer)),
        overlap_pairwise(segments.push(longer)),
    ensures
        insert_into_node(nested(segments), longer) == nested(segments.push(longer)),
    decreases segments.len(),
{
    let all = segments.push(longer);
    let n = segments.len() as int;
    let root = segments.last();
    assert(all.drop_last() =~= segments);
    assert(all[n - 1] == root && all[n] == longer);
    assert(all[n - 1].length() < all[n].length());
    if n == 1 {
        lemma_insert_into_no_nodes(root);
    } else {
        let before = segments.drop_last();
        assert(before.push(root) =~= segments);
        assert forall|i: int, j: int| 0 <= i < j < segments.len() implies #[trigger] segments[i].length()
            < #[trigger] segments[j].length() by {
            assert(all[i].length() < all[j].length());
        }
        assert forall|i: int, j: int| 0 <= i < j < segments.len() implies #[trigger] segments[i].overlaps_with(
            #[trigger] segments[j],
        ) by {
            assert(all[i].overlaps_with(all[j]));
        }
        lemma_longer_segment_takes_root(before, root);
        assert(nested(before).segment == before.last()) by {
            if before.len() <= 1 {
            }
        }
        assert(segments[n - 2].overlaps_with(segments[n - 1]));
        lemma_insert_into_one_node(nested(before), root);
    }
}

/// The stacking of segments one below the other: the first segment at the
/// root, and as its only child the stacking of the segments after it.
pub open spec fn stacked(segments: Seq<LineSegment>) -> NodeModel
    decreases segments.len(),
{
    if segments.len() <= 1 {
        leaf(segments[0])
    } else {
        NodeModel { segment: segments[0], children: seq![stacked(segments.drop_first())] }
    }
}

/// No segment is longer than one before it.
pub open spec fn shrinking_lengths(segments: Seq<LineSegment>) -> bool {
    forall|i: int, j: int|
        0 <= i < j < segments.len() ==> #[trigger] segments[i].length()
            >= #[trigger] segments[j].length()
}

/// A segment that overlaps all segments of a stacking and is longer than
/// none of them goes to the bottom, and no segment of the stacking moves.
proof fn lemma_shorter_segment_goes_below(segments: Seq<LineSegment>, shorter: LineSegment)
    requires
        segments.len() >= 1,
        forall|i: int|
            0 <= i < segments.len() ==> (#[trigger] segments[i]).length() >= shorter.length()
                && segments[i].overlaps_with(shorter),
    ensures
        insert_into_node(stacked(segments), shorter) == stacked(segments.push(shorter)),
    decreases segments.len(),
{
    let all = segments.push(shorter);
    assert(all[0] == segments[0]);
    assert(segments[0].length() >= shorter.length());
    if segments.len() == 1 {
        lemma_insert_into_no_nodes(shorter);
        assert(all.drop_first() =~= seq![shorter]);
        assert(stacked(seq![shorter]) == leaf(shorter));
        assert(stacked(segments).children =~= Seq::<NodeModel>::empty());
    } else {
        let rest = segments.drop_first();
        assert(all.drop_first() =~= rest.push(shorter));
        assert(stacked(segments).children =~= seq![stacked(rest)]);
        assert forall|i: int| 0 <= i < rest.len() implies (#[trigger] rest[i]).length()
            >= shorter.length() && rest[i].overlaps_with(shorter) by {
            assert(rest[i] == segments[i + 1]);
        }
        lemma_shorter_segment_goes_below(rest, shorter);
        assert(stacked(rest).segment == rest[0]) by {
            if rest.len() <= 1 {
            }
        }
        assert(rest[0] == segments[1]);
        lemma_insert_into_one_node(stacked(rest), shorter);
    }
}

/// Segments that all overlap one another, put into an empty forest in the
/// order of their lengths with the shortest first, form a single chain:
/// each segment takes the root when it comes, and the root before it
/// becomes its only child.
pub proof fn lemma_growing_segments_nest(segments: Seq<LineSegment>)
    requires
        segments.len() >= 1,
        growing_lengths(segments),
        overlap_pairwise(segments),
    ensures
        inserted_all(segments) == seq![nested(segments)],
    decreases segments.len(),
{
    let n = segments.len() as int;
    let before = segments.drop_last();
    let last = segments.last();
    if n == 1 {
        assert(inserted_all(before) =~= Seq::<NodeModel>::empty());
        assert(first_overlap(Seq::<NodeModel>::empty(), last) == 0);
        assert(Seq::<NodeModel>::empty().push(leaf(last)) =~= seq![leaf(last)]);
    } else {
        assert(before.push(last) =~= segments);
        lemma_growing_segments_nest(before);
        lemma_longer_segment_takes_root(before, last);
        let roots = seq![nested(before)];
        assert(nested(before).segment == before.last()) by {
            if before.len() <= 1 {
            }
        }
        assert(segments[n - 2].overlaps_with(segments[n - 1]));
        assert(first_overlap(roots, last) == 0);
        assert(roots.update(0, nested(segments)) =~= seq![nested(segments)]);
    }
}

/// Segments that all overlap one another, put into an empty forest so
/// that none is longer than one before it, form a single chain in the order
/// in which they came: the first stays at the root, each later one goes
/// below the ones before it, and none takes the place of another. Copies of
/// one horizontal or vertical segment are such segments.
pub proof fn lemma_shrinking_segments_stack(segments: Seq<LineSegment>)
    requires
        segments.len() >= 1,
        shrinking_lengths(segments),
        overlap_pairwise(segments),
    ensures
        inserted_all(segments) == seq![stacked(segments)],
    decreases segments.len(),
{
    let n = segments.len() as int;
    let before = segments.drop_last();
    let last = segments.last();
    if n == 1 {
        assert(inserted_all(before) =~= Seq::<NodeModel>::empty());
        assert(first_overlap(Seq::<NodeModel>::empty(), last) == 0);
        assert(Seq::<NodeModel>::empty().push(leaf(last)) =~= seq![leaf(last)]);
    } else {
        assert(before.push(last) =~= segments);
        assert forall|i: int| 0 <= i < before.len() implies (#[trigger] before[i]).length()
            >= last.length() && before[i].overlaps_with(last) by {
            assert(segments[i].length() >= segments[n - 1].length());
            assert(segments[i].overlaps_with(segments[n - 1]));
        }
        assert forall|i: int, j: int| 0 <= i < j < before.len() implies #[trigger] before[i].length()
            >= #[trigger] before[j].length() by {
            assert(segments[i].length() >= segments[j].length());
        }
        assert forall|i: int, j: int| 0 <= i < j < before.len() implies #[trigger] before[i].overlaps_with(
            #[trigger] before[j],
        ) by {
            assert(segments[i].overlaps_with(segments[j]));
        }
        lemma_shrinking_segments_stack(before);
        lemma_shorter_segment_goes_below(before, last);
        let roots = seq![stacked(before)];
        assert(stacked(before).segment == before[0]) by {
            if before.len() <= 1 {
            }
        }
        assert(first_overlap(roots, last) == 0);
        assert(roots.update(0, stacked(segments)) =~= seq![stacked(segments)]);
    }
}

/// One or two segments of the same length that overlap, such as a
/// horizontal or vertical segment and a copy of it, put into an empty
/// forest give one root with one child fewer than there were insertions:
/// the root holds the first segment, the child the second.
pub proof fn lemma_equal_segments_inserted_once_or_twice(segments: Seq<LineSegment>)
    requires
        1 <= segments.len() <= 2,
        shrinking_lengths(segments),
        overlap_pairwise(segments),
    ensures
        inserted_all(segments) == seq![
            NodeModel {
                segment: segments[0],
                children: Seq::new(
                    (segments.len() - 1) as nat,
                    |i: int| leaf(segments[i + 1]),
                ),
            },
        ],
{
    lemma_shrinking_segments_stack(segments);
    if segments.len() == 1 {
        assert(Seq::new(0, |i: int| leaf(segments[i + 1])) =~= Seq::<NodeModel>::empty());
    } else {
        assert(segments.drop_first().len() == 1);
        assert(Seq::new(1, |i: int| leaf(segments[i + 1])) =~= seq![
            stacked(segments.drop_first()),
        ]);
    }
}

/// How many of the first `count` of `nodes`, and of the nodes below them,
/// hold a segment that is `wanted`.
pub open spec fn holders(
    nodes: Seq<NodeModel>,
    wanted: spec_fn(LineSegment) -> bool,
    count: nat,
) -> nat
    decreases nodes, count,
{
    if count == 0 || count > nodes.len() {
        0
    } else {
        holders(nodes, wanted, (count - 1) as nat) + holders_in(nodes[count - 1], wanted)
    }
}

/// How many nodes hold a segment that is `wanted`, counting `node` and all
/// nodes below it.
pub open spec fn holders_in(node: NodeModel, wanted: spec_fn(LineSegment) -> bool) -> nat
    decreases node, 0nat,
{
    holders(node.children, wanted, node.children.len()) + one_if(wanted(node.segment))
}

/// 1 for what holds, 0 for what does not.
pub open spec fn one_if(holds: bool) -> nat {
    if holds {
        1
    } else {
        0
    }
}

/// The count over the first nodes depends on those nodes only.
proof fn lemma_holders_of_equal_prefix(
    first: Seq<NodeModel>,
    second: Seq<NodeModel>,
    wanted: spec_fn(LineSegment) -> bool,
    count: nat,
)
    requires
        count <= first.len(),
        count <= second.len(),
        forall|i: int| 0 <= i < count ==> first[i] == second[i],
    ensures
        holders(first, wanted, count) == holders(second, wanted, count),
    decreases count,
{
    if count > 0 {
        lemma_holders_of_equal_prefix(first, second, wanted, (count - 1) as nat);
    }
}

/// A node put in place of another changes the count by the difference
/// between the two.
proof fn lemma_holders_after_update(
    nodes: Seq<NodeModel>,
    place: int,
    node: NodeModel,
    wanted: spec_fn(LineSegment) -> bool,
    count: nat,
)
    requires
        0 <= place < nodes.len(),
        count <= nodes.len(),
    ensures
        count <= place ==> holders(nodes.update(place, node), wanted, count) == holders(
            nodes,
            wanted,
            count,
        ),
        count > place ==> holders(nodes.update(place, node), wanted, count) + holders_in(
            nodes[place],
            wanted,
        ) == holders(nodes, wanted, count) + holders_in(node, wanted),
    decreases count,
{
    if count > 0 {
        lemma_holders_after_update(nodes, place, node, wanted, (count - 1) as nat);
    }
}

/// A node put between the others adds its own count.
proof fn lemma_holders_after_insert(
    nodes: Seq<NodeModel>,
    place: int,
    node: NodeModel,
    wanted: spec_fn(LineSegment) -> bool,
    count: nat,
)
    requires
        0 <= place <= nodes.len(),
        count <= nodes.len() + 1,
    ensures
        count <= place ==> holders(nodes.insert(place, node), wanted, count) == holders(
            nodes,
            wanted,
            count,
        ),
        count > place ==> holders(nodes.insert(place, node), wanted, count) == holders(
            nodes,
            wanted,
            (count - 1) as nat,
        ) + holders_in(node, wanted),
    decreases count,
{
    if count > 0 {
        lemma_holders_after_insert(nodes, place, node, wanted, (count - 1) as nat);
        let longer = nodes.insert(place, node);
        if count - 1 < place {
            assert(longer[count - 1] == nodes[count - 1]);
        } else if count - 1 == place {
            assert(longer[count - 1] == node);
        } else {
            assert(longer[count - 1] == nodes[count - 2]);
        }
    }
}

/// The first overlap lies among the nodes or is their number.
pub proof fn lemma_first_overlap(nodes: Seq<NodeModel>, segment: LineSegment, from: int)
    requires
        0 <= from <= nodes.len(),
    ensures
        from <= first_overlap_from(nodes, segment, from) <= nodes.len(),
        first_overlap_from(nodes, segment, from) < nodes.len() ==> nodes[first_overlap_from(
            nodes,
            segment,
            from,
        )].segment.overlaps_with(segment),
        forall|i: int|
            from <= i < first_overlap_from(nodes, segment, from)
                ==> !(#[trigger] nodes[i]).segment.overlaps_with(segment),
    decreases nodes.len() - from,
{
    if from < nodes.len() && !nodes[from].segment.overlaps_with(segment) {
        lemma_first_overlap(nodes, segment, from + 1);
    }
}

/// A segment put among nodes adds one node that holds it and changes no
/// other count: of the segments that are wanted, whatever is wanted, there
/// is one more if the new segment is wanted, and else as many as before.
/// Nothing is lost and nothing but the new segment is added.
pub proof fn lemma_insert_into_nodes_keeps_segments(
    nodes: Seq<NodeModel>,
    added: LineSegment,
    wanted: spec_fn(LineSegment) -> bool,
)
    ensures
        insert_into_nodes(nodes, added).len() == nodes.len() + if first_overlap(nodes, added)
            < nodes.len() {
            0int
        } else {
            1int
        },
        holders(
            insert_into_nodes(nodes, added),
            wanted,
            insert_into_nodes(nodes, added).len(),
        ) == holders(nodes, wanted, nodes.len()) + one_if(wanted(added)),
    decreases nodes, 1nat,
{
    lemma_first_overlap(nodes, added, 0);
    let place = first_overlap(nodes, added);
    if 0 <= place < nodes.len() {
        lemma_insert_into_node_keeps_segments(nodes[place], added, wanted);
        lemma_holders_after_update(
            nodes,
            place,
            insert_into_node(nodes[place], added),
            wanted,
            nodes.len(),
        );
    } else {
        lemma_search_place(nodes, added.length(), 0, nodes.len() as int);
        lemma_holders_after_insert(
            nodes,
            place_for(nodes, added.length()),
            leaf(added),
            wanted,
            nodes.len() + 1,
        );
        assert(holders(leaf(added).children, wanted, 0) == 0);
    }
}

/// A segment put into a node adds one node that holds it, in the node or
/// below it, and changes no other count.
pub proof fn lemma_insert_into_node_keeps_segments(
    node: NodeModel,
    added: LineSegment,
    wanted: spec_fn(LineSegment) -> bool,
)
    ensures
        holders_in(insert_into_node(node, added), wanted) == holders_in(node, wanted) + one_if(
            wanted(added),
        ),
    decreases node, 0nat,
{
    if node.segment.length() >= added.length() {
        lemma_insert_into_nodes_keeps_segments(node.children, added, wanted);
    } else {
        lemma_insert_into_nodes_keeps_segments(node.children, node.segment, wanted);
    }
}

/// A segment put into a forest adds one node that holds it and changes no
/// other count.
pub proof fn lemma_insert_root_keeps_segments(
    roots: Seq<NodeModel>,
    added: LineSegment,
    wanted: spec_fn(LineSegment) -> bool,
)
    ensures
        holders(insert_root(roots, added), wanted, insert_root(roots, added).len()) == holders(
            roots,
            wanted,
            roots.len(),
        ) + one_if(wanted(added)),
{
    lemma_first_overlap(roots, added, 0);
    let place = first_overlap(roots, added);
    if 0 <= place < roots.len() {
        lemma_insert_into_node_keeps_segments(roots[place], added, wanted);
        lemma_holders_after_update(
            roots,
            place,
            insert_into_node(roots[place], added),
            wanted,
            roots.len(),
        );
    } else {
        assert(roots.push(leaf(added)) =~= roots.insert(roots.len() as int, leaf(added)));
        lemma_holders_after_insert(
            roots,
            roots.len() as int,
            leaf(added),
            wanted,
            roots.len() + 1,
        );
        assert(holders(leaf(added).children, wanted, 0) == 0);
    }
}

/// The pairs of a depth-first walk are as many as there are nodes,
/// whatever the depth at which the walk starts.
pub proof fn lemma_flattened_length(nodes: Seq<NodeModel>, depth: usize, count: nat)
    ensures
        flattened(nodes, depth, count).len() == holders(nodes, |s: LineSegment| true, count),
    decreases nodes, count,
{
    if !(count == 0 || count > nodes.len()) {
        lemma_flattened_length(nodes, depth, (count - 1) as nat);
        lemma_flattened_node_length(nodes[count - 1], depth);
    }
}

/// The pairs of a depth-first walk from a node are as many as the node
/// and the nodes below it.
pub proof fn lemma_flattened_node_length(node: NodeModel, depth: usize)
    ensures
        flattened_node(node, depth).len() == holders_in(node, |s: LineSegment| true),
    decreases node, 0nat,
{
    lemma_flattened_length(node.children, deeper(depth), node.children.len());
}

/// Segments put into an empty forest one after the other give a forest
/// with one node for each segment: a depth-first walk gives as many pairs
/// as there were segments.
pub proof fn lemma_one_node_for_each_segment(segments: Seq<LineSegment>)
    ensures
        flattened(inserted_all(segments), 0, inserted_all(segments).len()).len()
            == segments.len(),
    decreases segments.len(),
{
    let every = |s: LineSegment| true;
    lemma_flattened_length(inserted_all(segments), 0, inserted_all(segments).len());
    if segments.len() > 0 {
        let before = inserted_all(segments.drop_last());
        lemma_one_node_for_each_segment(segments.drop_last());
        lemma_flattened_length(before, 0, before.len());
        lemma_insert_root_keeps_segments(before, segments.last(), every);
    }
}

/// The two segments are both horizontal with the same `y`, or both
/// vertical with the same `x`.
pub open spec fn on_one_line(first: LineSegment, second: LineSegment) -> bool {
    ||| first.is_horizontal() && second.is_horizontal() && first.start.y == second.start.y
    ||| first.is_vertical() && second.is_vertical() && first.start.x == second.start.x
}

/// Every segment in `node` and below it is the segment of `node` or lies
/// on one line with it.
pub open spec fn stays_on_line(node: NodeModel) -> bool {
    holders_in(node, |s: LineSegment| s != node.segment && !on_one_line(node.segment, s)) == 0
}

/// A segment put into a forest goes into a group that it overlaps the
/// root of, or becomes a group of its own: where every group lay on one
/// line before, every group lies on one line after.
pub proof fn lemma_insert_root_keeps_lines(roots: Seq<NodeModel>, added: LineSegment)
    requires
        forall|i: int| 0 <= i < roots.len() ==> stays_on_line(#[trigger] roots[i]),
    ensures
        forall|i: int|
            0 <= i < insert_root(roots, added).len() ==> stays_on_line(
                #[trigger] insert_root(roots, added)[i],
            ),
{
    lemma_first_overlap(roots, added, 0);
    let place = first_overlap(roots, added);
    let after = insert_root(roots, added);
    assert forall|i: int| 0 <= i < after.len() implies stays_on_line(#[trigger] after[i]) by {
        if 0 <= place < roots.len() {
            if i == place {
                let root = roots[place];
                let grown = insert_into_node(root, added);
                let off_old = |s: LineSegment| s != root.segment && !on_one_line(root.segment, s);
                let off_new = |s: LineSegment| s != grown.segment && !on_one_line(grown.segment, s);
                assert(stays_on_line(root));
                lemma_insert_into_node_keeps_segments(root, added, off_old);
                assert(on_one_line(root.segment, added));
                assert(grown.segment == root.segment || grown.segment == added);
                lemma_holders_in_of_weaker(grown, off_new, off_old);
            } else {
                assert(after[i] == roots[i]);
            }
        } else {
            if i < roots.len() {
                assert(after[i] == roots[i]);
            } else {
                assert(after[i] == leaf(added));
                assert(holders(leaf(added).children, |s: LineSegment| s != added && !on_one_line(added, s), 0) == 0);
            }
        }
    }
}

/// Where whatever is wanted in one way is wanted in another way too, the
/// first count is at most the second.
proof fn lemma_holders_of_weaker(
    nodes: Seq<NodeModel>,
    wanted: spec_fn(LineSegment) -> bool,
    weaker: spec_fn(LineSegment) -> bool,
    count: nat,
)
    requires
        forall|s: LineSegment| #[trigger] wanted(s) ==> weaker(s),
    ensures
        holders(nodes, wanted, count) <= holders(nodes, weaker, count),
    decreases nodes, count,
{
    if !(count == 0 || count > nodes.len()) {
        lemma_holders_of_weaker(nodes, wanted, weaker, (count - 1) as nat);
        lemma_holders_in_of_weaker(nodes[count - 1], wanted, weaker);
    }
}

/// Where whatever is wanted in one way is wanted in another way too, the
/// first count in a node is at most the second.
proof fn lemma_holders_in_of_weaker(
    node: NodeModel,
    wanted: spec_fn(LineSegment) -> bool,
    weaker: spec_fn(LineSegment) -> bool,
)
    requires
        forall|s: LineSegment| #[trigger] wanted(s) ==> weaker(s),
    ensures
        holders_in(node, wanted) <= holders_in(node, weaker),
    decreases node, 0nat,
{
    lemma_holders_of_weaker(node.children, wanted, weaker, node.children.len());
}

/// No segment below `node` is longer than the segment of the node that it
/// is a child of, from `node` downwards.
pub open spec fn nests_by_length(node: NodeModel) -> bool
    decreases node,
{
    forall|i: int|
        0 <= i < node.children.len() ==> {
            &&& (#[trigger] node.children[i]).segment.length() <= node.segment.length()
            &&& nests_by_length(node.children[i])
        }
}

/// Every one of `nodes` nests by length and is at most `limit` long.
pub open spec fn all_nest_within(nodes: Seq<NodeModel>, limit: nat) -> bool {
    forall|i: int|
        0 <= i < nodes.len() ==> {
            &&& (#[trigger] nodes[i]).segment.length() <= limit
            &&& nests_by_length(nodes[i])
        }
}

/// A segment put among nodes that nest by length leaves them nesting by
/// length, and none of them becomes longer than the longest of them and the
/// new segment.
pub proof fn lemma_insert_into_nodes_keeps_nesting(
    nodes: Seq<NodeModel>,
    added: LineSegment,
    limit: nat,
)
    requires
        all_nest_within(nodes, limit),
        added.length() <= limit,
    ensures
        all_nest_within(insert_into_nodes(nodes, added), limit),
    decreases nodes, 1nat,
{
    lemma_first_overlap(nodes, added, 0);
    let place = first_overlap(nodes, added);
    let after = insert_into_nodes(nodes, added);
    if 0 <= place < nodes.len() {
        assert(nests_by_length(nodes[place]));
        lemma_insert_into_node_keeps_nesting(nodes[place], added);
        assert forall|i: int| 0 <= i < after.len() implies (#[trigger] after[i]).segment.length()
            <= limit && nests_by_length(after[i]) by {
            if i != place {
                assert(after[i] == nodes[i]);
            }
        }
    } else {
        lemma_search_place(nodes, added.length(), 0, nodes.len() as int);
        let at = place_for(nodes, added.length());
        assert forall|i: int| 0 <= i < after.len() implies (#[trigger] after[i]).segment.length()
            <= limit && nests_by_length(after[i]) by {
            if i < at {
                assert(after[i] == nodes[i]);
            } else if i > at {
                assert(after[i] == nodes[i - 1]);
            }
        }
    }
}

/// A segment put into a node that nests by length leaves it nesting by
/// length; the node then holds the longer of its own segment and the new one.
pub proof fn lemma_insert_into_node_keeps_nesting(node: NodeModel, added: LineSegment)
    requires
        nests_by_length(node),
    ensures
        nests_by_length(insert_into_node(node, added)),
        insert_into_node(node, added).segment.length() == if node.segment.length()
            >= added.length() {
            node.segment.length()
        } else {
            added.length()
        },
    decreases node, 0nat,
{
    if node.segment.length() >= added.length() {
        assert(all_nest_within(node.children, node.segment.length()));
        lemma_insert_into_nodes_keeps_nesting(node.children, added, node.segment.length());
    } else {
        assert(all_nest_within(node.children, added.length())) by {
            assert forall|i: int| 0 <= i < node.children.len() implies (
            #[trigger] node.children[i]).segment.length() <= added.length() && nests_by_length(
                node.children[i],
            ) by {}
        }
        lemma_insert_into_nodes_keeps_nesting(node.children, node.segment, added.length());
    }
}

/// A segment put into a forest whose roots nest by length leaves them
/// nesting by length.
pub proof fn lemma_insert_root_keeps_nesting(roots: Seq<NodeModel>, added: LineSegment)
    requires
        forall|i: int| 0 <= i < roots.len() ==> nests_by_length(#[trigger] roots[i]),
    ensures
        forall|i: int|
            0 <= i < insert_root(roots, added).len() ==> nests_by_length(
                #[trigger] insert_root(roots, added)[i],
            ),
{
    lemma_first_overlap(roots, added, 0);
    let place = first_overlap(roots, added);
    let after = insert_root(roots, added);
    if 0 <= place < roots.len() {
        lemma_insert_into_node_keeps_nesting(roots[place], added);
        assert forall|i: int| 0 <= i < after.len() implies nests_by_length(#[trigger] after[i]) by {
            if i != place {
                assert(after[i] == roots[i]);
            }
        }
    } else {
        assert forall|i: int| 0 <= i < after.len() implies nests_by_length(#[trigger] after[i]) by {
            if i < roots.len() {
                assert(after[i] == roots[i]);
            }
        }
    }
}

} // verus!
