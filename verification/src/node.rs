use vstd::prelude::*;

verus! {

use crate::NodeID;
use vstd::std_specs::iter::IteratorSpec;

/// Mathematical model of a node payload.
pub enum ContentV {
    Text { text: Seq<char> },
    Plot { samples: Seq<i64> },
}

/// Mathematical model of an outline tree vertex.
#[verifier::ext_equal]
pub struct NodeV {
    pub id: NodeID,
    pub content: ContentV,
    pub selected: bool,
    pub collapsed: bool,
    pub children: Seq<NodeV>,
}

/// The payload of a node: editable text, or a read-only numeric series
/// rendered as a sparkline.
pub enum Content {
    Text { text: Vec<char> },
    Plot(Vec<i64>),
}

/// One vertex of an outline tree: a payload, ordered children, and
/// transient UI flags. The `id` field is the node's stable identity;
/// selection, deletion and hit-testing go by identity, never by value.
pub struct Node {
    pub content: Content,
    pub children: Vec<Node>,
    pub selected: bool,
    pub collapsed: bool,
    pub id: NodeID,
}

impl View for Content {
    type V = ContentV;

    open spec fn view(&self) -> ContentV {
        match self {
            Content::Text { text } => ContentV::Text { text: text@ },
            Content::Plot(samples) => ContentV::Plot { samples: samples@ },
        }
    }
}

/// The model of an executable node.
pub open spec fn node_v(n: Node) -> NodeV
    decreases n, 0nat,
{
    NodeV {
        id: n.id,
        content: n.content@,
        selected: n.selected,
        collapsed: n.collapsed,
        children: children_v(n.children@, n.children@.len() as int),
    }
}

/// The models of the first `i` nodes of a sequence of executable nodes.
pub open spec fn children_v(cs: Seq<Node>, i: int) -> Seq<NodeV>
    decreases cs, i,
{
    if i <= 0 || i > cs.len() {
        Seq::empty()
    } else {
        children_v(cs, i - 1).push(node_v(cs[i - 1]))
    }
}

impl View for Node {
    type V = NodeV;

    open spec fn view(&self) -> NodeV {
        node_v(*self)
    }
}

/// `children_v` models the elements of the sequence pointwise.
pub proof fn lemma_children_v(cs: Seq<Node>, i: int)
    requires
        0 <= i <= cs.len(),
    ensures
        children_v(cs, i).len() == i,
        forall|j: int| 0 <= j < i ==> children_v(cs, i)[j] == node_v(cs[j]),
    decreases i,
{
    if i > 0 {
        lemma_children_v(cs, i - 1);
    }
}

/// Length of a payload: character count for text, sample count for plots.
pub open spec fn content_len(c: ContentV) -> nat {
    match c {
        ContentV::Text { text } => text.len(),
        ContentV::Plot { samples } => samples.len(),
    }
}

/// Number of rows a node occupies on screen: one for its own label, plus
/// the height of every child when the node is expanded.
pub open spec fn spec_height(n: NodeV) -> nat
    decreases n, 0nat,
{
    if n.collapsed || n.children.len() == 0 {
        1
    } else {
        1 + heights_sum(n.children, n.children.len() as int)
    }
}

/// Sum of the heights of the first `i` nodes of a sequence.
pub open spec fn heights_sum(cs: Seq<NodeV>, i: int) -> nat
    decreases cs, i,
{
    if i <= 0 || i > cs.len() {
        0
    } else {
        heights_sum(cs, i - 1) + spec_height(cs[i - 1])
    }
}

/// Total number of nodes in a subtree, collapsed or not.
pub open spec fn spec_size(n: NodeV) -> nat
    decreases n, 0nat,
{
    1 + sizes_sum(n.children, n.children.len() as int)
}

/// Sum of the sizes of the first `i` nodes of a sequence.
pub open spec fn sizes_sum(cs: Seq<NodeV>, i: int) -> nat
    decreases cs, i,
{
    if i <= 0 || i > cs.len() {
        0
    } else {
        sizes_sum(cs, i - 1) + spec_size(cs[i - 1])
    }
}

/// A node is never taller than the number of nodes in its subtree.
pub proof fn lemma_height_le_size(n: NodeV)
    ensures
        1 <= spec_height(n) <= spec_size(n),
    decreases n, 0nat,
{
    lemma_heights_le_sizes(n.children, n.children.len() as int);
}

proof fn lemma_heights_le_sizes(cs: Seq<NodeV>, i: int)
    ensures
        heights_sum(cs, i) <= sizes_sum(cs, i),
    decreases cs, i,
{
    if 0 < i <= cs.len() {
        lemma_heights_le_sizes(cs, i - 1);
        lemma_height_le_size(cs[i - 1]);
    }
}

/// Every prefix sum of sizes is bounded by the total.
pub proof fn lemma_sizes_sum_monotone(cs: Seq<NodeV>, i: int, j: int)
    requires
        0 <= i <= j <= cs.len(),
    ensures
        sizes_sum(cs, i) <= sizes_sum(cs, j),
    decreases j - i,
{
    if i < j {
        lemma_sizes_sum_monotone(cs, i, j - 1);
    }
}

/// Every prefix sum of heights is bounded by the total.
pub proof fn lemma_heights_sum_monotone(cs: Seq<NodeV>, i: int, j: int)
    requires
        0 <= i <= j <= cs.len(),
    ensures
        heights_sum(cs, i) <= heights_sum(cs, j),
    decreases j - i,
{
    if i < j {
        lemma_heights_sum_monotone(cs, i, j - 1);
    }
}

/// A child's subtree is strictly smaller than its parent's.
pub proof fn lemma_child_size_lt(n: NodeV, i: int)
    requires
        0 <= i < n.children.len(),
    ensures
        spec_size(n.children[i]) < spec_size(n),
{
    lemma_sizes_sum_monotone(n.children, i + 1, n.children.len() as int);
    lemma_sizes_sum_monotone(n.children, 0, i);
    assert(sizes_sum(n.children, i + 1) == sizes_sum(n.children, i) + spec_size(n.children[i]));
}

impl Content {
    /// True of an editable text payload.
    pub open spec fn spec_is_text(&self) -> bool {
        self@ is Text
    }

    #[verifier::when_used_as_spec(spec_is_text)]
    pub fn is_text(&self) -> (r: bool)
        ensures
            r == self.spec_is_text(),
    {
        match self {
            Content::Text { .. } => true,
            Content::Plot(..) => false,
        }
    }

    /// Length of the payload: character count for text, sample count for a plot.
    pub fn len(&self) -> (r: usize)
        ensures
            r == content_len(self@),
    {
        match self {
            Content::Text { text } => text.len(),
            Content::Plot(samples) => samples.len(),
        }
    }

    /// Append one character to an editable text payload.
    pub fn append(&mut self, c: char)
        requires
            old(self).spec_is_text(),
        ensures
            final(self)@ == (ContentV::Text { text: old(self)@->Text_text.push(c) }),
    {
        match self {
            Content::Text { text } => {
                text.push(c);
            },
            Content::Plot(..) => {},
        }
    }

    /// Remove the last character of an editable text payload; a no-op when
    /// the text is already empty (clamped, never underflows).
    pub fn backspace(&mut self)
        requires
            old(self).spec_is_text(),
        ensures
            final(self)@ == (ContentV::Text {
                text: old(self)@->Text_text.take(
                    if old(self)@->Text_text.len() == 0 {
                        0
                    } else {
                        old(self)@->Text_text.len() - 1
                    },
                ),
            }),
    {
        match self {
            Content::Text { text } => {
                if text.len() > 0 {
                    text.pop();
                }
                assert(text@ =~= old(self)@->Text_text.take(
                    if old(self)@->Text_text.len() == 0 {
                        0int
                    } else {
                        old(self)@->Text_text.len() - 1
                    },
                ));
            },
            Content::Plot(..) => {},
        }
    }
}

/// The model of a freshly created node: empty-flagged text node reading "new".
pub open spec fn fresh_node_v(id: NodeID) -> NodeV {
    NodeV {
        id,
        content: ContentV::Text { text: seq!['n', 'e', 'w'] },
        selected: false,
        collapsed: false,
        children: Seq::empty(),
    }
}

/// Smallest index at or after `i` whose node carries the given identity, or -1.
pub open spec fn direct_idx_from(cs: Seq<NodeV>, id: NodeID, i: int) -> int
    decreases cs.len() - i,
{
    if i < 0 || i >= cs.len() {
        -1
    } else if cs[i].id == id {
        i
    } else {
        direct_idx_from(cs, id, i + 1)
    }
}

/// What deleting the first node with the given identity from the subtree
/// does: the direct children are scanned first, then each child's subtree
/// in order; the first match is removed together with its whole subtree.
pub open spec fn spec_delete(n: NodeV, id: NodeID) -> (NodeV, bool)
    decreases n, 0nat,
{
    let di = direct_idx_from(n.children, id, 0);
    if di >= 0 {
        (NodeV { children: n.children.remove(di), ..n }, true)
    } else {
        let r = delete_rec(n.children, id, 0);
        (NodeV { children: r.0, ..n }, r.1)
    }
}

/// Deletion tried on each child subtree from index `i` on, in order.
pub open spec fn delete_rec(cs: Seq<NodeV>, id: NodeID, i: int) -> (Seq<NodeV>, bool)
    decreases cs, cs.len() - i,
{
    if i < 0 || i >= cs.len() {
        (cs, false)
    } else {
        let r = spec_delete(cs[i], id);
        if r.1 {
            (cs.update(i, r.0), true)
        } else {
            delete_rec(cs, id, i + 1)
        }
    }
}

/// A deletion that reports not-found leaves the subtree unchanged.
pub proof fn lemma_delete_unchanged(n: NodeV, id: NodeID)
    ensures
        !spec_delete(n, id).1 ==> spec_delete(n, id).0 == n,
    decreases n, 0nat,
{
    if !spec_delete(n, id).1 {
        lemma_delete_rec_unchanged(n.children, id, 0);
        assert(spec_delete(n, id).0 =~= n);
    }
}

proof fn lemma_delete_rec_unchanged(cs: Seq<NodeV>, id: NodeID, i: int)
    ensures
        !delete_rec(cs, id, i).1 ==> delete_rec(cs, id, i).0 == cs,
    decreases cs, cs.len() - i,
{
    if 0 <= i < cs.len() && !delete_rec(cs, id, i).1 {
        lemma_delete_rec_unchanged(cs, id, i + 1);
    }
}

/// Pointwise effect of removing one element on the modelled child sequence.
proof fn lemma_children_v_remove(cs: Seq<Node>, j: int)
    requires
        0 <= j < cs.len(),
    ensures
        children_v(cs.remove(j), cs.len() - 1) =~= children_v(
            cs,
            cs.len() as int,
        ).remove(j),
{
    lemma_children_v(cs, cs.len() as int);
    lemma_children_v(cs.remove(j), cs.len() - 1);
}

/// Pointwise effect of replacing one element on the modelled child sequence.
proof fn lemma_children_v_update(cs: Seq<Node>, j: int, c: Node)
    requires
        0 <= j < cs.len(),
    ensures
        children_v(cs.update(j, c), cs.len() as int) =~= children_v(
            cs,
            cs.len() as int,
        ).update(j, node_v(c)),
{
    lemma_children_v(cs, cs.len() as int);
    lemma_children_v(cs.update(j, c), cs.len() as int);
}

/// Pointwise effect of appending one element on the modelled child sequence.
proof fn lemma_children_v_push(cs: Seq<Node>, c: Node)
    ensures
        children_v(cs.push(c), cs.len() as int + 1) =~= children_v(cs, cs.len() as int).push(
            node_v(c),
        ),
{
    lemma_children_v(cs, cs.len() as int);
    lemma_children_v(cs.push(c), cs.len() as int + 1);
}

impl Node {
    /// Number of rows this node occupies: 1 when collapsed or childless,
    /// else 1 plus the height of every child.
    pub fn height(&self) -> (h: usize)
        requires
            spec_size(self@) <= usize::MAX,
        ensures
            h == spec_height(self@),
        decreases *self,
    {
        if self.collapsed || self.children.len() == 0 {
            1
        } else {
            let ghost cs = self@.children;
            let mut total: usize = 1;
            let mut i: usize = 0;
            proof {
                lemma_children_v(self.children@, self.children@.len() as int);
            }
            while i < self.children.len()
                invariant
                    i <= self.children.len(),
                    cs == self@.children,
                    cs.len() == self.children.len(),
                    spec_size(self@) <= usize::MAX,
                    forall|j: int|
                        0 <= j < cs.len() ==> cs[j] == node_v(self.children@[j]),
                    total == 1 + heights_sum(cs, i as int),
                decreases self.children.len() - i,
            {
                proof {
                    lemma_child_size_lt(self@, i as int);
                    lemma_height_le_size(cs[i as int]);
                    lemma_heights_sum_monotone(cs, i + 1, cs.len() as int);
                    lemma_heights_le_sizes(cs, cs.len() as int);
                }
                let h = self.children[i].height();
                total = total + h;
                i = i + 1;
            }
            total
        }
    }

    /// Number of nodes in this subtree when it does not exceed `budget`;
    /// `None` reports that the subtree is larger than `budget`.
    pub fn size_limited(&self, budget: u64) -> (r: Option<u64>)
        ensures
            r matches Some(s) ==> s == spec_size(self@) && s <= budget,
            r is None ==> spec_size(self@) > budget,
        decreases *self,
    {
        if budget == 0 {
            return None;
        }
        let ghost cs = self@.children;
        let mut total: u64 = 1;
        let mut i: usize = 0;
        proof {
            lemma_children_v(self.children@, self.children@.len() as int);
        }
        while i < self.children.len()
            invariant
                i <= self.children.len(),
                cs == self@.children,
                cs.len() == self.children.len(),
                1 <= total <= budget,
                forall|j: int| 0 <= j < cs.len() ==> cs[j] == node_v(self.children@[j]),
                total == 1 + sizes_sum(cs, i as int),
            decreases self.children.len() - i,
        {
            match self.children[i].size_limited(budget - total) {
                Some(s) => {
                    total = total + s;
                    i = i + 1;
                },
                None => {
                    proof {
                        lemma_sizes_sum_monotone(cs, i + 1, cs.len() as int);
                    }
                    return None;
                },
            }
        }
        Some(total)
    }

    /// Flip the collapsed flag; children keep their own flags.
    pub fn toggle_collapsed(&mut self)
        ensures
            final(self)@ == (NodeV { collapsed: !old(self)@.collapsed, ..old(self)@ }),
    {
        if self.collapsed {
            self.collapsed = false;
        } else {
            self.collapsed = true;
        }
        assert(final(self)@ =~= NodeV { collapsed: !old(self)@.collapsed, ..old(self)@ });
    }

    /// Append a fresh empty text node reading "new", carrying the given
    /// identity, as the last child.
    pub fn create_child(&mut self, new_id: NodeID)
        ensures
            final(self)@ == (NodeV {
                children: old(self)@.children.push(fresh_node_v(new_id)),
                ..old(self)@
            }),
    {
        let text: Vec<char> = vec!['n', 'e', 'w'];
        assert(text@ =~= seq!['n', 'e', 'w']);
        let child = Node {
            content: Content::Text { text },
            children: Vec::new(),
            selected: false,
            collapsed: false,
            id: new_id,
        };
        assert(child@ =~= fresh_node_v(new_id));
        proof {
            lemma_children_v_push(self.children@, child);
        }
        self.children.push(child);
        assert(final(self)@ =~= NodeV {
            children: old(self)@.children.push(fresh_node_v(new_id)),
            ..old(self)@
        });
    }

    /// Remove the first node of this subtree carrying the given identity:
    /// the direct children are scanned first, then each child's subtree in
    /// order. Reports whether anything was removed.
    pub fn delete(&mut self, id: NodeID) -> (found: bool)
        ensures
            final(self)@ == spec_delete(old(self)@, id).0,
            found == spec_delete(old(self)@, id).1,
        decreases spec_size(self@),
    {
        let ghost cs = self@.children;
        proof {
            lemma_children_v(self.children@, self.children@.len() as int);
        }
        let mut i: usize = 0;
        while i < self.children.len()
            invariant
                i <= self.children.len(),
                *self == *old(self),
                cs == self@.children,
                cs.len() == self.children.len(),
                forall|j: int| 0 <= j < cs.len() ==> cs[j] == node_v(self.children@[j]),
                direct_idx_from(cs, id, 0) == direct_idx_from(cs, id, i as int),
            decreases self.children.len() - i,
        {
            if self.children[i].id == id {
                proof {
                    lemma_children_v_remove(self.children@, i as int);
                }
                self.children.remove(i);
                assert(final(self)@ =~= spec_delete(old(self)@, id).0);
                return true;
            }
            i = i + 1;
        }
        assert(direct_idx_from(cs, id, 0) == -1);
        let mut i: usize = 0;
        while i < self.children.len()
            invariant
                i <= self.children.len(),
                self@ == old(self)@,
                cs == self@.children,
                cs.len() == self.children.len(),
                direct_idx_from(cs, id, 0) == -1,
                delete_rec(cs, id, 0) == delete_rec(cs, id, i as int),
            decreases self.children.len() - i,
        {
            let ghost pre = self.children@;
            proof {
                lemma_children_v(pre, pre.len() as int);
                lemma_child_size_lt(old(self)@, i as int);
            }
            let mut c = self.children.remove(i);
            assert(c@ == cs[i as int]);
            let found = c.delete(id);
            self.children.insert(i, c);
            assert(self.children@ =~= pre.update(i as int, c));
            proof {
                lemma_children_v_update(pre, i as int, c);
            }
            if found {
                assert(final(self)@ =~= spec_delete(old(self)@, id).0);
                return true;
            }
            proof {
                lemma_delete_unchanged(cs[i as int], id);
            }
            assert(c@ == cs[i as int]);
            assert(self@.children =~= cs);
            assert(self@ =~= old(self)@);
            i = i + 1;
        }
        proof {
            lemma_delete_rec_unchanged(cs, id, 0);
        }
        assert(final(self)@ =~= spec_delete(old(self)@, id).0);
        false
    }
}

/// Build a text node with the given label and children; the node and its
/// children keep the identities they already carry, and a label-built node
/// itself carries identity 0 until its screen assigns one.
pub fn node(text: &str, children: Vec<Node>) -> (n: Node)
    ensures
        n@.content == (ContentV::Text { text: text@ }),
        n@.children == children_v(children@, children@.len() as int),
        n@.id == 0,
        !n@.selected,
        !n@.collapsed,
{
    let chars = str_chars(text);
    Node {
        content: Content::Text { text: chars },
        children,
        selected: false,
        collapsed: false,
        id: 0,
    }
}

/// An edit applied to the node a screen has selected, addressed by identity.
#[derive(Clone, Copy)]
pub enum EditOp {
    /// Flip the collapsed flag.
    Toggle,
    /// Append a fresh "new" text child carrying the given identity.
    CreateChild(NodeID),
    /// Append one character to a text payload; a no-op on a plot.
    Append(char),
    /// Drop the last character of a text payload; a no-op on a plot or
    /// on empty text.
    Backspace,
    /// Set the selected flag.
    SetSelected(bool),
}

/// What one edit does to the node it addresses.
pub open spec fn apply_op(n: NodeV, op: EditOp) -> NodeV {
    match op {
        EditOp::Toggle => NodeV { collapsed: !n.collapsed, ..n },
        EditOp::CreateChild(new_id) => NodeV {
            children: n.children.push(fresh_node_v(new_id)),
            ..n
        },
        EditOp::Append(c) => if n.content is Text {
            NodeV { content: ContentV::Text { text: n.content->Text_text.push(c) }, ..n }
        } else {
            n
        },
        EditOp::Backspace => if n.content is Text {
            NodeV {
                content: ContentV::Text {
                    text: n.content->Text_text.take(
                        if n.content->Text_text.len() == 0 {
                            0
                        } else {
                            n.content->Text_text.len() - 1
                        },
                    ),
                },
                ..n
            }
        } else {
            n
        },
        EditOp::SetSelected(b) => NodeV { selected: b, ..n },
    }
}

/// What applying an edit to the first node with the given identity does:
/// the node itself is checked first, then each child's subtree in order.
pub open spec fn spec_apply_at(n: NodeV, id: NodeID, op: EditOp) -> (NodeV, bool)
    decreases n, 0nat,
{
    if n.id == id {
        (apply_op(n, op), true)
    } else {
        let r = apply_rec(n.children, id, op, 0);
        (NodeV { children: r.0, ..n }, r.1)
    }
}

/// The edit tried on each child subtree from index `i` on, in order.
pub open spec fn apply_rec(cs: Seq<NodeV>, id: NodeID, op: EditOp, i: int) -> (Seq<NodeV>, bool)
    decreases cs, cs.len() - i,
{
    if i < 0 || i >= cs.len() {
        (cs, false)
    } else {
        let r = spec_apply_at(cs[i], id, op);
        if r.1 {
            (cs.update(i, r.0), true)
        } else {
            apply_rec(cs, id, op, i + 1)
        }
    }
}

/// An edit that reports not-found leaves the subtree unchanged.
pub proof fn lemma_apply_unchanged(n: NodeV, id: NodeID, op: EditOp)
    ensures
        !spec_apply_at(n, id, op).1 ==> spec_apply_at(n, id, op).0 == n,
    decreases n, 0nat,
{
    if !spec_apply_at(n, id, op).1 {
        lemma_apply_rec_unchanged(n.children, id, op, 0);
        assert(spec_apply_at(n, id, op).0 =~= n);
    }
}

proof fn lemma_apply_rec_unchanged(cs: Seq<NodeV>, id: NodeID, op: EditOp, i: int)
    ensures
        !apply_rec(cs, id, op, i).1 ==> apply_rec(cs, id, op, i).0 == cs,
    decreases cs, cs.len() - i,
{
    if 0 <= i < cs.len() && !apply_rec(cs, id, op, i).1 {
        lemma_apply_rec_unchanged(cs, id, op, i + 1);
    }
}

impl Node {
    /// Apply one edit to the first node of this subtree carrying the given
    /// identity; reports whether such a node was found. An identity absent
    /// from the subtree leaves it unchanged.
    pub fn apply_at(&mut self, id: NodeID, op: EditOp) -> (found: bool)
        ensures
            final(self)@ == spec_apply_at(old(self)@, id, op).0,
            found == spec_apply_at(old(self)@, id, op).1,
        decreases spec_size(self@),
    {
        if self.id == id {
            match op {
                EditOp::Toggle => {
                    self.toggle_collapsed();
                },
                EditOp::CreateChild(new_id) => {
                    self.create_child(new_id);
                },
                EditOp::Append(c) => {
                    if self.content.is_text() {
                        self.content.append(c);
                    }
                },
                EditOp::Backspace => {
                    if self.content.is_text() {
                        self.content.backspace();
                    }
                },
                EditOp::SetSelected(b) => {
                    self.selected = b;
                },
            }
            assert(final(self)@ =~= apply_op(old(self)@, op));
            return true;
        }
        let ghost cs = self@.children;
        proof {
            lemma_children_v(self.children@, self.children@.len() as int);
        }
        let mut i: usize = 0;
        while i < self.children.len()
            invariant
                i <= self.children.len(),
                self@ == old(self)@,
                old(self)@.id != id,
                cs == self@.children,
                cs.len() == self.children.len(),
                apply_rec(cs, id, op, 0) == apply_rec(cs, id, op, i as int),
            decreases self.children.len() - i,
        {
            let ghost pre = self.children@;
            proof {
                lemma_children_v(pre, pre.len() as int);
                lemma_child_size_lt(old(self)@, i as int);
            }
            let mut c = self.children.remove(i);
            assert(c@ == cs[i as int]);
            let found = c.apply_at(id, op);
            self.children.insert(i, c);
            assert(self.children@ =~= pre.update(i as int, c));
            proof {
                lemma_children_v_update(pre, i as int, c);
            }
            if found {
                assert(final(self)@ =~= spec_apply_at(old(self)@, id, op).0);
                return true;
            }
            proof {
                lemma_apply_unchanged(cs[i as int], id, op);
            }
            assert(self@.children =~= cs);
            assert(self@ =~= old(self)@);
            i = i + 1;
        }
        proof {
            lemma_apply_rec_unchanged(cs, id, op, 0);
        }
        assert(final(self)@ =~= spec_apply_at(old(self)@, id, op).0);
        false
    }
}

/// Where a click at local column `x` and local row `y >= 1` lands among the
/// children of a node at the given depth: rows are consumed child by child
/// in order, each child owning as many rows as its height; a hit on a
/// child's own label row checks the row width at that depth.
pub open spec fn spec_node_lookup(n: NodeV, depth: int, x: int, y: int) -> Option<NodeID>
    decreases n, 0nat,
{
    lookup_rec(n.children, depth, x, y, 1, 0)
}

/// The walk from child `i` on, `ytrav` rows already consumed.
pub open spec fn lookup_rec(cs: Seq<NodeV>, depth: int, x: int, y: int, ytrav: int, i: int) -> Option<
    NodeID,
>
    decreases cs, cs.len() - i,
{
    if i < 0 || i >= cs.len() {
        None
    } else if y == ytrav {
        if content_len(cs[i].content) + 1 + 3 * (depth + 1) >= x {
            Some(cs[i].id)
        } else {
            None
        }
    } else if y < ytrav + spec_height(cs[i]) {
        spec_node_lookup(cs[i], depth + 1, x, y - ytrav)
    } else {
        lookup_rec(cs, depth, x, y, ytrav + spec_height(cs[i]), i + 1)
    }
}

/// Whether a row of the given content length, drawn at the given depth,
/// reaches column `x` (with the one-column click tolerance).
fn width_reaches(clen: usize, depth: usize, x: u16) -> (r: bool)
    requires
        depth + 1 <= usize::MAX,
    ensures
        r == (clen + 1 + 3 * (depth + 1) >= x),
{
    let xl = x as usize;
    if clen >= xl {
        true
    } else if depth >= xl {
        true
    } else {
        clen + 1 + 3 * (depth + 1) >= xl
    }
}

impl Node {
    /// Resolve a local coordinate to the identity of the node whose row it
    /// hits, walking the children in order; `None` is empty space.
    pub fn lookup(&self, depth: usize, coords: (u16, u16)) -> (r: Option<NodeID>)
        requires
            depth + spec_size(self@) <= usize::MAX,
            coords.1 >= 1,
        ensures
            r == spec_node_lookup(self@, depth as int, coords.0 as int, coords.1 as int),
        decreases spec_size(self@),
    {
        let ghost cs = self@.children;
        proof {
            lemma_children_v(self.children@, self.children@.len() as int);
        }
        let y = coords.1 as usize;
        let mut ytrav: usize = 1;
        let mut i: usize = 0;
        while i < self.children.len()
            invariant
                i <= self.children.len(),
                cs == self@.children,
                cs.len() == self.children.len(),
                depth + spec_size(self@) <= usize::MAX,
                forall|j: int| 0 <= j < cs.len() ==> cs[j] == node_v(self.children@[j]),
                y == coords.1,
                1 <= ytrav <= y,
                ytrav == 1 + heights_sum(cs, i as int),
                spec_node_lookup(self@, depth as int, coords.0 as int, coords.1 as int)
                    == lookup_rec(cs, depth as int, coords.0 as int, coords.1 as int, ytrav as int, i as int),
            decreases self.children.len() - i,
        {
            proof {
                lemma_child_size_lt(self@, i as int);
            }
            let h = self.children[i].height();
            if y == ytrav {
                let clen = self.children[i].content.len();
                if width_reaches(clen, depth, coords.0) {
                    return Some(self.children[i].id);
                } else {
                    return None;
                }
            } else if y - ytrav < h {
                let y_local = (y - ytrav) as u16;
                assert(y - ytrav >= 1);
                return self.children[i].lookup(depth + 1, (coords.0, y_local));
            } else {
                ytrav = ytrav + h;
                i = i + 1;
            }
        }
        None
    }
}

/// Prefix sums of sizes depend only on the elements they cover.
pub proof fn lemma_sizes_sum_agree(a: Seq<NodeV>, b: Seq<NodeV>, i: int)
    requires
        0 <= i <= a.len(),
        i <= b.len(),
        forall|j: int| 0 <= j < i ==> a[j] == b[j],
    ensures
        sizes_sum(a, i) == sizes_sum(b, i),
    decreases i,
{
    if i > 0 {
        lemma_sizes_sum_agree(a, b, i - 1);
    }
}

/// Replacing one child changes the size total by the difference of the two.
pub proof fn lemma_sizes_sum_update(cs: Seq<NodeV>, i: int, c: NodeV, j: int)
    requires
        0 <= i < j <= cs.len(),
    ensures
        sizes_sum(cs.update(i, c), j) == sizes_sum(cs, j) - spec_size(cs[i]) + spec_size(c),
    decreases j,
{
    if j == i + 1 {
        lemma_sizes_sum_agree(cs.update(i, c), cs, i);
    } else {
        lemma_sizes_sum_update(cs, i, c, j - 1);
    }
}

/// Removing one child lowers the size total by exactly its size.
pub proof fn lemma_sizes_sum_remove(cs: Seq<NodeV>, i: int, j: int)
    requires
        0 <= i < j <= cs.len(),
    ensures
        sizes_sum(cs.remove(i), j - 1) == sizes_sum(cs, j) - spec_size(cs[i]),
    decreases j,
{
    if j == i + 1 {
        lemma_sizes_sum_agree(cs.remove(i), cs, i);
    } else {
        lemma_sizes_sum_remove(cs, i, j - 1);
        assert(cs.remove(i)[j - 2] == cs[j - 1]);
    }
}

/// Appending one child raises the size total by exactly its size.
pub proof fn lemma_sizes_sum_push(cs: Seq<NodeV>, c: NodeV)
    ensures
        sizes_sum(cs.push(c), cs.len() as int + 1) == sizes_sum(cs, cs.len() as int) + spec_size(
            c,
        ),
{
    lemma_sizes_sum_agree(cs.push(c), cs, cs.len() as int);
    assert(cs.push(c)[cs.len() as int] == c);
}

/// How an edit changes a subtree's node count: creating a child adds one
/// node when the target is found; every other edit keeps the count.
pub proof fn lemma_apply_size(n: NodeV, id: NodeID, op: EditOp)
    ensures
        spec_size(spec_apply_at(n, id, op).0) == spec_size(n) + (if spec_apply_at(n, id, op).1
            && (op matches EditOp::CreateChild(_)) {
            1int
        } else {
            0int
        }),
    decreases n, 0nat,
{
    if n.id == id {
        match op {
            EditOp::CreateChild(new_id) => {
                lemma_sizes_sum_push(n.children, fresh_node_v(new_id));
            },
            _ => {},
        }
    } else {
        lemma_apply_rec_size(n.children, id, op, 0);
    }
}

proof fn lemma_apply_rec_size(cs: Seq<NodeV>, id: NodeID, op: EditOp, i: int)
    ensures
        sizes_sum(apply_rec(cs, id, op, i).0, cs.len() as int) == sizes_sum(cs, cs.len() as int)
            + (if apply_rec(cs, id, op, i).1 && (op matches EditOp::CreateChild(_)) {
            1int
        } else {
            0int
        }),
        apply_rec(cs, id, op, i).0.len() == cs.len(),
    decreases cs, cs.len() - i,
{
    if 0 <= i < cs.len() {
        let r = spec_apply_at(cs[i], id, op);
        if r.1 {
            lemma_apply_size(cs[i], id, op);
            lemma_sizes_sum_update(cs, i, r.0, cs.len() as int);
        } else {
            lemma_apply_rec_size(cs, id, op, i + 1);
        }
    }
}

/// Deleting never grows a subtree.
pub proof fn lemma_delete_size_le(n: NodeV, id: NodeID)
    ensures
        spec_size(spec_delete(n, id).0) <= spec_size(n),
    decreases n, 0nat,
{
    let di = direct_idx_from(n.children, id, 0);
    if di >= 0 {
        lemma_direct_idx_in_range(n.children, id, 0);
        lemma_sizes_sum_remove(n.children, di, n.children.len() as int);
        lemma_height_le_size(n.children[di]);
    } else {
        lemma_delete_rec_size_le(n.children, id, 0);
    }
}

proof fn lemma_delete_rec_size_le(cs: Seq<NodeV>, id: NodeID, i: int)
    ensures
        sizes_sum(delete_rec(cs, id, i).0, delete_rec(cs, id, i).0.len() as int) <= sizes_sum(
            cs,
            cs.len() as int,
        ),
        delete_rec(cs, id, i).0.len() == cs.len(),
    decreases cs, cs.len() - i,
{
    if 0 <= i < cs.len() {
        let r = spec_delete(cs[i], id);
        if r.1 {
            lemma_delete_size_le(cs[i], id);
            lemma_sizes_sum_update(cs, i, r.0, cs.len() as int);
        } else {
            lemma_delete_rec_size_le(cs, id, i + 1);
        }
    }
}

/// A found direct index lies inside the sequence and carries the identity.
pub proof fn lemma_direct_idx_in_range(cs: Seq<NodeV>, id: NodeID, i: int)
    requires
        0 <= i,
    ensures
        direct_idx_from(cs, id, i) == -1 || (i <= direct_idx_from(cs, id, i) < cs.len()
            && cs[direct_idx_from(cs, id, i)].id == id),
    decreases cs.len() - i,
{
    if i < cs.len() && cs[i].id != id {
        lemma_direct_idx_in_range(cs, id, i + 1);
    }
}

/// How many nodes of a subtree carry the given identity.
pub open spec fn occ(n: NodeV, id: NodeID) -> nat
    decreases n, 0nat,
{
    (if n.id == id {
        1nat
    } else {
        0nat
    }) + occ_rec(n.children, id, 0)
}

/// The occurrence count over the children from index `i` on.
pub open spec fn occ_rec(cs: Seq<NodeV>, id: NodeID, i: int) -> nat
    decreases cs, cs.len() - i,
{
    if i < 0 || i >= cs.len() {
        0
    } else {
        occ(cs[i], id) + occ_rec(cs, id, i + 1)
    }
}

/// The subtree a deletion of the given identity removes: the first direct
/// child carrying it, else the result of the same search in each child's
/// subtree in order.
pub open spec fn subtree_find(n: NodeV, id: NodeID) -> Option<NodeV>
    decreases n, 0nat,
{
    let di = direct_idx_from(n.children, id, 0);
    if di >= 0 {
        Some(n.children[di])
    } else {
        find_rec(n.children, id, 0)
    }
}

/// The search from child `i` on.
pub open spec fn find_rec(cs: Seq<NodeV>, id: NodeID, i: int) -> Option<NodeV>
    decreases cs, cs.len() - i,
{
    if i < 0 || i >= cs.len() {
        None
    } else {
        match subtree_find(cs[i], id) {
            Some(m) => Some(m),
            None => find_rec(cs, id, i + 1),
        }
    }
}

/// An occurrence total bounds each covered child's own count.
proof fn lemma_occ_rec_ge(cs: Seq<NodeV>, id: NodeID, i: int)
    requires
        0 <= i,
    ensures
        forall|a: int| i <= a < cs.len() ==> occ_rec(cs, id, i) >= occ(#[trigger] cs[a], id),
    decreases cs.len() - i,
{
    if i < cs.len() {
        lemma_occ_rec_ge(cs, id, i + 1);
    }
}

/// Replacing one child changes the occurrence total by the difference.
proof fn lemma_occ_rec_update(cs: Seq<NodeV>, id: NodeID, j: int, c: NodeV, i: int)
    requires
        0 <= i <= j < cs.len(),
    ensures
        occ_rec(cs.update(j, c), id, i) == occ_rec(cs, id, i) - occ(cs[j], id) + occ(c, id),
    decreases j - i,
{
    if i < j {
        lemma_occ_rec_update(cs, id, j, c, i + 1);
    } else {
        lemma_occ_rec_agree(cs.update(j, c), cs, id, j + 1);
    }
}

/// Occurrence totals depend only on the children they cover.
proof fn lemma_occ_rec_agree(a: Seq<NodeV>, b: Seq<NodeV>, id: NodeID, i: int)
    requires
        a.len() == b.len(),
        0 <= i,
        forall|j: int| i <= j < a.len() ==> a[j] == b[j],
    ensures
        occ_rec(a, id, i) == occ_rec(b, id, i),
    decreases a.len() - i,
{
    if i < a.len() {
        lemma_occ_rec_agree(a, b, id, i + 1);
    }
}

/// Removing one child lowers the occurrence total by its own count.
proof fn lemma_occ_rec_remove(cs: Seq<NodeV>, id: NodeID, j: int, i: int)
    requires
        0 <= i <= j < cs.len(),
    ensures
        occ_rec(cs.remove(j), id, i) == occ_rec(cs, id, i) - occ(cs[j], id),
    decreases j - i,
{
    if i < j {
        lemma_occ_rec_remove(cs, id, j, i + 1);
    } else {
        lemma_occ_rec_shift(cs.remove(j), cs, id, i, 1);
    }
}

/// Occurrence totals agree across an index shift of one.
proof fn lemma_occ_rec_shift(a: Seq<NodeV>, b: Seq<NodeV>, id: NodeID, i: int, d: int)
    requires
        0 <= i,
        0 <= d,
        a.len() + d == b.len(),
        forall|j: int| i <= j < a.len() ==> a[j] == b[j + d],
    ensures
        occ_rec(a, id, i) == occ_rec(b, id, i + d),
    decreases a.len() - i,
{
    if i < a.len() {
        lemma_occ_rec_shift(a, b, id, i + 1, d);
    }
}

/// The delete law. Deleting an identity that occurs exactly once, below
/// the root, reports success and removes exactly that subtree: the node
/// count drops by the size of the removed subtree and the identity is
/// gone. Deleting an absent identity leaves the tree unchanged and
/// reports not-found.
pub proof fn lemma_delete_law(n: NodeV, id: NodeID)
    requires
        n.id != id,
    ensures
        occ(n, id) == 0 ==> spec_delete(n, id) == (n, false) && subtree_find(n, id) is None,
        occ(n, id) == 1 ==> spec_delete(n, id).1 && (match subtree_find(n, id) {
            Some(m) => spec_size(spec_delete(n, id).0) + spec_size(m) == spec_size(n),
            None => false,
        }) && occ(spec_delete(n, id).0, id) == 0,
    decreases n, 0nat,
{
    lemma_delete_law_rec(n.children, id, 0);
    let di = direct_idx_from(n.children, id, 0);
    lemma_direct_idx_in_range(n.children, id, 0);
    if occ(n, id) == 0 {
        assert(occ_rec(n.children, id, 0) == 0);
        assert(direct_idx_from(n.children, id, 0) == -1);
        assert(find_rec(n.children, id, 0) is None);
        assert(spec_delete(n, id).0 =~= n);
    } else if occ(n, id) == 1 {
        assert(occ_rec(n.children, id, 0) == 1);
        if di >= 0 {
            lemma_occ_rec_ge(n.children, id, 0);
            assert(occ(n.children[di], id) >= 1);
            assert(occ(n.children[di], id) == 1);
            lemma_occ_rec_remove(n.children, id, di, 0);
            lemma_sizes_sum_remove(n.children, di, n.children.len() as int);
            assert(occ(spec_delete(n, id).0, id) == 0);
        } else {
            assert(spec_delete(n, id).0.children == delete_rec(n.children, id, 0).0);
        }
    }
}

/// The delete law over the children from index `i` on.
proof fn lemma_delete_law_rec(cs: Seq<NodeV>, id: NodeID, i: int)
    requires
        0 <= i,
    ensures
        occ_rec(cs, id, i) == 0 ==> delete_rec(cs, id, i) == (cs, false) && direct_idx_from(
            cs,
            id,
            i,
        ) == -1 && find_rec(cs, id, i) is None,
        occ_rec(cs, id, i) == 1 && direct_idx_from(cs, id, i) == -1 ==> delete_rec(
            cs,
            id,
            i,
        ).1 && (match find_rec(cs, id, i) {
            Some(m) => sizes_sum(delete_rec(cs, id, i).0, cs.len() as int) + spec_size(m)
                == sizes_sum(cs, cs.len() as int),
            None => false,
        }) && delete_rec(cs, id, i).0.len() == cs.len() && occ_rec(delete_rec(cs, id, i).0, id, 0)
            == occ_rec(cs, id, 0) - 1,
    decreases cs, cs.len() - i,
{
    if i < cs.len() {
        lemma_delete_law_rec(cs, id, i + 1);
        if occ_rec(cs, id, i) == 0 {
            assert(occ(cs[i], id) == 0);
            assert(cs[i].id != id);
            lemma_delete_law(cs[i], id);
            assert(spec_delete(cs[i], id) == (cs[i], false));
        } else if occ_rec(cs, id, i) == 1 && direct_idx_from(cs, id, i) == -1 {
            assert(cs[i].id != id);
            lemma_delete_law(cs[i], id);
            if occ(cs[i], id) == 1 {
                let r = spec_delete(cs[i], id);
                assert(r.1);
                assert(delete_rec(cs, id, i) == (cs.update(i, r.0), true));
                match subtree_find(cs[i], id) {
                    Some(m) => {
                        assert(find_rec(cs, id, i) == Some(m));
                        lemma_sizes_sum_update(cs, i, r.0, cs.len() as int);
                    },
                    None => {
                        assert(false);
                    },
                }
                lemma_occ_rec_update(cs, id, i, r.0, 0);
                lemma_occ_rec_ge(cs, id, 0);
            } else {
                assert(occ(cs[i], id) == 0);
                assert(spec_delete(cs[i], id) == (cs[i], false));
                assert(occ_rec(cs, id, i + 1) == 1);
                assert(direct_idx_from(cs, id, i + 1) == -1);
                assert(delete_rec(cs, id, i) == delete_rec(cs, id, i + 1));
                match subtree_find(cs[i], id) {
                    Some(_) => {
                        assert(false);
                    },
                    None => {},
                }
            }
        }
    }
}

/// How many nodes of a subtree carry the selected flag.
pub open spec fn sel_count(n: NodeV) -> nat
    decreases n, 0nat,
{
    (if n.selected {
        1nat
    } else {
        0nat
    }) + sel_count_rec(n.children, 0)
}

/// The flag count over the children from index `i` on.
pub open spec fn sel_count_rec(cs: Seq<NodeV>, i: int) -> nat
    decreases cs, cs.len() - i,
{
    if i < 0 || i >= cs.len() {
        0
    } else {
        sel_count(cs[i]) + sel_count_rec(cs, i + 1)
    }
}

/// Whether any node of the subtree carries the identity.
pub open spec fn contains_id(n: NodeV, id: NodeID) -> bool
    decreases n, 0nat,
{
    n.id == id || contains_rec(n.children, id, 0)
}

/// Whether any child subtree from index `i` on carries the identity.
pub open spec fn contains_rec(cs: Seq<NodeV>, id: NodeID, i: int) -> bool
    decreases cs, cs.len() - i,
{
    if i < 0 || i >= cs.len() {
        false
    } else {
        contains_id(cs[i], id) || contains_rec(cs, id, i + 1)
    }
}

/// First child index at or after `i` whose subtree carries the identity,
/// or -1.
pub open spec fn contains_idx_from(cs: Seq<NodeV>, id: NodeID, i: int) -> int
    decreases cs.len() - i,
{
    if i < 0 || i >= cs.len() {
        -1
    } else if contains_id(cs[i], id) {
        i
    } else {
        contains_idx_from(cs, id, i + 1)
    }
}

/// The found index is in range, carries the identity, and is the first.
pub proof fn lemma_contains_idx_props(cs: Seq<NodeV>, id: NodeID, i: int)
    requires
        0 <= i,
    ensures
        ({
            let k = contains_idx_from(cs, id, i);
            &&& (k == -1 || i <= k < cs.len())
            &&& (k == -1 ==> forall|j: int| i <= j < cs.len() ==> !contains_id(#[trigger] cs[j], id))
            &&& (k >= 0 ==> i <= k < cs.len() && contains_id(cs[k], id) && (forall|j: int|
                i <= j < k ==> !contains_id(#[trigger] cs[j], id)))
        }),
    decreases cs.len() - i,
{
    if i < cs.len() && !contains_id(cs[i], id) {
        lemma_contains_idx_props(cs, id, i + 1);
    }
}

/// An edit reports found exactly when the subtree carries the identity.
pub proof fn lemma_apply_found(n: NodeV, id: NodeID, op: EditOp)
    ensures
        spec_apply_at(n, id, op).1 == contains_id(n, id),
    decreases n, 0nat,
{
    if n.id != id {
        lemma_apply_rec_found(n.children, id, op, 0);
    }
}

proof fn lemma_apply_rec_found(cs: Seq<NodeV>, id: NodeID, op: EditOp, i: int)
    requires
        0 <= i,
    ensures
        apply_rec(cs, id, op, i).1 == (contains_idx_from(cs, id, i) >= 0),
        apply_rec(cs, id, op, i).1 == contains_rec(cs, id, i),
    decreases cs, cs.len() - i,
{
    if 0 <= i < cs.len() {
        lemma_apply_found(cs[i], id, op);
        lemma_apply_rec_found(cs, id, op, i + 1);
    }
}

/// What an edit does, located: nothing without the identity; with it, the
/// node itself or the first carrying child subtree is edited in place.
pub proof fn lemma_apply_char(n: NodeV, id: NodeID, op: EditOp)
    requires
        n.id != id,
    ensures
        ({
            let k = contains_idx_from(n.children, id, 0);
            &&& (k == -1 || 0 <= k < n.children.len())
            &&& (k == -1 ==> spec_apply_at(n, id, op) == (n, false))
            &&& (k >= 0 ==> 0 <= k < n.children.len() && spec_apply_at(n, id, op) == (
                NodeV {
                    children: n.children.update(k, spec_apply_at(n.children[k], id, op).0),
                    ..n
                },
                true,
            ))
        }),
{
    lemma_apply_rec_char(n.children, id, op, 0);
    let k = contains_idx_from(n.children, id, 0);
    let r = apply_rec(n.children, id, op, 0);
    assert(spec_apply_at(n, id, op) == (NodeV { children: r.0, ..n }, r.1));
    if k == -1 {
        assert(r == (n.children, false));
        assert(spec_apply_at(n, id, op).0 =~= n);
    } else {
        assert(0 <= k < n.children.len());
        assert(r == (n.children.update(k, spec_apply_at(n.children[k], id, op).0), true));
        assert(spec_apply_at(n, id, op).0 =~= NodeV {
            children: n.children.update(k, spec_apply_at(n.children[k], id, op).0),
            ..n
        });
    }
}

proof fn lemma_apply_rec_char(cs: Seq<NodeV>, id: NodeID, op: EditOp, i: int)
    requires
        0 <= i,
    ensures
        ({
            let k = contains_idx_from(cs, id, i);
            &&& (k == -1 || i <= k < cs.len())
            &&& (k == -1 ==> apply_rec(cs, id, op, i) == (cs, false))
            &&& (k >= 0 ==> i <= k < cs.len() && apply_rec(cs, id, op, i) == (
                cs.update(k, spec_apply_at(cs[k], id, op).0),
                true,
            ))
        }),
    decreases cs, cs.len() - i,
{
    if 0 <= i < cs.len() {
        lemma_apply_found(cs[i], id, op);
        lemma_apply_rec_char(cs, id, op, i + 1);
    }
}

/// An edit keeps the identity it was addressed at inside the subtree, and
/// keeps the root's own identity.
pub proof fn lemma_apply_keeps_contains(n: NodeV, id: NodeID, op: EditOp)
    ensures
        spec_apply_at(n, id, op).0.id == n.id,
        contains_id(spec_apply_at(n, id, op).0, id) == contains_id(n, id),
    decreases n, 0nat,
{
    if n.id == id {
    } else {
        lemma_apply_rec_char(n.children, id, op, 0);
        lemma_contains_idx_props(n.children, id, 0);
        lemma_contains_rec_idx(n.children, id, 0);
        let k = contains_idx_from(n.children, id, 0);
        if k >= 0 {
            lemma_apply_keeps_contains(n.children[k], id, op);
            let r = spec_apply_at(n, id, op).0;
            assert(contains_id(r.children[k], id));
            lemma_contains_rec_mono(r.children, id, 0, k);
        }
    }
}

/// The range carries the identity exactly when some index is found.
pub proof fn lemma_contains_rec_idx(cs: Seq<NodeV>, id: NodeID, i: int)
    requires
        0 <= i,
    ensures
        contains_rec(cs, id, i) == (contains_idx_from(cs, id, i) >= 0),
    decreases cs.len() - i,
{
    if i < cs.len() {
        lemma_contains_rec_idx(cs, id, i + 1);
    }
}

/// A carrying child makes the whole range carry.
proof fn lemma_contains_rec_mono(cs: Seq<NodeV>, id: NodeID, i: int, k: int)
    requires
        0 <= i <= k < cs.len(),
        contains_id(cs[k], id),
    ensures
        contains_rec(cs, id, i),
    decreases k - i,
{
    if i < k {
        lemma_contains_rec_mono(cs, id, i + 1, k);
    }
}

/// Flag totals depend only on the children they cover.
pub proof fn lemma_sel_rec_agree(a: Seq<NodeV>, b: Seq<NodeV>, i: int)
    requires
        a.len() == b.len(),
        0 <= i,
        forall|j: int| i <= j < a.len() ==> a[j] == b[j],
    ensures
        sel_count_rec(a, i) == sel_count_rec(b, i),
    decreases a.len() - i,
{
    if i < a.len() {
        lemma_sel_rec_agree(a, b, i + 1);
    }
}

/// Replacing one child changes the flag total by the difference.
pub proof fn lemma_sel_rec_update(cs: Seq<NodeV>, j: int, c: NodeV, i: int)
    requires
        0 <= i <= j < cs.len(),
    ensures
        sel_count_rec(cs.update(j, c), i) == sel_count_rec(cs, i) - sel_count(cs[j]) + sel_count(
            c,
        ),
    decreases j - i,
{
    if i < j {
        lemma_sel_rec_update(cs, j, c, i + 1);
    } else {
        lemma_sel_rec_agree(cs.update(j, c), cs, j + 1);
    }
}

/// Removing one child lowers the flag total by its own count.
pub proof fn lemma_sel_rec_remove(cs: Seq<NodeV>, j: int, i: int)
    requires
        0 <= i <= j < cs.len(),
    ensures
        sel_count_rec(cs.remove(j), i) == sel_count_rec(cs, i) - sel_count(cs[j]),
    decreases j - i,
{
    if i < j {
        lemma_sel_rec_remove(cs, j, i + 1);
    } else {
        lemma_sel_rec_shift(cs.remove(j), cs, i, 1);
    }
}

proof fn lemma_sel_rec_shift(a: Seq<NodeV>, b: Seq<NodeV>, i: int, d: int)
    requires
        0 <= i,
        0 <= d,
        a.len() + d == b.len(),
        forall|j: int| i <= j < a.len() ==> a[j] == b[j + d],
    ensures
        sel_count_rec(a, i) == sel_count_rec(b, i + d),
    decreases a.len() - i,
{
    if i < a.len() {
        lemma_sel_rec_shift(a, b, i + 1, d);
    }
}

/// A flag total bounds each covered child's own count.
pub proof fn lemma_sel_rec_ge(cs: Seq<NodeV>, i: int)
    requires
        0 <= i,
    ensures
        forall|a: int| i <= a < cs.len() ==> sel_count_rec(cs, i) >= sel_count(#[trigger] cs[a]),
    decreases cs.len() - i,
{
    if i < cs.len() {
        lemma_sel_rec_ge(cs, i + 1);
    }
}

/// Clearing the selected flag at an identity removes at most one flag,
/// and never adds one.
pub proof fn lemma_clear_dec(n: NodeV, id: NodeID)
    ensures
        sel_count(spec_apply_at(n, id, EditOp::SetSelected(false)).0) <= sel_count(n),
        sel_count(n) <= sel_count(spec_apply_at(n, id, EditOp::SetSelected(false)).0) + 1,
    decreases n, 0nat,
{
    if n.id == id {
        assert(spec_apply_at(n, id, EditOp::SetSelected(false)).0.children =~= n.children);
        lemma_sel_rec_agree(
            spec_apply_at(n, id, EditOp::SetSelected(false)).0.children,
            n.children,
            0,
        );
    } else {
        lemma_apply_char(n, id, EditOp::SetSelected(false));
        let k = contains_idx_from(n.children, id, 0);
        if k >= 0 {
            lemma_clear_dec(n.children[k], id);
            lemma_sel_rec_update(
                n.children,
                k,
                spec_apply_at(n.children[k], id, EditOp::SetSelected(false)).0,
                0,
            );
        }
    }
}

/// Editing at an identity and then clearing the selected flag at that
/// identity leaves exactly the flags that clearing alone would leave:
/// both walks address the same node, and no edit moves a flag elsewhere.
pub proof fn lemma_apply_then_clear(n: NodeV, id: NodeID, op: EditOp)
    ensures
        sel_count(
            spec_apply_at(spec_apply_at(n, id, op).0, id, EditOp::SetSelected(false)).0,
        ) == sel_count(spec_apply_at(n, id, EditOp::SetSelected(false)).0),
    decreases n, 0nat,
{
    let clr = EditOp::SetSelected(false);
    if n.id == id {
        let n1 = apply_op(n, op);
        assert(n1.id == id);
        let lhs = spec_apply_at(n1, id, clr).0;
        let rhs = spec_apply_at(n, id, clr).0;
        assert(lhs == apply_op(n1, clr) && rhs == apply_op(n, clr));
        match op {
            EditOp::CreateChild(nid) => {
                assert(n1.children =~= n.children.push(fresh_node_v(nid)));
                lemma_sel_rec_push_zero(n.children, fresh_node_v(nid));
            },
            _ => {
                assert(n1.children =~= n.children);
                lemma_sel_rec_agree(n1.children, n.children, 0);
            },
        }
        assert(lhs.children =~= n1.children);
        assert(rhs.children =~= n.children);
        lemma_sel_rec_agree(lhs.children, n1.children, 0);
        lemma_sel_rec_agree(rhs.children, n.children, 0);
    } else {
        lemma_apply_char(n, id, op);
        lemma_apply_char(n, id, clr);
        let k = contains_idx_from(n.children, id, 0);
        if k >= 0 {
            let a = spec_apply_at(n.children[k], id, op).0;
            let n1 = spec_apply_at(n, id, op).0;
            assert(n1.id == n.id && n1.children == n.children.update(k, a));
            lemma_apply_keeps_contains(n.children[k], id, op);
            lemma_contains_idx_props(n.children, id, 0);
            assert forall|j: int| 0 <= j < k implies !contains_id(
                #[trigger] n1.children[j],
                id,
            ) by {
                assert(n1.children[j] == n.children[j]);
            }
            assert(contains_id(n1.children[k], id));
            lemma_contains_idx_char(n1.children, id, k);
            lemma_apply_char(n1, id, clr);
            let lhs = spec_apply_at(n1, id, clr).0;
            assert(lhs.children == n1.children.update(k, spec_apply_at(n1.children[k], id, clr).0));
            assert(n1.children[k] == a);
            lemma_apply_then_clear(n.children[k], id, op);
            lemma_sel_rec_update(n1.children, k, spec_apply_at(a, id, clr).0, 0);
            lemma_sel_rec_update(n.children, k, a, 0);
            lemma_sel_rec_update(
                n.children,
                k,
                spec_apply_at(n.children[k], id, clr).0,
                0,
            );
        }
    }
}

/// The first carrying index, characterized: carrying at `j`, none before.
proof fn lemma_contains_idx_char(cs: Seq<NodeV>, id: NodeID, j: int)
    requires
        0 <= j < cs.len(),
        contains_id(cs[j], id),
        forall|m: int| 0 <= m < j ==> !contains_id(#[trigger] cs[m], id),
    ensures
        contains_idx_from(cs, id, 0) == j,
{
    lemma_contains_idx_char_from(cs, id, j, 0);
}

proof fn lemma_contains_idx_char_from(cs: Seq<NodeV>, id: NodeID, j: int, i: int)
    requires
        0 <= i <= j < cs.len(),
        contains_id(cs[j], id),
        forall|m: int| i <= m < j ==> !contains_id(#[trigger] cs[m], id),
    ensures
        contains_idx_from(cs, id, i) == j,
    decreases j - i,
{
    if i < j {
        lemma_contains_idx_char_from(cs, id, j, i + 1);
    }
}

/// Appending a flagless node keeps the flag total.
proof fn lemma_sel_rec_push_zero(cs: Seq<NodeV>, c: NodeV)
    requires
        sel_count(c) == 0,
    ensures
        sel_count_rec(cs.push(c), 0) == sel_count_rec(cs, 0),
{
    lemma_sel_rec_push_zero_from(cs, c, 0);
}

proof fn lemma_sel_rec_push_zero_from(cs: Seq<NodeV>, c: NodeV, i: int)
    requires
        sel_count(c) == 0,
        0 <= i <= cs.len(),
    ensures
        sel_count_rec(cs.push(c), i) == sel_count_rec(cs, i),
    decreases cs.len() - i,
{
    if i < cs.len() {
        assert(cs.push(c)[i] == cs[i]);
        lemma_sel_rec_push_zero_from(cs, c, i + 1);
    } else {
        assert(cs.push(c)[i] == c);
        assert(sel_count_rec(cs.push(c), i + 1) == 0);
    }
}

/// A direct scan that found nothing means no child's own identity matches.
proof fn lemma_direct_idx_none(cs: Seq<NodeV>, id: NodeID, i: int)
    requires
        0 <= i,
        direct_idx_from(cs, id, i) == -1,
    ensures
        forall|j: int| i <= j < cs.len() ==> (#[trigger] cs[j]).id != id,
    decreases cs.len() - i,
{
    if i < cs.len() {
        lemma_direct_idx_none(cs, id, i + 1);
    }
}

/// The direct scan finds the first own-identity match, with none before.
proof fn lemma_direct_idx_first(cs: Seq<NodeV>, id: NodeID, i: int)
    requires
        0 <= i,
    ensures
        ({
            let d = direct_idx_from(cs, id, i);
            d >= 0 ==> i <= d < cs.len() && cs[d].id == id && (forall|j: int|
                i <= j < d ==> (#[trigger] cs[j]).id != id)
        }),
    decreases cs.len() - i,
{
    if i < cs.len() && cs[i].id != id {
        lemma_direct_idx_first(cs, id, i + 1);
    }
}

/// A subtree carries the identity exactly when it occurs at least once.
pub proof fn lemma_contains_occ(n: NodeV, id: NodeID)
    ensures
        contains_id(n, id) == (occ(n, id) >= 1),
    decreases n, 0nat,
{
    lemma_contains_occ_rec(n.children, id, 0);
}

proof fn lemma_contains_occ_rec(cs: Seq<NodeV>, id: NodeID, i: int)
    requires
        0 <= i,
    ensures
        contains_rec(cs, id, i) == (occ_rec(cs, id, i) >= 1),
    decreases cs, cs.len() - i,
{
    if i < cs.len() {
        lemma_contains_occ(cs[i], id);
        lemma_contains_occ_rec(cs, id, i + 1);
    }
}

/// Deletion reports found exactly when a node below the root carries the
/// identity.
pub proof fn lemma_delete_found(n: NodeV, id: NodeID)
    ensures
        spec_delete(n, id).1 == contains_rec(n.children, id, 0),
    decreases n, 0nat,
{
    let di = direct_idx_from(n.children, id, 0);
    lemma_direct_idx_in_range(n.children, id, 0);
    if di >= 0 {
        lemma_contains_rec_mono(n.children, id, 0, di);
    } else {
        lemma_direct_idx_none(n.children, id, 0);
        lemma_delete_rec_found(n.children, id, 0);
    }
}

proof fn lemma_delete_rec_found(cs: Seq<NodeV>, id: NodeID, i: int)
    requires
        0 <= i,
        forall|j: int| i <= j < cs.len() ==> (#[trigger] cs[j]).id != id,
    ensures
        delete_rec(cs, id, i).1 == contains_rec(cs, id, i),
    decreases cs, cs.len() - i,
{
    if i < cs.len() {
        lemma_delete_found(cs[i], id);
        assert(cs[i].id != id);
        assert(contains_id(cs[i], id) == contains_rec(cs[i].children, id, 0));
        assert(spec_delete(cs[i], id).1 == contains_id(cs[i], id));
        lemma_delete_rec_found(cs, id, i + 1);
        assert(delete_rec(cs, id, i).1 == (contains_id(cs[i], id) || delete_rec(
            cs,
            id,
            i + 1,
        ).1));
    }
}

/// Deletion, located: with no direct own-identity match, the first
/// carrying child subtree is the one edited in place.
proof fn lemma_delete_rec_char(cs: Seq<NodeV>, id: NodeID, i: int)
    requires
        0 <= i,
        forall|j: int| i <= j < cs.len() ==> (#[trigger] cs[j]).id != id,
    ensures
        ({
            let k = contains_idx_from(cs, id, i);
            &&& (k == -1 || i <= k < cs.len())
            &&& (k == -1 ==> delete_rec(cs, id, i) == (cs, false))
            &&& (k >= 0 ==> delete_rec(cs, id, i) == (
                cs.update(k, spec_delete(cs[k], id).0),
                true,
            ))
        }),
    decreases cs, cs.len() - i,
{
    if i < cs.len() {
        lemma_delete_found(cs[i], id);
        assert(contains_id(cs[i], id) == contains_rec(cs[i].children, id, 0) || cs[i].id == id);
        lemma_delete_rec_char(cs, id, i + 1);
    }
}

/// Deleting the selected node clears the whole selection: when the
/// recorded identity occurs at most once below the root and clearing it
/// removes every flag, deleting it also removes every flag.
pub proof fn lemma_delete_clears_selection(n: NodeV, id: NodeID)
    requires
        n.id != id,
        occ(n, id) <= 1,
        sel_count(spec_apply_at(n, id, EditOp::SetSelected(false)).0) == 0,
    ensures
        sel_count(spec_delete(n, id).0) == 0,
    decreases n, 0nat,
{
    let clr = EditOp::SetSelected(false);
    let cs = n.children;
    lemma_apply_char(n, id, clr);
    lemma_contains_idx_props(cs, id, 0);
    lemma_contains_rec_idx(cs, id, 0);
    let k = contains_idx_from(cs, id, 0);
    let di = direct_idx_from(cs, id, 0);
    lemma_direct_idx_in_range(cs, id, 0);
    lemma_direct_idx_first(cs, id, 0);
    if k == -1 {
        // no identity below: clearing was a no-op, so nothing was flagged
        assert(spec_apply_at(n, id, clr).0 == n);
        assert(sel_count(n) == 0);
        lemma_delete_unchanged(n, id);
        lemma_delete_found(n, id);
        assert(!spec_delete(n, id).1);
    } else {
        // the one flag sits in child k; every other child is flag-free
        let cleared_k = spec_apply_at(cs[k], id, clr).0;
        assert(spec_apply_at(n, id, clr).0.children == cs.update(k, cleared_k));
        lemma_sel_rec_update(cs, k, cleared_k, 0);
        assert(!n.selected);
        assert(sel_count_rec(cs, 0) - sel_count(cs[k]) + sel_count(cleared_k) == 0);
        lemma_sel_rec_ge(cs, 0);
        if di >= 0 {
            // the identity is a direct child's own: delete removes that child
            lemma_contains_occ(cs[di], id);
            assert(occ(cs[di], id) >= 1);
            lemma_occ_rec_ge(cs, id, 0);
            assert forall|j: int| 0 <= j < cs.len() && j != di implies !contains_id(
                #[trigger] cs[j],
                id,
            ) by {
                lemma_occ_rec_others_zero(cs, id, di, j);
                lemma_contains_occ(cs[j], id);
            }
            lemma_contains_idx_char(cs, id, di);
            assert(k == di);
            assert(spec_delete(n, id).0.children == cs.remove(di));
            lemma_sel_rec_remove(cs, di, 0);
        } else {
            // the identity is deeper: delete edits the same child in place
            lemma_direct_idx_none(cs, id, 0);
            lemma_delete_rec_char(cs, id, 0);
            assert(spec_delete(n, id).0.children == cs.update(k, spec_delete(cs[k], id).0));
            lemma_contains_occ(cs[k], id);
            lemma_occ_rec_ge(cs, id, 0);
            lemma_delete_clears_selection(cs[k], id);
            lemma_sel_rec_update(cs, k, spec_delete(cs[k], id).0, 0);
        }
    }
}

/// Occurrence one place leaves nothing for the others.
proof fn lemma_occ_rec_others_zero(cs: Seq<NodeV>, id: NodeID, a: int, b: int)
    requires
        0 <= a < cs.len(),
        0 <= b < cs.len(),
        a != b,
        occ_rec(cs, id, 0) <= 1,
        occ(cs[a], id) >= 1,
    ensures
        occ(cs[b], id) == 0,
{
    if a < b {
        lemma_occ_rec_pair(cs, id, a, b, 0);
    } else {
        lemma_occ_rec_pair(cs, id, b, a, 0);
    }
}

proof fn lemma_occ_rec_pair(cs: Seq<NodeV>, id: NodeID, a: int, b: int, i: int)
    requires
        0 <= i <= a < b < cs.len(),
    ensures
        occ_rec(cs, id, i) >= occ(cs[a], id) + occ(cs[b], id),
    decreases a - i,
{
    if i < a {
        lemma_occ_rec_pair(cs, id, a, b, i + 1);
    } else {
        lemma_occ_rec_ge(cs, id, a + 1);
    }
}

/// Children that are flag-free in all contribute nothing.
pub proof fn lemma_sel_rec_zero(cs: Seq<NodeV>, i: int)
    requires
        0 <= i,
        forall|j: int| i <= j < cs.len() ==> sel_count(#[trigger] cs[j]) == 0,
    ensures
        sel_count_rec(cs, i) == 0,
    decreases cs.len() - i,
{
    if i < cs.len() {
        lemma_sel_rec_zero(cs, i + 1);
    }
}

/// One row of rendered output: an absolute position, the row's text, and
/// whether it must be shown in inverse video (the selected node's row).
pub struct RenderLine {
    pub x: u16,
    pub y: u64,
    pub selected: bool,
    pub text: Vec<char>,
}

/// Mathematical model of a rendered row.
pub struct LineV {
    pub x: u16,
    pub y: int,
    pub selected: bool,
    pub text: Seq<char>,
}

impl View for RenderLine {
    type V = LineV;

    open spec fn view(&self) -> LineV {
        LineV { x: self.x, y: self.y as int, selected: self.selected, text: self.text@ }
    }
}

/// Largest of the first `i` samples, or the smallest machine integer when
/// there are none.
pub open spec fn max_from(s: Seq<i64>, i: int) -> int
    decreases i,
{
    if i <= 0 || i > s.len() {
        i64::MIN as int
    } else {
        let m = max_from(s, i - 1);
        if s[i - 1] as int > m {
            s[i - 1] as int
        } else {
            m
        }
    }
}

/// No sample among the first `i` exceeds their maximum.
pub proof fn lemma_max_from(s: Seq<i64>, i: int, j: int)
    requires
        0 <= j < i <= s.len(),
    ensures
        s[j] as int <= max_from(s, i),
    decreases i,
{
    if j < i - 1 {
        lemma_max_from(s, i - 1, j);
    }
}

/// Palette slot of one sample: floor((levels - 1) * n / max), with 9 levels,
/// and the blank slot for series without a positive maximum.
pub open spec fn palette_idx(nv: int, maxv: int) -> int {
    if maxv > 0 && 0 <= nv {
        8 * nv / maxv
    } else {
        0
    }
}

/// The fixed 9-level sparkline palette, blank to solid block.
pub open spec fn palette_char(i: int) -> char {
    if i <= 0 {
        ' '
    } else if i == 1 {
        '▁'
    } else if i == 2 {
        '▂'
    } else if i == 3 {
        '▃'
    } else if i == 4 {
        '▄'
    } else if i == 5 {
        '▅'
    } else if i == 6 {
        '▆'
    } else if i == 7 {
        '▇'
    } else {
        '█'
    }
}

fn palette_char_exec(i: u64) -> (r: char)
    ensures
        r == palette_char(i as int),
{
    if i == 0 {
        ' '
    } else if i == 1 {
        '▁'
    } else if i == 2 {
        '▂'
    } else if i == 3 {
        '▃'
    } else if i == 4 {
        '▄'
    } else if i == 5 {
        '▅'
    } else if i == 6 {
        '▆'
    } else if i == 7 {
        '▇'
    } else {
        '█'
    }
}

/// The glyphs of a rendered sparkline: one palette glyph per sample,
/// proportional to the series maximum; an empty series renders nothing.
pub open spec fn plot_glyphs(s: Seq<i64>) -> Seq<char> {
    Seq::new(s.len(), |j: int| palette_char(palette_idx(s[j] as int, max_from(s, s.len() as int))))
}

/// Render a numeric series as a sparkline over the fixed 9-level palette.
pub fn plot_graph(samples: &Vec<i64>) -> (v: Vec<char>)
    ensures
        v@ == plot_glyphs(samples@),
{
    let mut v: Vec<char> = Vec::new();
    if samples.len() == 0 {
        assert(v@ =~= plot_glyphs(samples@));
        return v;
    }
    let mut maxv: i64 = i64::MIN;
    let mut i: usize = 0;
    while i < samples.len()
        invariant
            i <= samples.len(),
            maxv == max_from(samples@, i as int),
        decreases samples.len() - i,
    {
        if samples[i] > maxv {
            maxv = samples[i];
        }
        i = i + 1;
    }
    let ghost m = max_from(samples@, samples@.len() as int);
    let mut i: usize = 0;
    while i < samples.len()
        invariant
            i <= samples.len(),
            maxv == m,
            m == max_from(samples@, samples@.len() as int),
            v@.len() == i,
            forall|j: int|
                0 <= j < i ==> v@[j] == palette_char(palette_idx(samples@[j] as int, m)),
        decreases samples.len() - i,
    {
        let n = samples[i];
        let g: char = if maxv <= 0 || n < 0 {
            palette_char_exec(0)
        } else {
            let num: u128 = 8u128 * (n as u64 as u128);
            let den: u128 = maxv as u64 as u128;
            let idx: u128 = num / den;
            proof {
                lemma_max_from(samples@, samples@.len() as int, i as int);
            }
            assert(n as int <= m);
            assert(idx == palette_idx(n as int, m));
            assert(idx <= 8) by (nonlinear_arith)
                requires
                    idx == 8 * (n as int) / m,
                    0 <= n as int <= m,
                    m > 0,
            ;
            palette_char_exec(idx as u64)
        };
        v.push(g);
        i = i + 1;
    }
    assert(v@ =~= plot_glyphs(samples@));
    v
}

/// The text a node's payload renders as: the characters themselves for
/// text, the sparkline glyphs for a plot.
pub open spec fn content_text(c: ContentV) -> Seq<char> {
    match c {
        ContentV::Text { text } => text,
        ContentV::Plot { samples } => plot_glyphs(samples),
    }
}

/// The indentation prefix handed to a node's children: three more columns
/// per depth level, with a continuation bar under a non-last sibling.
pub open spec fn child_prefix(prefix: Seq<char>, last: bool) -> Seq<char> {
    if last {
        prefix + seq![' ', ' ', ' ']
    } else if prefix.len() == 0 {
        prefix + seq![' ', ' ']
    } else {
        prefix + seq!['│', ' ', ' ']
    }
}

/// The full text of a node's own row: the root marker or the branch glyph
/// after the prefix, the payload text, and an ellipsis when collapsed.
pub open spec fn row_text(n: NodeV, prefix: Seq<char>, last: bool) -> Seq<char> {
    (if prefix.len() == 0 {
        seq!['⚒', ' '] + prefix
    } else {
        prefix + (if last {
            seq!['└', '─', ' ']
        } else {
            seq!['├', '─', ' ']
        })
    }) + content_text(n.content) + (if n.collapsed {
        seq!['…']
    } else {
        Seq::empty()
    })
}

/// The rows of the first `i` children, drawn in order below `ybase`, each
/// child owning as many rows as its height.
pub open spec fn draw_upto(cs: Seq<NodeV>, prefix: Seq<char>, x: u16, ybase: int, i: int) -> Seq<
    LineV,
>
    decreases cs, i,
{
    if i <= 0 || i > cs.len() {
        Seq::empty()
    } else {
        draw_upto(cs, prefix, x, ybase, i - 1) + spec_draw(
            cs[i - 1],
            prefix,
            x,
            ybase + heights_sum(cs, i - 1),
            i == cs.len(),
        )
    }
}

/// What rendering a subtree at the given position must visually result in:
/// a pre-order walk, one row per visible node, children indented three
/// columns per depth, collapsed subtrees contributing their own row alone.
pub open spec fn spec_draw(n: NodeV, prefix: Seq<char>, x: u16, y: int, last: bool) -> Seq<LineV>
    decreases n, 0nat,
{
    let line = LineV { x, y, selected: n.selected, text: row_text(n, prefix, last) };
    if n.collapsed {
        seq![line]
    } else {
        seq![line] + draw_upto(
            n.children,
            child_prefix(prefix, last),
            x,
            y + 1,
            n.children.len() as int,
        )
    }
}

/// The models of a sequence of rendered rows.
pub open spec fn lines_v(s: Seq<RenderLine>) -> Seq<LineV> {
    s.map_values(|l: RenderLine| l@)
}

/// Append every element of `src` to `dst`, in order.
pub fn push_all<T: Copy>(dst: &mut Vec<T>, src: &Vec<T>)
    ensures
        final(dst)@ == old(dst)@ + src@,
{
    let mut i: usize = 0;
    while i < src.len()
        invariant
            i <= src.len(),
            dst@ == old(dst)@ + src@.take(i as int),
        decreases src.len() - i,
    {
        dst.push(src[i]);
        assert(dst@ =~= old(dst)@ + src@.take(i + 1));
        i = i + 1;
    }
    assert(final(dst)@ =~= old(dst)@ + src@);
}

impl Node {
    /// Append this subtree's rendered rows to `out`, returning how many
    /// rows were drawn.
    pub fn draw(&self, prefix: &Vec<char>, x: u16, y: u64, last: bool, out: &mut Vec<RenderLine>) -> (drawn:
        u64)
        requires
            spec_size(self@) <= usize::MAX,
            y + spec_height(self@) <= u64::MAX,
        ensures
            drawn == spec_height(self@),
            lines_v(final(out)@) == lines_v(old(out)@) + spec_draw(self@, prefix@, x, y as int, last),
        decreases spec_size(self@),
    {
        let ghost cs = self@.children;
        proof {
            lemma_children_v(self.children@, self.children@.len() as int);
            lemma_height_le_size(self@);
        }
        let mut t: Vec<char> = Vec::new();
        if prefix.len() == 0 {
            t.push('⚒');
            t.push(' ');
        }
        push_all(&mut t, prefix);
        if prefix.len() != 0 {
            if last {
                t.push('└');
            } else {
                t.push('├');
            }
            t.push('─');
            t.push(' ');
        }
        match &self.content {
            Content::Text { text } => {
                push_all(&mut t, text);
            },
            Content::Plot(samples) => {
                let g = plot_graph(samples);
                push_all(&mut t, &g);
            },
        }
        if self.collapsed {
            t.push('…');
        }
        assert(t@ =~= row_text(self@, prefix@, last));
        let line = RenderLine { x, y, selected: self.selected, text: t };
        let ghost line_v = LineV {
            x,
            y: y as int,
            selected: self@.selected,
            text: row_text(self@, prefix@, last),
        };
        let ghost base = lines_v(out@);
        out.push(line);
        assert(lines_v(out@) =~= base + seq![line_v]);
        let mut drawn: u64 = 1;
        if self.collapsed {
            assert(base + seq![line_v] =~= base + spec_draw(self@, prefix@, x, y as int, last));
            return drawn;
        }
        let mut cp: Vec<char> = Vec::new();
        push_all(&mut cp, prefix);
        if last {
            cp.push(' ');
            cp.push(' ');
            cp.push(' ');
        } else if prefix.len() == 0 {
            cp.push(' ');
            cp.push(' ');
        } else {
            cp.push('│');
            cp.push(' ');
            cp.push(' ');
        }
        assert(cp@ =~= child_prefix(prefix@, last));
        let n_children = self.children.len();
        let mut i: usize = 0;
        while i < n_children
            invariant
                i <= n_children,
                n_children == self.children.len(),
                cs == self@.children,
                cs.len() == self.children.len(),
                !self@.collapsed,
                cp@ == child_prefix(prefix@, last),
                spec_size(self@) <= usize::MAX,
                y + spec_height(self@) <= u64::MAX,
                forall|j: int| 0 <= j < cs.len() ==> cs[j] == node_v(self.children@[j]),
                drawn == 1 + heights_sum(cs, i as int),
                drawn <= spec_height(self@),
                lines_v(out@) == base + seq![line_v] + draw_upto(
                    cs,
                    child_prefix(prefix@, last),
                    x,
                    y as int + 1,
                    i as int,
                ),
            decreases n_children - i,
        {
            proof {
                lemma_child_size_lt(self@, i as int);
                lemma_heights_sum_monotone(cs, i + 1, cs.len() as int);
                assert(spec_height(self@) == 1 + heights_sum(cs, cs.len() as int));
                assert(heights_sum(cs, i + 1) == heights_sum(cs, i as int) + spec_height(
                    cs[i as int],
                ));
            }
            let child_last = i + 1 == n_children;
            let d = self.children[i].draw(&cp, x, y + drawn, child_last, out);
            proof {
                assert(lines_v(out@) =~= base + seq![line_v] + draw_upto(
                    cs,
                    child_prefix(prefix@, last),
                    x,
                    y as int + 1,
                    i as int + 1,
                ));
            }
            drawn = drawn + d;
            i = i + 1;
        }
        assert(base + seq![line_v] + draw_upto(
            cs,
            child_prefix(prefix@, last),
            x,
            y as int + 1,
            cs.len() as int,
        ) =~= base + spec_draw(self@, prefix@, x, y as int, last));
        drawn
    }
}

/// The characters of a string slice, in order.
pub fn str_chars(s: &str) -> (v: Vec<char>)
    ensures
        v@ == s@,
{
    broadcast use vstd::string::axiom_spec_iter;
    broadcast use vstd::string::next_postcondition;

    let mut it = s.chars();
    let mut v: Vec<char> = Vec::new();
    loop
        invariant
            it.obeys_prophetic_iter_laws(),
            it.decrease() is Some,
            v@ + it.remaining() == s@,
        ensures
            v@ == s@,
        decreases it.decrease()->0,
    {
        match it.next() {
            Some(c) => {
                v.push(c);
                assert(v@ + it.remaining() =~= s@);
            },
            None => {
                assert(it.remaining().len() == 0);
                assert(v@ =~= v@ + it.remaining());
                break ;
            },
        }
    }
    v
}

} // verus!
