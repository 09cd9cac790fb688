use vstd::prelude::*;

verus! {

use crate::{Coords, NodeID};
use crate::node::{
    Node, NodeV, EditOp, RenderLine, LineV, node_v, children_v, content_len, spec_size,
    spec_height, spec_node_lookup, spec_apply_at, spec_delete, fresh_node_v, lines_v, spec_draw,
    lemma_height_le_size, lemma_apply_size, lemma_delete_size_le, Content, lemma_children_v,
    sel_count, occ, apply_op,
};
use crate::logging::{ScreenLog, LogLevel, spec_logged};

/// The largest number of nodes one anchor's tree may hold.
pub const MAX_TREE: u64 = 0xFFFF_FFFF;

/// Binds one root node to an absolute screen coordinate; the unit of
/// top-level placement and of whole-subtree deletion.
pub struct Anchor {
    pub head: Node,
}

/// Where a click at an anchor-local coordinate lands: local row 0 hits the
/// root when the column falls within its row width (with the one-column
/// tolerance); deeper rows are resolved among the root's children.
pub open spec fn spec_anchor_lookup(head: NodeV, x: int, y: int) -> Option<NodeID> {
    if y == 0 {
        if content_len(head.content) + 1 >= x {
            Some(head.id)
        } else {
            None
        }
    } else {
        spec_node_lookup(head, 0, x, y)
    }
}

impl Anchor {
    /// Rows this anchor's tree occupies on screen.
    pub fn height(&self) -> (h: usize)
        requires
            spec_size(self.head@) <= usize::MAX,
        ensures
            h == spec_height(self.head@),
    {
        self.head.height()
    }

    /// Resolve an anchor-local coordinate to the node it hits.
    pub fn lookup(&self, coords: (u16, u16)) -> (r: Option<NodeID>)
        requires
            spec_size(self.head@) <= usize::MAX,
        ensures
            r == spec_anchor_lookup(self.head@, coords.0 as int, coords.1 as int),
    {
        if coords.1 == 0 {
            let clen = self.head.content.len();
            let xl = coords.0 as usize;
            if clen >= xl {
                Some(self.head.id)
            } else if clen + 1 >= xl {
                Some(self.head.id)
            } else {
                None
            }
        } else {
            self.head.lookup(0, coords)
        }
    }

    /// Append this anchor's rendered rows, rooted at its position.
    pub fn draw(&self, x: u16, y: u16, out: &mut Vec<RenderLine>) -> (drawn: u64)
        requires
            spec_size(self.head@) <= MAX_TREE,
        ensures
            drawn == spec_height(self.head@),
            lines_v(final(out)@) == lines_v(old(out)@) + spec_draw(
                self.head@,
                Seq::empty(),
                x,
                y as int,
                false,
            ),
    {
        let prefix: Vec<char> = Vec::new();
        proof {
            lemma_height_le_size(self.head@);
        }
        self.head.draw(&prefix, x, y as u64, false, out)
    }
}

/// One registered anchor: its coordinate key and the anchor itself.
pub struct AnchorEntry {
    pub coords: Coords,
    pub anchor: Anchor,
}

/// The models of the first `i` registered anchors, in registry order.
pub open spec fn entries_v(es: Seq<AnchorEntry>, i: int) -> Seq<(Coords, NodeV)>
    decreases es, i,
{
    if i <= 0 || i > es.len() {
        Seq::empty()
    } else {
        entries_v(es, i - 1).push((es[i - 1].coords, node_v(es[i - 1].anchor.head)))
    }
}

/// `entries_v` models the registry pointwise.
pub proof fn lemma_entries_v(es: Seq<AnchorEntry>, i: int)
    requires
        0 <= i <= es.len(),
    ensures
        entries_v(es, i).len() == i,
        forall|j: int|
            0 <= j < i ==> entries_v(es, i)[j] == (es[j].coords, node_v(es[j].anchor.head)),
    decreases i,
{
    if i > 0 {
        lemma_entries_v(es, i - 1);
    }
}

/// Strict coordinate order: by column, then by row.
pub open spec fn coord_lt(a: Coords, b: Coords) -> bool {
    a.0 < b.0 || (a.0 == b.0 && a.1 < b.1)
}

/// A registry is well formed when its keys are strictly ascending and no
/// tree exceeds the size bound.
pub open spec fn entries_wf(es: Seq<(Coords, NodeV)>) -> bool {
    &&& forall|i: int, j: int| 0 <= i < j < es.len() ==> coord_lt(#[trigger] es[i].0, #[trigger] es[j].0)
    &&& forall|i: int| 0 <= i < es.len() ==> spec_size(#[trigger] es[i].1) <= MAX_TREE
}

/// Mathematical model of a whole screen.
#[verifier::ext_equal]
pub struct ScreenV {
    pub entries: Seq<(Coords, NodeV)>,
    pub selection: Option<(Coords, NodeID)>,
    pub next_id: u64,
    pub work_path: Option<Seq<char>>,
    pub key_hint: Option<Seq<char>>,
}

/// The whole editor state: every anchor keyed by coordinate in ascending
/// order, the current selection as a weak identity reference, a counter
/// for fresh node identities, and session metadata.
pub struct Screen {
    pub anchors: Vec<AnchorEntry>,
    pub selection: Option<(Coords, NodeID)>,
    pub next_id: u64,
    pub work_path: Option<String>,
    pub secret_key_hint: Option<String>,
}

impl View for Screen {
    type V = ScreenV;

    open spec fn view(&self) -> ScreenV {
        ScreenV {
            entries: entries_v(self.anchors@, self.anchors@.len() as int),
            selection: self.selection,
            next_id: self.next_id,
            work_path: match self.work_path {
                Option::None => Option::None,
                Option::Some(p) => Option::Some(p@),
            },
            key_hint: match self.secret_key_hint {
                Option::None => Option::None,
                Option::Some(h) => Option::Some(h@),
            },
        }
    }
}

impl Screen {
    /// Registry keys strictly ascending, every tree within the size bound.
    pub open spec fn wf(&self) -> bool {
        entries_wf(self@.entries)
    }
}

impl Default for Screen {
    /// A fresh screen: no anchors, no selection, identities from 1 on.
    fn default() -> (s: Screen)
        ensures
            s.wf(),
            s@.entries == Seq::<(Coords, NodeV)>::empty(),
            s@.selection is None,
            s@.next_id == 1,
            s@.work_path is None,
            s@.key_hint is None,
            sel_inv(s@),
    {
        let s = Screen {
            anchors: Vec::new(),
            selection: None,
            next_id: 1,
            work_path: None,
            secret_key_hint: None,
        };
        assert(s@.entries =~= Seq::<(Coords, NodeV)>::empty());
        s
    }
}

/// First registry index at or after `i` whose key is not below `c`; the
/// registry length when every key is below `c`.
pub open spec fn insert_pos(es: Seq<(Coords, NodeV)>, c: Coords, i: int) -> int
    decreases es.len() - i,
{
    if i < 0 || i >= es.len() {
        es.len() as int
    } else if coord_lt(es[i].0, c) {
        insert_pos(es, c, i + 1)
    } else {
        i
    }
}

/// The found position bounds every key before it and after it.
pub proof fn lemma_insert_pos(es: Seq<(Coords, NodeV)>, c: Coords, i: int)
    requires
        0 <= i <= es.len(),
    ensures
        i <= insert_pos(es, c, i) <= es.len(),
        forall|j: int| i <= j < insert_pos(es, c, i) ==> coord_lt(#[trigger] es[j].0, c),
        insert_pos(es, c, i) < es.len() ==> !coord_lt(es[insert_pos(es, c, i)].0, c),
    decreases es.len() - i,
{
    if i < es.len() && coord_lt(es[i].0, c) {
        lemma_insert_pos(es, c, i + 1);
    }
}

/// What registering an anchor does: an existing key is replaced in place,
/// a new key is inserted at its ordered position.
pub open spec fn spec_insert(es: Seq<(Coords, NodeV)>, c: Coords, n: NodeV) -> Seq<
    (Coords, NodeV),
> {
    let p = insert_pos(es, c, 0);
    if p < es.len() && es[p].0 == c {
        es.update(p, (c, n))
    } else {
        es.insert(p, (c, n))
    }
}

/// Registering a bounded tree keeps the registry well formed.
pub proof fn lemma_insert_wf(es: Seq<(Coords, NodeV)>, c: Coords, n: NodeV)
    requires
        entries_wf(es),
        spec_size(n) <= MAX_TREE,
    ensures
        entries_wf(spec_insert(es, c, n)),
{
    let p = insert_pos(es, c, 0);
    lemma_insert_pos(es, c, 0);
    if p < es.len() && es[p].0 == c {
    } else {
        let r = es.insert(p, (c, n));
        assert forall|i: int, j: int| 0 <= i < j < r.len() implies coord_lt(
            #[trigger] r[i].0,
            #[trigger] r[j].0,
        ) by {
            if i < p && j == p {
                assert(coord_lt(es[i].0, c));
            } else if i == p && j > p {
                assert(!coord_lt(es[j - 1].0, c) && es[j - 1].0 != c);
            }
        }
        assert forall|i: int| 0 <= i < r.len() implies spec_size(#[trigger] r[i].1) <= MAX_TREE
        by {
            if i < p {
                assert(r[i].1 == es[i].1);
            } else if i > p {
                assert(r[i].1 == es[i - 1].1);
            }
        }
    }
}

/// First registry index at or after `i` carrying exactly the key `c`, or -1.
pub open spec fn pos_of(es: Seq<(Coords, NodeV)>, c: Coords, i: int) -> int
    decreases es.len() - i,
{
    if i < 0 || i >= es.len() {
        -1
    } else if es[i].0 == c {
        i
    } else {
        pos_of(es, c, i + 1)
    }
}

/// A found key position lies inside the registry and carries the key.
pub proof fn lemma_pos_of(es: Seq<(Coords, NodeV)>, c: Coords, i: int)
    requires
        0 <= i,
    ensures
        pos_of(es, c, i) == -1 || (i <= pos_of(es, c, i) < es.len() && es[pos_of(es, c, i)].0
            == c),
    decreases es.len() - i,
{
    if i < es.len() && es[i].0 != c {
        lemma_pos_of(es, c, i + 1);
    }
}

/// What setting the selected flag of the node a selection points at does:
/// nothing without a selection, nothing when the selection is stale.
pub open spec fn spec_set_sel(es: Seq<(Coords, NodeV)>, sel: Option<(Coords, NodeID)>, b: bool) -> Seq<
    (Coords, NodeV),
> {
    match sel {
        Option::None => es,
        Option::Some((c, id)) => {
            let p = pos_of(es, c, 0);
            if p >= 0 {
                es.update(p, (c, spec_apply_at(es[p].1, id, EditOp::SetSelected(b)).0))
            } else {
                es
            }
        },
    }
}

/// Setting a selected flag keeps the registry well formed.
pub proof fn lemma_set_sel_wf(es: Seq<(Coords, NodeV)>, sel: Option<(Coords, NodeID)>, b: bool)
    requires
        entries_wf(es),
    ensures
        entries_wf(spec_set_sel(es, sel, b)),
{
    match sel {
        Option::None => {},
        Option::Some((c, id)) => {
            let p = pos_of(es, c, 0);
            lemma_pos_of(es, c, 0);
            if p >= 0 {
                lemma_apply_size(es[p].1, id, EditOp::SetSelected(b));
            }
        },
    }
}

/// Where a click lands on the whole screen: among every anchor whose box
/// contains the coordinate and whose tree resolves it, the last in
/// registry (ascending coordinate) order wins.
pub open spec fn spec_hit(es: Seq<(Coords, NodeV)>, x: u16, y: u16) -> Option<(Coords, NodeID)>
    decreases es.len(),
{
    if es.len() == 0 {
        Option::None
    } else {
        let e = es.last();
        let r = if x >= e.0.0 && y >= e.0.1 && y - e.0.1 < spec_height(e.1) {
            spec_anchor_lookup(e.1, x - e.0.0, y - e.0.1)
        } else {
            Option::None
        };
        match r {
            Option::Some(id) => Option::Some((e.0, id)),
            Option::None => spec_hit(es.drop_last(), x, y),
        }
    }
}

impl Screen {
    /// Register an anchor at a coordinate; an anchor already holding that
    /// exact coordinate is replaced.
    pub fn insert(&mut self, coords: Coords, anchor: Anchor)
        requires
            old(self).wf(),
            spec_size(anchor.head@) <= MAX_TREE,
        ensures
            final(self).wf(),
            final(self)@ == (ScreenV {
                entries: spec_insert(old(self)@.entries, coords, anchor.head@),
                ..old(self)@
            }),
            sel_inv(old(self)@) && sel_count(anchor.head@) == 0 ==> sel_inv(final(self)@),
    {
        let ghost es = self@.entries;
        proof {
            lemma_entries_v(self.anchors@, self.anchors@.len() as int);
            lemma_insert_wf(es, coords, anchor.head@);
            if sel_inv(old(self)@) && sel_count(anchor.head@) == 0 {
                lemma_sel_inv_insert(old(self)@, coords, anchor.head@);
            }
        }
        let mut i: usize = 0;
        while i < self.anchors.len()
            invariant
                i <= self.anchors.len(),
                self@ == old(self)@,
                es == self@.entries,
                es.len() == self.anchors.len(),
                forall|j: int|
                    0 <= j < es.len() ==> es[j] == (
                        self.anchors@[j].coords,
                        node_v(self.anchors@[j].anchor.head),
                    ),
                insert_pos(es, coords, 0) == insert_pos(es, coords, i as int),
            ensures
                i <= self.anchors.len(),
                insert_pos(es, coords, 0) == i as int,
            decreases self.anchors.len() - i,
        {
            let ec = self.anchors[i].coords;
            if !(ec.0 < coords.0 || (ec.0 == coords.0 && ec.1 < coords.1)) {
                assert(!coord_lt(es[i as int].0, coords));
                break ;
            }
            i = i + 1;
        }
        assert(insert_pos(es, coords, 0) == i as int);
        let ghost pre = self.anchors@;
        if i < self.anchors.len() && self.anchors[i].coords.0 == coords.0
            && self.anchors[i].coords.1 == coords.1 {
            self.anchors.remove(i);
            self.anchors.insert(i, AnchorEntry { coords, anchor });
            proof {
                lemma_entries_v(self.anchors@, self.anchors@.len() as int);
                assert(self@.entries =~= es.update(i as int, (coords, anchor.head@)));
                assert(final(self)@ =~= ScreenV {
                    entries: spec_insert(old(self)@.entries, coords, anchor.head@),
                    ..old(self)@
                });
            }
        } else {
            self.anchors.insert(i, AnchorEntry { coords, anchor });
            proof {
                lemma_entries_v(self.anchors@, self.anchors@.len() as int);
                assert(self@.entries =~= es.insert(i as int, (coords, anchor.head@)));
                assert(final(self)@ =~= ScreenV {
                    entries: spec_insert(old(self)@.entries, coords, anchor.head@),
                    ..old(self)@
                });
            }
        }
    }

    /// Resolve an absolute coordinate to the anchor and node it hits, the
    /// last resolving anchor in registry order winning overlaps; `None` is
    /// empty space.
    pub fn lookup(&self, coords: Coords) -> (r: Option<(Coords, NodeID)>)
        requires
            self.wf(),
        ensures
            r == spec_hit(self@.entries, coords.0, coords.1),
    {
        let ghost es = self@.entries;
        proof {
            lemma_entries_v(self.anchors@, self.anchors@.len() as int);
        }
        let x = coords.0;
        let y = coords.1;
        let mut best: Option<(Coords, NodeID)> = None;
        let mut i: usize = 0;
        while i < self.anchors.len()
            invariant
                i <= self.anchors.len(),
                self.wf(),
                es == self@.entries,
                es.len() == self.anchors.len(),
                forall|j: int|
                    0 <= j < es.len() ==> es[j] == (
                        self.anchors@[j].coords,
                        node_v(self.anchors@[j].anchor.head),
                    ),
                best == spec_hit(es.take(i as int), x, y),
            decreases self.anchors.len() - i,
        {
            let ec = self.anchors[i].coords;
            proof {
                assert(es.take(i as int + 1).last() == es[i as int]);
                assert(es.take(i as int + 1).drop_last() =~= es.take(i as int));
                assert(spec_size(es[i as int].1) <= MAX_TREE);
            }
            if x >= ec.0 && y >= ec.1 {
                let h = self.anchors[i].anchor.height();
                if ((y - ec.1) as usize) < h {
                    match self.anchors[i].anchor.lookup((x - ec.0, y - ec.1)) {
                        Some(id) => {
                            best = Some((ec, id));
                        },
                        None => {},
                    }
                }
            }
            i = i + 1;
        }
        proof {
            assert(es.take(es.len() as int) =~= es);
        }
        best
    }

    /// Set or clear the selected flag of the node a selection points at.
    fn apply_sel_flag(&mut self, sel: Option<(Coords, NodeID)>, b: bool)
        requires
            old(self).wf(),
        ensures
            final(self).wf(),
            final(self)@ == (ScreenV {
                entries: spec_set_sel(old(self)@.entries, sel, b),
                ..old(self)@
            }),
    {
        let ghost es = self@.entries;
        proof {
            lemma_entries_v(self.anchors@, self.anchors@.len() as int);
            lemma_set_sel_wf(es, sel, b);
        }
        let (c, id) = match sel {
            None => {
                assert(final(self)@ =~= ScreenV {
                    entries: spec_set_sel(old(self)@.entries, sel, b),
                    ..old(self)@
                });
                return ;
            },
            Some((c, id)) => (c, id),
        };
        let mut i: usize = 0;
        while i < self.anchors.len()
            invariant
                i <= self.anchors.len(),
                self@ == old(self)@,
                es == self@.entries,
                es.len() == self.anchors.len(),
                forall|j: int|
                    0 <= j < es.len() ==> es[j] == (
                        self.anchors@[j].coords,
                        node_v(self.anchors@[j].anchor.head),
                    ),
                pos_of(es, c, 0) == pos_of(es, c, i as int),
                sel == Some((c, id)),
                entries_wf(es),
            decreases self.anchors.len() - i,
        {
            let ec = self.anchors[i].coords;
            if ec.0 == c.0 && ec.1 == c.1 {
                let ghost pre = self.anchors@;
                let mut e = self.anchors.remove(i);
                e.anchor.head.apply_at(id, EditOp::SetSelected(b));
                self.anchors.insert(i, e);
                assert(self.anchors@ =~= pre.update(i as int, e));
                proof {
                    lemma_entries_v(self.anchors@, self.anchors@.len() as int);
                    lemma_set_sel_wf(es, sel, b);
                    assert(es[i as int].0 == c);
                    assert(pos_of(es, c, i as int) == i as int);
                    assert(self@.entries =~= es.update(
                        i as int,
                        (c, spec_apply_at(es[i as int].1, id, EditOp::SetSelected(b)).0),
                    ));
                }
                assert(final(self)@ =~= ScreenV {
                    entries: spec_set_sel(old(self)@.entries, sel, b),
                    ..old(self)@
                });
                return ;
            }
            i = i + 1;
        }
        assert(pos_of(es, c, 0) == -1);
        assert(final(self)@ =~= ScreenV {
            entries: spec_set_sel(old(self)@.entries, sel, b),
            ..old(self)@
        });
    }
}

/// Removing an entry keeps the registry well formed.
pub proof fn lemma_remove_wf(es: Seq<(Coords, NodeV)>, p: int)
    requires
        entries_wf(es),
        0 <= p < es.len(),
    ensures
        entries_wf(es.remove(p)),
{
    let r = es.remove(p);
    assert forall|i: int, j: int| 0 <= i < j < r.len() implies coord_lt(
        #[trigger] r[i].0,
        #[trigger] r[j].0,
    ) by {
        let i0: int = if i < p { i } else { i + 1 };
        let j0: int = if j < p { j } else { j + 1 };
        assert(r[i] == es[i0] && r[j] == es[j0]);
    }
    assert forall|i: int| 0 <= i < r.len() implies spec_size(#[trigger] r[i].1) <= MAX_TREE by {
        let i0: int = if i < p { i } else { i + 1 };
        assert(r[i] == es[i0]);
    }
}

/// Replacing a tree in place, within the size bound, keeps the registry
/// well formed.
pub proof fn lemma_update_wf(es: Seq<(Coords, NodeV)>, p: int, n: NodeV)
    requires
        entries_wf(es),
        0 <= p < es.len(),
        spec_size(n) <= MAX_TREE,
    ensures
        entries_wf(es.update(p, (es[p].0, n))),
{
}

/// What a resolving pointer press does: the previous selection's flag is
/// cleared, the hit node's flag is set, and the hit is recorded as the
/// current selection. A press on empty space changes nothing here.
pub open spec fn spec_try_select(v: ScreenV, x: u16, y: u16) -> ScreenV {
    match spec_hit(v.entries, x, y) {
        Option::Some((c, id)) => ScreenV {
            entries: spec_set_sel(
                spec_set_sel(v.entries, v.selection, false),
                Option::Some((c, id)),
                true,
            ),
            selection: Option::Some((c, id)),
            ..v
        },
        Option::None => v,
    }
}

/// What creating an anchor at a coordinate does: a fresh "new" text root
/// carrying the next identity is registered there; nothing happens once
/// the identity counter is exhausted.
pub open spec fn spec_create_anchor(v: ScreenV, coords: Coords) -> ScreenV {
    if v.next_id < u64::MAX {
        ScreenV {
            entries: spec_insert(v.entries, coords, fresh_node_v(v.next_id)),
            next_id: (v.next_id + 1) as u64,
            ..v
        }
    } else {
        v
    }
}

/// What one edit addressed at the current selection does: nothing without
/// a selection or with a stale one.
pub open spec fn spec_edit_sel(v: ScreenV, op: EditOp) -> ScreenV {
    match v.selection {
        Option::None => v,
        Option::Some((c, id)) => {
            let p = pos_of(v.entries, c, 0);
            if p >= 0 {
                ScreenV {
                    entries: v.entries.update(
                        p,
                        (c, spec_apply_at(v.entries[p].1, id, op).0),
                    ),
                    ..v
                }
            } else {
                v
            }
        },
    }
}

/// What creating a child under the selected node does: a fresh "new" text
/// child carrying the next identity is appended; nothing happens without a
/// selection, with a stale one, or at the tree-size or identity bound.
pub open spec fn spec_create_child(v: ScreenV) -> ScreenV {
    match v.selection {
        Option::None => v,
        Option::Some((c, id)) => {
            let p = pos_of(v.entries, c, 0);
            if p >= 0 && spec_size(v.entries[p].1) < MAX_TREE && v.next_id < u64::MAX {
                ScreenV {
                    entries: v.entries.update(
                        p,
                        (c, spec_apply_at(v.entries[p].1, id, EditOp::CreateChild(v.next_id)).0),
                    ),
                    next_id: (v.next_id + 1) as u64,
                    ..v
                }
            } else {
                v
            }
        },
    }
}

/// What the delete key does to the current selection: a selected anchor
/// root removes its whole anchor; any other selected node is deleted from
/// its anchor's tree; the selection is cleared afterwards.
pub open spec fn spec_delete_selected(v: ScreenV) -> ScreenV {
    match v.selection {
        Option::None => v,
        Option::Some((c, id)) => {
            let p = pos_of(v.entries, c, 0);
            if p >= 0 {
                if v.entries[p].1.id == id {
                    ScreenV { entries: v.entries.remove(p), selection: Option::None, ..v }
                } else {
                    ScreenV {
                        entries: v.entries.update(
                            p,
                            (c, spec_delete(v.entries[p].1, id).0),
                        ),
                        selection: Option::None,
                        ..v
                    }
                }
            } else {
                ScreenV { selection: Option::None, ..v }
            }
        },
    }
}

impl Screen {
    /// Run hit-testing for a pointer press: a hit moves the selected flag
    /// from the previous selection to the hit node and records the hit;
    /// a miss changes nothing and reports false.
    pub fn try_select(&mut self, x: u16, y: u16) -> (hit: bool)
        requires
            old(self).wf(),
        ensures
            final(self).wf(),
            final(self)@ == spec_try_select(old(self)@, x, y),
            hit == (spec_hit(old(self)@.entries, x, y) is Some),
            sel_inv(old(self)@) ==> sel_inv(final(self)@),
    {
        proof {
            if sel_inv(old(self)@) {
                lemma_sel_inv_try_select(old(self)@, x, y);
            }
        }
        let r = self.lookup((x, y));
        match r {
            Some((c, id)) => {
                let old_sel = self.selection;
                self.apply_sel_flag(old_sel, false);
                self.apply_sel_flag(Some((c, id)), true);
                self.selection = Some((c, id));
                assert(final(self)@ =~= spec_try_select(old(self)@, x, y));
                true
            },
            None => {
                false
            },
        }
    }

    /// Register a brand-new anchor at the coordinate: an empty "new" text
    /// root carrying the next fresh identity.
    pub fn create_anchor(&mut self, coords: Coords)
        requires
            old(self).wf(),
        ensures
            final(self).wf(),
            final(self)@ == spec_create_anchor(old(self)@, coords),
            sel_inv(old(self)@) ==> sel_inv(final(self)@),
    {
        proof {
            if sel_inv(old(self)@) {
                lemma_sel_inv_create_anchor(old(self)@, coords);
            }
        }
        if self.next_id == u64::MAX {
            return ;
        }
        let text: Vec<char> = vec!['n', 'e', 'w'];
        assert(text@ =~= seq!['n', 'e', 'w']);
        let head = Node {
            content: Content::Text { text },
            children: Vec::new(),
            selected: false,
            collapsed: false,
            id: self.next_id,
        };
        assert(head@ =~= fresh_node_v(self.next_id));
        self.insert(coords, Anchor { head });
        self.next_id = self.next_id + 1;
        assert(final(self)@ =~= spec_create_anchor(old(self)@, coords));
    }

    /// Apply one non-creating edit to the node the selection points at.
    fn edit_selected(&mut self, op: EditOp)
        requires
            old(self).wf(),
            !(op matches EditOp::CreateChild(_)),
        ensures
            final(self).wf(),
            final(self)@ == spec_edit_sel(old(self)@, op),
    {
        let ghost es = self@.entries;
        proof {
            lemma_entries_v(self.anchors@, self.anchors@.len() as int);
        }
        let (c, id) = match self.selection {
            None => {
                assert(final(self)@ =~= spec_edit_sel(old(self)@, op));
                return ;
            },
            Some((c, id)) => (c, id),
        };
        let mut i: usize = 0;
        while i < self.anchors.len()
            invariant
                i <= self.anchors.len(),
                self@ == old(self)@,
                es == self@.entries,
                es.len() == self.anchors.len(),
                forall|j: int|
                    0 <= j < es.len() ==> es[j] == (
                        self.anchors@[j].coords,
                        node_v(self.anchors@[j].anchor.head),
                    ),
                pos_of(es, c, 0) == pos_of(es, c, i as int),
                old(self)@.selection == Some((c, id)),
                !(op matches EditOp::CreateChild(_)),
                entries_wf(es),
            decreases self.anchors.len() - i,
        {
            let ec = self.anchors[i].coords;
            if ec.0 == c.0 && ec.1 == c.1 {
                let ghost pre = self.anchors@;
                let mut e = self.anchors.remove(i);
                e.anchor.head.apply_at(id, op);
                self.anchors.insert(i, e);
                assert(self.anchors@ =~= pre.update(i as int, e));
                proof {
                    lemma_entries_v(self.anchors@, self.anchors@.len() as int);
                    lemma_apply_size(es[i as int].1, id, op);
                    lemma_update_wf(es, i as int, spec_apply_at(es[i as int].1, id, op).0);
                    assert(es[i as int].0 == c);
                    assert(pos_of(es, c, i as int) == i as int);
                    assert(self@.entries =~= es.update(
                        i as int,
                        (c, spec_apply_at(es[i as int].1, id, op).0),
                    ));
                }
                assert(final(self)@ =~= spec_edit_sel(old(self)@, op));
                return ;
            }
            i = i + 1;
        }
        assert(pos_of(es, c, 0) == -1);
        assert(final(self)@ =~= spec_edit_sel(old(self)@, op));
    }

    /// Flip the collapsed flag of the selected node, if any.
    pub fn toggle_collapsed(&mut self)
        requires
            old(self).wf(),
        ensures
            final(self).wf(),
            final(self)@ == spec_edit_sel(old(self)@, EditOp::Toggle),
            sel_inv(old(self)@) ==> sel_inv(final(self)@),
    {
        proof {
            if sel_inv(old(self)@) {
                lemma_sel_inv_edit(old(self)@, EditOp::Toggle);
            }
        }
        self.edit_selected(EditOp::Toggle);
    }

    /// Drop the last character of the selected node's text, if any; a
    /// no-op on a plot or without a selection.
    pub fn backspace(&mut self)
        requires
            old(self).wf(),
        ensures
            final(self).wf(),
            final(self)@ == spec_edit_sel(old(self)@, EditOp::Backspace),
            sel_inv(old(self)@) ==> sel_inv(final(self)@),
    {
        proof {
            if sel_inv(old(self)@) {
                lemma_sel_inv_edit(old(self)@, EditOp::Backspace);
            }
        }
        self.edit_selected(EditOp::Backspace);
    }

    /// Append one character to the selected node's text, if any; a no-op
    /// on a plot or without a selection.
    pub fn append(&mut self, c: char)
        requires
            old(self).wf(),
        ensures
            final(self).wf(),
            final(self)@ == spec_edit_sel(old(self)@, EditOp::Append(c)),
            sel_inv(old(self)@) ==> sel_inv(final(self)@),
    {
        proof {
            if sel_inv(old(self)@) {
                lemma_sel_inv_edit(old(self)@, EditOp::Append(c));
            }
        }
        self.edit_selected(EditOp::Append(c));
    }

    /// Append a fresh "new" child under the selected node, carrying the
    /// next fresh identity; a no-op without a selection or at a bound.
    pub fn create_child(&mut self)
        requires
            old(self).wf(),
        ensures
            final(self).wf(),
            final(self)@ == spec_create_child(old(self)@),
            sel_inv(old(self)@) ==> sel_inv(final(self)@),
    {
        let ghost es = self@.entries;
        proof {
            lemma_entries_v(self.anchors@, self.anchors@.len() as int);
            if sel_inv(old(self)@) {
                lemma_sel_inv_create_child(old(self)@);
            }
        }
        let (c, id) = match self.selection {
            None => {
                assert(final(self)@ =~= spec_create_child(old(self)@));
                return ;
            },
            Some((c, id)) => (c, id),
        };
        let mut i: usize = 0;
        while i < self.anchors.len()
            invariant
                i <= self.anchors.len(),
                self@ == old(self)@,
                es == self@.entries,
                es.len() == self.anchors.len(),
                forall|j: int|
                    0 <= j < es.len() ==> es[j] == (
                        self.anchors@[j].coords,
                        node_v(self.anchors@[j].anchor.head),
                    ),
                pos_of(es, c, 0) == pos_of(es, c, i as int),
                old(self)@.selection == Some((c, id)),
                entries_wf(es),
            decreases self.anchors.len() - i,
        {
            let ec = self.anchors[i].coords;
            if ec.0 == c.0 && ec.1 == c.1 {
                proof {
                    assert(es[i as int].0 == c);
                    assert(pos_of(es, c, i as int) == i as int);
                    if sel_inv(old(self)@) {
                        lemma_sel_inv_create_child(old(self)@);
                    }
                }
                let fits = match self.anchors[i].anchor.head.size_limited(MAX_TREE - 1) {
                    Some(_) => true,
                    None => false,
                };
                if !(fits && self.next_id < u64::MAX) {
                    assert(final(self)@ =~= spec_create_child(old(self)@));
                    return ;
                }
                let new_id = self.next_id;
                let ghost pre = self.anchors@;
                let mut e = self.anchors.remove(i);
                e.anchor.head.apply_at(id, EditOp::CreateChild(new_id));
                self.anchors.insert(i, e);
                self.next_id = self.next_id + 1;
                assert(self.anchors@ =~= pre.update(i as int, e));
                proof {
                    lemma_entries_v(self.anchors@, self.anchors@.len() as int);
                    lemma_apply_size(es[i as int].1, id, EditOp::CreateChild(new_id));
                    lemma_update_wf(
                        es,
                        i as int,
                        spec_apply_at(es[i as int].1, id, EditOp::CreateChild(new_id)).0,
                    );
                    assert(self@.entries =~= es.update(
                        i as int,
                        (c, spec_apply_at(es[i as int].1, id, EditOp::CreateChild(new_id)).0),
                    ));
                }
                assert(final(self)@ =~= spec_create_child(old(self)@));
                return ;
            }
            i = i + 1;
        }
        assert(pos_of(es, c, 0) == -1);
        assert(final(self)@ =~= spec_create_child(old(self)@));
    }

    /// Delete what the selection points at: a selected anchor root removes
    /// the whole anchor, any other node is deleted from its tree; the
    /// selection is cleared afterwards.
    pub fn delete_selected(&mut self)
        requires
            old(self).wf(),
        ensures
            final(self).wf(),
            final(self)@ == spec_delete_selected(old(self)@),
            sel_inv(old(self)@) && delete_occ_once(old(self)@) ==> sel_inv(final(self)@),
    {
        let ghost es = self@.entries;
        proof {
            lemma_entries_v(self.anchors@, self.anchors@.len() as int);
            if sel_inv(old(self)@) && delete_occ_once(old(self)@) {
                lemma_sel_inv_delete(old(self)@);
            }
        }
        let (c, id) = match self.selection {
            None => {
                assert(final(self)@ =~= spec_delete_selected(old(self)@));
                return ;
            },
            Some((c, id)) => (c, id),
        };
        let mut i: usize = 0;
        while i < self.anchors.len()
            invariant
                i <= self.anchors.len(),
                self@ == old(self)@,
                es == self@.entries,
                es.len() == self.anchors.len(),
                forall|j: int|
                    0 <= j < es.len() ==> es[j] == (
                        self.anchors@[j].coords,
                        node_v(self.anchors@[j].anchor.head),
                    ),
                pos_of(es, c, 0) == pos_of(es, c, i as int),
                old(self)@.selection == Some((c, id)),
                entries_wf(es),
            decreases self.anchors.len() - i,
        {
            let ec = self.anchors[i].coords;
            if ec.0 == c.0 && ec.1 == c.1 {
                proof {
                    assert(es[i as int].0 == c);
                    assert(pos_of(es, c, i as int) == i as int);
                    if sel_inv(old(self)@) && delete_occ_once(old(self)@) {
                        lemma_sel_inv_delete(old(self)@);
                    }
                }
                if self.anchors[i].anchor.head.id == id {
                    let ghost pre = self.anchors@;
                    self.anchors.remove(i);
                    self.selection = None;
                    proof {
                        lemma_entries_v(self.anchors@, self.anchors@.len() as int);
                        lemma_remove_wf(es, i as int);
                        assert(self@.entries =~= es.remove(i as int));
                    }
                    assert(final(self)@ =~= spec_delete_selected(old(self)@));
                    return ;
                } else {
                    let ghost pre = self.anchors@;
                    let mut e = self.anchors.remove(i);
                    e.anchor.head.delete(id);
                    self.anchors.insert(i, e);
                    self.selection = None;
                    assert(self.anchors@ =~= pre.update(i as int, e));
                    proof {
                        lemma_entries_v(self.anchors@, self.anchors@.len() as int);
                        lemma_delete_size_le(es[i as int].1, id);
                        lemma_update_wf(es, i as int, spec_delete(es[i as int].1, id).0);
                        assert(self@.entries =~= es.update(
                            i as int,
                            (c, spec_delete(es[i as int].1, id).0),
                        ));
                    }
                    assert(final(self)@ =~= spec_delete_selected(old(self)@));
                    return ;
                }
            }
            i = i + 1;
        }
        assert(pos_of(es, c, 0) == -1);
        self.selection = None;
        assert(final(self)@ =~= spec_delete_selected(old(self)@));
    }
}

/// A keystroke, decoded by the terminal-input collaborator.
#[derive(Clone, Copy)]
pub enum Key {
    /// A printable character; a newline toggles, a tab creates a child.
    Char(char),
    Delete,
    Backspace,
    AltEscape,
    /// Any key the editor does not recognize.
    Other,
}

/// One abstract input event, the closed set the editor reacts to.
#[derive(Clone, Copy)]
pub enum Event {
    KeyPress(Key),
    PointerPress(u16, u16),
    PointerRelease(u16, u16),
    /// Any other mouse event; logged and ignored.
    OtherMouse,
}

/// What the dispatcher asks of its caller after one event.
#[derive(Clone, Copy, Debug, PartialEq, Eq, Structural)]
pub enum Action {
    Continue,
    Exit,
}

/// What a pointer press does: a resolving press selects the hit node, a
/// press on empty space registers a brand-new anchor there.
pub open spec fn spec_pointer_press(v: ScreenV, x: u16, y: u16) -> ScreenV {
    if spec_hit(v.entries, x, y) is Some {
        spec_try_select(v, x, y)
    } else {
        spec_create_anchor(v, (x, y))
    }
}

/// What one input event does to the screen.
pub open spec fn spec_handle(v: ScreenV, evt: Event) -> ScreenV {
    match evt {
        Event::KeyPress(k) => match k {
            Key::Char(c) => if c == '\n' {
                spec_edit_sel(v, EditOp::Toggle)
            } else if c == '\t' {
                spec_create_child(v)
            } else {
                spec_edit_sel(v, EditOp::Append(c))
            },
            Key::Delete => spec_delete_selected(v),
            Key::Backspace => spec_edit_sel(v, EditOp::Backspace),
            Key::AltEscape => v,
            Key::Other => v,
        },
        Event::PointerPress(x, y) => spec_pointer_press(v, x, y),
        Event::PointerRelease(_x, _y) => v,
        Event::OtherMouse => v,
    }
}

/// What one input event adds to the log window: unrecognized events are
/// logged as warnings, everything else leaves the window alone.
pub open spec fn spec_handle_log(lines: Seq<Seq<char>>, evt: Event) -> Seq<Seq<char>> {
    match evt {
        Event::KeyPress(k) => match k {
            Key::Other => spec_logged(lines, LogLevel::Warn, "unhandled key event"@),
            _ => lines,
        },
        Event::OtherMouse => spec_logged(lines, LogLevel::Warn, "unhandled mouse event"@),
        _ => lines,
    }
}

/// The rows that rendering the first `i` anchors must visually result in,
/// in registry order.
pub open spec fn spec_screen_draw(es: Seq<(Coords, NodeV)>, i: int) -> Seq<LineV>
    decreases i,
{
    if i <= 0 || i > es.len() {
        Seq::empty()
    } else {
        spec_screen_draw(es, i - 1) + spec_draw(
            es[i - 1].1,
            Seq::empty(),
            es[i - 1].0.0,
            es[i - 1].0.1 as int,
            false,
        )
    }
}

/// The flag total over the registry entries from index `i` on.
pub open spec fn entries_sel(es: Seq<(Coords, NodeV)>, i: int) -> nat
    decreases es.len() - i,
{
    if i < 0 || i >= es.len() {
        0
    } else {
        sel_count(es[i].1) + entries_sel(es, i + 1)
    }
}

/// The screen-wide selection invariant of the data model: clearing the
/// selected flag at whatever the selection records leaves no flag
/// anywhere. Every flag therefore stands exactly on the node the
/// selection records — in particular, with no selection recorded nothing
/// is flagged.
pub open spec fn sel_inv(v: ScreenV) -> bool {
    entries_sel(spec_set_sel(v.entries, v.selection, false), 0) == 0
}

proof fn lemma_entries_sel_agree(a: Seq<(Coords, NodeV)>, b: Seq<(Coords, NodeV)>, i: int)
    requires
        a.len() == b.len(),
        0 <= i,
        forall|j: int| i <= j < a.len() ==> a[j] == b[j],
    ensures
        entries_sel(a, i) == entries_sel(b, i),
    decreases a.len() - i,
{
    if i < a.len() {
        lemma_entries_sel_agree(a, b, i + 1);
    }
}

proof fn lemma_entries_sel_update(es: Seq<(Coords, NodeV)>, j: int, e: (Coords, NodeV), i: int)
    requires
        0 <= i <= j < es.len(),
    ensures
        entries_sel(es.update(j, e), i) == entries_sel(es, i) - sel_count(es[j].1) + sel_count(
            e.1,
        ),
    decreases j - i,
{
    if i < j {
        lemma_entries_sel_update(es, j, e, i + 1);
    } else {
        lemma_entries_sel_agree(es.update(j, e), es, j + 1);
    }
}

proof fn lemma_entries_sel_ge(es: Seq<(Coords, NodeV)>, i: int)
    requires
        0 <= i,
    ensures
        forall|a: int| i <= a < es.len() ==> entries_sel(es, i) >= sel_count((#[trigger] es[a]).1),
    decreases es.len() - i,
{
    if i < es.len() {
        lemma_entries_sel_ge(es, i + 1);
    }
}

proof fn lemma_entries_sel_shift(a: Seq<(Coords, NodeV)>, b: Seq<(Coords, NodeV)>, i: int, d: int)
    requires
        0 <= i,
        0 <= d,
        a.len() + d == b.len(),
        forall|j: int| i <= j < a.len() ==> a[j] == b[j + d],
    ensures
        entries_sel(a, i) == entries_sel(b, i + d),
    decreases a.len() - i,
{
    if i < a.len() {
        lemma_entries_sel_shift(a, b, i + 1, d);
    }
}

proof fn lemma_entries_sel_remove(es: Seq<(Coords, NodeV)>, j: int, i: int)
    requires
        0 <= i <= j < es.len(),
    ensures
        entries_sel(es.remove(j), i) == entries_sel(es, i) - sel_count(es[j].1),
    decreases j - i,
{
    if i < j {
        lemma_entries_sel_remove(es, j, i + 1);
    } else {
        lemma_entries_sel_shift(es.remove(j), es, i, 1);
    }
}

proof fn lemma_entries_sel_insert(es: Seq<(Coords, NodeV)>, q: int, e: (Coords, NodeV), i: int)
    requires
        0 <= i <= q <= es.len(),
    ensures
        entries_sel(es.insert(q, e), i) == entries_sel(es, i) + sel_count(e.1),
    decreases q - i,
{
    if i < q {
        assert(es.insert(q, e)[i] == es[i]);
        lemma_entries_sel_insert(es, q, e, i + 1);
    } else {
        assert(es.insert(q, e)[q] == e);
        lemma_entries_sel_shift(es, es.insert(q, e), q, 1);
    }
}

/// The key position, characterized: in range with the key, none before.
proof fn lemma_pos_of_first(es: Seq<(Coords, NodeV)>, c: Coords, i: int)
    requires
        0 <= i,
    ensures
        ({
            let p = pos_of(es, c, i);
            &&& (p == -1 || i <= p < es.len())
            &&& (p == -1 ==> forall|j: int| i <= j < es.len() ==> (#[trigger] es[j]).0 != c)
            &&& (p >= 0 ==> es[p].0 == c && (forall|j: int|
                i <= j < p ==> (#[trigger] es[j]).0 != c))
        }),
    decreases es.len() - i,
{
    if i < es.len() && es[i].0 != c {
        lemma_pos_of_first(es, c, i + 1);
    }
}

/// A key match with none before it is the found position.
proof fn lemma_pos_of_char(es: Seq<(Coords, NodeV)>, c: Coords, j: int, i: int)
    requires
        0 <= i <= j < es.len(),
        es[j].0 == c,
        forall|m: int| i <= m < j ==> (#[trigger] es[m]).0 != c,
    ensures
        pos_of(es, c, i) == j,
    decreases j - i,
{
    if i < j {
        lemma_pos_of_char(es, c, j, i + 1);
    }
}

/// Key positions depend on the keys alone.
proof fn lemma_pos_of_coords_agree(a: Seq<(Coords, NodeV)>, b: Seq<(Coords, NodeV)>, c: Coords, i: int)
    requires
        a.len() == b.len(),
        0 <= i,
        forall|j: int| i <= j < a.len() ==> (#[trigger] a[j]).0 == b[j].0,
    ensures
        pos_of(a, c, i) == pos_of(b, c, i),
    decreases a.len() - i,
{
    if i < a.len() {
        lemma_pos_of_coords_agree(a, b, c, i + 1);
    }
}

/// Clearing a selection never adds a flag.
pub proof fn lemma_set_sel_dec(es: Seq<(Coords, NodeV)>, sel: Option<(Coords, NodeID)>)
    ensures
        entries_sel(spec_set_sel(es, sel, false), 0) <= entries_sel(es, 0),
{
    match sel {
        Option::None => {},
        Option::Some((c, id)) => {
            let p = pos_of(es, c, 0);
            lemma_pos_of_first(es, c, 0);
            if p >= 0 {
                crate::node::lemma_clear_dec(es[p].1, id);
                lemma_entries_sel_update(
                    es,
                    p,
                    (c, spec_apply_at(es[p].1, id, EditOp::SetSelected(false)).0),
                    0,
                );
            }
        },
    }
}

/// Editing at the recorded selection and then clearing it leaves exactly
/// the flags that clearing alone would leave.
proof fn lemma_update_then_clear(es: Seq<(Coords, NodeV)>, c: Coords, id: NodeID, op: EditOp)
    ensures
        ({
            let p = pos_of(es, c, 0);
            let es1 = if p >= 0 {
                es.update(p, (c, spec_apply_at(es[p].1, id, op).0))
            } else {
                es
            };
            entries_sel(spec_set_sel(es1, Option::Some((c, id)), false), 0) == entries_sel(
                spec_set_sel(es, Option::Some((c, id)), false),
                0,
            )
        }),
{
    let clr = EditOp::SetSelected(false);
    let p = pos_of(es, c, 0);
    lemma_pos_of_first(es, c, 0);
    if p >= 0 {
        let a = spec_apply_at(es[p].1, id, op).0;
        let es1 = es.update(p, (c, a));
        lemma_pos_of_coords_agree(es1, es, c, 0);
        assert(pos_of(es1, c, 0) == p);
        assert(es1[p] == (c, a));
        assert(spec_set_sel(es1, Option::Some((c, id)), false) =~= es.update(
            p,
            (c, spec_apply_at(a, id, clr).0),
        ));
        crate::node::lemma_apply_then_clear(es[p].1, id, op);
        lemma_entries_sel_update(es, p, (c, spec_apply_at(a, id, clr).0), 0);
        lemma_entries_sel_update(es, p, (c, spec_apply_at(es[p].1, id, clr).0), 0);
    }
}

/// Every edit aimed at the current selection preserves the selection
/// invariant.
pub proof fn lemma_sel_inv_edit(v: ScreenV, op: EditOp)
    requires
        sel_inv(v),
    ensures
        sel_inv(spec_edit_sel(v, op)),
{
    match v.selection {
        Option::None => {},
        Option::Some((c, id)) => {
            lemma_update_then_clear(v.entries, c, id, op);
            lemma_pos_of_first(v.entries, c, 0);
        },
    }
}

/// Creating a child under the selection preserves the selection invariant.
pub proof fn lemma_sel_inv_create_child(v: ScreenV)
    requires
        sel_inv(v),
    ensures
        sel_inv(spec_create_child(v)),
{
    match v.selection {
        Option::None => {},
        Option::Some((c, id)) => {
            lemma_update_then_clear(v.entries, c, id, EditOp::CreateChild(v.next_id));
            lemma_pos_of_first(v.entries, c, 0);
        },
    }
}

/// A pointer press that selects preserves the selection invariant: the
/// old selection's flag goes, the hit node's flag comes, one in all.
pub proof fn lemma_sel_inv_try_select(v: ScreenV, x: u16, y: u16)
    requires
        sel_inv(v),
    ensures
        sel_inv(spec_try_select(v, x, y)),
{
    let clr = EditOp::SetSelected(false);
    match spec_hit(v.entries, x, y) {
        Option::None => {},
        Option::Some((c2, id2)) => {
            let xs = spec_set_sel(v.entries, v.selection, false);
            assert(entries_sel(xs, 0) == 0);
            let q = pos_of(xs, c2, 0);
            lemma_pos_of_first(xs, c2, 0);
            if q >= 0 {
                let t = spec_apply_at(xs[q].1, id2, EditOp::SetSelected(true)).0;
                let ys = xs.update(q, (c2, t));
                assert(spec_set_sel(xs, Option::Some((c2, id2)), true) == ys);
                lemma_pos_of_coords_agree(ys, xs, c2, 0);
                assert(pos_of(ys, c2, 0) == q);
                assert(ys[q] == (c2, t));
                assert(spec_set_sel(ys, Option::Some((c2, id2)), false) =~= xs.update(
                    q,
                    (c2, spec_apply_at(t, id2, clr).0),
                ));
                crate::node::lemma_apply_then_clear(xs[q].1, id2, EditOp::SetSelected(true));
                crate::node::lemma_clear_dec(xs[q].1, id2);
                lemma_entries_sel_ge(xs, 0);
                lemma_entries_sel_update(xs, q, (c2, spec_apply_at(t, id2, clr).0), 0);
            }
        },
    }
}

/// Registering an anchor whose tree carries no flag preserves the
/// selection invariant: every flag stays where it was.
pub proof fn lemma_sel_inv_insert(v: ScreenV, coords: Coords, fresh: NodeV)
    requires
        sel_inv(v),
        entries_wf(v.entries),
        sel_count(fresh) == 0,
    ensures
        sel_inv(ScreenV { entries: spec_insert(v.entries, coords, fresh), ..v }),
{
    let clr = EditOp::SetSelected(false);
    let es = v.entries;
    let q = insert_pos(es, coords, 0);
    lemma_insert_pos(es, coords, 0);
    let es2 = spec_insert(es, coords, fresh);
    match v.selection {
        Option::None => {
            assert(entries_sel(es, 0) == 0);
            if q < es.len() && es[q].0 == coords {
                lemma_entries_sel_ge(es, 0);
                lemma_entries_sel_update(es, q, (coords, fresh), 0);
            } else {
                lemma_entries_sel_insert(es, q, (coords, fresh), 0);
            }
            lemma_set_sel_dec(es2, Option::None);
        },
        Option::Some((c, id)) => {
            let p = pos_of(es, c, 0);
            lemma_pos_of_first(es, c, 0);
            if p < 0 {
                // stale selection: nothing is flagged anywhere
                assert(entries_sel(es, 0) == 0);
                if q < es.len() && es[q].0 == coords {
                    lemma_entries_sel_ge(es, 0);
                    lemma_entries_sel_update(es, q, (coords, fresh), 0);
                } else {
                    lemma_entries_sel_insert(es, q, (coords, fresh), 0);
                }
                lemma_set_sel_dec(es2, v.selection);
            } else {
                let cleared = spec_apply_at(es[p].1, id, clr).0;
                lemma_entries_sel_update(es, p, (c, cleared), 0);
                lemma_entries_sel_ge(es, 0);
                crate::node::lemma_clear_dec(es[p].1, id);
                // the one flagged entry is at p, everything else is zero
                assert(entries_sel(es, 0) == sel_count(es[p].1) - sel_count(cleared));
                if q < es.len() && es[q].0 == coords {
                    // replacement
                    lemma_entries_sel_update(es, q, (coords, fresh), 0);
                    if c == coords {
                        assert(q == p);
                        assert(entries_sel(es2, 0) == 0) by {
                            assert(entries_sel(es2, 0) == entries_sel(es, 0) - sel_count(
                                es[p].1,
                            ) + 0);
                            assert(sel_count(cleared) <= sel_count(es[p].1));
                        }
                        lemma_set_sel_dec(es2, v.selection);
                    } else {
                        assert(q != p);
                        lemma_pos_of_coords_agree(es2, es, c, 0);
                        assert(es2[p] == es[p]);
                        assert(spec_set_sel(es2, v.selection, false) =~= es.update(
                            q,
                            (coords, fresh),
                        ).update(p, (c, cleared)));
                        lemma_entries_sel_double_update(es, q, (coords, fresh), p, (c, cleared));
                    }
                } else {
                    // a true insertion: under strict key order the new key
                    // differs from the selection's, whose entry only shifts
                    assert(coords != c) by {
                        if coords == c {
                            if q < p {
                                assert(coord_lt(es[q].0, es[p].0));
                            }
                            if p < q {
                                assert(coord_lt(es[p].0, coords));
                            }
                        }
                    }
                    let p2: int = if p < q {
                        p
                    } else {
                        p + 1
                    };
                    assert(es2 == es.insert(q, (coords, fresh)));
                    assert(es2[p2] == es[p]);
                    assert forall|m: int| 0 <= m < p2 implies (#[trigger] es2[m]).0 != c by {
                        if m < q {
                            assert(es2[m] == es[m]);
                        } else {
                            assert(es2[m] == (if m == q {
                                (coords, fresh)
                            } else {
                                es[m - 1]
                            }));
                        }
                    }
                    lemma_pos_of_char(es2, c, p2, 0);
                    assert(spec_set_sel(es2, v.selection, false) =~= es2.update(
                        p2,
                        (c, cleared),
                    ));
                    assert(es2.update(p2, (c, cleared)) =~= es.update(p, (c, cleared)).insert(
                        q,
                        (coords, fresh),
                    ));
                    lemma_entries_sel_insert(es.update(p, (c, cleared)), q, (coords, fresh), 0);
                }
            }
        },
    }
}

/// Registering a fresh anchor preserves the selection invariant: the new
/// root is unflagged and every other flag stays where it was.
pub proof fn lemma_sel_inv_create_anchor(v: ScreenV, coords: Coords)
    requires
        sel_inv(v),
        entries_wf(v.entries),
    ensures
        sel_inv(spec_create_anchor(v, coords)),
{
    if v.next_id < u64::MAX {
        lemma_sel_inv_insert(v, coords, fresh_node_v(v.next_id));
    }
}

/// Two updates at distinct positions count independently.
proof fn lemma_entries_sel_double_update(
    es: Seq<(Coords, NodeV)>,
    q: int,
    e1: (Coords, NodeV),
    p: int,
    e2: (Coords, NodeV),
)
    requires
        0 <= q < es.len(),
        0 <= p < es.len(),
        q != p,
    ensures
        entries_sel(es.update(q, e1).update(p, e2), 0) == entries_sel(es, 0) - sel_count(
            es[q].1,
        ) + sel_count(e1.1) - sel_count(es[p].1) + sel_count(e2.1),
{
    lemma_entries_sel_update(es, q, e1, 0);
    assert(es.update(q, e1)[p] == es[p]);
    lemma_entries_sel_update(es.update(q, e1), p, e2, 0);
}

/// Deleting the selection preserves the invariant and leaves nothing
/// flagged, provided the recorded identity occurs at most once in its
/// anchor's tree — which every identity the screen itself hands out does.
pub proof fn lemma_sel_inv_delete(v: ScreenV)
    requires
        sel_inv(v),
        match v.selection {
            Option::Some((c, id)) => ({
                let p = pos_of(v.entries, c, 0);
                p >= 0 ==> occ(v.entries[p].1, id) <= 1
            }),
            Option::None => true,
        },
    ensures
        sel_inv(spec_delete_selected(v)),
{
    let clr = EditOp::SetSelected(false);
    match v.selection {
        Option::None => {},
        Option::Some((c, id)) => {
            let es = v.entries;
            let p = pos_of(es, c, 0);
            lemma_pos_of_first(es, c, 0);
            if p < 0 {
                assert(entries_sel(es, 0) == 0);
            } else {
                let cleared = spec_apply_at(es[p].1, id, clr).0;
                lemma_entries_sel_update(es, p, (c, cleared), 0);
                lemma_entries_sel_ge(es, 0);
                crate::node::lemma_clear_dec(es[p].1, id);
                assert(entries_sel(es, 0) == sel_count(es[p].1) - sel_count(cleared));
                if es[p].1.id == id {
                    // the whole anchor goes, its flag with it
                    assert(sel_count(cleared) == sel_count(es[p].1) - (if es[p].1.selected {
                        1nat
                    } else {
                        0nat
                    })) by {
                        assert(cleared == apply_op(es[p].1, clr));
                        assert(cleared.children =~= es[p].1.children);
                        crate::node::lemma_sel_rec_agree(cleared.children, es[p].1.children, 0);
                    }
                    lemma_entries_sel_remove(es, p, 0);
                } else {
                    crate::node::lemma_delete_clears_selection(es[p].1, id);
                    lemma_entries_sel_update(es, p, (c, spec_delete(es[p].1, id).0), 0);
                }
            }
        },
    }
}

/// The recorded identity occurs at most once in its anchor's tree — true
/// of every identity the screen itself hands out, which are all fresh.
pub open spec fn delete_occ_once(v: ScreenV) -> bool {
    match v.selection {
        Option::Some((c, id)) => ({
            let p = pos_of(v.entries, c, 0);
            p >= 0 ==> occ(v.entries[p].1, id) <= 1
        }),
        Option::None => true,
    }
}

/// Every dispatched event preserves the selection invariant; for the
/// delete key this asks that the recorded identity occur at most once in
/// its anchor's tree, which holds of every identity the screen hands out.
pub proof fn lemma_sel_inv_handle(v: ScreenV, evt: Event)
    requires
        sel_inv(v),
        entries_wf(v.entries),
        (evt matches Event::KeyPress(Key::Delete)) ==> delete_occ_once(v),
    ensures
        sel_inv(spec_handle(v, evt)),
{
    match evt {
        Event::KeyPress(k) => match k {
            Key::Char(c) => {
                if c == '\n' {
                    lemma_sel_inv_edit(v, EditOp::Toggle);
                } else if c == '\t' {
                    lemma_sel_inv_create_child(v);
                } else {
                    lemma_sel_inv_edit(v, EditOp::Append(c));
                }
            },
            Key::Delete => {
                lemma_sel_inv_delete(v);
            },
            Key::Backspace => {
                lemma_sel_inv_edit(v, EditOp::Backspace);
            },
            Key::AltEscape => {},
            Key::Other => {},
        },
        Event::PointerPress(x, y) => {
            if spec_hit(v.entries, x, y) is Some {
                lemma_sel_inv_try_select(v, x, y);
            } else {
                lemma_sel_inv_create_anchor(v, (x, y));
            }
        },
        Event::PointerRelease(_x, _y) => {},
        Event::OtherMouse => {},
    }
}

/// Entries whose trees are flag-free in all contribute nothing.
pub proof fn lemma_entries_sel_zero(es: Seq<(Coords, NodeV)>, i: int)
    requires
        0 <= i,
        forall|j: int| i <= j < es.len() ==> sel_count((#[trigger] es[j]).1) == 0,
    ensures
        entries_sel(es, i) == 0,
    decreases es.len() - i,
{
    if i < es.len() {
        lemma_entries_sel_zero(es, i + 1);
    }
}

/// At most one node across the whole screen is selected at any time that
/// the selection invariant holds.
pub proof fn lemma_at_most_one_selected(v: ScreenV)
    requires
        sel_inv(v),
    ensures
        entries_sel(v.entries, 0) <= 1,
{
    match v.selection {
        Option::None => {},
        Option::Some((c, id)) => {
            let p = pos_of(v.entries, c, 0);
            lemma_pos_of_first(v.entries, c, 0);
            if p >= 0 {
                crate::node::lemma_clear_dec(v.entries[p].1, id);
                lemma_entries_sel_update(
                    v.entries,
                    p,
                    (c, spec_apply_at(v.entries[p].1, id, EditOp::SetSelected(false)).0),
                    0,
                );
            }
        },
    }
}

impl Screen {
    /// Dispatch one abstract input event: pointer presses select or create
    /// anchors, edit and structural keys go to the current selection, and
    /// unrecognized events are logged as warnings and ignored. Reports
    /// whether the caller should keep running or exit.
    pub fn handle_event(&mut self, evt: Event, log: &mut ScreenLog) -> (act: Action)
        requires
            old(self).wf(),
            old(log).wf(),
        ensures
            final(self).wf(),
            final(log).wf(),
            final(self)@ == spec_handle(old(self)@, evt),
            final(log).view_lines() == spec_handle_log(old(log).view_lines(), evt),
            (act matches Action::Exit) <==> (evt matches Event::KeyPress(Key::AltEscape)),
            sel_inv(old(self)@) && ((evt matches Event::KeyPress(Key::Delete))
                ==> delete_occ_once(old(self)@)) ==> sel_inv(final(self)@),
    {
        proof {
            if sel_inv(old(self)@) && ((evt matches Event::KeyPress(Key::Delete))
                ==> delete_occ_once(old(self)@)) {
                lemma_sel_inv_handle(old(self)@, evt);
            }
        }
        match evt {
            Event::KeyPress(k) => match k {
                Key::Char(c) => {
                    if c == '\n' {
                        self.toggle_collapsed();
                    } else if c == '\t' {
                        self.create_child();
                    } else {
                        self.append(c);
                    }
                    Action::Continue
                },
                Key::Delete => {
                    self.delete_selected();
                    Action::Continue
                },
                Key::Backspace => {
                    self.backspace();
                    Action::Continue
                },
                Key::AltEscape => Action::Exit,
                Key::Other => {
                    log.log(crate::logging::LogLevel::Warn, "unhandled key event");
                    Action::Continue
                },
            },
            Event::PointerPress(x, y) => {
                let hit = self.try_select(x, y);
                if !hit {
                    self.create_anchor((x, y));
                }
                Action::Continue
            },
            Event::PointerRelease(_x, _y) => Action::Continue,
            Event::OtherMouse => {
                log.log(crate::logging::LogLevel::Warn, "unhandled mouse event");
                Action::Continue
            },
        }
    }

    /// The rows a full redraw must visually result in: every anchor's tree
    /// in ascending coordinate order, one entry per visible row.
    pub fn draw(&self) -> (out: Vec<RenderLine>)
        requires
            self.wf(),
        ensures
            lines_v(out@) == spec_screen_draw(self@.entries, self@.entries.len() as int),
    {
        let ghost es = self@.entries;
        proof {
            lemma_entries_v(self.anchors@, self.anchors@.len() as int);
        }
        let mut out: Vec<RenderLine> = Vec::new();
        assert(lines_v(out@) =~= spec_screen_draw(es, 0));
        let mut i: usize = 0;
        while i < self.anchors.len()
            invariant
                i <= self.anchors.len(),
                es == self@.entries,
                es.len() == self.anchors.len(),
                entries_wf(es),
                forall|j: int|
                    0 <= j < es.len() ==> es[j] == (
                        self.anchors@[j].coords,
                        node_v(self.anchors@[j].anchor.head),
                    ),
                lines_v(out@) == spec_screen_draw(es, i as int),
            decreases self.anchors.len() - i,
        {
            let ec = self.anchors[i].coords;
            proof {
                assert(spec_size(es[i as int].1) <= MAX_TREE);
            }
            self.anchors[i].anchor.draw(ec.0, ec.1, &mut out);
            assert(lines_v(out@) =~= spec_screen_draw(es, i as int + 1));
            i = i + 1;
        }
        out
    }
}

} // verus!
