//! The layout side of the reconciler: style records, computed geometry, and
//! an arena of layout nodes addressed by stable handles.
//!
//! The real layout engine (box model, constraint solving, measuring) is an
//! external collaborator; what the reconciler needs from it is the tree
//! structure it stores — which node exists, with which style, and which
//! parent/child edges — plus a place to read computed geometry back from.
//! That structural core is modeled here as an arena indexed by handle.

use vstd::prelude::*;

verus! {

/// A list of style keys attached to an element; keys are plain identifiers
/// resolved by the style system.
pub type StylesList = Vec<u64>;

/// A resolved style record. Resolution itself (themes, cascading) is outside
/// this core; the record keeps the keys that were applied to it, in order.
pub struct Style {
    pub applied: Vec<u64>,
}

impl Style {
    /// An empty style record, onto which style keys are resolved.
    pub fn new() -> (r: Style)
        ensures
            r.applied@ == Seq::<u64>::empty(),
    {
        Style { applied: Vec::new() }
    }
}

/// Computed geometry for one layout node, as reported back after a layout
/// pass: stacking order, size, and position.
#[derive(Clone, Copy, Debug, PartialEq, Eq, Structural)]
pub struct Layout {
    pub order: u32,
    pub width: i64,
    pub height: i64,
    pub x: i64,
    pub y: i64,
}

impl Layout {
    /// Geometry before any layout pass has run: everything zero.
    pub fn new() -> (r: Layout)
        ensures
            r == (Layout { order: 0, width: 0, height: 0, x: 0, y: 0 }),
    {
        Layout { order: 0, width: 0, height: 0, x: 0, y: 0 }
    }
}

/// A failure reported by the layout tree: the handle passed in does not name
/// a node of the arena.
#[derive(Clone, Copy, Debug, PartialEq, Eq, Structural)]
pub enum LayoutError {
    UnknownNode,
}

/// One node of the layout tree: its style record, the handles of its
/// children, and its computed geometry.
pub struct LayoutNodeData {
    pub style: Style,
    pub children: Vec<usize>,
    pub geometry: Layout,
}

/// The layout engine's tree, modeled as an arena of nodes addressed by
/// stable handles (indices into the arena). Handles are never invalidated;
/// a handle is valid exactly when it is below the arena's length.
pub struct LayoutTree {
    pub nodes: Vec<LayoutNodeData>,
}

impl LayoutTree {
    pub open spec fn valid_handle(self, h: usize) -> bool {
        h < self.nodes@.len()
    }

    /// An empty layout tree with no nodes.
    pub fn new() -> (r: LayoutTree)
        ensures
            r.nodes@.len() == 0,
    {
        LayoutTree { nodes: Vec::new() }
    }

    pub fn len(&self) -> (r: usize)
        ensures
            r == self.nodes@.len(),
    {
        self.nodes.len()
    }

    /// Allocates a fresh layout node with the given style and children, and
    /// returns its handle. Fails if any child handle is invalid.
    pub fn new_node(&mut self, style: Style, children: Vec<usize>) -> (r: Result<
        usize,
        LayoutError,
    >)
        ensures
            (forall|i: int|
                0 <= i < children@.len() ==> old(self).valid_handle(
                    children@[i],
                )) <==> (r is Ok),
            r matches Ok(h) ==> {
                &&& h == old(self).nodes@.len()
                &&& final(self).nodes@ == old(self).nodes@.push(
                    LayoutNodeData {
                        style,
                        children,
                        geometry: Layout { order: 0, width: 0, height: 0, x: 0, y: 0 },
                    },
                )
            },
            r is Err ==> final(self).nodes@ == old(self).nodes@,
    {
        let n = self.nodes.len();
        let mut i: usize = 0;
        while i < children.len()
            invariant
                i <= children@.len(),
                n == old(self).nodes@.len(),
                forall|j: int| 0 <= j < i ==> children@[j] < n,
            decreases children@.len() - i,
        {
            if children[i] >= n {
                proof {
                    assert(!old(self).valid_handle(children@[i as int]));
                }
                return Err(LayoutError::UnknownNode);
            }
            i += 1;
        }
        let handle = self.nodes.len();
        self.nodes.push(
            LayoutNodeData { style, children, geometry: Layout::new() },
        );
        Ok(handle)
    }

    /// Registers `child` as the last child of `parent` in the layout tree.
    /// Fails if either handle is invalid.
    pub fn add_child(&mut self, parent: usize, child: usize) -> (r: Result<(), LayoutError>)
        ensures
            r is Ok <==> (old(self).valid_handle(parent) && old(self).valid_handle(child)),
            r is Ok ==> {
                &&& final(self).nodes@.len() == old(self).nodes@.len()
                &&& final(self).nodes@[parent as int].children@ == old(self).nodes@[parent as int].children@.push(child)
                &&& final(self).nodes@[parent as int].style == old(self).nodes@[parent as int].style
                &&& final(self).nodes@[parent as int].geometry == old(self).nodes@[parent as int].geometry
                &&& forall|i: int|
                    0 <= i < old(self).nodes@.len() && i != parent ==> final(self).nodes@[i]
                        == old(self).nodes@[i]
            },
            r is Err ==> final(self).nodes@ == old(self).nodes@,
    {
        if parent >= self.nodes.len() || child >= self.nodes.len() {
            return Err(LayoutError::UnknownNode);
        }
        let mut data = self.nodes.remove(parent);
        data.children.push(child);
        self.nodes.insert(parent, data);
        proof {
            assert forall|i: int|
                0 <= i < old(self).nodes@.len() && i != parent implies self.nodes@[i] == old(
                self,
            ).nodes@[i] by {}
        }
        Ok(())
    }

    /// Detaches every child edge of `parent`, leaving the node itself (and
    /// its style and geometry) in place. Fails if the handle is invalid.
    pub fn clear_children(&mut self, parent: usize) -> (r: Result<(), LayoutError>)
        ensures
            r is Ok <==> old(self).valid_handle(parent),
            r is Ok ==> {
                &&& final(self).nodes@.len() == old(self).nodes@.len()
                &&& final(self).nodes@[parent as int].children@ == Seq::<usize>::empty()
                &&& final(self).nodes@[parent as int].style == old(self).nodes@[parent as int].style
                &&& final(self).nodes@[parent as int].geometry == old(self).nodes@[parent as int].geometry
                &&& forall|i: int|
                    0 <= i < old(self).nodes@.len() && i != parent ==> final(self).nodes@[i]
                        == old(self).nodes@[i]
            },
            r is Err ==> final(self).nodes@ == old(self).nodes@,
    {
        if parent >= self.nodes.len() {
            return Err(LayoutError::UnknownNode);
        }
        let mut data = self.nodes.remove(parent);
        data.children.clear();
        self.nodes.insert(parent, data);
        Ok(())
    }

    /// Returns the computed geometry stored for `handle`, as the layout
    /// engine reports it after a layout pass. Fails if the handle is invalid.
    pub fn layout(&self, handle: usize) -> (r: Result<Layout, LayoutError>)
        ensures
            r is Ok <==> self.valid_handle(handle),
            r matches Ok(l) ==> l == self.nodes@[handle as int].geometry,
    {
        if handle >= self.nodes.len() {
            return Err(LayoutError::UnknownNode);
        }
        Ok(self.nodes[handle].geometry)
    }

    /// Returns a copy of the style record stored for `handle`. Fails if the
    /// handle is invalid.
    pub fn style(&self, handle: usize) -> (r: Result<Style, LayoutError>)
        ensures
            r is Ok <==> self.valid_handle(handle),
            r matches Ok(s) ==> s.applied@ == self.nodes@[handle as int].style.applied@,
    {
        if handle >= self.nodes.len() {
            return Err(LayoutError::UnknownNode);
        }
        let mut applied: Vec<u64> = Vec::new();
        let source = &self.nodes[handle].style.applied;
        let mut i: usize = 0;
        while i < source.len()
            invariant
                i <= source@.len(),
                applied@ == source@.subrange(0, i as int),
            decreases source@.len() - i,
        {
            applied.push(source[i]);
            i += 1;
            proof {
                assert(applied@ =~= source@.subrange(0, i as int));
            }
        }
        proof {
            assert(applied@ =~= source@);
        }
        Ok(Style { applied })
    }

    /// Records computed geometry for `handle`; the layout engine's compute
    /// pass stores its results through this. Fails if the handle is invalid.
    pub fn set_geometry(&mut self, handle: usize, geometry: Layout) -> (r: Result<
        (),
        LayoutError,
    >)
        ensures
            r is Ok <==> old(self).valid_handle(handle),
            r is Ok ==> {
                &&& final(self).nodes@.len() == old(self).nodes@.len()
                &&& final(self).nodes@[handle as int].geometry == geometry
                &&& final(self).nodes@[handle as int].style == old(self).nodes@[handle as int].style
                &&& final(self).nodes@[handle as int].children == old(self).nodes@[handle as int].children
                &&& forall|i: int|
                    0 <= i < old(self).nodes@.len() && i != handle ==> final(self).nodes@[i]
                        == old(self).nodes@[i]
            },
            r is Err ==> final(self).nodes@ == old(self).nodes@,
    {
        if handle >= self.nodes.len() {
            return Err(LayoutError::UnknownNode);
        }
        let mut data = self.nodes.remove(handle);
        data.geometry = geometry;
        self.nodes.insert(handle, data);
        Ok(())
    }
}

} // verus!
