//! The virtual tree the reconciler walks: element nodes, text nodes, and the
//! empty marker, together with the specification-level predicates that the
//! reconciler's contracts are stated over.
//!
//! A component instance is modeled as a record carrying its identity and its
//! native-backing capability; the factory capability of a node is modeled as
//! data: whether the created instance owns a native backing surface, and what
//! its first render produces. Lifecycle notifications (teardown, render
//! failure, child-view appending) are recorded as events on the host.

use vstd::prelude::*;

use crate::host::Event;
use crate::layout::LayoutNodeData;
use crate::props::Props;

verus! {

/// A live component instance: its identity (assigned by the host at creation,
/// never reused) and whether it owns a native backing surface.
#[derive(Clone, Copy, Debug, PartialEq, Eq, Structural)]
pub struct Instance {
    pub id: usize,
    pub native_backed: bool,
}

/// What a component's render step produces: a tree value, or a failure.
/// Rendering happens once, at mount; afterwards the plan is spent and renders
/// nothing (the empty marker).
pub enum RenderPlan {
    Renders(Box<Tree>),
    Fails,
}

/// The factory capability of an element node: creating an instance yields a
/// component with the given native-backing capability whose first render
/// produces the plan's output.
pub struct Factory {
    pub native_backed: bool,
    pub plan: RenderPlan,
}

/// An element node: a tagged site for a component instance, with its property
/// record, its children, its factory capability, and — once mounted — a live
/// instance and, if natively backed, a layout-node handle.
pub struct VirtualNode {
    pub tag: String,
    pub props: Props,
    pub children: Vec<Tree>,
    pub factory: Factory,
    pub instance: Option<Instance>,
    pub layout_node: Option<usize>,
}

/// A point in a virtual tree: an element node, a text node, or the empty
/// marker. The empty marker stands for "rendered nothing" and is never stored
/// inside a tree's children list.
pub enum Tree {
    Element(VirtualNode),
    Text(String),
    Empty,
}

/// The reserved element tag whose children are hoisted into the mounting
/// parent while the wrapper itself is discarded.
pub open spec fn fragment_tag() -> Seq<char> {
    "Fragment"@
}

pub open spec fn is_fragment(tag: Seq<char>) -> bool {
    tag == fragment_tag()
}

/// Kind or tag mismatch: the sole criterion for discarding the old node
/// instead of updating it in place.
pub open spec fn replace_needed(old: Tree, new: Tree) -> bool {
    match (old, new) {
        (Tree::Element(o), Tree::Element(n)) => o.tag@ != n.tag@,
        (Tree::Text(_), Tree::Text(_)) => false,
        (Tree::Empty, Tree::Empty) => false,
        _ => true,
    }
}

/// A spent render plan: what remains on a node's factory after its mount has
/// consumed the first render's output.
pub open spec fn plan_spent(p: RenderPlan) -> bool {
    match p {
        RenderPlan::Renders(t) => *t is Empty,
        RenderPlan::Fails => false,
    }
}

// ---------------------------------------------------------------------------
// Teardown notifications: the exact event sequence unmounting emits, in
// post-order — every descendant before its ancestor.
// ---------------------------------------------------------------------------

pub open spec fn teardown_list(ts: Seq<Tree>) -> Seq<Event>
    decreases ts,
{
    if ts.len() == 0 {
        Seq::empty()
    } else {
        teardown_seq(ts[0]) + teardown_list(ts.drop_first())
    }
}

pub open spec fn teardown_seq(t: Tree) -> Seq<Event>
    decreases t,
{
    match t {
        Tree::Element(n) => teardown_list(n.children@) + (match n.instance {
            Some(i) => seq![Event::TornDown(i.id)],
            None => Seq::empty(),
        }),
        _ => Seq::empty(),
    }
}

// ---------------------------------------------------------------------------
// Well-formedness of tree values.
// ---------------------------------------------------------------------------

/// A tree as a render describes it, never yet mounted: no instance, no layout
/// handle, no empty marker stored in any children list, and every render plan
/// inside it equally well formed.
pub open spec fn described_node(n: VirtualNode) -> bool
    decreases n,
{
    &&& n.instance is None
    &&& n.layout_node is None
    &&& described_children(n.children@)
    &&& described_plan(n.factory.plan)
}

pub open spec fn described_children(ts: Seq<Tree>) -> bool
    decreases ts,
{
    if ts.len() == 0 {
        true
    } else {
        described_child(ts[0]) && described_children(ts.drop_first())
    }
}

pub open spec fn described_child(t: Tree) -> bool
    decreases t,
{
    match t {
        Tree::Element(n) => described_node(n),
        Tree::Text(_) => true,
        Tree::Empty => false,
    }
}

pub open spec fn described_plan(p: RenderPlan) -> bool
    decreases p,
{
    match p {
        RenderPlan::Fails => true,
        RenderPlan::Renders(t) => match *t {
            Tree::Element(n) => described_node(n),
            _ => true,
        },
    }
}

/// A live tree: every element node has been mounted, so it holds an instance
/// with an identity the host has issued, a layout handle exactly when the
/// instance is natively backed, every handle valid in the layout tree, and no
/// empty marker stored in any children list.
pub open spec fn live_node(n: VirtualNode, n_instances: nat, n_handles: nat) -> bool
    decreases n,
{
    &&& n.instance matches Some(inst) && inst.id < n_instances && (n.layout_node is Some
        <==> inst.native_backed)
    &&& (n.layout_node matches Some(h) ==> h < n_handles)
    &&& live_children(n.children@, n_instances, n_handles)
}

pub open spec fn live_children(ts: Seq<Tree>, n_instances: nat, n_handles: nat) -> bool
    decreases ts,
{
    if ts.len() == 0 {
        true
    } else {
        live_child(ts[0], n_instances, n_handles) && live_children(
            ts.drop_first(),
            n_instances,
            n_handles,
        )
    }
}

pub open spec fn live_child(t: Tree, n_instances: nat, n_handles: nat) -> bool
    decreases t,
{
    match t {
        Tree::Element(n) => live_node(n, n_instances, n_handles),
        Tree::Text(_) => true,
        Tree::Empty => false,
    }
}

/// The layout handles a subtree holds are all valid in a layout tree of the
/// given size: the condition under which unmounting can detach every linkage
/// it must.
pub open spec fn detach_ok(t: Tree, n_handles: nat) -> bool
    decreases t,
{
    match t {
        Tree::Element(n) => (n.layout_node matches Some(h) ==> h < n_handles) && detach_ok_list(
            n.children@,
            n_handles,
        ),
        _ => true,
    }
}

pub open spec fn detach_ok_list(ts: Seq<Tree>, n_handles: nat) -> bool
    decreases ts,
{
    if ts.len() == 0 {
        true
    } else {
        detach_ok(ts[0], n_handles) && detach_ok_list(ts.drop_first(), n_handles)
    }
}

// ---------------------------------------------------------------------------
// What mounting produces, related structurally to the description consumed.
// ---------------------------------------------------------------------------

/// Relates a freshly mounted element to the description it was mounted from:
/// tag and props are kept, an instance with the factory's capability is held,
/// a layout handle exists exactly for natively backed components, the declared
/// children are kept in place, and the render output's mounted form follows
/// them. The render plan is spent by the mount.
pub open spec fn mounts_to(desc: VirtualNode, live: VirtualNode) -> bool
    decreases desc,
{
    &&& live.tag@ == desc.tag@
    &&& live.props == desc.props
    &&& live.instance matches Some(inst) && inst.native_backed == desc.factory.native_backed
    &&& (live.layout_node is Some <==> desc.factory.native_backed)
    &&& live.factory.native_backed == desc.factory.native_backed
    &&& plan_spent(live.factory.plan)
    &&& live.children@.len() >= desc.children@.len()
    &&& live.children@.subrange(0, desc.children@.len() as int) == desc.children@
    &&& plan_mounts_to(desc.factory.plan, live.children@.skip(desc.children@.len() as int))
}

/// Relates a render plan to the children a mount appends for it: a failing
/// render appends nothing, text or empty output appends nothing, a fragment
/// appends the mounted forms of the fragment's element children in order, and
/// any other element is mounted as the single appended child.
pub open spec fn plan_mounts_to(plan: RenderPlan, appended: Seq<Tree>) -> bool
    decreases plan,
{
    match plan {
        RenderPlan::Fails => appended.len() == 0,
        RenderPlan::Renders(out) => match *out {
            Tree::Element(c) => if is_fragment(c.tag@) {
                children_mount_to(c.children@, appended)
            } else {
                appended.len() == 1 && (appended[0] matches Tree::Element(l) && mounts_to(c, l))
            },
            _ => appended.len() == 0,
        },
    }
}

/// Relates a list of descriptions to the list of mounted children produced
/// from it: element descriptions are mounted in order, anything else is
/// passed over and contributes nothing.
pub open spec fn children_mount_to(descs: Seq<Tree>, appended: Seq<Tree>) -> bool
    decreases descs,
{
    if descs.len() == 0 {
        appended.len() == 0
    } else {
        match descs[0] {
            Tree::Element(c) => appended.len() >= 1 && (appended[0] matches Tree::Element(l)
                && mounts_to(c, l)) && children_mount_to(descs.drop_first(), appended.drop_first()),
            _ => children_mount_to(descs.drop_first(), appended),
        }
    }
}

// ---------------------------------------------------------------------------
// Instance counting: how many fresh instances a mount creates.
// ---------------------------------------------------------------------------

pub open spec fn mount_created_count(n: VirtualNode) -> nat
    decreases n,
{
    1 + plan_created_count(n.factory.plan)
}

pub open spec fn plan_created_count(p: RenderPlan) -> nat
    decreases p,
{
    match p {
        RenderPlan::Fails => 0,
        RenderPlan::Renders(out) => match *out {
            Tree::Element(c) => if is_fragment(c.tag@) {
                children_created_count(c.children@)
            } else {
                mount_created_count(c)
            },
            _ => 0,
        },
    }
}

pub open spec fn children_created_count(ts: Seq<Tree>) -> nat
    decreases ts,
{
    if ts.len() == 0 {
        0
    } else {
        (match ts[0] {
            Tree::Element(c) => mount_created_count(c),
            _ => 0,
        }) + children_created_count(ts.drop_first())
    }
}

// ---------------------------------------------------------------------------
// Layout linking: the nearest natively backed descendants of a subtree, as
// (instance identity, layout handle) pairs in depth-first order. A backed
// node ends its branch; an unbacked one is searched through.
// ---------------------------------------------------------------------------

pub open spec fn nearest_backed(n: VirtualNode) -> Seq<(usize, usize)>
    decreases n,
{
    match (n.instance, n.layout_node) {
        (Some(inst), Some(h)) => seq![(inst.id, h)],
        _ => nearest_backed_list(n.children@),
    }
}

/// What one child contributes to the linking walk: element children are
/// searched, anything else contributes nothing.
pub open spec fn nearest_contrib(t: Tree) -> Seq<(usize, usize)>
    decreases t,
{
    match t {
        Tree::Element(c) => nearest_backed(c),
        _ => Seq::<(usize, usize)>::empty(),
    }
}

pub open spec fn nearest_backed_list(ts: Seq<Tree>) -> Seq<(usize, usize)>
    decreases ts,
{
    if ts.len() == 0 {
        Seq::empty()
    } else {
        nearest_contrib(ts[0]) + nearest_backed_list(ts.drop_first())
    }
}

/// The child-view appending notifications that linking a subtree under the
/// given parent instance emits, one per linked descendant, in order.
pub open spec fn appended_events(parent_id: usize, pairs: Seq<(usize, usize)>) -> Seq<Event>
    decreases pairs,
{
    if pairs.len() == 0 {
        Seq::empty()
    } else {
        seq![Event::ViewAppended(parent_id, pairs[0].0)] + appended_events(
            parent_id,
            pairs.drop_first(),
        )
    }
}

/// The layout handles of a list of linked descendants, in order.
pub open spec fn handles_of(pairs: Seq<(usize, usize)>) -> Seq<usize>
    decreases pairs,
{
    if pairs.len() == 0 {
        Seq::empty()
    } else {
        seq![pairs[0].1] + handles_of(pairs.drop_first())
    }
}

/// The handle a linking pass writes through, as an index: the parent's
/// layout handle if it has one, and an index no handle equals otherwise.
pub open spec fn linked_handle(o: Option<usize>) -> int {
    match o {
        Some(h) => h as int,
        None => -1,
    }
}

/// Every layout handle among the pairs is valid in a layout tree of the
/// given size.
pub open spec fn pairs_valid(pairs: Seq<(usize, usize)>, n_handles: nat) -> bool {
    forall|k: int| 0 <= k < pairs.len() ==> (#[trigger] pairs[k]).1 < n_handles
}

// ---------------------------------------------------------------------------
// Reconciliation: faults, and the shape of a reconciled result.
// ---------------------------------------------------------------------------

/// The internal-consistency faults reconciliation refuses to mask: an empty
/// marker standing where a node belongs, or an element that should have been
/// mounted carrying no instance into an in-place update.
pub open spec fn pair_faults(old: Tree, new: Tree) -> bool
    decreases new,
{
    if old is Empty || new is Empty {
        true
    } else if replace_needed(old, new) {
        false
    } else {
        match (old, new) {
            (Tree::Element(o), Tree::Element(n)) => o.instance is None || child_pairs_fault(
                o.children@,
                n.children@,
            ),
            _ => false,
        }
    }
}

pub open spec fn child_pairs_fault(os: Seq<Tree>, ns: Seq<Tree>) -> bool
    decreases ns,
{
    if os.len() == 0 || ns.len() == 0 {
        false
    } else {
        pair_faults(os[0], ns[0]) || child_pairs_fault(os.drop_first(), ns.drop_first())
    }
}

/// Relates an old and a new tree to the reconciled result: on a replace the
/// old subtree is discarded and the new one stands freshly mounted; on an
/// in-place update the old element's instance and layout handle are carried
/// onto the new element and the children are reconciled pairwise by position,
/// surplus new children freshly mounted, text carried as given.
pub open spec fn reconciled(old: Tree, new: Tree, res: Tree) -> bool
    decreases new,
{
    if replace_needed(old, new) {
        match new {
            Tree::Element(n) => res matches Tree::Element(r) && mounts_to(n, r),
            _ => res == new,
        }
    } else {
        match (old, new) {
            (Tree::Element(o), Tree::Element(n)) => res matches Tree::Element(r) && {
                &&& r.tag@ == n.tag@
                &&& r.props == n.props
                &&& r.factory == n.factory
                &&& r.instance == o.instance
                &&& r.layout_node == o.layout_node
                &&& reconciled_children(o.children@, n.children@, r.children@)
            },
            (Tree::Text(_), Tree::Text(_)) => res == new,
            _ => false,
        }
    }
}

pub open spec fn reconciled_children(os: Seq<Tree>, ns: Seq<Tree>, rs: Seq<Tree>) -> bool
    decreases ns,
{
    if ns.len() == 0 {
        rs.len() == 0
    } else if os.len() > 0 {
        rs.len() >= 1 && reconciled(os[0], ns[0], rs[0]) && reconciled_children(
            os.drop_first(),
            ns.drop_first(),
            rs.drop_first(),
        )
    } else {
        children_mount_to(ns, rs)
    }
}

// ---------------------------------------------------------------------------
// Counting what a reconciliation pass creates and tears down.
// ---------------------------------------------------------------------------

pub open spec fn diff_created(old: Tree, new: Tree) -> nat
    decreases new,
{
    if replace_needed(old, new) {
        match new {
            Tree::Element(n) => mount_created_count(n),
            _ => 0,
        }
    } else {
        match (old, new) {
            (Tree::Element(o), Tree::Element(n)) => diff_created_children(
                o.children@,
                n.children@,
            ),
            _ => 0,
        }
    }
}

pub open spec fn diff_created_children(os: Seq<Tree>, ns: Seq<Tree>) -> nat
    decreases ns,
{
    if ns.len() == 0 {
        0
    } else if os.len() > 0 {
        diff_created(os[0], ns[0]) + diff_created_children(os.drop_first(), ns.drop_first())
    } else {
        children_created_count(ns)
    }
}

pub open spec fn diff_torn(old: Tree, new: Tree) -> nat
    decreases old, new,
{
    if replace_needed(old, new) {
        teardown_seq(old).len()
    } else {
        match (old, new) {
            (Tree::Element(o), Tree::Element(n)) => diff_torn_children(o.children@, n.children@),
            _ => 0,
        }
    }
}

pub open spec fn diff_torn_children(os: Seq<Tree>, ns: Seq<Tree>) -> nat
    decreases os, ns,
{
    if os.len() == 0 {
        0
    } else if ns.len() > 0 {
        diff_torn(os[0], ns[0]) + diff_torn_children(os.drop_first(), ns.drop_first())
    } else {
        teardown_list(os).len()
    }
}

/// How many times a reconciliation pass runs the render-cycle update hook:
/// once per in-place element update, except at the synthetic root, which is
/// patched externally. Replaces, fresh mounts and teardowns never run it.
pub open spec fn diff_updated(old: Tree, new: Tree, root: bool) -> nat
    decreases new,
{
    if replace_needed(old, new) {
        0
    } else {
        match (old, new) {
            (Tree::Element(o), Tree::Element(n)) => (if !root && o.instance is Some {
                1nat
            } else {
                0nat
            }) + diff_updated_children(o.children@, n.children@),
            _ => 0,
        }
    }
}

pub open spec fn diff_updated_children(os: Seq<Tree>, ns: Seq<Tree>) -> nat
    decreases ns,
{
    if ns.len() == 0 || os.len() == 0 {
        0
    } else {
        diff_updated(os[0], ns[0], false) + diff_updated_children(
            os.drop_first(),
            ns.drop_first(),
        )
    }
}

// ---------------------------------------------------------------------------
// Event counting.
// ---------------------------------------------------------------------------

pub open spec fn torn_count(es: Seq<Event>) -> nat
    decreases es,
{
    if es.len() == 0 {
        0
    } else {
        (if es[0] is TornDown {
            1nat
        } else {
            0nat
        }) + torn_count(es.drop_first())
    }
}

/// How many update-hook notifications a sequence of events holds.
pub open spec fn updated_count(es: Seq<Event>) -> nat
    decreases es,
{
    if es.len() == 0 {
        0
    } else {
        (if es[0] is Updated {
            1nat
        } else {
            0nat
        }) + updated_count(es.drop_first())
    }
}

// ---------------------------------------------------------------------------
// Layout detachment: what unmounting leaves behind in the layout tree.
// ---------------------------------------------------------------------------

/// Relates two layout arenas between which only child edges were severed:
/// same length, every style and geometry kept, and every node's child list
/// either kept or emptied. Unmounting changes the layout tree in no other
/// way.
pub open spec fn only_severed(pre: Seq<LayoutNodeData>, post: Seq<LayoutNodeData>) -> bool {
    &&& post.len() == pre.len()
    &&& forall|hh: int|
        0 <= hh < pre.len() ==> {
            &&& (#[trigger] post[hh]).style == pre[hh].style
            &&& post[hh].geometry == pre[hh].geometry
            &&& (post[hh].children@ == pre[hh].children@ || post[hh].children@ == Seq::<
                usize,
            >::empty())
        }
}

/// Every layout handle held anywhere in the subtree has all of its child
/// edges severed in the given layout arena.
pub open spec fn subtree_detached(t: Tree, nodes: Seq<LayoutNodeData>) -> bool
    decreases t,
{
    match t {
        Tree::Element(n) => (n.layout_node matches Some(h) ==> nodes[h as int].children@
            == Seq::<usize>::empty()) && subtree_detached_list(n.children@, nodes),
        _ => true,
    }
}

pub open spec fn subtree_detached_list(ts: Seq<Tree>, nodes: Seq<LayoutNodeData>) -> bool
    decreases ts,
{
    if ts.len() == 0 {
        true
    } else {
        subtree_detached(ts[0], nodes) && subtree_detached_list(ts.drop_first(), nodes)
    }
}

// ---------------------------------------------------------------------------
// The style-application walk: the exact events it emits, in pre-order.
// ---------------------------------------------------------------------------

pub open spec fn walk_events_node(n: VirtualNode, n_handles: nat) -> Seq<Event>
    decreases n,
{
    (match (n.layout_node, n.instance) {
        (Some(h), Some(inst)) => if h < n_handles {
            seq![Event::StylesApplied(inst.id)]
        } else {
            seq![Event::StyleLookupFailed(inst.id)]
        },
        _ => Seq::<Event>::empty(),
    }) + walk_events_list(n.children@, n_handles)
}

pub open spec fn walk_events_list(ts: Seq<Tree>, n_handles: nat) -> Seq<Event>
    decreases ts,
{
    if ts.len() == 0 {
        Seq::empty()
    } else {
        (match ts[0] {
            Tree::Element(c) => walk_events_node(c, n_handles),
            _ => Seq::<Event>::empty(),
        }) + walk_events_list(ts.drop_first(), n_handles)
    }
}

} // verus!
