use std::collections::HashMap;

use alchemy::diff_and_patch_tree;
use alchemy::find_and_link_layout_nodes;
use alchemy::mount_component_tree;
use alchemy::unmount_component_tree;
use alchemy::walk_and_apply_styles;
use alchemy::Event;
use alchemy::Factory;
use alchemy::Host;
use alchemy::Instance;
use alchemy::LayoutError;
use alchemy::Props;
use alchemy::ReconcileError;
use alchemy::RenderPlan;
use alchemy::Tree;
use alchemy::VirtualNode;

fn props() -> Props {
    Props::new(String::new(), Vec::new(), HashMap::new())
}

fn node_with_plan(tag: &str, native: bool, plan: RenderPlan) -> VirtualNode {
    VirtualNode {
        tag: String::from(tag),
        props: props(),
        children: Vec::new(),
        factory: Factory { native_backed: native, plan },
        instance: None,
        layout_node: None,
    }
}

fn leaf(tag: &str, native: bool) -> VirtualNode {
    node_with_plan(tag, native, RenderPlan::Renders(Box::new(Tree::Empty)))
}

fn with_children(mut n: VirtualNode, children: Vec<Tree>) -> VirtualNode {
    n.children = children;
    n
}

fn fragment_of(children: Vec<Tree>) -> RenderPlan {
    RenderPlan::Renders(Box::new(Tree::Element(with_children(leaf("Fragment", false), children))))
}

fn instance_id(n: &VirtualNode) -> usize {
    n.instance.as_ref().expect("node should be mounted").id
}

fn as_element(t: &Tree) -> &VirtualNode {
    match t {
        Tree::Element(n) => n,
        _ => panic!("expected an element node"),
    }
}

fn created_count(events: &[Event]) -> usize {
    events.iter().filter(|e| matches!(e, Event::Created(_))).count()
}

fn torn_down_count(events: &[Event], id: usize) -> usize {
    events.iter().filter(|e| **e == Event::TornDown(id)).count()
}

#[test]
fn identity_reuse_carries_instance_and_handle() {
    let mut host = Host::new();
    let mounted = mount_component_tree(leaf("div", true), &mut host).unwrap();
    let old_id = instance_id(&mounted);
    let old_handle = mounted.layout_node;
    let result =
        diff_and_patch_tree(Tree::Element(mounted), Tree::Element(leaf("div", true)), &mut host, 0)
            .unwrap();
    let updated = as_element(&result);
    assert_eq!(instance_id(updated), old_id);
    assert_eq!(updated.layout_node, old_handle);
}

#[test]
fn tag_mismatch_forces_replace_with_fresh_instance() {
    let mut host = Host::new();
    let mounted = mount_component_tree(leaf("div", true), &mut host).unwrap();
    let old_id = instance_id(&mounted);
    let result =
        diff_and_patch_tree(Tree::Element(mounted), Tree::Element(leaf("span", true)), &mut host, 0)
            .unwrap();
    let replaced = as_element(&result);
    assert_ne!(instance_id(replaced), old_id);
    // the discarded subtree was torn down exactly once
    assert_eq!(torn_down_count(&host.events, old_id), 1);
}

#[test]
fn kind_mismatch_forces_replace() {
    let mut host = Host::new();
    let mounted = mount_component_tree(leaf("div", false), &mut host).unwrap();
    let old_id = instance_id(&mounted);
    let result = diff_and_patch_tree(
        Tree::Element(mounted),
        Tree::Text(String::from("hello")),
        &mut host,
        0,
    )
    .unwrap();
    assert!(matches!(result, Tree::Text(ref s) if s == "hello"));
    assert_eq!(torn_down_count(&host.events, old_id), 1);
}

#[test]
fn positional_matching_carries_prefix_and_trims_tail() {
    let mut host = Host::new();
    let plan = fragment_of(vec![
        Tree::Element(leaf("a", false)),
        Tree::Element(leaf("b", false)),
        Tree::Element(leaf("c", false)),
    ]);
    let parent = mount_component_tree(node_with_plan("list", false, plan), &mut host).unwrap();
    let a_id = instance_id(as_element(&parent.children[0]));
    let b_id = instance_id(as_element(&parent.children[1]));
    let c_id = instance_id(as_element(&parent.children[2]));
    let new_parent = with_children(
        leaf("list", false),
        vec![Tree::Element(leaf("a", false)), Tree::Element(leaf("b", false))],
    );
    let result =
        diff_and_patch_tree(Tree::Element(parent), Tree::Element(new_parent), &mut host, 0)
            .unwrap();
    let updated = as_element(&result);
    assert_eq!(updated.children.len(), 2);
    assert_eq!(instance_id(as_element(&updated.children[0])), a_id);
    assert_eq!(instance_id(as_element(&updated.children[1])), b_id);
    assert_eq!(torn_down_count(&host.events, c_id), 1);
    assert_eq!(torn_down_count(&host.events, a_id), 0);
    assert_eq!(torn_down_count(&host.events, b_id), 0);
}

#[test]
fn growth_mounts_exactly_the_surplus() {
    let mut host = Host::new();
    let plan = fragment_of(vec![Tree::Element(leaf("a", false))]);
    let parent = mount_component_tree(node_with_plan("list", false, plan), &mut host).unwrap();
    let before = created_count(&host.events);
    let new_parent = with_children(
        leaf("list", false),
        vec![
            Tree::Element(leaf("a", false)),
            Tree::Element(leaf("b", false)),
            Tree::Element(leaf("c", false)),
        ],
    );
    let result =
        diff_and_patch_tree(Tree::Element(parent), Tree::Element(new_parent), &mut host, 0)
            .unwrap();
    assert_eq!(as_element(&result).children.len(), 3);
    assert_eq!(created_count(&host.events) - before, 2);
}

#[test]
fn shrink_unmounts_deepest_first() {
    let mut host = Host::new();
    let inner = fragment_of(vec![Tree::Element(leaf("x", false))]);
    let plan = fragment_of(vec![Tree::Element(node_with_plan("wrap", false, inner))]);
    let parent = mount_component_tree(node_with_plan("list", false, plan), &mut host).unwrap();
    let wrap_id = instance_id(as_element(&parent.children[0]));
    let x_id = instance_id(as_element(&as_element(&parent.children[0]).children[0]));
    let new_parent = with_children(leaf("list", false), Vec::new());
    let before = host.events.len();
    diff_and_patch_tree(Tree::Element(parent), Tree::Element(new_parent), &mut host, 0).unwrap();
    let tail: Vec<Event> = host.events[before..].to_vec();
    // the deepest instance goes first, its ancestor after it, each once
    assert_eq!(tail, vec![Event::TornDown(x_id), Event::TornDown(wrap_id)]);
}

#[test]
fn fragment_children_are_hoisted_without_a_wrapper() {
    let mut host = Host::new();
    let plan = fragment_of(vec![
        Tree::Element(leaf("x", false)),
        Tree::Element(leaf("y", false)),
    ]);
    let mounted = mount_component_tree(node_with_plan("panel", false, plan), &mut host).unwrap();
    assert_eq!(mounted.children.len(), 2);
    assert_eq!(as_element(&mounted.children[0]).tag, "x");
    assert_eq!(as_element(&mounted.children[1]).tag, "y");
    assert!(as_element(&mounted.children[0]).instance.is_some());
    assert!(as_element(&mounted.children[1]).instance.is_some());
}

#[test]
fn non_fragment_output_mounts_as_single_child() {
    let mut host = Host::new();
    let plan = RenderPlan::Renders(Box::new(Tree::Element(leaf("inner", false))));
    let mounted = mount_component_tree(node_with_plan("outer", false, plan), &mut host).unwrap();
    assert_eq!(mounted.children.len(), 1);
    assert_eq!(as_element(&mounted.children[0]).tag, "inner");
}

#[test]
fn depth_zero_skips_the_update_hook() {
    let mut host = Host::new();
    let mounted = mount_component_tree(leaf("root", false), &mut host).unwrap();
    let id = instance_id(&mounted);
    diff_and_patch_tree(Tree::Element(mounted), Tree::Element(leaf("root", false)), &mut host, 0)
        .unwrap();
    assert!(!host.events.contains(&Event::Updated(id)));
}

#[test]
fn positive_depth_runs_the_update_hook() {
    let mut host = Host::new();
    let mounted = mount_component_tree(leaf("root", false), &mut host).unwrap();
    let id = instance_id(&mounted);
    diff_and_patch_tree(Tree::Element(mounted), Tree::Element(leaf("root", false)), &mut host, 1)
        .unwrap();
    assert!(host.events.contains(&Event::Updated(id)));
}

#[test]
fn linking_reaches_the_nearest_backed_descendant_only() {
    let mut host = Host::new();
    let parent = mount_component_tree(leaf("window", true), &mut host).unwrap();
    let parent_handle = parent.layout_node.unwrap();
    // the fresh subtree's root is unbacked; the only backed node sits two
    // levels down
    let deep = RenderPlan::Renders(Box::new(Tree::Element(leaf("view", true))));
    let mid = RenderPlan::Renders(Box::new(Tree::Element(node_with_plan("mid", false, deep))));
    let new_parent = with_children(
        leaf("window", true),
        vec![Tree::Element(node_with_plan("wrap", false, mid))],
    );
    let result =
        diff_and_patch_tree(Tree::Element(parent), Tree::Element(new_parent), &mut host, 0)
            .unwrap();
    let updated = as_element(&result);
    let wrap = as_element(&updated.children[0]);
    let mid_el = as_element(&wrap.children[0]);
    let view = as_element(&mid_el.children[0]);
    let view_handle = view.layout_node.unwrap();
    // exactly one edge, from the window to the deep backed view
    let children = &host.layout.nodes[parent_handle].children;
    assert_eq!(children.len(), 1);
    assert_eq!(children[0], view_handle);
    let appends: Vec<&Event> = host
        .events
        .iter()
        .filter(|e| matches!(e, Event::ViewAppended(_, _)))
        .collect();
    assert_eq!(appends.len(), 1);
    assert_eq!(*appends[0], Event::ViewAppended(instance_id(updated), instance_id(view)));
}

#[test]
fn direct_linking_of_a_backed_root_stops_there() {
    let mut host = Host::new();
    let parent = mount_component_tree(leaf("window", true), &mut host).unwrap();
    let child = mount_component_tree(leaf("view", true), &mut host).unwrap();
    let child_handle = child.layout_node.unwrap();
    find_and_link_layout_nodes(&parent, &child, &mut host).unwrap();
    let children = &host.layout.nodes[parent.layout_node.unwrap()].children;
    assert_eq!(children, &vec![child_handle]);
}

#[test]
fn render_failure_is_isolated_to_its_node() {
    let mut host = Host::new();
    let parent = mount_component_tree(leaf("list", false), &mut host).unwrap();
    let new_parent = with_children(
        leaf("list", false),
        vec![
            Tree::Element(node_with_plan("broken", false, RenderPlan::Fails)),
            Tree::Element(leaf("fine", false)),
        ],
    );
    let result =
        diff_and_patch_tree(Tree::Element(parent), Tree::Element(new_parent), &mut host, 0)
            .unwrap();
    let updated = as_element(&result);
    assert_eq!(updated.children.len(), 2);
    let broken = as_element(&updated.children[0]);
    let fine = as_element(&updated.children[1]);
    assert!(broken.instance.is_some());
    assert_eq!(broken.children.len(), 0);
    assert!(fine.instance.is_some());
    assert_eq!(
        torn_down_count(&host.events, instance_id(broken)),
        0
    );
    assert!(host.events.contains(&Event::RenderFailed(instance_id(broken))));
}

#[test]
fn empty_marker_pairing_is_a_fault() {
    let mut host = Host::new();
    let r = diff_and_patch_tree(Tree::Empty, Tree::Empty, &mut host, 0);
    assert!(matches!(r, Err(ReconcileError::UnexpectedEmpty)));
    let r2 = diff_and_patch_tree(Tree::Empty, Tree::Text(String::from("t")), &mut host, 0);
    assert!(matches!(r2, Err(ReconcileError::UnexpectedEmpty)));
}

#[test]
fn update_of_a_never_mounted_element_is_a_fault() {
    let mut host = Host::new();
    let r = diff_and_patch_tree(
        Tree::Element(leaf("div", false)),
        Tree::Element(leaf("div", false)),
        &mut host,
        0,
    );
    assert!(matches!(r, Err(ReconcileError::MissingInstance)));
}

#[test]
fn text_pair_keeps_the_new_text() {
    let mut host = Host::new();
    let r = diff_and_patch_tree(
        Tree::Text(String::from("before")),
        Tree::Text(String::from("after")),
        &mut host,
        0,
    )
    .unwrap();
    assert!(matches!(r, Tree::Text(ref s) if s == "after"));
}

#[test]
fn unmount_fires_teardown_in_post_order() {
    let mut host = Host::new();
    let plan = fragment_of(vec![
        Tree::Element(leaf("x", false)),
        Tree::Element(leaf("y", false)),
    ]);
    let parent = mount_component_tree(node_with_plan("panel", false, plan), &mut host).unwrap();
    let p_id = instance_id(&parent);
    let x_id = instance_id(as_element(&parent.children[0]));
    let y_id = instance_id(as_element(&parent.children[1]));
    let before = host.events.len();
    unmount_component_tree(&parent, &mut host).unwrap();
    let tail: Vec<Event> = host.events[before..].to_vec();
    assert_eq!(
        tail,
        vec![Event::TornDown(x_id), Event::TornDown(y_id), Event::TornDown(p_id)]
    );
}

#[test]
fn style_walk_applies_styles_and_survives_bad_handles() {
    let mut host = Host::new();
    let mounted = mount_component_tree(leaf("view", true), &mut host).unwrap();
    let id = instance_id(&mounted);
    walk_and_apply_styles(&mounted, &mut host);
    assert!(host.events.contains(&Event::StylesApplied(id)));
    // a node whose handle the layout tree does not know is logged and skipped
    let stray = VirtualNode {
        instance: Some(Instance { id: 77, native_backed: true }),
        layout_node: Some(99),
        ..leaf("ghost", true)
    };
    walk_and_apply_styles(&stray, &mut host);
    assert!(host.events.contains(&Event::StyleLookupFailed(77)));
}

#[test]
fn layout_tree_rejects_unknown_handles() {
    let mut host = Host::new();
    assert_eq!(host.layout.add_child(0, 1).unwrap_err(), LayoutError::UnknownNode);
    assert_eq!(host.layout.layout(3).unwrap_err(), LayoutError::UnknownNode);
    assert_eq!(host.layout.clear_children(0).unwrap_err(), LayoutError::UnknownNode);
}

#[test]
fn mounting_resolves_the_declared_style_keys() {
    let mut host = Host::new();
    let mut n = leaf("view", true);
    n.props = Props::new(String::from("k"), vec![7, 8], HashMap::new());
    let mounted = mount_component_tree(n, &mut host).unwrap();
    let handle = mounted.layout_node.unwrap();
    let style = host.layout.style(handle).unwrap();
    assert_eq!(style.applied, vec![7, 8]);
}

#[test]
fn surplus_non_element_children_are_dropped() {
    let mut host = Host::new();
    let parent = mount_component_tree(leaf("list", false), &mut host).unwrap();
    let new_parent = with_children(
        leaf("list", false),
        vec![Tree::Text(String::from("loose")), Tree::Element(leaf("kept", false))],
    );
    let result =
        diff_and_patch_tree(Tree::Element(parent), Tree::Element(new_parent), &mut host, 0)
            .unwrap();
    let updated = as_element(&result);
    assert_eq!(updated.children.len(), 1);
    assert_eq!(as_element(&updated.children[0]).tag, "kept");
}

#[test]
fn nested_fragments_flatten_level_by_level() {
    let mut host = Host::new();
    let inner = fragment_of(vec![
        Tree::Element(leaf("y", false)),
        Tree::Element(leaf("z", false)),
    ]);
    let plan = fragment_of(vec![Tree::Element(node_with_plan("x", false, inner))]);
    let mounted = mount_component_tree(node_with_plan("panel", false, plan), &mut host).unwrap();
    assert_eq!(mounted.children.len(), 1);
    let x = as_element(&mounted.children[0]);
    assert_eq!(x.tag, "x");
    assert_eq!(x.children.len(), 2);
    assert_eq!(as_element(&x.children[0]).tag, "y");
    assert_eq!(as_element(&x.children[1]).tag, "z");
}

#[test]
fn identity_survives_two_successive_passes() {
    let mut host = Host::new();
    let mounted = mount_component_tree(leaf("div", true), &mut host).unwrap();
    let id = instance_id(&mounted);
    let pass_one =
        diff_and_patch_tree(Tree::Element(mounted), Tree::Element(leaf("div", true)), &mut host, 0)
            .unwrap();
    let pass_two =
        diff_and_patch_tree(pass_one, Tree::Element(leaf("div", true)), &mut host, 0).unwrap();
    assert_eq!(instance_id(as_element(&pass_two)), id);
}

#[test]
fn growth_fires_no_teardowns() {
    let mut host = Host::new();
    let parent = mount_component_tree(leaf("list", false), &mut host).unwrap();
    let before = host.events.len();
    let new_parent = with_children(
        leaf("list", false),
        vec![Tree::Element(leaf("a", false)), Tree::Element(leaf("b", false))],
    );
    diff_and_patch_tree(Tree::Element(parent), Tree::Element(new_parent), &mut host, 0).unwrap();
    let teardowns = host.events[before..]
        .iter()
        .filter(|e| matches!(e, Event::TornDown(_)))
        .count();
    assert_eq!(teardowns, 0);
}

#[test]
fn text_pair_touches_nothing() {
    let mut host = Host::new();
    mount_component_tree(leaf("view", true), &mut host).unwrap();
    let events_before = host.events.len();
    let nodes_before = host.layout.nodes.len();
    diff_and_patch_tree(
        Tree::Text(String::from("a")),
        Tree::Text(String::from("b")),
        &mut host,
        0,
    )
    .unwrap();
    assert_eq!(host.events.len(), events_before);
    assert_eq!(host.layout.nodes.len(), nodes_before);
}

#[test]
fn root_hook_is_silent_while_child_hooks_run() {
    let mut host = Host::new();
    let plan = fragment_of(vec![Tree::Element(leaf("a", false))]);
    let parent = mount_component_tree(node_with_plan("list", false, plan), &mut host).unwrap();
    let root_id = instance_id(&parent);
    let child_id = instance_id(as_element(&parent.children[0]));
    let new_parent =
        with_children(leaf("list", false), vec![Tree::Element(leaf("a", false))]);
    diff_and_patch_tree(Tree::Element(parent), Tree::Element(new_parent), &mut host, 0).unwrap();
    assert!(!host.events.contains(&Event::Updated(root_id)));
    assert!(host.events.contains(&Event::Updated(child_id)));
}

#[test]
fn shrink_teardown_tally_is_exact() {
    let mut host = Host::new();
    let plan = fragment_of(vec![
        Tree::Element(leaf("a", false)),
        Tree::Element(leaf("b", false)),
        Tree::Element(leaf("c", false)),
    ]);
    let parent = mount_component_tree(node_with_plan("list", false, plan), &mut host).unwrap();
    let before = host.events.len();
    let new_parent =
        with_children(leaf("list", false), vec![Tree::Element(leaf("a", false))]);
    diff_and_patch_tree(Tree::Element(parent), Tree::Element(new_parent), &mut host, 0).unwrap();
    let teardowns = host.events[before..]
        .iter()
        .filter(|e| matches!(e, Event::TornDown(_)))
        .count();
    assert_eq!(teardowns, 2);
}

#[test]
fn unmount_severs_the_layout_linkage() {
    let mut host = Host::new();
    let parent = mount_component_tree(leaf("window", true), &mut host).unwrap();
    let child = mount_component_tree(leaf("view", true), &mut host).unwrap();
    let parent_handle = parent.layout_node.unwrap();
    find_and_link_layout_nodes(&parent, &child, &mut host).unwrap();
    assert_eq!(host.layout.nodes[parent_handle].children.len(), 1);
    unmount_component_tree(&parent, &mut host).unwrap();
    assert_eq!(host.layout.nodes[parent_handle].children.len(), 0);
    // the arena itself keeps its nodes; only the edges are severed
    assert_eq!(host.layout.nodes.len(), 2);
}
