//! Reconciliation core of a declarative UI framework: diffing an old and a
//! new virtual tree, mounting and unmounting component subtrees, and keeping
//! a parallel layout tree structurally consistent with the component tree.

pub mod host;
pub mod laws;
pub mod layout;
pub mod props;
pub mod reconciler;
pub mod tree;

pub use host::Event;
pub use host::Host;
pub use layout::Layout;
pub use layout::LayoutError;
pub use layout::LayoutTree;
pub use layout::Style;
pub use layout::StylesList;
pub use props::AttributeType;
pub use props::Props;
pub use reconciler::configure_styles;
pub use reconciler::diff_and_patch_tree;
pub use reconciler::find_and_link_layout_nodes;
pub use reconciler::mount_component_tree;
pub use reconciler::unmount_component_tree;
pub use reconciler::walk_and_apply_styles;
pub use reconciler::ReconcileError;
pub use tree::Factory;
pub use tree::Instance;
pub use tree::RenderPlan;
pub use tree::Tree;
pub use tree::VirtualNode;
