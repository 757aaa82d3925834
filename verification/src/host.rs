//! The collaborators a reconciliation pass drives, bundled into one mutable
//! context: the layout tree, the issue of component-instance identities, and
//! the observability channel on which lifecycle notifications are recorded.

use vstd::prelude::*;

use crate::layout::LayoutTree;
use crate::tree::Instance;

verus! {

/// A lifecycle notification recorded on the host's observability channel.
#[derive(Clone, Copy, Debug, PartialEq, Eq, Structural)]
pub enum Event {
    /// A component instance was created, with this identity.
    Created(usize),
    /// The render-cycle update hook ran for this instance.
    Updated(usize),
    /// This instance's render step failed; it mounted with no children.
    RenderFailed(usize),
    /// The first instance appended the second's native view as a child view.
    ViewAppended(usize, usize),
    /// This instance received its teardown notification.
    TornDown(usize),
    /// Computed geometry and style were pushed into this instance.
    StylesApplied(usize),
    /// Geometry or style could not be fetched for this instance's handle.
    StyleLookupFailed(usize),
}

/// The mutable context of a reconciliation pass: the layout tree, the record
/// of issued instance identities (each entry keeps the instance's
/// native-backing capability), and the event log.
pub struct Host {
    pub layout: LayoutTree,
    pub instances: Vec<bool>,
    pub events: Vec<Event>,
}

impl Host {
    /// A host with an empty layout tree, no instances and no events.
    pub fn new() -> (r: Host)
        ensures
            r.layout.nodes@.len() == 0,
            r.instances@.len() == 0,
            r.events@ == Seq::<Event>::empty(),
    {
        Host { layout: LayoutTree::new(), instances: Vec::new(), events: Vec::new() }
    }

    /// Creates a component instance through the factory capability: a fresh
    /// identity is issued and the creation is recorded.
    pub fn create_instance(&mut self, native_backed: bool) -> (inst: Instance)
        ensures
            inst.id == old(self).instances@.len(),
            inst.native_backed == native_backed,
            final(self).instances@ == old(self).instances@.push(native_backed),
            final(self).events@ == old(self).events@.push(Event::Created(inst.id)),
            final(self).layout == old(self).layout,
    {
        let id = self.instances.len();
        self.instances.push(native_backed);
        self.events.push(Event::Created(id));
        Instance { id, native_backed }
    }

    /// Records that the render-cycle update hook ran for an instance.
    pub fn record_update(&mut self, id: usize)
        ensures
            final(self).events@ == old(self).events@.push(Event::Updated(id)),
            final(self).instances@ == old(self).instances@,
            final(self).layout == old(self).layout,
    {
        self.events.push(Event::Updated(id));
    }

    /// Records a render failure; the failing component mounts childless and
    /// its siblings are unaffected.
    pub fn record_render_failure(&mut self, id: usize)
        ensures
            final(self).events@ == old(self).events@.push(Event::RenderFailed(id)),
            final(self).instances@ == old(self).instances@,
            final(self).layout == old(self).layout,
    {
        self.events.push(Event::RenderFailed(id));
    }

    /// Records that a parent instance appended a child instance's native view
    /// as a child view.
    pub fn record_view_append(&mut self, parent: usize, child: usize)
        ensures
            final(self).events@ == old(self).events@.push(Event::ViewAppended(parent, child)),
            final(self).instances@ == old(self).instances@,
            final(self).layout == old(self).layout,
    {
        self.events.push(Event::ViewAppended(parent, child));
    }

    /// Fires the teardown notification for an instance; after this the
    /// instance is never rendered, styled or layout-applied again.
    pub fn record_teardown(&mut self, id: usize)
        ensures
            final(self).events@ == old(self).events@.push(Event::TornDown(id)),
            final(self).instances@ == old(self).instances@,
            final(self).layout == old(self).layout,
    {
        self.events.push(Event::TornDown(id));
    }

    /// Records that computed geometry and style were pushed into an instance
    /// through its style-application capability.
    pub fn record_styles_applied(&mut self, id: usize)
        ensures
            final(self).events@ == old(self).events@.push(Event::StylesApplied(id)),
            final(self).instances@ == old(self).instances@,
            final(self).layout == old(self).layout,
    {
        self.events.push(Event::StylesApplied(id));
    }

    /// Records a failed geometry or style fetch during the style walk; the
    /// walk continues past it.
    pub fn record_style_lookup_failure(&mut self, id: usize)
        ensures
            final(self).events@ == old(self).events@.push(Event::StyleLookupFailed(id)),
            final(self).instances@ == old(self).instances@,
            final(self).layout == old(self).layout,
    {
        self.events.push(Event::StyleLookupFailed(id));
    }
}

} // verus!
