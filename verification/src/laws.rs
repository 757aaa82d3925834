//! The laws the reconciliation core obeys, stated and proved over the same
//! specification functions its contracts use.

use vstd::prelude::*;

use crate::host::Event;
use crate::tree::children_mount_to;
use crate::tree::is_fragment;
use crate::tree::live_node;
use crate::tree::mounts_to;
use crate::tree::diff_updated;
use crate::tree::diff_updated_children;
use crate::tree::reconciled;
use crate::tree::reconciled_children;
use crate::tree::replace_needed;
use crate::tree::teardown_list;
use crate::tree::teardown_seq;
use crate::tree::torn_count;
use crate::tree::RenderPlan;
use crate::tree::Tree;
use crate::tree::VirtualNode;

verus! {

/// How many live instances a subtree holds: the number of teardown
/// notifications its unmount owes.
pub open spec fn live_instance_count(t: Tree) -> nat
    decreases t,
{
    match t {
        Tree::Element(n) => live_instance_count_list(n.children@) + (if n.instance is Some {
            1nat
        } else {
            0nat
        }),
        _ => 0,
    }
}

pub open spec fn live_instance_count_list(ts: Seq<Tree>) -> nat
    decreases ts,
{
    if ts.len() == 0 {
        0
    } else {
        live_instance_count(ts[0]) + live_instance_count_list(ts.drop_first())
    }
}

/// Teardown notifications add up over a concatenation of event sequences.
pub proof fn lemma_torn_count_concat(a: Seq<Event>, b: Seq<Event>)
    ensures
        torn_count(a + b) == torn_count(a) + torn_count(b),
    decreases a.len(),
{
    if a.len() == 0 {
        assert(a + b =~= b);
    } else {
        assert((a + b)[0] == a[0]);
        assert((a + b).drop_first() =~= a.drop_first() + b);
        lemma_torn_count_concat(a.drop_first(), b);
    }
}

/// Identity reuse: reconciling two element nodes of equal tag always carries
/// the old element's instance and layout handle onto the result, by
/// identity.
pub proof fn law_identity_reuse(o: VirtualNode, n: VirtualNode, res: Tree)
    requires
        o.tag@ == n.tag@,
        reconciled(Tree::Element(o), Tree::Element(n), res),
    ensures
        res matches Tree::Element(r) && r.instance == o.instance && r.layout_node
            == o.layout_node,
{
}

/// Tag or kind mismatch forces a replace: the result of reconciling a live
/// element against a differently tagged one never carries the old instance
/// forward — the result's instance is a freshly issued one, distinct from
/// the old by identity.
pub proof fn law_replace_creates_fresh_instance(
    o: VirtualNode,
    n: VirtualNode,
    res: Tree,
    n_instances: nat,
    n_handles: nat,
    fresh_id: usize,
)
    requires
        replace_needed(Tree::Element(o), Tree::Element(n)),
        live_node(o, n_instances, n_handles),
        reconciled(Tree::Element(o), Tree::Element(n), res),
        res matches Tree::Element(rn) && rn.instance matches Some(ri) && ri.id == fresh_id,
        fresh_id >= n_instances,
    ensures
        res matches Tree::Element(rn) && rn.instance is Some && rn.instance != o.instance,
{
    assert(o.instance matches Some(oi) && oi.id < n_instances);
}

/// Positional child matching: a reconciled children list pairs old and new
/// children strictly by index. When the new list is no longer than the old,
/// the result has exactly one entry per new child, each reconciled against
/// the old child in the same position.
pub proof fn law_positional_matching(os: Seq<Tree>, ns: Seq<Tree>, rs: Seq<Tree>)
    requires
        reconciled_children(os, ns, rs),
        ns.len() <= os.len(),
    ensures
        rs.len() == ns.len(),
        forall|i: int| 0 <= i < ns.len() ==> #[trigger] reconciled(os[i], ns[i], rs[i]),
    decreases ns.len(),
{
    if ns.len() == 0 {
        assert(rs.len() == 0);
    } else {
        law_positional_matching(os.drop_first(), ns.drop_first(), rs.drop_first());
        assert forall|i: int| 0 <= i < ns.len() implies #[trigger] reconciled(
            os[i],
            ns[i],
            rs[i],
        ) by {
            if i > 0 {
                assert(reconciled(
                    os.drop_first()[i - 1],
                    ns.drop_first()[i - 1],
                    rs.drop_first()[i - 1],
                ));
            }
        }
    }
}

/// Shrink unmounts each instance exactly as often as it is live: the
/// teardown notifications a subtree's unmount emits number exactly its live
/// instances (and its definition fires them in post-order — every
/// descendant before its ancestor).
pub proof fn law_teardown_counts(t: Tree)
    ensures
        torn_count(teardown_seq(t)) == live_instance_count(t),
    decreases t,
{
    match t {
        Tree::Element(n) => {
            law_teardown_counts_list(n.children@);
            match n.instance {
                Some(i) => {
                    lemma_torn_count_concat(
                        teardown_list(n.children@),
                        seq![Event::TornDown(i.id)],
                    );
                    assert(torn_count(seq![Event::TornDown(i.id)]) == 1) by {
                        assert(seq![Event::TornDown(i.id)][0] == Event::TornDown(i.id));
                        assert(seq![Event::TornDown(i.id)].drop_first() =~= Seq::<
                            Event,
                        >::empty());
                        assert(torn_count(Seq::<Event>::empty()) == 0);
                    }
                },
                None => {
                    lemma_torn_count_concat(teardown_list(n.children@), Seq::empty());
                    assert(teardown_list(n.children@) + Seq::<Event>::empty()
                        =~= teardown_list(n.children@));
                },
            }
        },
        _ => {},
    }
}

pub proof fn law_teardown_counts_list(ts: Seq<Tree>)
    ensures
        torn_count(teardown_list(ts)) == live_instance_count_list(ts),
    decreases ts,
{
    if ts.len() > 0 {
        law_teardown_counts(ts[0]);
        law_teardown_counts_list(ts.drop_first());
        lemma_torn_count_concat(teardown_seq(ts[0]), teardown_list(ts.drop_first()));
    }
}

/// Depth-0 special case: at the synthetic root the update hook never runs —
/// an in-place pass at the root accounts only its children's hook runs,
/// nothing for the root pair itself, whatever instance it carries.
pub proof fn law_root_update_silent(o: VirtualNode, n: VirtualNode)
    requires
        !replace_needed(Tree::Element(o), Tree::Element(n)),
    ensures
        diff_updated(Tree::Element(o), Tree::Element(n), true) == diff_updated_children(
            o.children@,
            n.children@,
        ),
{
}

/// Fragment flattening: when a component's first render produces a fragment,
/// the mounted node acquires exactly the mounted forms of the fragment's
/// element children, in order, and no node stands for the fragment wrapper
/// itself.
pub proof fn law_fragment_flattening(desc: VirtualNode, live: VirtualNode, f: VirtualNode)
    requires
        mounts_to(desc, live),
        desc.factory.plan matches RenderPlan::Renders(out) && *out == Tree::Element(f),
        is_fragment(f.tag@),
    ensures
        children_mount_to(f.children@, live.children@.skip(desc.children@.len() as int)),
{
}

} // verus!
