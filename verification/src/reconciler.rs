//! Tree diffing and patching: walks an old and a new virtual tree in
//! lock-step, reuses component instances wherever the node identity allows
//! it, mounts newly appearing subtrees, unmounts disappearing ones, and keeps
//! the layout tree structurally consistent with the component tree.

use vstd::prelude::*;

use crate::host::Event;
use crate::host::Host;
use crate::laws::lemma_torn_count_concat;
use crate::layout::LayoutError;
use crate::layout::LayoutNodeData;
use crate::layout::Style;
use crate::layout::StylesList;
use crate::tree::appended_events;
use crate::tree::children_created_count;
use crate::tree::children_mount_to;
use crate::tree::described_child;
use crate::tree::described_children;
use crate::tree::described_node;
use crate::tree::described_plan;
use crate::tree::detach_ok;
use crate::tree::detach_ok_list;
use crate::tree::handles_of;
use crate::tree::mount_created_count;
use crate::tree::mounts_to;
use crate::tree::nearest_backed;
use crate::tree::nearest_backed_list;
use crate::tree::nearest_contrib;
use crate::tree::only_severed;
use crate::tree::subtree_detached;
use crate::tree::subtree_detached_list;
use crate::tree::torn_count;
use crate::tree::updated_count;
use crate::tree::diff_torn;
use crate::tree::diff_torn_children;
use crate::tree::diff_updated;
use crate::tree::diff_updated_children;
use crate::tree::linked_handle;
use crate::tree::pairs_valid;
use crate::tree::reconciled;
use crate::tree::reconciled_children;
use crate::tree::diff_created;
use crate::tree::diff_created_children;
use crate::tree::pair_faults;
use crate::tree::child_pairs_fault;
use crate::tree::replace_needed;
use crate::tree::live_child;
use crate::tree::live_children;
use crate::tree::live_node;
use crate::tree::teardown_list;
use crate::tree::teardown_seq;
use crate::tree::walk_events_list;
use crate::tree::walk_events_node;
use crate::tree::Factory;
use crate::tree::RenderPlan;
use crate::tree::Tree;
use crate::tree::VirtualNode;

verus! {

/// A failure of a reconciliation pass. Layout-engine failures during
/// structural mutation abort the pass; the two internal-consistency faults
/// are made loud rather than masked: an empty marker standing where a node
/// belongs, and a missing instance on a node that an in-place update
/// requires to have been mounted.
#[derive(Clone, Copy, Debug, PartialEq, Eq, Structural)]
pub enum ReconcileError {
    Layout(LayoutError),
    MissingInstance,
    UnexpectedEmpty,
}

/// A list of trees is detachable exactly when each of its members is.
pub proof fn lemma_detach_ok_list_snoc(ts: Seq<Tree>, t: Tree, n_handles: nat)
    ensures
        detach_ok_list(ts.push(t), n_handles) == (detach_ok_list(ts, n_handles) && detach_ok(
            t,
            n_handles,
        )),
    decreases ts.len(),
{
    if ts.len() == 0 {
        assert(ts.push(t)[0] == t);
        assert(ts.push(t).drop_first() =~= Seq::<Tree>::empty());
        assert(detach_ok_list(Seq::<Tree>::empty(), n_handles));
        assert(detach_ok_list(ts.push(t), n_handles) == (detach_ok(t, n_handles)
            && detach_ok_list(ts.push(t).drop_first(), n_handles)));
    } else {
        assert(ts.push(t)[0] == ts[0]);
        assert(ts.push(t).drop_first() =~= ts.drop_first().push(t));
        lemma_detach_ok_list_snoc(ts.drop_first(), t, n_handles);
        assert(detach_ok_list(ts.push(t), n_handles) == (detach_ok(ts[0], n_handles)
            && detach_ok_list(ts.push(t).drop_first(), n_handles)));
    }
}

/// A member of a detachable list is detachable.
pub proof fn lemma_detach_ok_list_index(ts: Seq<Tree>, i: int, n_handles: nat)
    requires
        detach_ok_list(ts, n_handles),
        0 <= i < ts.len(),
    ensures
        detach_ok(ts[i], n_handles),
    decreases ts.len(),
{
    if i > 0 {
        lemma_detach_ok_list_index(ts.drop_first(), i - 1, n_handles);
    }
}

/// Only-severing steps compose.
pub proof fn lemma_only_severed_trans(
    a: Seq<LayoutNodeData>,
    b: Seq<LayoutNodeData>,
    c: Seq<LayoutNodeData>,
)
    requires
        only_severed(a, b),
        only_severed(b, c),
    ensures
        only_severed(a, c),
{
}

/// Nothing was severed between an arena and itself.
pub proof fn lemma_only_severed_refl(a: Seq<LayoutNodeData>)
    ensures
        only_severed(a, a),
{
}

/// A subtree whose handles are all severed stays severed across a step that
/// only severs further edges.
pub proof fn lemma_detached_preserved(
    t: Tree,
    pre: Seq<LayoutNodeData>,
    post: Seq<LayoutNodeData>,
)
    requires
        subtree_detached(t, pre),
        detach_ok(t, pre.len()),
        only_severed(pre, post),
    ensures
        subtree_detached(t, post),
    decreases t,
{
    match t {
        Tree::Element(n) => {
            lemma_detached_list_preserved(n.children@, pre, post);
        },
        _ => {},
    }
}

pub proof fn lemma_detached_list_preserved(
    ts: Seq<Tree>,
    pre: Seq<LayoutNodeData>,
    post: Seq<LayoutNodeData>,
)
    requires
        subtree_detached_list(ts, pre),
        detach_ok_list(ts, pre.len()),
        only_severed(pre, post),
    ensures
        subtree_detached_list(ts, post),
    decreases ts,
{
    if ts.len() > 0 {
        lemma_detached_preserved(ts[0], pre, post);
        lemma_detached_list_preserved(ts.drop_first(), pre, post);
    }
}

/// A list of subtrees is detached exactly when each of its members is.
pub proof fn lemma_detached_list_snoc(ts: Seq<Tree>, t: Tree, nodes: Seq<LayoutNodeData>)
    ensures
        subtree_detached_list(ts.push(t), nodes) == (subtree_detached_list(ts, nodes)
            && subtree_detached(t, nodes)),
    decreases ts.len(),
{
    if ts.len() == 0 {
        assert(ts.push(t)[0] == t);
        assert(ts.push(t).drop_first() =~= Seq::<Tree>::empty());
        assert(subtree_detached_list(Seq::<Tree>::empty(), nodes));
        assert(subtree_detached_list(ts.push(t), nodes) == (subtree_detached(t, nodes)
            && subtree_detached_list(ts.push(t).drop_first(), nodes)));
    } else {
        assert(ts.push(t)[0] == ts[0]);
        assert(ts.push(t).drop_first() =~= ts.drop_first().push(t));
        lemma_detached_list_snoc(ts.drop_first(), t, nodes);
        assert(subtree_detached_list(ts.push(t), nodes) == (subtree_detached(ts[0], nodes)
            && subtree_detached_list(ts.push(t).drop_first(), nodes)));
    }
}

/// Update-hook notifications add up over a concatenation of event sequences.
pub proof fn lemma_updated_count_concat(a: Seq<Event>, b: Seq<Event>)
    ensures
        updated_count(a + b) == updated_count(a) + updated_count(b),
    decreases a.len(),
{
    if a.len() == 0 {
        assert(a + b =~= b);
    } else {
        assert((a + b)[0] == a[0]);
        assert((a + b).drop_first() =~= a.drop_first() + b);
        lemma_updated_count_concat(a.drop_first(), b);
    }
}

/// The teardown and update-hook tallies of a single event.
pub proof fn lemma_counts_singleton(e: Event)
    ensures
        torn_count(seq![e]) == (if e is TornDown {
            1nat
        } else {
            0nat
        }),
        updated_count(seq![e]) == (if e is Updated {
            1nat
        } else {
            0nat
        }),
{
    assert(seq![e][0] == e);
    assert(seq![e].drop_first() =~= Seq::<Event>::empty());
    assert(torn_count(Seq::<Event>::empty()) == 0);
    assert(updated_count(Seq::<Event>::empty()) == 0);
}

/// Every notification an unmount emits is a teardown: the sequence tallies
/// its own length in teardowns and no hook runs.
pub proof fn lemma_teardown_seq_counts(t: Tree)
    ensures
        torn_count(teardown_seq(t)) == teardown_seq(t).len(),
        updated_count(teardown_seq(t)) == 0,
    decreases t,
{
    match t {
        Tree::Element(n) => {
            lemma_teardown_list_counts(n.children@);
            match n.instance {
                Some(inst) => {
                    lemma_torn_count_concat(
                        teardown_list(n.children@),
                        seq![Event::TornDown(inst.id)],
                    );
                    lemma_updated_count_concat(
                        teardown_list(n.children@),
                        seq![Event::TornDown(inst.id)],
                    );
                    lemma_counts_singleton(Event::TornDown(inst.id));
                },
                None => {
                    assert(teardown_list(n.children@) + Seq::<Event>::empty()
                        =~= teardown_list(n.children@));
                },
            }
        },
        _ => {},
    }
}

pub proof fn lemma_teardown_list_counts(ts: Seq<Tree>)
    ensures
        torn_count(teardown_list(ts)) == teardown_list(ts).len(),
        updated_count(teardown_list(ts)) == 0,
    decreases ts,
{
    if ts.len() > 0 {
        lemma_teardown_seq_counts(ts[0]);
        lemma_teardown_list_counts(ts.drop_first());
        lemma_torn_count_concat(teardown_seq(ts[0]), teardown_list(ts.drop_first()));
        lemma_updated_count_concat(teardown_seq(ts[0]), teardown_list(ts.drop_first()));
    }
}

/// Linking emits only view-append notifications: no teardown and no hook
/// run is among them.
pub proof fn lemma_appended_events_counts(pid: usize, pairs: Seq<(usize, usize)>)
    ensures
        torn_count(appended_events(pid, pairs)) == 0,
        updated_count(appended_events(pid, pairs)) == 0,
    decreases pairs.len(),
{
    if pairs.len() > 0 {
        lemma_appended_events_counts(pid, pairs.drop_first());
        lemma_torn_count_concat(
            seq![Event::ViewAppended(pid, pairs[0].0)],
            appended_events(pid, pairs.drop_first()),
        );
        lemma_updated_count_concat(
            seq![Event::ViewAppended(pid, pairs[0].0)],
            appended_events(pid, pairs.drop_first()),
        );
        lemma_counts_singleton(Event::ViewAppended(pid, pairs[0].0));
    }
}

/// Appending one more tree to a list appends its teardown notifications to
/// the list's.
pub proof fn lemma_teardown_list_snoc(ts: Seq<Tree>, t: Tree)
    ensures
        teardown_list(ts.push(t)) == teardown_list(ts) + teardown_seq(t),
    decreases ts.len(),
{
    if ts.len() == 0 {
        assert(ts.push(t)[0] == t);
        assert(ts.push(t).drop_first() =~= Seq::<Tree>::empty());
        assert(teardown_list(ts.push(t)) == teardown_seq(t) + teardown_list(
            Seq::<Tree>::empty(),
        ));
        assert(teardown_list(ts.push(t)) =~= teardown_list(ts) + teardown_seq(t));
    } else {
        assert(ts.push(t)[0] == ts[0]);
        assert(ts.push(t).drop_first() =~= ts.drop_first().push(t));
        lemma_teardown_list_snoc(ts.drop_first(), t);
        assert(teardown_list(ts.push(t)) =~= teardown_list(ts) + teardown_seq(t));
    }
}

/// A sequence is a prefix of itself extended by anything.
pub proof fn lemma_concat_prefix<A>(a: Seq<A>, b: Seq<A>)
    ensures
        a.is_prefix_of(a + b),
{
    assert((a + b).subrange(0, a.len() as int) =~= a);
}

/// A sequence is a suffix of anything extended by it.
pub proof fn lemma_concat_suffix<A>(a: Seq<A>, b: Seq<A>)
    ensures
        b.is_suffix_of(a + b),
{
    assert((a + b).subrange(a.len() as int, (a + b).len() as int) =~= b);
}

/// The appending notifications of a concatenation are the concatenation of
/// the appending notifications.
pub proof fn lemma_appended_events_concat(pid: usize, a: Seq<(usize, usize)>, b: Seq<
    (usize, usize),
>)
    ensures
        appended_events(pid, a + b) == appended_events(pid, a) + appended_events(pid, b),
    decreases a.len(),
{
    if a.len() == 0 {
        assert(a + b =~= b);
        assert(appended_events(pid, a) + appended_events(pid, b) =~= appended_events(pid, b));
    } else {
        assert((a + b)[0] == a[0]);
        assert((a + b).drop_first() =~= a.drop_first() + b);
        lemma_appended_events_concat(pid, a.drop_first(), b);
        assert(appended_events(pid, a + b) =~= appended_events(pid, a) + appended_events(
            pid,
            b,
        ));
    }
}

/// The handles of a concatenation are the concatenation of the handles.
pub proof fn lemma_handles_of_concat(a: Seq<(usize, usize)>, b: Seq<(usize, usize)>)
    ensures
        handles_of(a + b) == handles_of(a) + handles_of(b),
    decreases a.len(),
{
    if a.len() == 0 {
        assert(a + b =~= b);
        assert(handles_of(a) + handles_of(b) =~= handles_of(b));
    } else {
        assert((a + b)[0] == a[0]);
        assert((a + b).drop_first() =~= a.drop_first() + b);
        lemma_handles_of_concat(a.drop_first(), b);
        assert(handles_of(a + b) =~= handles_of(a) + handles_of(b));
    }
}

/// A concatenation's handles are all valid exactly when each part's are.
pub proof fn lemma_pairs_valid_concat(a: Seq<(usize, usize)>, b: Seq<(usize, usize)>, n: nat)
    ensures
        pairs_valid(a + b, n) <==> (pairs_valid(a, n) && pairs_valid(b, n)),
{
    if pairs_valid(a + b, n) {
        assert forall|k: int| 0 <= k < a.len() implies (#[trigger] a[k]).1 < n by {
            assert((a + b)[k] == a[k]);
        }
        assert forall|k: int| 0 <= k < b.len() implies (#[trigger] b[k]).1 < n by {
            assert((a + b)[k + a.len()] == b[k]);
        }
    }
    if pairs_valid(a, n) && pairs_valid(b, n) {
        assert forall|k: int| 0 <= k < (a + b).len() implies (#[trigger] (a + b)[k]).1 < n by {
            if k < a.len() {
                assert((a + b)[k] == a[k]);
            } else {
                assert((a + b)[k] == b[k - a.len()]);
            }
        }
    }
}

/// Given a parent element node and a freshly mounted subtree, finds the
/// nearest natively backed descendants of the subtree — stopping at the
/// subtree's own root if it is backed itself — and, for each one found,
/// registers a layout parent/child edge under the parent's handle and asks
/// the parent instance to append the descendant's native view as a child
/// view. A subtree with no backed descendant links nothing; a parent without
/// an instance or a handle links nothing.
pub fn find_and_link_layout_nodes(
    parent_node: &VirtualNode,
    child_tree: &VirtualNode,
    host: &mut Host,
) -> (r: Result<(), ReconcileError>)
    ensures
        final(host).instances@ == old(host).instances@,
        final(host).layout.nodes@.len() == old(host).layout.nodes@.len(),
        old(host).events@.is_prefix_of(final(host).events@),
        r matches Err(e) ==> e is Layout,
        forall|k: int|
            0 <= k < old(host).layout.nodes@.len() && k != linked_handle(
                parent_node.layout_node,
            ) ==> final(host).layout.nodes@[k] == old(host).layout.nodes@[k],
        !(parent_node.instance is Some && parent_node.layout_node is Some) ==> (r is Ok
            && *final(host) == *old(host)),
        parent_node.instance matches Some(pi) ==> parent_node.layout_node matches Some(ph) ==> {
            let pairs = nearest_backed(*child_tree);
            let n = old(host).layout.nodes@.len();
            &&& (r is Ok <==> (pairs_valid(pairs, n) && (pairs.len() > 0 ==> ph < n)))
            &&& (r is Ok ==> final(host).events@ == old(host).events@ + appended_events(
                pi.id,
                pairs,
            ))
            &&& (r is Ok && ph < n ==> final(host).layout.nodes@[ph as int].children@ == old(
                host,
            ).layout.nodes@[ph as int].children@ + handles_of(pairs))
            &&& (ph < n ==> {
                &&& final(host).layout.nodes@[ph as int].style == old(
                    host,
                ).layout.nodes@[ph as int].style
                &&& final(host).layout.nodes@[ph as int].geometry == old(
                    host,
                ).layout.nodes@[ph as int].geometry
                &&& forall|k: int|
                    0 <= k < n && k != ph ==> final(host).layout.nodes@[k] == old(
                        host,
                    ).layout.nodes@[k]
            })
            &&& (!(ph < n) ==> final(host).layout.nodes@ == old(host).layout.nodes@)
        },
    decreases *child_tree,
{
    let (pid, ph): (usize, usize) = match (&parent_node.instance, &parent_node.layout_node) {
        (Some(pi), Some(h)) => (pi.id, *h),
        _ => {
            return Ok(());
        },
    };
    let ghost n = host.layout.nodes@.len();
    match (&child_tree.instance, &child_tree.layout_node) {
        (Some(ci), Some(ch)) => {
            let ghost pairs = nearest_backed(*child_tree);
            proof {
                assert(pairs =~= seq![(ci.id, *ch)]);
            }
            match host.layout.add_child(ph, *ch) {
                Ok(()) => {},
                Err(e) => {
                    proof {
                        if *ch >= n {
                            assert(pairs[0].1 == *ch);
                            assert(!pairs_valid(pairs, n));
                        } else {
                            assert(!(ph < n));
                            assert(pairs.len() > 0);
                        }
                    }
                    return Err(ReconcileError::Layout(e));
                },
            }
            host.record_view_append(pid, ci.id);
            proof {
                assert(pairs.len() == 1);
                assert(pairs[0] == (ci.id, *ch));
                assert(pairs.drop_first() =~= Seq::<(usize, usize)>::empty());
                assert(appended_events(pid, pairs.drop_first()) =~= Seq::<Event>::empty());
                assert(handles_of(pairs.drop_first()) =~= Seq::<usize>::empty());
                assert(appended_events(pid, pairs) =~= seq![Event::ViewAppended(pid, ci.id)]);
                assert(handles_of(pairs) =~= seq![*ch]);
                assert(host.events@ =~= old(host).events@ + appended_events(pid, pairs));
                assert(host.layout.nodes@[ph as int].children@ =~= old(
                    host,
                ).layout.nodes@[ph as int].children@ + handles_of(pairs));
                assert(pairs_valid(pairs, n));
                lemma_concat_prefix(old(host).events@, appended_events(pid, pairs));
            }
            return Ok(());
        },
        _ => {},
    }
    let ghost pairs_total = nearest_backed(*child_tree);
    proof {
        assert(pairs_total == nearest_backed_list(child_tree.children@));
    }
    let ghost mut done: Seq<(usize, usize)> = Seq::empty();
    let mut i: usize = 0;
    proof {
        assert(appended_events(pid, done) =~= Seq::<Event>::empty());
        assert(handles_of(done) =~= Seq::<usize>::empty());
        assert(host.events@ =~= old(host).events@ + appended_events(pid, done));
        assert(child_tree.children@.skip(0) =~= child_tree.children@);
    }
    while i < child_tree.children.len()
        invariant
            i <= child_tree.children@.len(),
            host.instances@ == old(host).instances@,
            host.layout.nodes@.len() == n,
            n == old(host).layout.nodes@.len(),
            pairs_total == nearest_backed(*child_tree),
            pairs_total == done + nearest_backed_list(child_tree.children@.skip(i as int)),
            host.events@ == old(host).events@ + appended_events(pid, done),
            pairs_valid(done, n),
            done.len() > 0 ==> ph < n,
            ph < n ==> host.layout.nodes@[ph as int].children@ == old(
                host,
            ).layout.nodes@[ph as int].children@ + handles_of(done),
            ph < n ==> host.layout.nodes@[ph as int].style == old(
                host,
            ).layout.nodes@[ph as int].style,
            ph < n ==> host.layout.nodes@[ph as int].geometry == old(
                host,
            ).layout.nodes@[ph as int].geometry,
            forall|k: int|
                0 <= k < n && k != ph ==> host.layout.nodes@[k] == old(host).layout.nodes@[k],
            !(ph < n) ==> host.layout.nodes@ == old(host).layout.nodes@,
            parent_node.instance matches Some(pi) && pi.id == pid,
            parent_node.layout_node == Some(ph),
        decreases child_tree.children@.len() - i,
    {
        let ghost remaining = child_tree.children@.skip(i as int);
        proof {
            assert(remaining[0] == child_tree.children@[i as int]);
            assert(remaining.drop_first() =~= child_tree.children@.skip(i + 1 as int));
            assert(nearest_backed_list(remaining) == nearest_contrib(remaining[0])
                + nearest_backed_list(child_tree.children@.skip(i + 1 as int)));
        }
        match &child_tree.children[i] {
            Tree::Element(c) => {
                let ghost pc = nearest_backed(*c);
                proof {
                    assert(nearest_contrib(child_tree.children@[i as int]) == pc);
                }
                match find_and_link_layout_nodes(parent_node, c, host) {
                    Ok(()) => {
                        proof {
                            lemma_appended_events_concat(pid, done, pc);
                            lemma_handles_of_concat(done, pc);
                            lemma_pairs_valid_concat(done, pc, n);
                            assert(host.events@ =~= old(host).events@ + appended_events(
                                pid,
                                done + pc,
                            ));
                            if pc.len() > 0 {
                                assert(ph < n);
                            }
                            if ph < n {
                                assert(host.layout.nodes@[ph as int].children@ =~= old(
                                    host,
                                ).layout.nodes@[ph as int].children@ + handles_of(done + pc));
                            }
                            done = done + pc;
                            assert(pairs_total =~= done + nearest_backed_list(
                                child_tree.children@.skip(i + 1 as int),
                            ));
                        }
                    },
                    Err(e) => {
                        proof {
                            lemma_pairs_valid_concat(
                                pc,
                                nearest_backed_list(child_tree.children@.skip(i + 1 as int)),
                                n,
                            );
                            lemma_pairs_valid_concat(
                                done,
                                pc + nearest_backed_list(child_tree.children@.skip(i + 1 as int)),
                                n,
                            );
                            assert(pairs_total =~= done + (pc + nearest_backed_list(
                                child_tree.children@.skip(i + 1 as int),
                            )));
                            if !pairs_valid(pc, n) {
                                assert(!pairs_valid(pairs_total, n));
                            } else {
                                assert(pc.len() > 0 && !(ph < n));
                                assert(pairs_total.len() >= pc.len());
                            }
                        }
                        return Err(e);
                    },
                }
            },
            _ => {
                proof {
                    assert(nearest_contrib(child_tree.children@[i as int]) =~= Seq::<
                        (usize, usize),
                    >::empty());
                    assert(done + nearest_contrib(child_tree.children@[i as int]) =~= done);
                }
            },
        }
        i += 1;
    }
    proof {
        assert(child_tree.children@.skip(i as int) =~= Seq::<Tree>::empty());
        assert(pairs_total =~= done);
        lemma_concat_prefix(old(host).events@, appended_events(pid, done));
        if !(ph < n) {
            assert(host.events@ =~= old(host).events@ + appended_events(pid, pairs_total));
        }
    }
    Ok(())
}

/// Resolves a list of style keys onto a style record for the upcoming layout
/// pass: each key is applied to the record in order.
pub fn configure_styles(style_keys: &StylesList, style: &mut Style)
    ensures
        final(style).applied@ == old(style).applied@ + style_keys@,
{
    let mut i: usize = 0;
    while i < style_keys.len()
        invariant
            i <= style_keys@.len(),
            style.applied@ == old(style).applied@ + style_keys@.subrange(0, i as int),
        decreases style_keys@.len() - i,
    {
        style.applied.push(style_keys[i]);
        proof {
            assert(style.applied@ =~= old(style).applied@ + style_keys@.subrange(
                0,
                i + 1 as int,
            ));
        }
        i += 1;
    }
    proof {
        assert(style.applied@ =~= old(style).applied@ + style_keys@);
    }
}

/// Mounting one more description appends its mounted form (or nothing, for
/// a non-element description) to the mounted children.
pub proof fn lemma_children_mount_to_snoc(
    descs: Seq<Tree>,
    appended: Seq<Tree>,
    d: Tree,
    extra: Seq<Tree>,
)
    requires
        children_mount_to(descs, appended),
        match d {
            Tree::Element(c) => extra.len() == 1 && (extra[0] matches Tree::Element(m)
                && mounts_to(c, m)),
            _ => extra.len() == 0,
        },
    ensures
        children_mount_to(descs.push(d), appended + extra),
    decreases descs.len(),
{
    if descs.len() == 0 {
        assert(appended.len() == 0);
        assert(appended + extra =~= extra);
        assert(descs.push(d)[0] == d);
        assert(descs.push(d).drop_first() =~= Seq::<Tree>::empty());
        match d {
            Tree::Element(c) => {
                assert((appended + extra)[0] == extra[0]);
                assert((appended + extra).drop_first() =~= Seq::<Tree>::empty());
                assert(children_mount_to(descs.push(d).drop_first(), (appended
                    + extra).drop_first()));
                assert(children_mount_to(descs.push(d), appended + extra));
            },
            _ => {
                assert(children_mount_to(descs.push(d).drop_first(), appended + extra));
                assert(children_mount_to(descs.push(d), appended + extra));
            },
        }
    } else {
        assert(descs.push(d)[0] == descs[0]);
        assert(descs.push(d).drop_first() =~= descs.drop_first().push(d));
        match descs[0] {
            Tree::Element(c) => {
                assert((appended + extra)[0] == appended[0]);
                assert((appended + extra).drop_first() =~= appended.drop_first() + extra);
                lemma_children_mount_to_snoc(descs.drop_first(), appended.drop_first(), d, extra);
                assert(children_mount_to(descs.push(d), appended + extra));
            },
            _ => {
                lemma_children_mount_to_snoc(descs.drop_first(), appended, d, extra);
                assert(children_mount_to(descs.push(d), appended + extra));
            },
        }
    }
}

/// One more description adds its own mount count to a list's.
pub proof fn lemma_children_created_snoc(ts: Seq<Tree>, t: Tree)
    ensures
        children_created_count(ts.push(t)) == children_created_count(ts) + (match t {
            Tree::Element(c) => mount_created_count(c),
            _ => 0nat,
        }),
    decreases ts.len(),
{
    if ts.len() == 0 {
        assert(ts.push(t)[0] == t);
        assert(ts.push(t).drop_first() =~= Seq::<Tree>::empty());
        assert(children_created_count(Seq::<Tree>::empty()) == 0);
        assert(children_created_count(ts.push(t)) == (match t {
            Tree::Element(c) => mount_created_count(c),
            _ => 0nat,
        }) + children_created_count(ts.push(t).drop_first()));
    } else {
        assert(ts.push(t)[0] == ts[0]);
        assert(ts.push(t).drop_first() =~= ts.drop_first().push(t));
        lemma_children_created_snoc(ts.drop_first(), t);
        assert(children_created_count(ts.push(t)) == (match ts[0] {
            Tree::Element(c) => mount_created_count(c),
            _ => 0nat,
        }) + children_created_count(ts.push(t).drop_first()));
    }
}

/// A member of a described children list is described.
pub proof fn lemma_described_children_index(ts: Seq<Tree>, i: int)
    requires
        described_children(ts),
        0 <= i < ts.len(),
    ensures
        described_child(ts[i]),
    decreases ts.len(),
{
    if i > 0 {
        lemma_described_children_index(ts.drop_first(), i - 1);
    }
}

/// A never-mounted subtree holds no instance and no handle anywhere, so the
/// linking walk finds nothing in it.
pub proof fn lemma_described_nearest_empty(n: VirtualNode)
    requires
        described_node(n),
    ensures
        nearest_backed(n) == Seq::<(usize, usize)>::empty(),
    decreases n,
{
    lemma_described_nearest_list_empty(n.children@);
}

pub proof fn lemma_described_nearest_list_empty(ts: Seq<Tree>)
    requires
        described_children(ts),
    ensures
        nearest_backed_list(ts) == Seq::<(usize, usize)>::empty(),
    decreases ts,
{
    if ts.len() > 0 {
        assert(described_child(ts[0]));
        match ts[0] {
            Tree::Element(c) => {
                assert(described_node(c));
                lemma_described_nearest_empty(c);
                assert(nearest_contrib(ts[0]) =~= Seq::<(usize, usize)>::empty());
            },
            _ => {
                assert(nearest_contrib(ts[0]) =~= Seq::<(usize, usize)>::empty());
            },
        }
        lemma_described_nearest_list_empty(ts.drop_first());
        assert(nearest_backed_list(ts) =~= Seq::<(usize, usize)>::empty());
    }
}

/// Validity of handles is kept as the layout tree grows.
pub proof fn lemma_pairs_valid_mono(pairs: Seq<(usize, usize)>, n1: nat, n2: nat)
    requires
        pairs_valid(pairs, n1),
        n1 <= n2,
    ensures
        pairs_valid(pairs, n2),
{
}

/// The linking walk over a concatenation finds the two parts' descendants in
/// order.
pub proof fn lemma_nearest_list_concat(a: Seq<Tree>, b: Seq<Tree>)
    ensures
        nearest_backed_list(a + b) == nearest_backed_list(a) + nearest_backed_list(b),
    decreases a.len(),
{
    if a.len() == 0 {
        assert(a + b =~= b);
        assert(nearest_backed_list(a) + nearest_backed_list(b) =~= nearest_backed_list(b));
    } else {
        assert((a + b)[0] == a[0]);
        assert((a + b).drop_first() =~= a.drop_first() + b);
        lemma_nearest_list_concat(a.drop_first(), b);
        assert(nearest_backed_list(a + b) =~= nearest_backed_list(a) + nearest_backed_list(b));
    }
}

/// Post-layout traversal: for every element node holding both a layout
/// handle and a live instance, fetches the computed geometry and the
/// resolved style for that handle and pushes both into the instance through
/// its style-application capability. A failed fetch is recorded and skipped,
/// not fatal: the walk continues into every element child regardless.
pub fn walk_and_apply_styles(node: &VirtualNode, host: &mut Host)
    ensures
        final(host).instances@ == old(host).instances@,
        final(host).layout == old(host).layout,
        final(host).events@ == old(host).events@ + walk_events_node(
            *node,
            old(host).layout.nodes@.len(),
        ),
    decreases *node,
{
    let ghost n = host.layout.nodes@.len();
    let ghost total = walk_events_node(*node, n);
    match (&node.layout_node, &node.instance) {
        (Some(h), Some(inst)) => {
            let geometry = host.layout.layout(*h);
            let resolved = host.layout.style(*h);
            match (geometry, resolved) {
                (Ok(_), Ok(_)) => {
                    host.record_styles_applied(inst.id);
                },
                _ => {
                    host.record_style_lookup_failure(inst.id);
                },
            }
        },
        _ => {},
    }
    let ghost head = host.events@.skip(old(host).events@.len() as int);
    proof {
        if node.layout_node is Some && node.instance is Some {
            assert(host.events@ =~= old(host).events@ + head);
            assert(head.len() == 1);
        } else {
            assert(host.events@ =~= old(host).events@ + head);
            assert(head.len() == 0);
        }
        assert(total == head + walk_events_list(node.children@, n));
        assert(node.children@.skip(0) =~= node.children@);
    }
    let ghost mut done: Seq<Event> = Seq::empty();
    let mut i: usize = 0;
    proof {
        assert(host.events@ =~= old(host).events@ + head + done);
    }
    while i < node.children.len()
        invariant
            i <= node.children@.len(),
            host.instances@ == old(host).instances@,
            host.layout == old(host).layout,
            n == old(host).layout.nodes@.len(),
            host.events@ == old(host).events@ + head + done,
            walk_events_list(node.children@, n) == done + walk_events_list(
                node.children@.skip(i as int),
                n,
            ),
            total == head + walk_events_list(node.children@, n),
            total == walk_events_node(*node, n),
        decreases node.children@.len() - i,
    {
        let ghost remaining = node.children@.skip(i as int);
        proof {
            assert(remaining[0] == node.children@[i as int]);
            assert(remaining.drop_first() =~= node.children@.skip(i + 1 as int));
        }
        match &node.children[i] {
            Tree::Element(c) => {
                walk_and_apply_styles(c, host);
                proof {
                    assert(host.events@ =~= old(host).events@ + head + (done + walk_events_node(
                        *c,
                        n,
                    )));
                    done = done + walk_events_node(*c, n);
                    assert(walk_events_list(node.children@, n) =~= done + walk_events_list(
                        node.children@.skip(i + 1 as int),
                        n,
                    ));
                }
            },
            _ => {
                proof {
                    assert(walk_events_list(remaining, n) =~= walk_events_list(
                        node.children@.skip(i + 1 as int),
                        n,
                    ));
                }
            },
        }
        i += 1;
    }
    proof {
        assert(node.children@.skip(i as int) =~= Seq::<Tree>::empty());
        assert(walk_events_list(node.children@, n) =~= done);
        assert(host.events@ =~= old(host).events@ + total);
    }
}

/// The nearest-backed walk over a freshly mounted root finds only valid
/// handles: the root's own if it is backed, and otherwise only what the
/// produced children contribute, since declared children were never mounted.
pub proof fn lemma_mounted_root_pairs_valid(n: VirtualNode, orig_len: int, nh: nat)
    requires
        n.instance is Some,
        n.layout_node matches Some(h) ==> h < nh,
        0 <= orig_len <= n.children@.len(),
        n.layout_node is None ==> described_children(n.children@.subrange(0, orig_len)),
        n.layout_node is None ==> pairs_valid(
            nearest_backed_list(n.children@.skip(orig_len)),
            nh,
        ),
    ensures
        pairs_valid(nearest_backed(n), nh),
{
    match (n.instance, n.layout_node) {
        (Some(inst), Some(h)) => {
            assert(nearest_backed(n) =~= seq![(inst.id, h)]);
            assert forall|k: int|
                0 <= k < nearest_backed(n).len() implies (#[trigger] nearest_backed(
                n,
            )[k]).1 < nh by {
                assert(nearest_backed(n)[k] == (inst.id, h));
            }
        },
        (Some(_), None) => {
            lemma_nearest_list_concat(
                n.children@.subrange(0, orig_len),
                n.children@.skip(orig_len),
            );
            assert(n.children@.subrange(0, orig_len) + n.children@.skip(orig_len)
                =~= n.children@);
            lemma_described_nearest_list_empty(n.children@.subrange(0, orig_len));
            assert(nearest_backed(n) == nearest_backed_list(n.children@));
            assert(nearest_backed_list(n.children@) =~= nearest_backed_list(
                n.children@.skip(orig_len),
            ));
        },
        _ => {},
    }
}

/// A prefix of a prefix is a prefix.
pub proof fn lemma_prefix_trans<A>(a: Seq<A>, b: Seq<A>, c: Seq<A>)
    requires
        a.is_prefix_of(b),
        b.is_prefix_of(c),
    ensures
        a.is_prefix_of(c),
{
    assert forall|i: int| 0 <= i < a.len() implies c[i] == a[i] by {
        assert(b.subrange(0, a.len() as int)[i] == b[i]);
        assert(c.subrange(0, b.len() as int)[i] == c[i]);
    }
    assert(c.subrange(0, a.len() as int) =~= a);
}

/// Within a prefix, the two sequences agree pointwise.
pub proof fn lemma_prefix_index<A>(a: Seq<A>, b: Seq<A>, i: int)
    requires
        a.is_prefix_of(b),
        0 <= i < a.len(),
    ensures
        a[i] == b[i],
{
    assert(b.subrange(0, a.len() as int)[i] == b[i]);
}

/// The linking walk over a single mounted element finds exactly that
/// element's nearest backed descendants.
pub proof fn lemma_nearest_singleton(m: VirtualNode)
    ensures
        nearest_backed_list(seq![Tree::Element(m)]) == nearest_backed(m),
{
    let s = seq![Tree::Element(m)];
    assert(s[0] == Tree::Element(m));
    assert(s.drop_first() =~= Seq::<Tree>::empty());
    assert(nearest_backed_list(s.drop_first()) =~= Seq::<(usize, usize)>::empty());
    assert(nearest_contrib(s[0]) == nearest_backed(m));
    assert(nearest_backed_list(s) == nearest_contrib(s[0]) + nearest_backed_list(
        s.drop_first(),
    ));
    assert(nearest_backed_list(s) =~= nearest_backed(m));
}

/// Recursively constructs a live component subtree from a description:
/// instantiates the component through the node's factory capability,
/// allocates and styles a layout node for it if it is natively backed,
/// drives its first render, hoists a fragment output's element children
/// directly into this node (discarding the fragment wrapper itself), mounts
/// any other element output as the single produced child, links every
/// produced child's nearest backed descendants under this node's handle when
/// this node is backed, and appends the produced children after the node's
/// declared ones. A render failure is recorded and absorbed: the node then
/// mounts with no produced children.
pub fn mount_component_tree(new_element: VirtualNode, host: &mut Host) -> (r: Result<
    VirtualNode,
    ReconcileError,
>)
    ensures
        final(host).instances@.len() >= old(host).instances@.len(),
        old(host).events@.is_prefix_of(final(host).events@),
        old(host).layout.nodes@.is_prefix_of(final(host).layout.nodes@),
        r matches Ok(m) ==> {
            &&& mounts_to(new_element, m)
            &&& (m.instance matches Some(mi) && mi.id == old(host).instances@.len()
                && mi.native_backed == new_element.factory.native_backed)
            &&& (new_element.factory.native_backed ==> (m.layout_node matches Some(mh) && mh
                == old(host).layout.nodes@.len() && final(host).layout.nodes@[mh as int].children@
                == handles_of(
                nearest_backed_list(m.children@.skip(new_element.children@.len() as int)),
            ) && final(host).layout.nodes@[mh as int].style.applied@
                == new_element.props.styles@))
            &&& final(host).instances@.len() == old(host).instances@.len()
                + mount_created_count(new_element)
        },
        r is Ok ==> torn_count(final(host).events@) == torn_count(old(host).events@),
        r is Ok ==> updated_count(final(host).events@) == updated_count(old(host).events@),
        r matches Err(e) ==> e is Layout,
        described_node(new_element) ==> r is Ok,
        described_node(new_element) ==> (r matches Ok(m) ==> pairs_valid(
            nearest_backed(m),
            final(host).layout.nodes@.len(),
        )),
        new_element.factory.plan is Fails ==> (r matches Ok(m) ==> (m.instance matches Some(mi)
            && final(host).events@ == old(host).events@ + seq![
            Event::Created(mi.id),
            Event::RenderFailed(mi.id),
        ])),
        new_element.factory.plan matches RenderPlan::Renders(out) ==> (!(*out is Element) ==> (
        r matches Ok(m) ==> (m.instance matches Some(mi) && final(host).events@ == old(
            host,
        ).events@ + seq![Event::Created(mi.id)]))),
    decreases new_element,
{
    let ghost base_instances = host.instances@.len();
    let VirtualNode { tag, props, children, factory, instance: _, layout_node: _ } = new_element;
    let Factory { native_backed, plan } = factory;
    let inst = host.create_instance(native_backed);
    let mut node = VirtualNode {
        tag,
        props,
        children,
        factory: Factory { native_backed, plan: RenderPlan::Renders(Box::new(Tree::Empty)) },
        instance: Some(inst),
        layout_node: None,
    };
    let ghost orig_len = node.children@.len();
    if native_backed {
        let mut style = Style::new();
        configure_styles(&node.props.styles, &mut style);
        match host.layout.new_node(style, Vec::new()) {
            Ok(h) => {
                node.layout_node = Some(h);
            },
            Err(e) => {
                proof {
                    assert(host.events@.subrange(0, old(host).events@.len() as int) =~= old(
                        host,
                    ).events@);
                    assert(host.layout.nodes@ =~= old(host).layout.nodes@);
                    assert(host.layout.nodes@.subrange(
                        0,
                        old(host).layout.nodes@.len() as int,
                    ) =~= old(host).layout.nodes@);
                }
                return Err(ReconcileError::Layout(e));
            },
        }
    }
    proof {
        assert(old(host).events@.is_prefix_of(host.events@)) by {
            assert(host.events@.subrange(0, old(host).events@.len() as int) =~= old(
                host,
            ).events@);
        }
        assert(old(host).layout.nodes@.is_prefix_of(host.layout.nodes@)) by {
            assert(host.layout.nodes@.subrange(0, old(host).layout.nodes@.len() as int) =~= old(
                host,
            ).layout.nodes@);
        }
        assert(host.events@ =~= old(host).events@ + seq![Event::Created(inst.id)]);
        lemma_torn_count_concat(old(host).events@, seq![Event::Created(inst.id)]);
        lemma_updated_count_concat(old(host).events@, seq![Event::Created(inst.id)]);
        lemma_counts_singleton(Event::Created(inst.id));
        assert(torn_count(host.events@) == torn_count(old(host).events@));
        assert(updated_count(host.events@) == updated_count(old(host).events@));
        match node.layout_node {
            Some(h2) => {
                assert(node.children@.skip(orig_len as int) =~= Seq::<Tree>::empty());
                assert(host.layout.nodes@[h2 as int].children@ =~= Seq::<usize>::empty());
                assert(nearest_backed_list(node.children@.skip(orig_len as int)) =~= Seq::<
                    (usize, usize),
                >::empty());
                assert(handles_of(Seq::<(usize, usize)>::empty()) =~= Seq::<usize>::empty());
                assert(host.layout.nodes@[h2 as int].style.applied@
                    =~= new_element.props.styles@);
            },
            None => {},
        }
    }
    match plan {
        RenderPlan::Fails => {
            host.record_render_failure(inst.id);
            proof {
                assert(node.children@.subrange(0, orig_len as int) =~= new_element.children@);
                assert(node.children@.skip(orig_len as int) =~= Seq::<Tree>::empty());
                assert(host.events@ =~= old(host).events@ + seq![
                    Event::Created(inst.id),
                    Event::RenderFailed(inst.id),
                ]);
                lemma_concat_prefix(
                    old(host).events@,
                    seq![Event::Created(inst.id), Event::RenderFailed(inst.id)],
                );
                lemma_torn_count_concat(
                    old(host).events@,
                    seq![Event::Created(inst.id), Event::RenderFailed(inst.id)],
                );
                lemma_updated_count_concat(
                    old(host).events@,
                    seq![Event::Created(inst.id), Event::RenderFailed(inst.id)],
                );
                assert(seq![Event::Created(inst.id), Event::RenderFailed(inst.id)].drop_first()
                    =~= seq![Event::RenderFailed(inst.id)]);
                lemma_counts_singleton(Event::RenderFailed(inst.id));
                assert(torn_count(
                    seq![Event::Created(inst.id), Event::RenderFailed(inst.id)],
                ) == 0);
                assert(updated_count(
                    seq![Event::Created(inst.id), Event::RenderFailed(inst.id)],
                ) == 0);
                assert(old(host).layout.nodes@.is_prefix_of(host.layout.nodes@)) by {
                    assert(host.layout.nodes@.subrange(
                        0,
                        old(host).layout.nodes@.len() as int,
                    ) =~= old(host).layout.nodes@);
                }
                if described_node(new_element) {
                    assert(described_children(new_element.children@));
                    assert(nearest_backed_list(node.children@.skip(orig_len as int)) =~= Seq::<
                        (usize, usize),
                    >::empty());
                    lemma_mounted_root_pairs_valid(
                        node,
                        orig_len as int,
                        host.layout.nodes@.len(),
                    );
                }
            }
            return Ok(node);
        },
        RenderPlan::Renders(boxed) => {
            let rendered: Tree = *boxed;
            match rendered {
                Tree::Element(child) => {
                    let ghost gchild = child;
                    proof {
                        assert(new_element.factory.plan == RenderPlan::Renders(boxed));
                        assert(rendered == Tree::Element(gchild));
                        assert(decreases_to!(new_element => gchild));
                        if described_node(new_element) {
                            assert(described_plan(new_element.factory.plan));
                            assert(described_node(gchild));
                        }
                    }
                    let fragment_name: String = "Fragment".to_owned();
                    if child.tag == fragment_name {
                        let mut frag_children = child.children;
                        let ghost mut j: int = 0;
                        proof {
                            assert(gchild.children@.skip(0) =~= frag_children@);
                            assert(gchild.children@.subrange(0, 0) =~= Seq::<Tree>::empty());
                            assert(node.children@.skip(orig_len as int) =~= Seq::<Tree>::empty());
                            assert(children_mount_to(
                                gchild.children@.subrange(0, 0),
                                node.children@.skip(orig_len as int),
                            ));
                            assert(children_created_count(Seq::<Tree>::empty()) == 0);
                        }
                        while frag_children.len() > 0
                            invariant
                                0 <= j <= gchild.children@.len(),
                                frag_children@ == gchild.children@.skip(j),
                                decreases_to!(new_element => gchild),
                                node.tag == new_element.tag,
                                node.props == new_element.props,
                                node.instance == Some(inst),
                                inst.id == old(host).instances@.len(),
                                inst.native_backed == new_element.factory.native_backed,
                                native_backed == new_element.factory.native_backed,
                                node.factory.native_backed == native_backed,
                                crate::tree::plan_spent(node.factory.plan),
                                node.layout_node is Some <==> native_backed,
                                native_backed ==> (node.layout_node matches Some(h) && h
                                    == old(host).layout.nodes@.len()),
                                node.layout_node matches Some(h) ==> h < host.layout.nodes@.len(),
                                node.layout_node matches Some(h) ==> {
                                    &&& host.layout.nodes@[h as int].children@ == handles_of(
                                        nearest_backed_list(
                                            node.children@.skip(orig_len as int),
                                        ),
                                    )
                                    &&& host.layout.nodes@[h as int].style.applied@
                                        == new_element.props.styles@
                                },
                                torn_count(host.events@) == torn_count(old(host).events@),
                                updated_count(host.events@) == updated_count(
                                    old(host).events@,
                                ),
                                node.children@.len() >= orig_len,
                                node.children@.subrange(0, orig_len as int)
                                    == new_element.children@,
                                children_mount_to(
                                    gchild.children@.subrange(0, j),
                                    node.children@.skip(orig_len as int),
                                ),
                                host.instances@.len() == base_instances + 1
                                    + children_created_count(gchild.children@.subrange(0, j)),
                                base_instances == old(host).instances@.len(),
                                old(host).events@.is_prefix_of(host.events@),
                                old(host).layout.nodes@.is_prefix_of(host.layout.nodes@),
                                described_node(new_element) ==> described_children(
                                    gchild.children@,
                                ),
                                described_node(new_element) ==> pairs_valid(
                                    nearest_backed_list(node.children@.skip(orig_len as int)),
                                    host.layout.nodes@.len(),
                                ),
                            decreases frag_children@.len(),
                        {
                            let ghost ev_start = host.events@;
                            let ghost ly_start = host.layout.nodes@;
                            let c0 = frag_children.remove(0);
                            proof {
                                assert(c0 == gchild.children@.skip(j)[0]);
                                assert(c0 == gchild.children@[j]);
                                assert(frag_children@ =~= gchild.children@.skip(j + 1));
                            }
                            match c0 {
                                Tree::Element(fc) => {
                                    proof {
                                        if described_node(new_element) {
                                            lemma_described_children_index(gchild.children@, j);
                                        }
                                        assert(decreases_to!(gchild.children@ => c0));
                                        assert(c0 == Tree::Element(fc));
                                        assert(decreases_to!(c0 => fc));
                                        assert(decreases_to!(new_element => fc));
                                    }
                                    let mounted = match mount_component_tree(fc, host) {
                                        Ok(m) => m,
                                        Err(e) => {
                                            proof {
                                                lemma_prefix_trans(
                                                    old(host).events@,
                                                    ev_start,
                                                    host.events@,
                                                );
                                                lemma_prefix_trans(
                                                    old(host).layout.nodes@,
                                                    ly_start,
                                                    host.layout.nodes@,
                                                );
                                                if described_node(new_element) {
                                                    assert(false);
                                                }
                                            }
                                            return Err(e);
                                        },
                                    };
                                    let ghost ev_m = host.events@;
                                    let ghost ly_m = host.layout.nodes@;
                                    proof {
                                        lemma_prefix_trans(old(host).events@, ev_start, ev_m);
                                        lemma_prefix_trans(
                                            old(host).layout.nodes@,
                                            ly_start,
                                            ly_m,
                                        );
                                        assert(torn_count(ev_m) == torn_count(
                                            old(host).events@,
                                        ));
                                        assert(updated_count(ev_m) == updated_count(
                                            old(host).events@,
                                        ));
                                        match node.layout_node {
                                            Some(h2) => {
                                                lemma_prefix_index(ly_start, ly_m, h2 as int);
                                            },
                                            None => {},
                                        }
                                    }
                                    if native_backed {
                                        match find_and_link_layout_nodes(&node, &mounted, host) {
                                            Ok(()) => {
                                                proof {
                                                    assert(host.layout.nodes@.len()
                                                        == ly_m.len());
                                                    assert forall|k: int|
                                                        0 <= k < ly_m.len() && k
                                                            != linked_handle(
                                                            node.layout_node,
                                                        ) implies host.layout.nodes@[k]
                                                        == ly_m[k] by {}
                                                    assert(host.events@ =~= ev_m
                                                        + appended_events(
                                                        inst.id,
                                                        nearest_backed(mounted),
                                                    ));
                                                    lemma_torn_count_concat(
                                                        ev_m,
                                                        appended_events(
                                                            inst.id,
                                                            nearest_backed(mounted),
                                                        ),
                                                    );
                                                    lemma_updated_count_concat(
                                                        ev_m,
                                                        appended_events(
                                                            inst.id,
                                                            nearest_backed(mounted),
                                                        ),
                                                    );
                                                    lemma_appended_events_counts(
                                                        inst.id,
                                                        nearest_backed(mounted),
                                                    );
                                                }
                                            },
                                            Err(e) => {
                                                proof {
                                                    lemma_prefix_trans(
                                                        old(host).events@,
                                                        ev_m,
                                                        host.events@,
                                                    );
                                                    assert forall|k: int|
                                                        0 <= k < old(
                                                            host,
                                                        ).layout.nodes@.len() implies host.layout.nodes@[k]
                                                        == old(host).layout.nodes@[k] by {
                                                        lemma_prefix_index(
                                                            old(host).layout.nodes@,
                                                            ly_m,
                                                            k,
                                                        );
                                                    }
                                                    assert(host.layout.nodes@.subrange(
                                                        0,
                                                        old(host).layout.nodes@.len() as int,
                                                    ) =~= old(host).layout.nodes@);
                                                    if described_node(new_element) {
                                                        assert(pairs_valid(
                                                            nearest_backed(mounted),
                                                            ly_m.len(),
                                                        ));
                                                        assert(false);
                                                    }
                                                }
                                                return Err(e);
                                            },
                                        }
                                    }
                                    proof {
                                        lemma_prefix_trans(old(host).events@, ev_m, host.events@);
                                        assert forall|k: int|
                                            0 <= k < old(
                                                host,
                                            ).layout.nodes@.len() implies host.layout.nodes@[k]
                                            == old(host).layout.nodes@[k] by {
                                            lemma_prefix_index(old(host).layout.nodes@, ly_m, k);
                                            assert(k != linked_handle(node.layout_node));
                                            assert(host.layout.nodes@[k] == ly_m[k]);
                                        }
                                        assert(host.layout.nodes@.subrange(
                                            0,
                                            old(host).layout.nodes@.len() as int,
                                        ) =~= old(host).layout.nodes@);
                                        assert(torn_count(host.events@) == torn_count(
                                            old(host).events@,
                                        ));
                                        assert(updated_count(host.events@) == updated_count(
                                            old(host).events@,
                                        ));
                                    }
                                    let ghost pre_push = node.children@;
                                    node.children.push(Tree::Element(mounted));
                                    proof {
                                        assert(node.children@ == pre_push.push(
                                            Tree::Element(mounted),
                                        ));
                                        assert(node.children@.subrange(0, orig_len as int)
                                            =~= pre_push.subrange(0, orig_len as int));
                                        assert(node.children@.skip(orig_len as int)
                                            =~= pre_push.skip(orig_len as int).push(
                                            Tree::Element(mounted),
                                        ));
                                        lemma_children_mount_to_snoc(
                                            gchild.children@.subrange(0, j),
                                            pre_push.skip(orig_len as int),
                                            gchild.children@[j],
                                            seq![Tree::Element(mounted)],
                                        );
                                        assert(pre_push.skip(orig_len as int) + seq![
                                            Tree::Element(mounted),
                                        ] =~= node.children@.skip(orig_len as int));
                                        lemma_children_created_snoc(
                                            gchild.children@.subrange(0, j),
                                            gchild.children@[j],
                                        );
                                        lemma_nearest_list_concat(
                                            pre_push.skip(orig_len as int),
                                            seq![Tree::Element(mounted)],
                                        );
                                        lemma_nearest_singleton(mounted);
                                        lemma_handles_of_concat(
                                            nearest_backed_list(
                                                pre_push.skip(orig_len as int),
                                            ),
                                            nearest_backed(mounted),
                                        );
                                        match node.layout_node {
                                            Some(h2) => {
                                                assert(host.layout.nodes@[h2 as int].children@
                                                    =~= handles_of(
                                                    nearest_backed_list(
                                                        node.children@.skip(orig_len as int),
                                                    ),
                                                ));
                                            },
                                            None => {},
                                        }
                                        if described_node(new_element) {
                                            lemma_pairs_valid_mono(
                                                nearest_backed_list(
                                                    pre_push.skip(orig_len as int),
                                                ),
                                                ly_start.len(),
                                                host.layout.nodes@.len(),
                                            );
                                            lemma_pairs_valid_mono(
                                                nearest_backed(mounted),
                                                ly_m.len(),
                                                host.layout.nodes@.len(),
                                            );
                                            lemma_pairs_valid_concat(
                                                nearest_backed_list(
                                                    pre_push.skip(orig_len as int),
                                                ),
                                                nearest_backed(mounted),
                                                host.layout.nodes@.len(),
                                            );
                                        }
                                        j = j + 1;
                                        assert(gchild.children@.subrange(0, j)
                                            =~= gchild.children@.subrange(0, j - 1).push(
                                            gchild.children@[j - 1],
                                        ));
                                    }
                                },
                                _ => {
                                    proof {
                                        lemma_children_mount_to_snoc(
                                            gchild.children@.subrange(0, j),
                                            node.children@.skip(orig_len as int),
                                            gchild.children@[j],
                                            Seq::<Tree>::empty(),
                                        );
                                        assert(node.children@.skip(orig_len as int) + Seq::<
                                            Tree,
                                        >::empty() =~= node.children@.skip(orig_len as int));
                                        lemma_children_created_snoc(
                                            gchild.children@.subrange(0, j),
                                            gchild.children@[j],
                                        );
                                        j = j + 1;
                                        assert(gchild.children@.subrange(0, j)
                                            =~= gchild.children@.subrange(0, j - 1).push(
                                            gchild.children@[j - 1],
                                        ));
                                    }
                                },
                            }
                        }
                        proof {
                            assert(j == gchild.children@.len());
                            assert(gchild.children@.subrange(0, j) =~= gchild.children@);
                        }
                    } else {
                        proof {
                            assert(decreases_to!(new_element => child));
                        }
                        let ghost ev_start = host.events@;
                        let ghost ly_start = host.layout.nodes@;
                        let mounted = match mount_component_tree(child, host) {
                            Ok(m) => m,
                            Err(e) => {
                                proof {
                                    lemma_prefix_trans(old(host).events@, ev_start, host.events@);
                                    lemma_prefix_trans(
                                        old(host).layout.nodes@,
                                        ly_start,
                                        host.layout.nodes@,
                                    );
                                    if described_node(new_element) {
                                        assert(false);
                                    }
                                }
                                return Err(e);
                            },
                        };
                        let ghost ev_m = host.events@;
                        let ghost ly_m = host.layout.nodes@;
                        proof {
                            lemma_prefix_trans(old(host).events@, ev_start, ev_m);
                            lemma_prefix_trans(old(host).layout.nodes@, ly_start, ly_m);
                            assert(torn_count(ev_m) == torn_count(old(host).events@));
                            assert(updated_count(ev_m) == updated_count(old(host).events@));
                            match node.layout_node {
                                Some(h2) => {
                                    lemma_prefix_index(ly_start, ly_m, h2 as int);
                                },
                                None => {},
                            }
                        }
                        if native_backed {
                            match find_and_link_layout_nodes(&node, &mounted, host) {
                                Ok(()) => {
                                    proof {
                                        assert(host.events@ =~= ev_m + appended_events(
                                            inst.id,
                                            nearest_backed(mounted),
                                        ));
                                        lemma_torn_count_concat(
                                            ev_m,
                                            appended_events(inst.id, nearest_backed(mounted)),
                                        );
                                        lemma_updated_count_concat(
                                            ev_m,
                                            appended_events(inst.id, nearest_backed(mounted)),
                                        );
                                        lemma_appended_events_counts(
                                            inst.id,
                                            nearest_backed(mounted),
                                        );
                                    }
                                },
                                Err(e) => {
                                    proof {
                                        lemma_prefix_trans(old(host).events@, ev_m, host.events@);
                                        assert forall|k: int|
                                            0 <= k < old(
                                                host,
                                            ).layout.nodes@.len() implies host.layout.nodes@[k]
                                            == old(host).layout.nodes@[k] by {
                                            lemma_prefix_index(old(host).layout.nodes@, ly_m, k);
                                        }
                                        assert(host.layout.nodes@.subrange(
                                            0,
                                            old(host).layout.nodes@.len() as int,
                                        ) =~= old(host).layout.nodes@);
                                        if described_node(new_element) {
                                            assert(pairs_valid(
                                                nearest_backed(mounted),
                                                ly_m.len(),
                                            ));
                                            assert(false);
                                        }
                                    }
                                    return Err(e);
                                },
                            }
                        }
                        proof {
                            lemma_prefix_trans(old(host).events@, ev_m, host.events@);
                            assert forall|k: int|
                                0 <= k < old(host).layout.nodes@.len() implies host.layout.nodes@[k]
                                == old(host).layout.nodes@[k] by {
                                lemma_prefix_index(old(host).layout.nodes@, ly_m, k);
                            }
                            assert(host.layout.nodes@.subrange(
                                0,
                                old(host).layout.nodes@.len() as int,
                            ) =~= old(host).layout.nodes@);
                            assert(torn_count(host.events@) == torn_count(
                                old(host).events@,
                            ));
                            assert(updated_count(host.events@) == updated_count(
                                old(host).events@,
                            ));
                        }
                        let ghost pre_push = node.children@;
                        node.children.push(Tree::Element(mounted));
                        proof {
                            assert(node.children@.subrange(0, orig_len as int)
                                =~= new_element.children@);
                            assert(node.children@.skip(orig_len as int) =~= seq![
                                Tree::Element(mounted),
                            ]);
                            lemma_nearest_singleton(mounted);
                            match node.layout_node {
                                Some(h2) => {
                                    assert(ly_m[h2 as int].children@ =~= Seq::<
                                        usize,
                                    >::empty());
                                    assert(Seq::<usize>::empty() + handles_of(
                                        nearest_backed(mounted),
                                    ) =~= handles_of(nearest_backed(mounted)));
                                    assert(host.layout.nodes@[h2 as int].children@
                                        =~= handles_of(
                                        nearest_backed_list(
                                            node.children@.skip(orig_len as int),
                                        ),
                                    ));
                                },
                                None => {},
                            }
                            if described_node(new_element) {
                                lemma_pairs_valid_mono(
                                    nearest_backed(mounted),
                                    ly_m.len(),
                                    host.layout.nodes@.len(),
                                );
                            }
                        }
                    }
                },
                _ => {
                    proof {
                        assert(node.children@.subrange(0, orig_len as int)
                            =~= new_element.children@);
                        assert(node.children@.skip(orig_len as int) =~= Seq::<Tree>::empty());
                        assert(host.events@ =~= old(host).events@ + seq![
                            Event::Created(inst.id),
                        ]);
                    }
                },
            }
        },
    }
    proof {
        if described_node(new_element) {
            assert(described_children(new_element.children@));
            if node.layout_node is None {
                assert(pairs_valid(
                    nearest_backed_list(node.children@.skip(orig_len as int)),
                    host.layout.nodes@.len(),
                ));
            }
            lemma_mounted_root_pairs_valid(node, orig_len as int, host.layout.nodes@.len());
        }
    }
    Ok(node)
}
/// Walks the tree and tears component instances down, deepest descendants
/// first: every element child is unmounted before the current node's
/// teardown notification fires, and the node's own layout linkage is then
/// released in full. The notifications emitted are exactly the subtree's, in
/// post-order; a failure to detach a layout handle is surfaced, since it
/// leaves the layout tree inconsistent with reality.
pub fn unmount_component_tree(node: &VirtualNode, host: &mut Host) -> (r: Result<
    (),
    ReconcileError,
>)
    ensures
        old(host).events@.is_prefix_of(final(host).events@),
        final(host).instances@ == old(host).instances@,
        final(host).layout.nodes@.len() == old(host).layout.nodes@.len(),
        only_severed(old(host).layout.nodes@, final(host).layout.nodes@),
        r is Ok <==> detach_ok(Tree::Element(*node), old(host).layout.nodes@.len()),
        r is Ok ==> final(host).events@ == old(host).events@ + teardown_seq(
            Tree::Element(*node),
        ),
        r is Ok ==> subtree_detached(Tree::Element(*node), final(host).layout.nodes@),
        r matches Err(e) ==> e is Layout,
    decreases *node,
{
    let ghost n_handles = host.layout.nodes@.len();
    proof {
        lemma_only_severed_refl(host.layout.nodes@);
    }
    let mut i: usize = 0;
    while i < node.children.len()
        invariant
            i <= node.children@.len(),
            host.events@ == old(host).events@ + teardown_list(
                node.children@.subrange(0, i as int),
            ),
            host.instances@ == old(host).instances@,
            host.layout.nodes@.len() == n_handles,
            n_handles == old(host).layout.nodes@.len(),
            detach_ok_list(node.children@.subrange(0, i as int), n_handles),
            only_severed(old(host).layout.nodes@, host.layout.nodes@),
            subtree_detached_list(
                node.children@.subrange(0, i as int),
                host.layout.nodes@,
            ),
        decreases node.children@.len() - i,
    {
        let ghost ly_b = host.layout.nodes@;
        match &node.children[i] {
            Tree::Element(child) => {
                match unmount_component_tree(child, host) {
                    Ok(()) => {},
                    Err(e) => {
                        proof {
                            assert(node.children@[i as int] == Tree::Element(*child));
                            assert(!detach_ok(node.children@[i as int], n_handles));
                            assert(!detach_ok(Tree::Element(*node), n_handles)) by {
                                if detach_ok(Tree::Element(*node), n_handles) {
                                    lemma_detach_ok_list_index(
                                        node.children@,
                                        i as int,
                                        n_handles,
                                    );
                                }
                            }
                            lemma_only_severed_trans(
                                old(host).layout.nodes@,
                                ly_b,
                                host.layout.nodes@,
                            );
                        }
                        return Err(e);
                    },
                }
            },
            _ => {},
        }
        proof {
            assert(node.children@.subrange(0, i + 1 as int) =~= node.children@.subrange(
                0,
                i as int,
            ).push(node.children@[i as int]));
            lemma_teardown_list_snoc(
                node.children@.subrange(0, i as int),
                node.children@[i as int],
            );
            lemma_detach_ok_list_snoc(
                node.children@.subrange(0, i as int),
                node.children@[i as int],
                n_handles,
            );
            assert(host.events@ =~= old(host).events@ + teardown_list(
                node.children@.subrange(0, i + 1 as int),
            ));
            lemma_only_severed_trans(old(host).layout.nodes@, ly_b, host.layout.nodes@);
            lemma_detached_list_preserved(
                node.children@.subrange(0, i as int),
                ly_b,
                host.layout.nodes@,
            );
            lemma_detached_list_snoc(
                node.children@.subrange(0, i as int),
                node.children@[i as int],
                host.layout.nodes@,
            );
        }
        i += 1;
    }
    proof {
        assert(node.children@.subrange(0, node.children@.len() as int) =~= node.children@);
    }
    if let Some(inst) = &node.instance {
        host.record_teardown(inst.id);
    }
    proof {
        assert(host.events@ =~= old(host).events@ + teardown_seq(Tree::Element(*node)));
    }
    let ghost pre_clear = host.layout.nodes@;
    if let Some(h) = &node.layout_node {
        match host.layout.clear_children(*h) {
            Ok(()) => {},
            Err(e) => {
                proof {
                    assert(!detach_ok(Tree::Element(*node), n_handles));
                }
                return Err(ReconcileError::Layout(e));
            },
        }
    }
    proof {
        assert(detach_ok(Tree::Element(*node), n_handles));
        assert(only_severed(pre_clear, host.layout.nodes@));
        lemma_only_severed_trans(old(host).layout.nodes@, pre_clear, host.layout.nodes@);
        lemma_detached_list_preserved(node.children@, pre_clear, host.layout.nodes@);
        assert(subtree_detached(Tree::Element(*node), host.layout.nodes@));
    }
    Ok(())
}

/// Reconciling one more aligned pair extends a pairwise-reconciled prefix.
pub proof fn lemma_rc_snoc_pair(
    os: Seq<Tree>,
    ns: Seq<Tree>,
    rs: Seq<Tree>,
    o: Tree,
    n: Tree,
    res: Tree,
)
    requires
        os.len() == ns.len(),
        rs.len() == ns.len(),
        reconciled_children(os, ns, rs),
        reconciled(o, n, res),
    ensures
        reconciled_children(os.push(o), ns.push(n), rs.push(res)),
    decreases ns.len(),
{
    if ns.len() == 0 {
        assert(ns.push(n)[0] == n);
        assert(os.push(o)[0] == o);
        assert(rs.push(res)[0] == res);
        assert(ns.push(n).drop_first() =~= Seq::<Tree>::empty());
        assert(os.push(o).drop_first() =~= Seq::<Tree>::empty());
        assert(rs.push(res).drop_first() =~= Seq::<Tree>::empty());
        assert(reconciled_children(
            os.push(o).drop_first(),
            ns.push(n).drop_first(),
            rs.push(res).drop_first(),
        ));
        assert(os.push(o).len() > 0);
        assert(reconciled_children(os.push(o), ns.push(n), rs.push(res)));
    } else {
        assert(ns.push(n)[0] == ns[0]);
        assert(os.push(o)[0] == os[0]);
        assert(rs.push(res)[0] == rs[0]);
        assert(ns.push(n).drop_first() =~= ns.drop_first().push(n));
        assert(os.push(o).drop_first() =~= os.drop_first().push(o));
        assert(rs.push(res).drop_first() =~= rs.drop_first().push(res));
        lemma_rc_snoc_pair(os.drop_first(), ns.drop_first(), rs.drop_first(), o, n, res);
        assert(reconciled_children(os.push(o), ns.push(n), rs.push(res)));
    }
}

/// Once the old children are exhausted, each further new child extends the
/// reconciled list with its freshly mounted form (or nothing, for a
/// non-element child).
pub proof fn lemma_rc_snoc_extra(
    os: Seq<Tree>,
    ns: Seq<Tree>,
    rs: Seq<Tree>,
    n: Tree,
    extra: Seq<Tree>,
)
    requires
        os.len() <= ns.len(),
        reconciled_children(os, ns, rs),
        match n {
            Tree::Element(c) => extra.len() == 1 && (extra[0] matches Tree::Element(m)
                && mounts_to(c, m)),
            _ => extra.len() == 0,
        },
    ensures
        reconciled_children(os, ns.push(n), rs + extra),
    decreases os.len(),
{
    if os.len() == 0 {
        if ns.len() == 0 {
            assert(rs.len() == 0);
            assert(children_mount_to(ns, rs));
        }
        lemma_children_mount_to_snoc(ns, rs, n, extra);
        assert(ns.push(n).len() > 0);
        assert(reconciled_children(os, ns.push(n), rs + extra));
    } else {
        assert(ns.len() > 0);
        assert(rs.len() >= 1);
        assert(ns.push(n)[0] == ns[0]);
        assert(ns.push(n).drop_first() =~= ns.drop_first().push(n));
        assert((rs + extra)[0] == rs[0]);
        assert((rs + extra).drop_first() =~= rs.drop_first() + extra);
        lemma_rc_snoc_extra(os.drop_first(), ns.drop_first(), rs.drop_first(), n, extra);
        assert(reconciled_children(os, ns.push(n), rs + extra));
    }
}

/// Old children beyond the new list's length do not change what a
/// reconciled children list must look like.
pub proof fn lemma_rc_old_tail(os: Seq<Tree>, ns: Seq<Tree>, rs: Seq<Tree>)
    requires
        ns.len() <= os.len(),
        reconciled_children(os.take(ns.len() as int), ns, rs),
    ensures
        reconciled_children(os, ns, rs),
    decreases ns.len(),
{
    if ns.len() == 0 {
        assert(reconciled_children(os, ns, rs));
    } else {
        let osp = os.take(ns.len() as int);
        assert(osp[0] == os[0]);
        assert(osp.drop_first() =~= os.drop_first().take(ns.len() as int - 1));
        lemma_rc_old_tail(os.drop_first(), ns.drop_first(), rs.drop_first());
        assert(reconciled_children(os, ns, rs));
    }
}

/// Liveness of a subtree is kept as the host issues more instances and the
/// layout tree grows.
pub proof fn lemma_live_child_mono(t: Tree, ni1: nat, nh1: nat, ni2: nat, nh2: nat)
    requires
        live_child(t, ni1, nh1),
        ni1 <= ni2,
        nh1 <= nh2,
    ensures
        live_child(t, ni2, nh2),
    decreases t,
{
    match t {
        Tree::Element(n) => {
            lemma_live_children_mono(n.children@, ni1, nh1, ni2, nh2);
        },
        _ => {},
    }
}

pub proof fn lemma_live_children_mono(ts: Seq<Tree>, ni1: nat, nh1: nat, ni2: nat, nh2: nat)
    requires
        live_children(ts, ni1, nh1),
        ni1 <= ni2,
        nh1 <= nh2,
    ensures
        live_children(ts, ni2, nh2),
    decreases ts,
{
    if ts.len() > 0 {
        lemma_live_child_mono(ts[0], ni1, nh1, ni2, nh2);
        lemma_live_children_mono(ts.drop_first(), ni1, nh1, ni2, nh2);
    }
}

/// A live subtree's layout handles are all valid, so it can be detached.
pub proof fn lemma_live_detach(t: Tree, ni: nat, nh: nat, nh2: nat)
    requires
        live_child(t, ni, nh),
        nh <= nh2,
    ensures
        detach_ok(t, nh2),
    decreases t,
{
    match t {
        Tree::Element(n) => {
            lemma_live_detach_list(n.children@, ni, nh, nh2);
        },
        _ => {},
    }
}

pub proof fn lemma_live_detach_list(ts: Seq<Tree>, ni: nat, nh: nat, nh2: nat)
    requires
        live_children(ts, ni, nh),
        nh <= nh2,
    ensures
        detach_ok_list(ts, nh2),
    decreases ts,
{
    if ts.len() > 0 {
        lemma_live_detach(ts[0], ni, nh, nh2);
        lemma_live_detach_list(ts.drop_first(), ni, nh, nh2);
    }
}

/// The render-cycle update hook of an in-place update: the prop-diffing and
/// conditional re-render decision point. At the synthetic root — depth zero,
/// usually the window's content view — it is never invoked, whatever
/// instance is present: that position is patched externally rather than
/// through the component render pipeline. At any deeper position it runs for
/// the carried instance; this minimal conformance records the run and
/// re-renders nothing.
pub fn component_update_hook(node: &VirtualNode, host: &mut Host, depth: usize)
    ensures
        final(host).instances@ == old(host).instances@,
        final(host).layout == old(host).layout,
        depth > 0 ==> (node.instance matches Some(i) ==> final(host).events@ == old(
            host,
        ).events@.push(Event::Updated(i.id))),
        depth == 0 || node.instance is None ==> final(host).events@ == old(host).events@,
{
    if depth > 0 {
        if let Some(instance) = &node.instance {
            host.record_update(instance.id);
        }
    }
}

/// The reconciliation entry point: walks the old and the new tree in
/// lock-step and decides per aligned pair whether to update in place or to
/// replace. An in-place update moves the old element's instance and layout
/// handle onto the new element, runs the update hook (except at the
/// synthetic root, depth zero), reconciles children strictly by position,
/// freshly mounts surplus new children — linking them under this element's
/// handle when it is natively backed — and unmounts surplus old children. A
/// replace tears the discarded subtree down and mounts the new element
/// fresh. Pairings that involve the empty marker, and an in-place update of
/// an element that was never mounted, are internal-consistency faults and
/// are reported as errors rather than masked.
pub fn diff_and_patch_tree(old_tree: Tree, new_tree: Tree, host: &mut Host, depth: usize) -> (r:
    Result<Tree, ReconcileError>)
    ensures
        final(host).instances@.len() >= old(host).instances@.len(),
        old(host).events@.is_prefix_of(final(host).events@),
        final(host).layout.nodes@.len() >= old(host).layout.nodes@.len(),
        r matches Ok(res) ==> reconciled(old_tree, new_tree, res),
        r matches Ok(res) ==> final(host).instances@.len() == old(host).instances@.len()
            + diff_created(old_tree, new_tree),
        replace_needed(old_tree, new_tree) && new_tree is Element ==> (r matches Ok(res) ==> (
        res matches Tree::Element(rn) && rn.instance matches Some(ri) && ri.id == old(
            host,
        ).instances@.len())),
        !pair_faults(old_tree, new_tree) && live_child(
            old_tree,
            old(host).instances@.len(),
            old(host).layout.nodes@.len(),
        ) && described_child(new_tree) ==> r is Ok,
        pair_faults(old_tree, new_tree) ==> r is Err,
        r matches Err(e) ==> (e is Layout || pair_faults(old_tree, new_tree)),
        r is Ok ==> torn_count(final(host).events@) == torn_count(old(host).events@)
            + diff_torn(old_tree, new_tree),
        r is Ok ==> updated_count(final(host).events@) == updated_count(old(host).events@)
            + diff_updated(old_tree, new_tree, depth == 0),
        old_tree is Text && new_tree is Text ==> *final(host) == *old(host),
        !replace_needed(old_tree, new_tree) && r is Ok ==> (old_tree matches Tree::Element(o)
            ==> (new_tree matches Tree::Element(n) ==> (o.children@.len() >= n.children@.len()
            ==> teardown_list(o.children@.skip(n.children@.len() as int)).is_suffix_of(
            final(host).events@,
        )))),
    decreases new_tree,
{
    let ghost entry_instances = host.instances@.len();
    let ghost entry_handles = host.layout.nodes@.len();
    let ghost happy = !pair_faults(old_tree, new_tree) && live_child(
        old_tree,
        entry_instances,
        entry_handles,
    ) && described_child(new_tree);
    match (old_tree, new_tree) {
        (Tree::Element(old_el), Tree::Element(new_el)) => {
            let ghost g_old_el = old_el;
            let ghost g_new_el = new_el;
            let tags_equal = old_el.tag == new_el.tag;
            if !tags_equal {
                // Tag mismatch: replace. The discarded subtree is unmounted in
                // full before the new element is mounted fresh.
                match unmount_component_tree(&old_el, host) {
                    Ok(()) => {},
                    Err(e) => {
                        proof {
                            if happy {
                                lemma_live_detach(
                                    Tree::Element(g_old_el),
                                    entry_instances,
                                    entry_handles,
                                    entry_handles,
                                );
                                assert(false);
                            }
                        }
                        return Err(e);
                    },
                }
                let ghost ev_u = host.events@;
                let mounted = match mount_component_tree(new_el, host) {
                    Ok(m) => m,
                    Err(e) => {
                        proof {
                            lemma_prefix_trans(old(host).events@, ev_u, host.events@);
                            if happy {
                                assert(described_node(g_new_el));
                                assert(false);
                            }
                        }
                        return Err(e);
                    },
                };
                proof {
                    lemma_prefix_trans(old(host).events@, ev_u, host.events@);
                    assert(reconciled(old_tree, new_tree, Tree::Element(mounted)));
                    assert(diff_created(old_tree, new_tree) == mount_created_count(g_new_el));
                    assert(ev_u =~= old(host).events@ + teardown_seq(old_tree));
                    lemma_torn_count_concat(old(host).events@, teardown_seq(old_tree));
                    lemma_updated_count_concat(old(host).events@, teardown_seq(old_tree));
                    lemma_teardown_seq_counts(old_tree);
                    assert(diff_torn(old_tree, new_tree) == teardown_seq(old_tree).len());
                    assert(diff_updated(old_tree, new_tree, depth == 0) == 0);
                    assert(!pair_faults(old_tree, new_tree));
                }
                Ok(Tree::Element(mounted))
            } else {
                // Same identity: update in place, carrying the instance and
                // the layout handle onto the new element.
                let mut new_el = new_el;
                let old_el = old_el;
                new_el.instance = old_el.instance;
                new_el.layout_node = old_el.layout_node;
                let ghost ev_h = host.events@;
                component_update_hook(&new_el, host, depth);
                let inst = match &new_el.instance {
                    Some(i) => *i,
                    None => {
                        proof {
                            assert(pair_faults(old_tree, new_tree));
                        }
                        return Err(ReconcileError::MissingInstance);
                    },
                };
                let is_native_backed = inst.native_backed;
                let ghost root_upd: nat = if depth > 0 {
                    1nat
                } else {
                    0nat
                };
                proof {
                    assert(ev_h =~= old(host).events@);
                    if depth > 0 {
                        assert(host.events@ =~= old(host).events@ + seq![
                            Event::Updated(inst.id),
                        ]);
                        lemma_torn_count_concat(
                            old(host).events@,
                            seq![Event::Updated(inst.id)],
                        );
                        lemma_updated_count_concat(
                            old(host).events@,
                            seq![Event::Updated(inst.id)],
                        );
                        lemma_counts_singleton(Event::Updated(inst.id));
                    }
                    assert(torn_count(host.events@) == torn_count(old(host).events@));
                    assert(updated_count(host.events@) == updated_count(old(host).events@)
                        + root_upd);
                }
                let mut old_children = old_el.children;
                let mut new_children = new_el.children;
                new_el.children = Vec::new();
                let ghost os_all = g_old_el.children@;
                let ghost ns_all = g_new_el.children@;
                let ghost mut i: int = 0;
                let ghost mut acc: nat = 0;
                let ghost mut torn_acc: nat = 0;
                let ghost mut upd_acc: nat = 0;
                proof {
                    assert(os_all.skip(0) =~= old_children@);
                    assert(ns_all.skip(0) =~= new_children@);
                    assert(os_all.take(0) =~= Seq::<Tree>::empty());
                    assert(ns_all.take(0) =~= Seq::<Tree>::empty());
                    assert(reconciled_children(
                        os_all.take(0),
                        ns_all.take(0),
                        new_el.children@,
                    ));
                    assert(old(host).events@.is_prefix_of(host.events@)) by {
                        assert(host.events@.subrange(0, old(host).events@.len() as int)
                            =~= old(host).events@);
                    }
                    if happy {
                        assert(live_node(g_old_el, entry_instances, entry_handles));
                        assert(described_node(g_new_el));
                        assert(!child_pairs_fault(os_all, ns_all));
                    }
                    assert(diff_created(old_tree, new_tree) == diff_created_children(
                        os_all,
                        ns_all,
                    ));
                    assert(diff_torn(old_tree, new_tree) == diff_torn_children(
                        os_all,
                        ns_all,
                    ));
                    assert(diff_updated(old_tree, new_tree, depth == 0) == root_upd
                        + diff_updated_children(os_all, ns_all));
                    assert(child_pairs_fault(os_all, ns_all) == child_pairs_fault(
                        os_all.skip(0),
                        ns_all.skip(0),
                    ));
                }
                while new_children.len() > 0 && old_children.len() > 0
                    invariant
                        0 <= i,
                        i <= os_all.len(),
                        i <= ns_all.len(),
                        old_children@ == os_all.skip(i),
                        new_children@ == ns_all.skip(i),
                        new_el.children@.len() == i,
                        old_tree == Tree::Element(g_old_el),
                        new_tree == Tree::Element(g_new_el),
                        os_all == g_old_el.children@,
                        ns_all == g_new_el.children@,
                        new_el.tag == g_new_el.tag,
                        new_el.props == g_new_el.props,
                        new_el.factory == g_new_el.factory,
                        new_el.instance == g_old_el.instance,
                        new_el.instance == Some(inst),
                        new_el.layout_node == g_old_el.layout_node,
                        is_native_backed == inst.native_backed,
                        reconciled_children(os_all.take(i), ns_all.take(i), new_el.children@),
                        host.instances@.len() == entry_instances + acc,
                        entry_instances == old(host).instances@.len(),
                        entry_handles == old(host).layout.nodes@.len(),
                        happy == (!pair_faults(old_tree, new_tree) && live_child(
                            old_tree,
                            entry_instances,
                            entry_handles,
                        ) && described_child(new_tree)),
                        diff_created_children(os_all, ns_all) == acc + diff_created_children(
                            os_all.skip(i),
                            ns_all.skip(i),
                        ),
                        torn_count(host.events@) == torn_count(old(host).events@) + torn_acc,
                        updated_count(host.events@) == updated_count(old(host).events@)
                            + root_upd + upd_acc,
                        diff_torn_children(os_all, ns_all) == torn_acc + diff_torn_children(
                            os_all.skip(i),
                            ns_all.skip(i),
                        ),
                        diff_updated_children(os_all, ns_all) == upd_acc
                            + diff_updated_children(os_all.skip(i), ns_all.skip(i)),
                        child_pairs_fault(os_all, ns_all) == child_pairs_fault(
                            os_all.skip(i),
                            ns_all.skip(i),
                        ),
                        !replace_needed(old_tree, new_tree),
                        old(host).events@.is_prefix_of(host.events@),
                        host.layout.nodes@.len() >= entry_handles,
                        happy ==> live_children(os_all.skip(i), entry_instances, entry_handles),
                        happy ==> described_children(ns_all.skip(i)),
                        happy ==> !child_pairs_fault(os_all.skip(i), ns_all.skip(i)),
                        happy ==> (is_native_backed <==> new_el.layout_node is Some),
                        happy ==> (new_el.layout_node matches Some(h) ==> h < entry_handles),
                    decreases new_children@.len(),
                {
                    let ghost ev_s = host.events@;
                    let nc = new_children.remove(0);
                    let oc = old_children.remove(0);
                    proof {
                        assert(nc == ns_all.skip(i)[0]);
                        assert(nc == ns_all[i]);
                        assert(oc == os_all.skip(i)[0]);
                        assert(oc == os_all[i]);
                        assert(new_children@ =~= ns_all.skip(i + 1));
                        assert(old_children@ =~= os_all.skip(i + 1));
                        assert(os_all.skip(i).drop_first() =~= os_all.skip(i + 1));
                        assert(ns_all.skip(i).drop_first() =~= ns_all.skip(i + 1));
                        assert(decreases_to!(g_new_el.children@ => nc));
                        assert(decreases_to!(Tree::Element(g_new_el) => g_new_el));
                        assert(decreases_to!(g_new_el => g_new_el.children@));
                        assert(decreases_to!(new_tree => nc));
                        assert(diff_created_children(os_all.skip(i), ns_all.skip(i))
                            == diff_created(oc, nc) + diff_created_children(
                            os_all.skip(i + 1),
                            ns_all.skip(i + 1),
                        ));
                        assert(diff_torn_children(os_all.skip(i), ns_all.skip(i))
                            == diff_torn(oc, nc) + diff_torn_children(
                            os_all.skip(i + 1),
                            ns_all.skip(i + 1),
                        ));
                        assert(diff_updated_children(os_all.skip(i), ns_all.skip(i))
                            == diff_updated(oc, nc, false) + diff_updated_children(
                            os_all.skip(i + 1),
                            ns_all.skip(i + 1),
                        ));
                        assert(child_pairs_fault(os_all.skip(i), ns_all.skip(i))
                            == (pair_faults(oc, nc) || child_pairs_fault(
                            os_all.skip(i + 1),
                            ns_all.skip(i + 1),
                        )));
                        if happy {
                            assert(live_child(oc, entry_instances, entry_handles));
                            assert(described_child(nc));
                            assert(!pair_faults(oc, nc));
                            lemma_live_child_mono(
                                oc,
                                entry_instances,
                                entry_handles,
                                host.instances@.len(),
                                host.layout.nodes@.len(),
                            );
                        }
                    }
                    let next_depth = if depth == usize::MAX {
                        depth
                    } else {
                        depth + 1
                    };
                    let updated = match diff_and_patch_tree(oc, nc, host, next_depth) {
                        Ok(u) => u,
                        Err(e) => {
                            proof {
                                lemma_prefix_trans(old(host).events@, ev_s, host.events@);
                                if happy {
                                    assert(false);
                                }
                                if pair_faults(oc, nc) {
                                    assert(child_pairs_fault(os_all, ns_all));
                                    assert(pair_faults(old_tree, new_tree));
                                }
                            }
                            return Err(e);
                        },
                    };
                    let ghost pre_children = new_el.children@;
                    new_el.children.push(updated);
                    proof {
                        lemma_prefix_trans(old(host).events@, ev_s, host.events@);
                        assert(new_el.children@ == pre_children.push(updated));
                        lemma_rc_snoc_pair(
                            os_all.take(i),
                            ns_all.take(i),
                            pre_children,
                            oc,
                            nc,
                            updated,
                        );
                        assert(os_all.take(i + 1) =~= os_all.take(i).push(os_all[i]));
                        assert(ns_all.take(i + 1) =~= ns_all.take(i).push(ns_all[i]));
                        assert(next_depth > 0);
                        assert(!pair_faults(oc, nc));
                        acc = acc + diff_created(oc, nc);
                        torn_acc = torn_acc + diff_torn(oc, nc);
                        upd_acc = upd_acc + diff_updated(oc, nc, false);
                        i = i + 1;
                    }
                }
                if new_children.len() > 0 {
                    proof {
                        assert(old_children@.len() == 0);
                        assert(i == os_all.len());
                        assert(os_all.take(i) =~= os_all);
                        assert(diff_created_children(os_all.skip(i), ns_all.skip(i))
                            == children_created_count(ns_all.skip(i)));
                        assert(os_all.skip(i).len() == 0);
                        assert(diff_torn_children(os_all.skip(i), ns_all.skip(i)) == 0);
                        assert(diff_updated_children(os_all.skip(i), ns_all.skip(i)) == 0);
                        assert(!child_pairs_fault(os_all.skip(i), ns_all.skip(i)));
                    }
                    while new_children.len() > 0
                    invariant
                        0 <= i,
                        i >= os_all.len(),
                        i <= ns_all.len(),
                        new_children@ == ns_all.skip(i),
                        old_children@.len() == 0,
                        old_tree == Tree::Element(g_old_el),
                        new_tree == Tree::Element(g_new_el),
                        os_all == g_old_el.children@,
                        ns_all == g_new_el.children@,
                        new_el.tag == g_new_el.tag,
                        new_el.props == g_new_el.props,
                        new_el.factory == g_new_el.factory,
                        new_el.instance == g_old_el.instance,
                        new_el.instance == Some(inst),
                        new_el.layout_node == g_old_el.layout_node,
                        is_native_backed == inst.native_backed,
                        reconciled_children(os_all, ns_all.take(i), new_el.children@),
                        host.instances@.len() == entry_instances + acc,
                        entry_instances == old(host).instances@.len(),
                        entry_handles == old(host).layout.nodes@.len(),
                        happy == (!pair_faults(old_tree, new_tree) && live_child(
                            old_tree,
                            entry_instances,
                            entry_handles,
                        ) && described_child(new_tree)),
                        diff_created_children(os_all, ns_all) == acc + children_created_count(
                            ns_all.skip(i),
                        ),
                        torn_count(host.events@) == torn_count(old(host).events@) + torn_acc,
                        updated_count(host.events@) == updated_count(old(host).events@)
                            + root_upd + upd_acc,
                        diff_torn_children(os_all, ns_all) == torn_acc,
                        diff_updated_children(os_all, ns_all) == upd_acc,
                        !child_pairs_fault(os_all, ns_all),
                        old(host).events@.is_prefix_of(host.events@),
                        host.layout.nodes@.len() >= entry_handles,
                        happy ==> described_children(ns_all.skip(i)),
                        happy ==> (is_native_backed <==> new_el.layout_node is Some),
                        happy ==> (new_el.layout_node matches Some(h) ==> h < entry_handles),
                    decreases new_children@.len(),
                {
                    let ghost ev_s = host.events@;
                    let nc = new_children.remove(0);
                    proof {
                        assert(nc == ns_all.skip(i)[0]);
                        assert(nc == ns_all[i]);
                        assert(new_children@ =~= ns_all.skip(i + 1));
                        assert(ns_all.skip(i).drop_first() =~= ns_all.skip(i + 1));
                        assert(children_created_count(ns_all.skip(i)) == (match ns_all.skip(
                            i,
                        )[0] {
                            Tree::Element(c) => mount_created_count(c),
                            _ => 0nat,
                        }) + children_created_count(ns_all.skip(i + 1)));
                        if happy {
                            assert(described_child(nc));
                        }
                    }
                    match nc {
                        Tree::Element(ne) => {
                            let ghost ly_pre = host.layout.nodes@.len();
                            let mounted = match mount_component_tree(ne, host) {
                                Ok(m) => m,
                                Err(e) => {
                                    proof {
                                        lemma_prefix_trans(
                                            old(host).events@,
                                            ev_s,
                                            host.events@,
                                        );
                                        if happy {
                                            assert(described_node(ne));
                                            assert(false);
                                        }
                                    }
                                    return Err(e);
                                },
                            };
                            let ghost ev_m = host.events@;
                            proof {
                                assert(torn_count(ev_m) == torn_count(old(host).events@)
                                    + torn_acc);
                                assert(updated_count(ev_m) == updated_count(
                                    old(host).events@,
                                ) + root_upd + upd_acc);
                            }
                            if is_native_backed {
                                match find_and_link_layout_nodes(&new_el, &mounted, host) {
                                    Ok(()) => {
                                        proof {
                                            if new_el.layout_node is Some {
                                                assert(host.events@ =~= ev_m
                                                    + appended_events(
                                                    inst.id,
                                                    nearest_backed(mounted),
                                                ));
                                                lemma_torn_count_concat(
                                                    ev_m,
                                                    appended_events(
                                                        inst.id,
                                                        nearest_backed(mounted),
                                                    ),
                                                );
                                                lemma_updated_count_concat(
                                                    ev_m,
                                                    appended_events(
                                                        inst.id,
                                                        nearest_backed(mounted),
                                                    ),
                                                );
                                                lemma_appended_events_counts(
                                                    inst.id,
                                                    nearest_backed(mounted),
                                                );
                                            } else {
                                                assert(host.events@ =~= ev_m);
                                            }
                                            assert(torn_count(host.events@) == torn_count(
                                                ev_m,
                                            ));
                                            assert(updated_count(host.events@)
                                                == updated_count(ev_m));
                                        }
                                    },
                                    Err(e) => {
                                        proof {
                                            lemma_prefix_trans(old(host).events@, ev_s, ev_m);
                                            lemma_prefix_trans(
                                                old(host).events@,
                                                ev_m,
                                                host.events@,
                                            );
                                            if happy {
                                                assert(pairs_valid(
                                                    nearest_backed(mounted),
                                                    host.layout.nodes@.len(),
                                                ));
                                                assert(false);
                                            }
                                        }
                                        return Err(e);
                                    },
                                }
                            }
                            let ghost pre_children = new_el.children@;
                            new_el.children.push(Tree::Element(mounted));
                            proof {
                                lemma_prefix_trans(old(host).events@, ev_s, ev_m);
                                lemma_prefix_trans(old(host).events@, ev_m, host.events@);
                                assert(new_el.children@ == pre_children.push(
                                    Tree::Element(mounted),
                                ));
                                lemma_rc_snoc_extra(
                                    os_all,
                                    ns_all.take(i),
                                    pre_children,
                                    nc,
                                    seq![Tree::Element(mounted)],
                                );
                                assert(pre_children + seq![Tree::Element(mounted)]
                                    =~= new_el.children@);
                                assert(ns_all.take(i + 1) =~= ns_all.take(i).push(ns_all[i]));
                                acc = acc + mount_created_count(ne);
                                i = i + 1;
                            }
                        },
                        _ => {
                            proof {
                                lemma_rc_snoc_extra(
                                    os_all,
                                    ns_all.take(i),
                                    new_el.children@,
                                    nc,
                                    Seq::<Tree>::empty(),
                                );
                                assert(new_el.children@ + Seq::<Tree>::empty()
                                    =~= new_el.children@);
                                assert(ns_all.take(i + 1) =~= ns_all.take(i).push(ns_all[i]));
                                i = i + 1;
                            }
                        },
                    }
                }
                    proof {
                        assert(i == ns_all.len());
                        assert(ns_all.take(i) =~= ns_all);
                        assert(ns_all.skip(i).len() == 0);
                        assert(children_created_count(ns_all.skip(i)) == 0);
                        assert(reconciled_children(os_all, ns_all, new_el.children@));
                        assert(diff_created_children(os_all, ns_all) == acc);
                        assert(old_children@.len() == 0);
                        assert(teardown_list(old_children@) =~= Seq::<Event>::empty());
                        assert(diff_torn_children(os_all, ns_all) == torn_acc
                            + teardown_list(old_children@).len());
                    }
                } else {
                    proof {
                        assert(i == ns_all.len());
                        assert(ns_all.take(i) =~= ns_all);
                        assert(diff_created_children(os_all.skip(i), ns_all.skip(i)) == 0);
                        if old_children@.len() > 0 {
                            assert(os_all.take(i) =~= os_all.take(ns_all.len() as int));
                            lemma_rc_old_tail(os_all, ns_all, new_el.children@);
                            assert(diff_torn_children(os_all.skip(i), ns_all.skip(i))
                                == teardown_list(os_all.skip(i)).len());
                        } else {
                            assert(i == os_all.len());
                            assert(os_all.take(i) =~= os_all);
                            assert(teardown_list(old_children@) =~= Seq::<Event>::empty());
                            assert(diff_torn_children(os_all.skip(i), ns_all.skip(i)) == 0);
                        }
                        assert(reconciled_children(os_all, ns_all, new_el.children@));
                        assert(diff_created_children(os_all, ns_all) == acc);
                        assert(diff_torn_children(os_all, ns_all) == torn_acc
                            + teardown_list(old_children@).len());
                        assert(diff_updated_children(os_all.skip(i), ns_all.skip(i)) == 0);
                        assert(!child_pairs_fault(os_all.skip(i), ns_all.skip(i)));
                    }
                }
                let ghost ev_trim = host.events@;
                let ghost mut trimmed_done: Seq<Tree> = Seq::empty();
                proof {
                    assert(host.events@ =~= ev_trim + teardown_list(trimmed_done));
                    if os_all.len() >= ns_all.len() {
                        assert(trimmed_done + old_children@ =~= os_all.skip(
                            ns_all.len() as int,
                        ));
                    } else {
                        assert(old_children@.len() == 0);
                        assert(trimmed_done + old_children@ =~= Seq::<Tree>::empty());
                    }
                }
                while old_children.len() > 0
                    invariant
                        0 <= i,
                        old_children@.len() <= os_all.len(),
                        host.events@ == ev_trim + teardown_list(trimmed_done),
                        trimmed_done + old_children@ == (if os_all.len() >= ns_all.len() {
                            os_all.skip(ns_all.len() as int)
                        } else {
                            Seq::<Tree>::empty()
                        }),
                        old_tree == Tree::Element(g_old_el),
                        new_tree == Tree::Element(g_new_el),
                        os_all == g_old_el.children@,
                        ns_all == g_new_el.children@,
                        new_el.tag == g_new_el.tag,
                        new_el.props == g_new_el.props,
                        new_el.factory == g_new_el.factory,
                        new_el.instance == g_old_el.instance,
                        new_el.instance == Some(inst),
                        new_el.layout_node == g_old_el.layout_node,
                        reconciled_children(os_all, ns_all, new_el.children@),
                        host.instances@.len() == entry_instances + acc,
                        entry_instances == old(host).instances@.len(),
                        entry_handles == old(host).layout.nodes@.len(),
                        happy == (!pair_faults(old_tree, new_tree) && live_child(
                            old_tree,
                            entry_instances,
                            entry_handles,
                        ) && described_child(new_tree)),
                        diff_created_children(os_all, ns_all) == acc,
                        torn_count(host.events@) == torn_count(old(host).events@) + torn_acc,
                        updated_count(host.events@) == updated_count(old(host).events@)
                            + root_upd + upd_acc,
                        diff_torn_children(os_all, ns_all) == torn_acc + teardown_list(
                            old_children@,
                        ).len(),
                        diff_updated_children(os_all, ns_all) == upd_acc,
                        !child_pairs_fault(os_all, ns_all),
                        old(host).events@.is_prefix_of(host.events@),
                        host.layout.nodes@.len() >= entry_handles,
                        happy ==> live_children(
                            old_children@,
                            entry_instances,
                            entry_handles,
                        ),
                    decreases old_children@.len(),
                {
                    let ghost ev_s = host.events@;
                    let ghost pre_rem = old_children@;
                    let oc = old_children.remove(0);
                    proof {
                        assert(oc == pre_rem[0]);
                        assert(old_children@ =~= pre_rem.drop_first());
                        assert(trimmed_done.push(oc) + old_children@ =~= trimmed_done
                            + pre_rem);
                        assert(teardown_list(pre_rem) == teardown_seq(oc) + teardown_list(
                            old_children@,
                        ));
                        if happy {
                            assert(live_child(oc, entry_instances, entry_handles));
                        }
                    }
                    match oc {
                        Tree::Element(oe) => {
                            match unmount_component_tree(&oe, host) {
                                Ok(()) => {
                                    proof {
                                        lemma_prefix_trans(
                                            old(host).events@,
                                            ev_s,
                                            host.events@,
                                        );
                                        lemma_teardown_list_snoc(trimmed_done, oc);
                                        assert(host.events@ =~= ev_trim + teardown_list(
                                            trimmed_done.push(oc),
                                        ));
                                        trimmed_done = trimmed_done.push(oc);
                                        assert(host.events@ =~= ev_s + teardown_seq(oc));
                                        lemma_torn_count_concat(ev_s, teardown_seq(oc));
                                        lemma_updated_count_concat(ev_s, teardown_seq(oc));
                                        lemma_teardown_seq_counts(oc);
                                        torn_acc = torn_acc + teardown_seq(oc).len();
                                    }
                                },
                                Err(e) => {
                                    proof {
                                        lemma_prefix_trans(
                                            old(host).events@,
                                            ev_s,
                                            host.events@,
                                        );
                                        if happy {
                                            lemma_live_detach(
                                                Tree::Element(oe),
                                                entry_instances,
                                                entry_handles,
                                                host.layout.nodes@.len(),
                                            );
                                            assert(false);
                                        }
                                    }
                                    return Err(e);
                                },
                            }
                        },
                        _ => {
                            proof {
                                lemma_teardown_list_snoc(trimmed_done, oc);
                                assert(teardown_seq(oc) =~= Seq::<Event>::empty());
                                assert(host.events@ =~= ev_trim + teardown_list(
                                    trimmed_done.push(oc),
                                ));
                                trimmed_done = trimmed_done.push(oc);
                                assert(teardown_seq(oc).len() == 0);
                            }
                        },
                    }
                }
                proof {
                    assert(reconciled(old_tree, new_tree, Tree::Element(new_el)));
                    assert(diff_created(old_tree, new_tree) == acc);
                    if os_all.len() >= ns_all.len() {
                        assert(trimmed_done + old_children@ =~= trimmed_done);
                        assert(trimmed_done =~= os_all.skip(ns_all.len() as int));
                        lemma_concat_suffix(ev_trim, teardown_list(trimmed_done));
                    }
                    assert(teardown_list(old_children@) =~= Seq::<Event>::empty());
                    assert(diff_torn(old_tree, new_tree) == torn_acc);
                    assert(diff_updated(old_tree, new_tree, depth == 0) == root_upd
                        + upd_acc);
                    assert(!pair_faults(old_tree, new_tree));
                }
                Ok(Tree::Element(new_el))
            }
        },
        (Tree::Text(_), Tree::Text(s)) => {
            proof {
                assert(host.events@.subrange(0, old(host).events@.len() as int) =~= old(
                    host,
                ).events@);
                assert(diff_torn(old_tree, new_tree) == 0);
                assert(diff_updated(old_tree, new_tree, depth == 0) == 0);
            }
            Ok(Tree::Text(s))
        },
        (Tree::Element(old_el), Tree::Text(s)) => {
            match unmount_component_tree(&old_el, host) {
                Ok(()) => {
                    proof {
                        assert(host.events@ =~= old(host).events@ + teardown_seq(old_tree));
                        lemma_torn_count_concat(old(host).events@, teardown_seq(old_tree));
                        lemma_updated_count_concat(old(host).events@, teardown_seq(old_tree));
                        lemma_teardown_seq_counts(old_tree);
                        assert(diff_torn(old_tree, new_tree) == teardown_seq(old_tree).len());
                        assert(diff_updated(old_tree, new_tree, depth == 0) == 0);
                    }
                },
                Err(e) => {
                    proof {
                        if happy {
                            lemma_live_detach(
                                Tree::Element(old_el),
                                entry_instances,
                                entry_handles,
                                entry_handles,
                            );
                            assert(false);
                        }
                    }
                    return Err(e);
                },
            }
            Ok(Tree::Text(s))
        },
        (Tree::Text(_), Tree::Element(new_el)) => {
            let ghost g_new_el = new_el;
            proof {
                assert(teardown_seq(old_tree) =~= Seq::<Event>::empty());
                assert(diff_torn(old_tree, new_tree) == 0);
                assert(diff_updated(old_tree, new_tree, depth == 0) == 0);
            }
            let mounted = match mount_component_tree(new_el, host) {
                Ok(m) => m,
                Err(e) => {
                    proof {
                        if happy {
                            assert(described_node(g_new_el));
                            assert(false);
                        }
                    }
                    return Err(e);
                },
            };
            Ok(Tree::Element(mounted))
        },
        _ => {
            proof {
                assert(host.events@.subrange(0, old(host).events@.len() as int) =~= old(
                    host,
                ).events@);
                assert(pair_faults(old_tree, new_tree));
            }
            Err(ReconcileError::UnexpectedEmpty)
        },
    }
}


} // verus!
