//! What a pass does to the document: the document accepts every mutation
//! of a pass, in order, and holds afterwards what the materialized tree
//! says.

use vstd::prelude::*;
use crate::document::{create_op, DocumentModel, OpModel, FIRST_HANDLE, ROOT_HANDLE};
use crate::dom::{all_declared_wf, declared_wf, keys_unique, AttributeModel, ListenerModel, NodeModel};
use crate::host::{
    accepted, blank, bounded, landing, lemma_run_concat, lemma_run_push, run, Attachment,
    HostModel, HostNode,
};
use crate::keys::child_path;
use crate::laws::{law_first_match, law_render_pass_converges};
use crate::pass::{
    add_all, add_node, attach_all, attach_missing, create_node, detach_stale, first_match,
    reconcile, remove_op, remove_stale, remove_trailing, renders, serves, set_all, set_missing,
    trailing_removals, update_node, Pass,
};
use crate::sync::{
    attachment, attachment_map, attribute_key, attribute_map, attribute_value, handles_of, keyed,
    keys_differ, lemma_keyed_at, lemma_owned_handles,
    holds, lemma_held_is_owned, lemma_level_held_is_owned, lemma_level_wf_grows, lemma_owned_below, lemma_synced_frame,
    lemma_wf_grows, level_holds, level_owns, level_synced, level_tight, level_wf,
    listener_handle, node_tight, owns, synced, tree_wf, untouched,
};
use crate::sync_node::{
    lemma_keys_unique_differ, lemma_attach_all_host, lemma_attach_missing_host, lemma_detach_stale_host,
    lemma_remove_stale_host, lemma_set_all_host, lemma_set_missing_host,
};
use crate::system::root_pass;
use crate::vdom::{mount_point, owned_handles, VNodeModel};

verus! {

/// Whether the document that has made the mutations of `doc`, starting from
/// `start`, follows the materialized node `v`: it has accepted every
/// mutation, it holds the node and all below it and nothing else under their
/// handles, the handles of the node are in order, and the handles from the
/// document's next one on are unused.
pub open spec fn follows(start: HostModel, doc: DocumentModel, v: VNodeModel) -> bool {
    &&& accepted(start, doc.ops)
    &&& bounded(run(start, doc.ops), doc.next)
    &&& synced(run(start, doc.ops), v)
    &&& tree_wf(v, doc.next)
    &&& node_tight(run(start, doc.ops), v)
}

/// Whether the document that has made the mutations of `doc`, starting from
/// `start`, follows the level as the children of the node `parent`: it has
/// accepted every mutation, the children of `parent` are the entries of the
/// level, in order, each held with all below it and nothing else under their
/// handles, the handles of the level are in order and none is that of
/// `parent`, and the handles from the document's next one on are unused.
pub open spec fn level_follows(
    start: HostModel,
    doc: DocumentModel,
    parent: int,
    level: Seq<VNodeModel>,
) -> bool {
    &&& accepted(start, doc.ops)
    &&& bounded(run(start, doc.ops), doc.next)
    &&& level_synced(run(start, doc.ops), parent, level)
    &&& level_wf(level, doc.next)
    &&& !level_owns(level, parent)
    &&& level_tight(run(start, doc.ops), level)
}

/// Whether the step that took the document from `before` to `after`, and the
/// level of the children of `parent` from `level` to `later_level`, kept to
/// its own: of the node `parent` only the children changed; every other
/// handle from before the step that did not belong to the level is
/// untouched; what belongs to the level after the step belonged to it
/// before or was handed out during the step; and of what belonged to the
/// level or was handed out, the document holds afterwards only the nodes of
/// the level.
pub open spec fn level_effect(
    before: HostModel,
    next: int,
    parent: int,
    level: Seq<VNodeModel>,
    after: HostModel,
    later: int,
    later_level: Seq<VNodeModel>,
) -> bool {
    &&& next <= later
    &&& after.nodes[parent] == (HostNode {
        children: after.nodes[parent].children,
        ..before.nodes[parent]
    })
    &&& forall|h: int|
        h < next && h != parent && !level_owns(level, h) ==> #[trigger] untouched(
            before,
            after,
            h,
        )
    &&& forall|h: int|
        #[trigger] level_owns(later_level, h) ==> level_owns(level, h) || next <= h < later
    &&& forall|h: int| #[trigger] after.has(h) ==> before.has(h) || next <= h < later
    &&& forall|h: int|
        #[trigger] after.has(h) && (level_owns(level, h) || next <= h) ==> level_holds(
            later_level,
            h,
        )
}

/// Whether the step that took the document from `before` to `after`, and a
/// materialized node from `v` to `later_v`, kept to its own: the node is
/// still the same node and hangs where it hung; every handle from before the
/// step that did not belong to the node is untouched; what belongs to the
/// node after the step belonged to it before or was handed out during the
/// step; and of what belonged to the node or was handed out, the document
/// holds afterwards only the node and the nodes below it.
pub open spec fn node_effect(
    before: HostModel,
    next: int,
    v: VNodeModel,
    after: HostModel,
    later: int,
    later_v: VNodeModel,
) -> bool {
    &&& next <= later
    &&& later_v.handle == v.handle
    &&& later_v.value == v.value
    &&& later_v.keys == v.keys
    &&& after.nodes[v.handle].parent == before.nodes[v.handle].parent
    &&& forall|h: int| h < next && !owns(v, h) ==> #[trigger] untouched(before, after, h)
    &&& forall|h: int| #[trigger] owns(later_v, h) ==> owns(v, h) || next <= h < later
    &&& forall|h: int| #[trigger] after.has(h) ==> before.has(h) || next <= h < later
    &&& forall|h: int| #[trigger] after.has(h) && (owns(v, h) || next <= h) ==> holds(later_v, h)
}

/// The entries of a level in order have handles of their own.
pub proof fn lemma_handles_distinct(level: Seq<VNodeModel>, next: int)
    requires
        level_wf(level, next),
    ensures
        forall|i: int, j: int|
            0 <= i < level.len() && 0 <= j < level.len() && i != j ==> (#[trigger] level[i]).handle
                != (#[trigger] level[j]).handle,
{
    assert forall|i: int, j: int|
        0 <= i < level.len() && 0 <= j < level.len() && i != j implies (#[trigger] level[i]).handle
        != (#[trigger] level[j]).handle by {
        assert(owns(level[i], level[i].handle));
        assert(owns(level[j], level[j].handle));
    }
}

/// The handles that belong to a level in order lie below the bound.
pub proof fn lemma_level_owned_below(level: Seq<VNodeModel>, next: int, h: int)
    requires
        level_wf(level, next),
        level_owns(level, h),
    ensures
        h < next,
{
    let i = choose|i: int| 0 <= i < level.len() && owns(#[trigger] level[i], h);
    lemma_owned_below(level[i], next, h);
}

/// A document that agrees with another on the node `parent` and on every
/// handle of a level holds the level where the other does.
pub proof fn lemma_level_frame(
    before: HostModel,
    after: HostModel,
    parent: int,
    level: Seq<VNodeModel>,
)
    requires
        level_synced(before, parent, level),
        after.has(parent),
        after.nodes[parent].children == before.nodes[parent].children,
        forall|h: int| #[trigger] level_owns(level, h) ==> untouched(before, after, h),
    ensures
        level_synced(after, parent, level),
{
    assert forall|i: int| 0 <= i < level.len() implies synced(after, #[trigger] level[i])
        && after.nodes[level[i].handle].parent == Some(parent) by {
        let v = level[i];
        assert forall|h: int| #[trigger] owns(v, h) implies untouched(before, after, h) by {
            assert(level_owns(level, h));
        }
        lemma_synced_frame(before, after, v);
        assert(owns(v, v.handle));
        assert(level_owns(level, v.handle));
    }
}

/// Removing the last entry of a level from the document leaves a document
/// that follows the entries before it.
pub proof fn lemma_remove_last(
    start: HostModel,
    doc: DocumentModel,
    parent: int,
    level: Seq<VNodeModel>,
)
    requires
        level_follows(start, doc, parent, level),
        level.len() > 0,
    ensures
        level_follows(
            start,
            doc.record(remove_op(level.last())),
            parent,
            level.drop_last(),
        ),
        level_effect(
            run(start, doc.ops),
            doc.next,
            parent,
            level,
            run(start, doc.record(remove_op(level.last())).ops),
            doc.next,
            level.drop_last(),
        ),
{
    let host = run(start, doc.ops);
    let gone = level.last();
    let op = remove_op(gone);
    let rest = level.drop_last();
    let children = host.nodes[parent].children;
    let last = level.len() - 1;
    lemma_run_push(start, doc.ops, op);
    lemma_handles_distinct(level, doc.next);
    assert(level[last] == gone);
    assert(owns(gone, gone.handle));
    assert(level_owns(level, gone.handle));
    assert(children[last] == gone.handle);
    assert(children.contains(gone.handle));
    let at = children.index_of(gone.handle);
    assert(0 <= at < children.len() && children[at] == gone.handle);
    if at != last {
        assert(level[at].handle != level[last].handle);
    }
    let released = owned_handles(gone);
    lemma_owned_handles(gone, gone.handle);
    lemma_owned_handles(gone, parent);
    if owns(gone, parent) {
        assert(level_owns(level, parent));
    }
    assert(host.accepts(op));
    let after = host.apply(op);
    assert(children.remove(at) =~= handles_of(rest));
    assert forall|h: int| !owns(gone, h) implies after.has(h) == #[trigger] host.has(h) && (h
        != parent && host.has(h) ==> after.nodes[h] == host.nodes[h]) by {
        lemma_owned_handles(gone, h);
    }
    assert forall|h: int| #[trigger] level_owns(rest, h) implies level_owns(level, h)
        && untouched(host, after, h) by {
        let i = choose|i: int| 0 <= i < rest.len() && owns(#[trigger] rest[i], h);
        assert(rest[i] == level[i]);
        assert(owns(level[i], h));
        if owns(gone, h) {
            assert(owns(level[last], h));
            assert(!(owns(level[i], h) && owns(level[last], h)));
        }
    }
    assert forall|i: int| 0 <= i < rest.len() implies synced(after, #[trigger] rest[i])
        && after.nodes[rest[i].handle].parent == Some(parent) by {
        let v = rest[i];
        assert(v == level[i]);
        assert forall|h: int| #[trigger] owns(v, h) implies untouched(host, after, h) by {
            assert(level_owns(rest, h));
        }
        lemma_synced_frame(host, after, v);
        assert(owns(v, v.handle));
        assert(level_owns(rest, v.handle));
    }
    assert forall|i: int| 0 <= i < rest.len() implies tree_wf(#[trigger] rest[i], doc.next) by {
        assert(rest[i] == level[i]);
    }
    assert forall|i: int, j: int, h: int|
        0 <= i < rest.len() && 0 <= j < rest.len() && i != j implies !(#[trigger] owns(
            rest[i],
            h,
        ) && #[trigger] owns(rest[j], h)) by {
        assert(rest[i] == level[i] && rest[j] == level[j]);
    }
    assert forall|h: int| h < doc.next && h != parent && !level_owns(level, h) implies
        #[trigger] untouched(host, after, h) by {
        if owns(gone, h) {
            assert(owns(level[last], h));
        }
    }
    assert forall|h: int| #[trigger] after.has(h) implies h < doc.next && host.has(h) && !owns(
        gone,
        h,
    ) by {
        lemma_owned_handles(gone, h);
        assert(host.has(h));
    }
    // what the document still holds of the level is held by the entries that stay
    assert forall|h: int| #[trigger] after.has(h) && level_owns(level, h) implies level_holds(
        rest,
        h,
    ) by {
        assert(host.has(h));
        assert(level_holds(level, h));
        let i = choose|i: int| 0 <= i < level.len() && holds(#[trigger] level[i], h);
        if i == last {
            lemma_held_is_owned(gone, h);
        }
        assert(holds(rest[i], h));
    }
    assert forall|h: int| after.has(h) && #[trigger] level_owns(rest, h) implies level_holds(
        rest,
        h,
    ) by {}
}

/// A step that does nothing keeps to its own.
pub proof fn lemma_level_effect_none(
    start: HostModel,
    doc: DocumentModel,
    parent: int,
    level: Seq<VNodeModel>,
)
    requires
        level_follows(start, doc, parent, level),
    ensures
        level_effect(
            run(start, doc.ops),
            doc.next,
            parent,
            level,
            run(start, doc.ops),
            doc.next,
            level,
        ),
{
    let host = run(start, doc.ops);
    assert(host.nodes[parent] == HostNode {
        children: host.nodes[parent].children,
        ..host.nodes[parent]
    });
    assert forall|h: int| #[trigger] host.has(h) && (level_owns(level, h) || doc.next
        <= h) implies level_holds(level, h) by {}
}

/// Clearing a level from `cursor` on leaves a document that follows the
/// entries before `cursor`.
pub proof fn lemma_remove_trailing(
    start: HostModel,
    doc: DocumentModel,
    parent: int,
    level: Seq<VNodeModel>,
    cursor: int,
)
    requires
        level_follows(start, doc, parent, level),
        0 <= cursor <= level.len(),
    ensures
        level_follows(
            start,
            remove_trailing(level, cursor, doc).doc,
            parent,
            remove_trailing(level, cursor, doc).level,
        ),
        level_effect(
            run(start, doc.ops),
            doc.next,
            parent,
            level,
            run(start, remove_trailing(level, cursor, doc).doc.ops),
            doc.next,
            remove_trailing(level, cursor, doc).level,
        ),
    decreases level.len() - cursor,
{
    let host = run(start, doc.ops);
    let done = remove_trailing(level, cursor, doc);
    if cursor == level.len() {
        assert(done.level =~= level);
        assert(done.doc.ops =~= doc.ops);
        lemma_level_effect_none(start, doc, parent, level);
    } else {
        let op = remove_op(level.last());
        let d1 = doc.record(op);
        let rest = level.drop_last();
        lemma_remove_last(start, doc, parent, level);
        lemma_remove_trailing(start, d1, parent, rest, cursor);
        let cleared = remove_trailing(rest, cursor, d1);
        assert(cleared.level =~= done.level);
        assert(trailing_removals(level, cursor) =~= seq![op] + trailing_removals(rest, cursor));
        assert(cleared.doc.ops =~= done.doc.ops);
        lemma_level_effect_trans(
            host,
            doc.next,
            parent,
            level,
            run(start, d1.ops),
            doc.next,
            rest,
            run(start, done.doc.ops),
            doc.next,
            done.level,
        );
    }
}

/// Two steps on one level, one after the other, keep to their own where
/// each does.
pub proof fn lemma_level_effect_trans(
    first: HostModel,
    next: int,
    parent: int,
    level: Seq<VNodeModel>,
    second: HostModel,
    later: int,
    later_level: Seq<VNodeModel>,
    third: HostModel,
    last: int,
    last_level: Seq<VNodeModel>,
)
    requires
        level_effect(first, next, parent, level, second, later, later_level),
        level_effect(second, later, parent, later_level, third, last, last_level),
    ensures
        level_effect(first, next, parent, level, third, last, last_level),
{
    assert forall|h: int| h < next && h != parent && !level_owns(level, h) implies
        #[trigger] untouched(first, third, h) by {
        assert(untouched(first, second, h));
        assert(untouched(second, third, h));
    }
    assert forall|h: int| #[trigger] level_owns(last_level, h) implies level_owns(level, h)
        || next <= h < last by {
        if level_owns(later_level, h) {
        }
    }
    assert forall|h: int| #[trigger] third.has(h) implies first.has(h) || next <= h < last by {
        if second.has(h) {
        }
    }
    assert forall|h: int| #[trigger] third.has(h) && (level_owns(level, h) || next
        <= h) implies level_holds(last_level, h) by {
        if h < later {
            assert(second.has(h));
            assert(level_holds(later_level, h));
            lemma_level_held_is_owned(later_level, h);
        }
    }
}

/// After one entry of a level was brought up to date, the document follows
/// the level with the new entry in the place of the old one.
pub proof fn lemma_replace_entry(
    start: HostModel,
    doc: DocumentModel,
    later: DocumentModel,
    parent: int,
    level: Seq<VNodeModel>,
    at: int,
    entry: VNodeModel,
)
    requires
        level_follows(start, doc, parent, level),
        0 <= at < level.len(),
        follows(start, later, entry),
        node_effect(
            run(start, doc.ops),
            doc.next,
            level[at],
            run(start, later.ops),
            later.next,
            entry,
        ),
    ensures
        level_follows(start, later, parent, level.update(at, entry)),
        level_effect(
            run(start, doc.ops),
            doc.next,
            parent,
            level,
            run(start, later.ops),
            later.next,
            level.update(at, entry),
        ),
{
    let before = run(start, doc.ops);
    let after = run(start, later.ops);
    let old_entry = level[at];
    let new_level = level.update(at, entry);
    assert(before.has(parent));
    assert(parent < doc.next);
    assert(!owns(old_entry, parent)) by {
        if owns(old_entry, parent) {
            assert(level_owns(level, parent));
        }
    }
    assert(untouched(before, after, parent));
    assert(handles_of(new_level) =~= handles_of(level));
    assert forall|i: int| 0 <= i < new_level.len() implies synced(after, #[trigger] new_level[i])
        && after.nodes[new_level[i].handle].parent == Some(parent) by {
        if i != at {
            let v = level[i];
            assert(new_level[i] == v);
            assert forall|h: int| #[trigger] owns(v, h) implies untouched(before, after, h) by {
                lemma_owned_below(v, doc.next, h);
                assert(!(owns(level[i], h) && owns(level[at], h)));
            }
            lemma_synced_frame(before, after, v);
            assert(owns(v, v.handle));
        }
    }
    assert forall|i: int| 0 <= i < new_level.len() implies tree_wf(
        #[trigger] new_level[i],
        later.next,
    ) by {
        if i != at {
            lemma_wf_grows(level[i], doc.next, later.next);
        }
    }
    assert forall|i: int, j: int, h: int|
        0 <= i < new_level.len() && 0 <= j < new_level.len() && i != j implies !(#[trigger] owns(
            new_level[i],
            h,
        ) && #[trigger] owns(new_level[j], h)) by {
        if owns(new_level[i], h) && owns(new_level[j], h) {
            if i == at {
                lemma_owned_below(level[j], doc.next, h);
                assert(owns(level[i], h));
                assert(!(owns(level[i], h) && owns(level[j], h)));
            } else if j == at {
                lemma_owned_below(level[i], doc.next, h);
                assert(owns(level[j], h));
                assert(!(owns(level[i], h) && owns(level[j], h)));
            } else {
                assert(!(owns(level[i], h) && owns(level[j], h)));
            }
        }
    }
    assert forall|h: int| #[trigger] level_owns(new_level, h) implies level_owns(level, h)
        || doc.next <= h < later.next by {
        let i = choose|i: int| 0 <= i < new_level.len() && owns(#[trigger] new_level[i], h);
        if i == at {
            if owns(old_entry, h) {
                assert(owns(level[at], h));
            }
        } else {
            assert(owns(level[i], h));
        }
    }
    assert forall|h: int| h < doc.next && h != parent && !level_owns(level, h) implies
        #[trigger] untouched(before, after, h) by {
        if owns(old_entry, h) {
            assert(owns(level[at], h));
        }
    }
    if level_owns(new_level, parent) {
        assert(level_owns(level, parent) || doc.next <= parent);
    }
    // of what belonged to the level, the document holds only the new level
    assert forall|h: int| #[trigger] after.has(h) && (level_owns(level, h) || doc.next
        <= h) implies level_holds(new_level, h) by {
        if owns(old_entry, h) || doc.next <= h {
            assert(holds(entry, h));
            assert(holds(new_level[at], h));
        } else {
            lemma_level_owned_below(level, doc.next, h);
            assert(untouched(before, after, h));
            assert(level_holds(level, h));
            let j = choose|j: int| 0 <= j < level.len() && holds(#[trigger] level[j], h);
            if j == at {
                lemma_held_is_owned(old_entry, h);
            }
            assert(holds(new_level[j], h));
        }
    }
    assert forall|h: int| after.has(h) && #[trigger] level_owns(new_level, h) implies level_holds(
        new_level,
        h,
    ) by {}
}

/// Moving an entry of a level towards the front leaves a document that
/// follows the level with the entry at its new place.
pub proof fn lemma_move_entry(
    start: HostModel,
    doc: DocumentModel,
    parent: int,
    level: Seq<VNodeModel>,
    from: int,
    to: int,
)
    requires
        level_follows(start, doc, parent, level),
        0 <= to < from < level.len(),
    ensures
        level_follows(
            start,
            doc.record(OpModel::MoveChild { parent, old_index: from, new_index: to }),
            parent,
            level.remove(from).insert(to, level[from]),
        ),
        level_effect(
            run(start, doc.ops),
            doc.next,
            parent,
            level,
            run(
                start,
                doc.record(OpModel::MoveChild { parent, old_index: from, new_index: to }).ops,
            ),
            doc.next,
            level.remove(from).insert(to, level[from]),
        ),
{
    let before = run(start, doc.ops);
    let op = OpModel::MoveChild { parent, old_index: from, new_index: to };
    let moved = level.remove(from).insert(to, level[from]);
    lemma_run_push(start, doc.ops, op);
    let after = before.apply(op);
    assert(landing(from, to) == to);
    let children = before.nodes[parent].children;
    assert(children.remove(from).insert(to, children[from]) =~= handles_of(moved));
    // where each entry of the new level came from
    let origin = |i: int|
        if i < to {
            i
        } else if i == to {
            from
        } else if i <= from {
            i - 1
        } else {
            i
        };
    assert forall|i: int| 0 <= i < moved.len() implies moved[i] == level[origin(i)] && 0
        <= origin(i) < level.len() by {}
    assert forall|h: int| #[trigger] level_owns(moved, h) implies level_owns(level, h) by {
        let i = choose|i: int| 0 <= i < moved.len() && owns(#[trigger] moved[i], h);
        assert(owns(level[origin(i)], h));
    }
    assert forall|i: int| 0 <= i < moved.len() implies synced(after, #[trigger] moved[i])
        && after.nodes[moved[i].handle].parent == Some(parent) by {
        let v = level[origin(i)];
        assert(moved[i] == v);
        assert forall|h: int| #[trigger] owns(v, h) implies untouched(before, after, h) by {
            assert(level_owns(level, h));
        }
        lemma_synced_frame(before, after, v);
        assert(owns(v, v.handle));
    }
    assert forall|i: int| 0 <= i < moved.len() implies tree_wf(#[trigger] moved[i], doc.next) by {
        assert(moved[i] == level[origin(i)]);
    }
    assert forall|i: int, j: int, h: int|
        0 <= i < moved.len() && 0 <= j < moved.len() && i != j implies !(#[trigger] owns(
            moved[i],
            h,
        ) && #[trigger] owns(moved[j], h)) by {
        assert(moved[i] == level[origin(i)] && moved[j] == level[origin(j)]);
        assert(origin(i) != origin(j));
        assert(!(owns(level[origin(i)], h) && owns(level[origin(j)], h)));
    }
    assert forall|h: int| #[trigger] after.has(h) implies h < doc.next && before.has(h) by {
        assert(before.has(h));
    }
    assert forall|h: int| h < doc.next && h != parent && !level_owns(level, h) implies
        #[trigger] untouched(before, after, h) by {}
    assert forall|h: int| #[trigger] after.has(h) && (level_owns(level, h) || doc.next
        <= h) implies level_holds(moved, h) by {
        assert(level_holds(level, h));
        let j = choose|j: int| 0 <= j < level.len() && holds(#[trigger] level[j], h);
        let i = if j < to {
            j
        } else if j == from {
            to
        } else if j < from {
            j + 1
        } else {
            j
        };
        assert(moved[i] == level[j]);
        assert(holds(moved[i], h));
    }
    assert forall|h: int| after.has(h) && #[trigger] level_owns(moved, h) implies level_holds(
        moved,
        h,
    ) by {}
}

/// Putting a node that was just created into a level leaves a document that
/// follows the level with the new entry.
pub proof fn lemma_insert_entry(
    start: HostModel,
    doc: DocumentModel,
    later: DocumentModel,
    parent: int,
    level: Seq<VNodeModel>,
    cursor: int,
    entry: VNodeModel,
)
    requires
        level_follows(start, doc, parent, level),
        0 <= cursor <= level.len(),
        follows(start, later, entry),
        doc.next <= later.next,
        forall|h: int| #[trigger] owns(entry, h) ==> doc.next <= h < later.next,
        forall|h: int| h < doc.next ==> #[trigger] untouched(
            run(start, doc.ops),
            run(start, later.ops),
            h,
        ),
        run(start, later.ops).nodes[entry.handle].parent is None,
        forall|h: int|
            #[trigger] run(start, later.ops).has(h) ==> run(start, doc.ops).has(h) || doc.next
                <= h < later.next,
        forall|h: int| #[trigger] run(start, later.ops).has(h) && doc.next <= h ==> holds(entry, h),
    ensures
        level_follows(
            start,
            later.record(OpModel::InsertChild { parent, index: cursor, child: entry.handle }),
            parent,
            level.insert(cursor, entry),
        ),
        level_effect(
            run(start, doc.ops),
            doc.next,
            parent,
            level,
            run(
                start,
                later.record(
                    OpModel::InsertChild { parent, index: cursor, child: entry.handle },
                ).ops,
            ),
            later.next,
            level.insert(cursor, entry),
        ),
{
    let before = run(start, doc.ops);
    let made = run(start, later.ops);
    let op = OpModel::InsertChild { parent, index: cursor, child: entry.handle };
    let more = level.insert(cursor, entry);
    lemma_run_push(start, later.ops, op);
    assert(before.has(parent));
    assert(parent < doc.next);
    assert(untouched(before, made, parent));
    assert(owns(entry, entry.handle));
    assert(made.accepts(op));
    let after = made.apply(op);
    let children = before.nodes[parent].children;
    assert(children.insert(cursor, entry.handle) =~= handles_of(more));
    let origin = |i: int|
        if i < cursor {
            i
        } else {
            i - 1
        };
    assert forall|i: int| 0 <= i < more.len() && i != cursor implies more[i] == level[origin(i)]
        && 0 <= origin(i) < level.len() by {}
    assert(more[cursor] == entry);
    assert forall|i: int| 0 <= i < more.len() implies synced(after, #[trigger] more[i])
        && after.nodes[more[i].handle].parent == Some(parent) by {
        if i == cursor {
            lemma_reparent(made, entry, later.next, parent);
            let hung = made.with(
                entry.handle,
                HostNode { parent: Some(parent), ..made.nodes[entry.handle] },
            );
            assert forall|h: int| #[trigger] owns(entry, h) implies untouched(hung, after, h) by {}
            lemma_synced_frame(hung, after, entry);
        } else {
            let v = level[origin(i)];
            assert(more[i] == v);
            assert forall|h: int| #[trigger] owns(v, h) implies untouched(before, after, h) by {
                lemma_owned_below(v, doc.next, h);
                assert(level_owns(level, h));
                assert(untouched(before, made, h));
            }
            lemma_synced_frame(before, after, v);
            assert(owns(v, v.handle));
            lemma_owned_below(v, doc.next, v.handle);
            assert(untouched(before, made, v.handle));
        }
    }
    assert forall|i: int| 0 <= i < more.len() implies tree_wf(#[trigger] more[i], later.next) by {
        if i != cursor {
            lemma_wf_grows(level[origin(i)], doc.next, later.next);
        }
    }
    assert forall|i: int, j: int, h: int|
        0 <= i < more.len() && 0 <= j < more.len() && i != j implies !(#[trigger] owns(
            more[i],
            h,
        ) && #[trigger] owns(more[j], h)) by {
        if owns(more[i], h) && owns(more[j], h) {
            if i == cursor {
                lemma_owned_below(level[origin(j)], doc.next, h);
            } else if j == cursor {
                lemma_owned_below(level[origin(i)], doc.next, h);
            } else {
                assert(origin(i) != origin(j));
                assert(!(owns(level[origin(i)], h) && owns(level[origin(j)], h)));
            }
        }
    }
    assert forall|h: int| #[trigger] level_owns(more, h) implies level_owns(level, h) || doc.next
        <= h < later.next by {
        let i = choose|i: int| 0 <= i < more.len() && owns(#[trigger] more[i], h);
        if i != cursor {
            assert(owns(level[origin(i)], h));
        }
    }
    if level_owns(more, parent) {
        assert(level_owns(level, parent) || doc.next <= parent);
    }
    assert forall|h: int| #[trigger] after.has(h) implies h < later.next && made.has(h) by {
        assert(made.has(h));
    }
    assert forall|h: int| h < doc.next && h != parent && !level_owns(level, h) implies
        #[trigger] untouched(before, after, h) by {
        assert(untouched(before, made, h));
    }
    assert forall|h: int| #[trigger] after.has(h) && (level_owns(level, h) || doc.next
        <= h) implies level_holds(more, h) by {
        assert(made.has(h));
        if doc.next <= h {
            assert(holds(entry, h));
            assert(holds(more[cursor], h));
        } else {
            assert(untouched(before, made, h));
            assert(level_holds(level, h));
            let j = choose|j: int| 0 <= j < level.len() && holds(#[trigger] level[j], h);
            let i = if j < cursor {
                j
            } else {
                j + 1
            };
            assert(more[i] == level[j]);
            assert(holds(more[i], h));
        }
    }
    assert forall|h: int| after.has(h) && #[trigger] level_owns(more, h) implies level_holds(
        more,
        h,
    ) by {}
}

/// A node that the document holds is still held when it is hung under
/// another node.
pub proof fn lemma_reparent(host: HostModel, v: VNodeModel, next: int, parent: int)
    requires
        synced(host, v),
        tree_wf(v, next),
    ensures
        synced(
            host.with(v.handle, HostNode { parent: Some(parent), ..host.nodes[v.handle] }),
            v,
        ),
{
    let hung = host.with(v.handle, HostNode { parent: Some(parent), ..host.nodes[v.handle] });
    assert forall|i: int| 0 <= i < v.children.len() implies synced(hung, #[trigger] v.children[i])
        && hung.nodes[v.children[i].handle].parent == Some(v.handle) by {
        let child = v.children[i];
        assert forall|h: int| #[trigger] owns(child, h) implies untouched(host, hung, h) by {
            assert(level_owns(v.children, h));
        }
        lemma_synced_frame(host, hung, child);
        assert(owns(child, child.handle));
        assert(level_owns(v.children, child.handle));
    }
}

/// The mutations that bring the listeners and the attributes of a node up to
/// date change, in the document, the listeners and the attributes of that
/// node and nothing else, and leave there what the node retains.
pub proof fn lemma_update_own(
    start: HostModel,
    v: VNodeModel,
    path: Seq<u32>,
    node: NodeModel,
    doc: DocumentModel,
)
    requires
        follows(start, doc, v),
        v.keys == path,
        keys_unique(node.attributes),
    ensures
        ({
            let host = run(start, doc.ops);
            let (kept, d0) = detach_stale(v.handle, v.listeners, node.listeners, doc);
            let (listeners, d1) = attach_missing(v.handle, path, kept, node.listeners, d0);
            let (retained, d2) = remove_stale(v.handle, v.attributes, node.attributes, d1);
            let (attributes, d3) = set_missing(v.handle, retained, node.attributes, d2);
            &&& accepted(start, d3.ops)
            &&& run(start, d3.ops) == host.with(
                v.handle,
                HostNode {
                    listeners: attachment_map(listeners, path),
                    attributes: attribute_map(attributes),
                    ..host.nodes[v.handle]
                },
            )
            &&& bounded(run(start, d3.ops), d3.next)
            &&& keys_differ(listeners, listener_handle())
            &&& keys_unique(attributes)
            &&& doc.next <= d3.next
            &&& forall|i: int|
                0 <= i < listeners.len() ==> keyed(
                    v.listeners,
                    listener_handle(),
                    (#[trigger] listeners[i]).handle,
                ) || doc.next <= listeners[i].handle < d3.next
        }),
{
    let host = run(start, doc.ops);
    let h = v.handle;
    let (kept, d0) = detach_stale(h, v.listeners, node.listeners, doc);
    let (listeners, d1) = attach_missing(h, path, kept, node.listeners, d0);
    let (retained, d2) = remove_stale(h, v.attributes, node.attributes, d1);
    let (attributes, d3) = set_missing(h, retained, node.attributes, d2);
    lemma_detach_stale_host(start, h, v.listeners, node.listeners, doc, path);
    let h0 = run(start, d0.ops);
    assert forall|x: int| #[trigger] h0.has(x) implies x < d0.next by {
        assert(host.has(x));
    }
    assert forall|i: int| 0 <= i < kept.len() implies (#[trigger] kept[i]).handle < d0.next by {
        let j = choose|j: int|
            0 <= j < v.listeners.len() && listener_handle()(#[trigger] v.listeners[j])
                == kept[i].handle;
        assert(v.listeners[j].handle < doc.next);
    }
    lemma_attach_missing_host(start, h, path, kept, node.listeners, d0);
    let h1 = run(start, d1.ops);
    lemma_remove_stale_host(start, h, v.attributes, node.attributes, d1);
    let h2 = run(start, d2.ops);
    lemma_set_missing_host(start, h, retained, node.attributes, d2);
    let h3 = run(start, d3.ops);
    assert(h3.nodes =~= host.with(
        h,
        HostNode {
            listeners: attachment_map(listeners, path),
            attributes: attribute_map(attributes),
            ..host.nodes[h]
        },
    ).nodes);
    assert forall|x: int| #[trigger] h3.has(x) implies x < d3.next by {
        assert(host.has(x));
    }
    assert forall|i: int| 0 <= i < listeners.len() implies keyed(
        v.listeners,
        listener_handle(),
        (#[trigger] listeners[i]).handle,
    ) || doc.next <= listeners[i].handle < d3.next by {
        if i < kept.len() {
            assert(listeners.take(kept.len() as int)[i] == kept[i]);
        }
    }
}

/// When the children of a node have been reconciled after its listeners and
/// attributes, the document follows the node as it is then.
pub proof fn lemma_update_done(
    start: HostModel,
    v: VNodeModel,
    doc: DocumentModel,
    own: DocumentModel,
    done: DocumentModel,
    later_v: VNodeModel,
)
    requires
        follows(start, doc, v),
        doc.next <= own.next,
        run(start, own.ops) == run(start, doc.ops).with(
            v.handle,
            HostNode {
                listeners: attachment_map(later_v.listeners, v.keys),
                attributes: attribute_map(later_v.attributes),
                ..run(start, doc.ops).nodes[v.handle]
            },
        ),
        keys_differ(later_v.listeners, listener_handle()),
        keys_unique(later_v.attributes),
        forall|i: int|
            0 <= i < later_v.listeners.len() ==> keyed(
                v.listeners,
                listener_handle(),
                (#[trigger] later_v.listeners[i]).handle,
            ) || doc.next <= later_v.listeners[i].handle < own.next,
        later_v.handle == v.handle,
        later_v.value == v.value,
        later_v.keys == v.keys,
        level_follows(start, done, v.handle, later_v.children),
        level_effect(
            run(start, own.ops),
            own.next,
            v.handle,
            v.children,
            run(start, done.ops),
            done.next,
            later_v.children,
        ),
    ensures
        follows(start, done, later_v),
        node_effect(
            run(start, doc.ops),
            doc.next,
            v,
            run(start, done.ops),
            done.next,
            later_v,
        ),
{
    let host = run(start, doc.ops);
    let mid = run(start, own.ops);
    let after = run(start, done.ops);
    let h = v.handle;
    assert forall|i: int| 0 <= i < later_v.listeners.len() implies (
    #[trigger] later_v.listeners[i]).handle < done.next && later_v.listeners[i].handle != h
        && !level_owns(later_v.children, later_v.listeners[i].handle) by {
        let l = later_v.listeners[i].handle;
        if keyed(v.listeners, listener_handle(), l) {
            let j = choose|j: int|
                0 <= j < v.listeners.len() && listener_handle()(#[trigger] v.listeners[j]) == l;
            assert(v.listeners[j].handle < doc.next);
            assert(!level_owns(v.children, v.listeners[j].handle));
        }
        if level_owns(later_v.children, l) {
            if level_owns(v.children, l) {
                lemma_level_owned_below(v.children, doc.next, l);
            }
        }
    }
    if level_owns(later_v.children, h) {
        assert(level_owns(v.children, h) || own.next <= h);
    }
    assert forall|x: int| x < doc.next && !owns(v, x) implies #[trigger] untouched(
        host,
        after,
        x,
    ) by {
        assert(untouched(host, mid, x));
        assert(untouched(mid, after, x));
    }
    assert forall|x: int| #[trigger] owns(later_v, x) implies owns(v, x) || doc.next <= x
        < done.next by {
        if keyed(later_v.listeners, listener_handle(), x) {
            let i = choose|i: int|
                0 <= i < later_v.listeners.len() && listener_handle()(
                    #[trigger] later_v.listeners[i],
                ) == x;
            assert(keyed(v.listeners, listener_handle(), later_v.listeners[i].handle) || doc.next
                <= later_v.listeners[i].handle < own.next);
        } else if level_owns(later_v.children, x) {
        }
    }
    assert forall|x: int| #[trigger] after.has(x) implies host.has(x) || doc.next <= x
        < done.next by {
        if mid.has(x) {
            assert(host.has(x));
        }
    }
    // of what belonged to the node, the document holds only the node as it is now
    assert forall|x: int| #[trigger] after.has(x) && (owns(v, x) || doc.next <= x) implies holds(
        later_v,
        x,
    ) by {
        if x == h {
        } else if level_owns(v.children, x) || own.next <= x {
            assert(level_holds(later_v.children, x));
        } else {
            assert(mid.has(x));
            assert(host.has(x));
            assert(owns(v, x));
            assert(holds(v, x));
            lemma_level_held_is_owned(v.children, x);
        }
    }
    assert forall|x: int| after.has(x) && #[trigger] owns(later_v, x) implies holds(later_v, x) by {}
}

/// When the children of a node that was just created have been
/// materialized, the document follows the node.
pub proof fn lemma_create_done(
    start: HostModel,
    doc: DocumentModel,
    own: DocumentModel,
    done: DocumentModel,
    v: VNodeModel,
)
    requires
        accepted(start, doc.ops),
        bounded(run(start, doc.ops), doc.next),
        v.handle == doc.next,
        doc.next < own.next,
        run(start, own.ops) == run(start, doc.ops).with(
            v.handle,
            HostNode {
                listeners: attachment_map(v.listeners, v.keys),
                attributes: attribute_map(v.attributes),
                ..blank(v.value)
            },
        ),
        keys_differ(v.listeners, listener_handle()),
        keys_unique(v.attributes),
        forall|i: int|
            0 <= i < v.listeners.len() ==> doc.next < (#[trigger] v.listeners[i]).handle
                < own.next,
        level_follows(start, done, v.handle, v.children),
        level_effect(
            run(start, own.ops),
            own.next,
            v.handle,
            Seq::empty(),
            run(start, done.ops),
            done.next,
            v.children,
        ),
    ensures
        follows(start, done, v),
        run(start, done.ops).nodes[v.handle].parent is None,
        forall|h: int| #[trigger] owns(v, h) ==> doc.next <= h < done.next,
        forall|h: int|
            h < doc.next ==> #[trigger] untouched(run(start, doc.ops), run(start, done.ops), h),
        forall|h: int|
            #[trigger] run(start, done.ops).has(h) ==> run(start, doc.ops).has(h) || doc.next <= h
                < done.next,
        forall|h: int| #[trigger] run(start, done.ops).has(h) && doc.next <= h ==> holds(v, h),
{
    let host = run(start, doc.ops);
    let mid = run(start, own.ops);
    let after = run(start, done.ops);
    let h = v.handle;
    let none = Seq::<VNodeModel>::empty();
    assert forall|x: int| !level_owns(none, x) by {}
    assert forall|i: int| 0 <= i < v.listeners.len() implies !level_owns(
        v.children,
        (#[trigger] v.listeners[i]).handle,
    ) by {
        let l = v.listeners[i].handle;
        if level_owns(v.children, l) {
            assert(level_owns(none, l) || own.next <= l);
        }
    }
    if level_owns(v.children, h) {
        assert(level_owns(none, h) || own.next <= h);
    }
    assert forall|x: int| x < doc.next implies #[trigger] untouched(host, after, x) by {
        assert(untouched(host, mid, x));
        assert(!level_owns(none, x));
        assert(untouched(mid, after, x));
    }
    assert forall|x: int| #[trigger] owns(v, x) implies doc.next <= x < done.next by {
        if keyed(v.listeners, listener_handle(), x) {
            let i = choose|i: int|
                0 <= i < v.listeners.len() && listener_handle()(#[trigger] v.listeners[i]) == x;
            assert(doc.next < v.listeners[i].handle < own.next);
        } else if level_owns(v.children, x) {
            assert(level_owns(none, x) || own.next <= x < done.next);
        }
    }
    assert forall|x: int| #[trigger] after.has(x) implies host.has(x) || doc.next <= x
        < done.next by {
        if mid.has(x) && x != h {
            assert(host.has(x));
        }
    }
    assert forall|x: int| #[trigger] after.has(x) && doc.next <= x implies holds(v, x) by {
        if x == h {
        } else if own.next <= x {
            assert(level_holds(v.children, x));
        } else {
            assert(mid.has(x));
            assert(host.has(x));
        }
    }
    assert forall|x: int| after.has(x) && #[trigger] owns(v, x) implies holds(v, x) by {}
}

/// Bringing a node up to date keeps the document in step: the document
/// accepts the mutations and follows the node as it is afterwards, and the
/// step touches nothing that is not the node's.
pub proof fn law_update_follows(
    start: HostModel,
    v: VNodeModel,
    path: Seq<u32>,
    node: NodeModel,
    doc: DocumentModel,
)
    requires
        follows(start, doc, v),
        v.keys == path,
        declared_wf(node),
    ensures
        follows(start, update_node(v, path, node, doc).1, update_node(v, path, node, doc).0),
        node_effect(
            run(start, doc.ops),
            doc.next,
            v,
            run(start, update_node(v, path, node, doc).1.ops),
            update_node(v, path, node, doc).1.next,
            update_node(v, path, node, doc).0,
        ),
    decreases node, 0int,
{
    let host = run(start, doc.ops);
    let h = v.handle;
    let (kept, d0) = detach_stale(h, v.listeners, node.listeners, doc);
    let (listeners, d1) = attach_missing(h, path, kept, node.listeners, d0);
    let (retained, d2) = remove_stale(h, v.attributes, node.attributes, d1);
    let (attributes, d3) = set_missing(h, retained, node.attributes, d2);
    lemma_update_own(start, v, path, node, doc);
    let mid = run(start, d3.ops);
    let start_below = Pass { level: v.children, doc: d3 };
    // the children are still held: only the node itself has changed
    assert(!level_owns(v.children, h));
    assert forall|x: int| #[trigger] level_owns(v.children, x) implies untouched(host, mid, x) by {}
    lemma_level_frame(host, mid, h, v.children);
    lemma_level_wf_grows(v.children, doc.next, d3.next);
    assert forall|x: int| mid.has(x) && #[trigger] level_owns(v.children, x) implies level_holds(
        v.children,
        x,
    ) by {
        assert(host.has(x));
        assert(owns(v, x));
        assert(holds(v, x));
    }
    law_reconcile_follows(start, start_below, path, h, node.children);
    let below = reconcile(start_below, path, h, node.children);
    let later_v = update_node(v, path, node, doc).0;
    assert(later_v == VNodeModel { attributes, listeners, children: below.level, ..v });
    lemma_update_done(start, v, doc, d3, below.doc, later_v);
}

/// Creating a node keeps the document in step: the document accepts the
/// mutations and follows the new node, whose handles are all new, and the
/// step touches nothing that was there before.
pub proof fn law_create_follows(
    start: HostModel,
    path: Seq<u32>,
    node: NodeModel,
    doc: DocumentModel,
)
    requires
        accepted(start, doc.ops),
        bounded(run(start, doc.ops), doc.next),
        declared_wf(node),
    ensures
        follows(start, create_node(path, node, doc).1, create_node(path, node, doc).0),
        create_node(path, node, doc).0.handle == doc.next,
        doc.next < create_node(path, node, doc).1.next,
        run(start, create_node(path, node, doc).1.ops).nodes[doc.next].parent is None,
        forall|h: int|
            #[trigger] owns(create_node(path, node, doc).0, h) ==> doc.next <= h < create_node(
                path,
                node,
                doc,
            ).1.next,
        forall|h: int|
            h < doc.next ==> #[trigger] untouched(
                run(start, doc.ops),
                run(start, create_node(path, node, doc).1.ops),
                h,
            ),
        forall|h: int|
            #[trigger] run(start, create_node(path, node, doc).1.ops).has(h) ==> run(
                start,
                doc.ops,
            ).has(h) || doc.next <= h < create_node(path, node, doc).1.next,
        forall|h: int|
            #[trigger] run(start, create_node(path, node, doc).1.ops).has(h) && doc.next <= h
                ==> holds(create_node(path, node, doc).0, h),
    decreases node, 0int,
{
    let host = run(start, doc.ops);
    let handle = doc.next;
    let op = create_op(handle, node.value);
    let d0 = doc.record(op).allocate();
    let (listeners, d1) = attach_all(handle, path, node.listeners, d0);
    let d2 = set_all(handle, node.attributes, d1);
    lemma_run_push(start, doc.ops, op);
    if host.has(handle) {
        assert(handle < doc.next);
    }
    let h0 = run(start, d0.ops);
    assert(h0 == host.with(handle, blank(node.value)));
    assert forall|x: int| #[trigger] h0.has(x) implies x < d0.next by {
        if x != handle {
            assert(host.has(x));
        }
    }
    lemma_attach_all_host(start, handle, path, node.listeners, d0);
    let h1 = run(start, d1.ops);
    lemma_set_all_host(start, handle, node.attributes, d1);
    let h2 = run(start, d2.ops);
    assert(h2.nodes =~= host.with(
        handle,
        HostNode {
            listeners: attachment_map(listeners, path),
            attributes: attribute_map(node.attributes),
            ..blank(node.value)
        },
    ).nodes);
    assert forall|x: int| #[trigger] h2.has(x) implies x < d2.next by {
        assert(h0.has(x));
    }
    let none = Seq::<VNodeModel>::empty();
    let start_below = Pass { level: none, doc: d2 };
    assert(handles_of(none) =~= h2.nodes[handle].children);
    assert forall|x: int| !level_owns(none, x) by {}
    law_reconcile_follows(start, start_below, path, handle, node.children);
    let below = reconcile(start_below, path, handle, node.children);
    let v = create_node(path, node, doc).0;
    assert(v == VNodeModel {
        value: node.value,
        keys: path,
        handle,
        attributes: node.attributes,
        listeners,
        children: below.level,
    });
    lemma_create_done(start, doc, d2, below.doc, v);
}

/// A step keeps the document in step: the document accepts the mutations of
/// the step and follows the level as it is afterwards, and the step touches
/// nothing that is not the level's.
pub proof fn law_add_node_follows(
    start: HostModel,
    pass: Pass,
    keys: Seq<u32>,
    parent: int,
    cursor: int,
    node: NodeModel,
)
    requires
        level_follows(start, pass.doc, parent, pass.level),
        0 <= cursor <= pass.level.len(),
        declared_wf(node),
    ensures
        level_follows(
            start,
            add_node(pass, keys, parent, cursor, node).doc,
            parent,
            add_node(pass, keys, parent, cursor, node).level,
        ),
        level_effect(
            run(start, pass.doc.ops),
            pass.doc.next,
            parent,
            pass.level,
            run(start, add_node(pass, keys, parent, cursor, node).doc.ops),
            add_node(pass, keys, parent, cursor, node).doc.next,
            add_node(pass, keys, parent, cursor, node).level,
        ),
        add_node(pass, keys, parent, cursor, node).level.len() > cursor,
    decreases node, 1int,
{
    let host = run(start, pass.doc.ops);
    let path = child_path(keys, node.key);
    let found = first_match(pass.level, cursor, path, node.value);
    let after = add_node(pass, keys, parent, cursor, node);
    law_first_match(pass.level, cursor, path, node.value);
    if found < pass.level.len() {
        let v = pass.level[found];
        assert forall|h: int| host.has(h) && #[trigger] owns(v, h) implies holds(v, h) by {
            assert(level_owns(pass.level, h));
            assert(level_holds(pass.level, h));
            let j = choose|j: int| 0 <= j < pass.level.len() && holds(#[trigger] pass.level[j], h);
            if j != found {
                lemma_held_is_owned(pass.level[j], h);
                assert(!(owns(pass.level[j], h) && owns(pass.level[found], h)));
            }
        }
        law_update_follows(start, v, path, node, pass.doc);
        let (later_v, d) = update_node(v, path, node, pass.doc);
        lemma_replace_entry(start, pass.doc, d, parent, pass.level, found, later_v);
        let replaced = pass.level.update(found, later_v);
        if found == cursor {
            assert(after.level =~= replaced);
        } else {
            lemma_move_entry(start, d, parent, replaced, found, cursor);
            assert(after.level =~= replaced.remove(found).insert(cursor, replaced[found]));
            lemma_level_effect_trans(
                host,
                pass.doc.next,
                parent,
                pass.level,
                run(start, d.ops),
                d.next,
                replaced,
                run(start, after.doc.ops),
                after.doc.next,
                after.level,
            );
        }
    } else {
        law_create_follows(start, path, node, pass.doc);
        let (v, d) = create_node(path, node, pass.doc);
        lemma_insert_entry(start, pass.doc, d, parent, pass.level, cursor, v);
    }
}

/// The steps for the declared nodes keep the document in step.
pub proof fn law_add_all_follows(
    start: HostModel,
    pass: Pass,
    keys: Seq<u32>,
    parent: int,
    nodes: Seq<NodeModel>,
)
    requires
        level_follows(start, pass.doc, parent, pass.level),
        all_declared_wf(nodes),
    ensures
        level_follows(
            start,
            add_all(pass, keys, parent, nodes).doc,
            parent,
            add_all(pass, keys, parent, nodes).level,
        ),
        level_effect(
            run(start, pass.doc.ops),
            pass.doc.next,
            parent,
            pass.level,
            run(start, add_all(pass, keys, parent, nodes).doc.ops),
            add_all(pass, keys, parent, nodes).doc.next,
            add_all(pass, keys, parent, nodes).level,
        ),
        add_all(pass, keys, parent, nodes).level.len() >= nodes.len(),
    decreases nodes, 2int,
{
    let host = run(start, pass.doc.ops);
    if nodes.len() == 0 {
        assert(host.nodes[parent] == HostNode {
            children: host.nodes[parent].children,
            ..host.nodes[parent]
        });
    } else {
        let rest = nodes.drop_last();
        assert forall|i: int| 0 <= i < rest.len() implies declared_wf(#[trigger] rest[i]) by {
            assert(rest[i] == nodes[i]);
        }
        law_add_all_follows(start, pass, keys, parent, rest);
        let before = add_all(pass, keys, parent, rest);
        assert(declared_wf(nodes[nodes.len() - 1]));
        law_add_node_follows(start, before, keys, parent, nodes.len() - 1, nodes.last());
        let after = add_all(pass, keys, parent, nodes);
        lemma_level_effect_trans(
            host,
            pass.doc.next,
            parent,
            pass.level,
            run(start, before.doc.ops),
            before.doc.next,
            before.level,
            run(start, after.doc.ops),
            after.doc.next,
            after.level,
        );
    }
}

/// A pass keeps the document in step: where the document follows the level
/// before the pass, it accepts every mutation of the pass, in order, and
/// follows the level as the pass leaves it. The pass touches nothing in the
/// document that is not the level's, and of the parent only the children.
pub proof fn law_reconcile_follows(
    start: HostModel,
    pass: Pass,
    keys: Seq<u32>,
    parent: int,
    nodes: Seq<NodeModel>,
)
    requires
        level_follows(start, pass.doc, parent, pass.level),
        all_declared_wf(nodes),
    ensures
        level_follows(
            start,
            reconcile(pass, keys, parent, nodes).doc,
            parent,
            reconcile(pass, keys, parent, nodes).level,
        ),
        level_effect(
            run(start, pass.doc.ops),
            pass.doc.next,
            parent,
            pass.level,
            run(start, reconcile(pass, keys, parent, nodes).doc.ops),
            reconcile(pass, keys, parent, nodes).doc.next,
            reconcile(pass, keys, parent, nodes).level,
        ),
    decreases nodes, 3int,
{
    let host = run(start, pass.doc.ops);
    law_add_all_follows(start, pass, keys, parent, nodes);
    let brought = add_all(pass, keys, parent, nodes);
    lemma_remove_trailing(start, brought.doc, parent, brought.level, nodes.len() as int);
    let done = reconcile(pass, keys, parent, nodes);
    lemma_level_effect_trans(
        host,
        pass.doc.next,
        parent,
        pass.level,
        run(start, brought.doc.ops),
        brought.doc.next,
        brought.level,
        run(start, done.doc.ops),
        done.doc.next,
        done.level,
    );
}

/// A document at rest: no mutation is outstanding, the next handle is `next`.
pub open spec fn at_rest(next: int) -> DocumentModel {
    DocumentModel { ops: Seq::empty(), next }
}

/// The document follows the materialized tree, cycle after cycle: where the
/// document holds the children of the root before a pass for a rendering in
/// which no node has two attributes with one key, the document accepts every
/// mutation of the pass in the order in which the pass records them, so
/// that no index of an insertion or a move is out of range, and no handle is
/// missing or taken; and after the mutations the document holds the children
/// of the root as the pass leaves them, each level in the order of the
/// materialized level, ready for the next pass.
pub proof fn law_document_follows(
    start: HostModel,
    root: VNodeModel,
    next: int,
    rendered: NodeModel,
)
    requires
        level_follows(start, at_rest(next), root.handle, root.children),
        declared_wf(rendered),
    ensures
        accepted(start, root_pass(root, next, rendered).doc.ops),
        level_follows(
            run(start, root_pass(root, next, rendered).doc.ops),
            at_rest(root_pass(root, next, rendered).doc.next),
            root.handle,
            root_pass(root, next, rendered).level,
        ),
        run(start, root_pass(root, next, rendered).doc.ops).nodes[root.handle].children
            == handles_of(root_pass(root, next, rendered).level),
{
    let pass = Pass { level: root.children, doc: at_rest(next) };
    assert(seq![rendered][0] == rendered);
    law_reconcile_follows(start, pass, Seq::empty(), root.handle, seq![rendered]);
}

/// Mounting brings the document in step: a document that holds the root
/// element and no other handle accepts the mutations of the mount, and holds
/// afterwards the rendering under the root, ready for the first pass.
pub proof fn law_mount_follows(start: HostModel, rendered: NodeModel)
    requires
        start.has(ROOT_HANDLE as int),
        bounded(start, FIRST_HANDLE as int),
        declared_wf(rendered),
    ensures
        ({
            let done = root_pass(mount_point(ROOT_HANDLE as int), FIRST_HANDLE as int, rendered);
            let ops = seq![OpModel::RemoveAllChildren { handle: ROOT_HANDLE as int }]
                + done.doc.ops;
            &&& accepted(start, ops)
            &&& level_follows(
                run(start, ops),
                at_rest(done.doc.next),
                ROOT_HANDLE as int,
                done.level,
            )
        }),
{
    let root = mount_point(ROOT_HANDLE as int);
    let first = seq![OpModel::RemoveAllChildren { handle: ROOT_HANDLE as int }];
    let done = root_pass(root, FIRST_HANDLE as int, rendered);
    lemma_run_push(start, Seq::empty(), first[0]);
    assert(Seq::<OpModel>::empty().push(first[0]) =~= first);
    let emptied = run(start, first);
    assert(handles_of(root.children) =~= emptied.nodes[ROOT_HANDLE as int].children);
    assert forall|h: int| #[trigger] emptied.has(h) implies h < FIRST_HANDLE by {
        assert(start.has(h));
    }
    assert forall|h: int| !level_owns(root.children, h) by {}
    law_document_follows(emptied, root, FIRST_HANDLE as int, rendered);
    lemma_run_concat(start, first, done.doc.ops);
}

/// The listeners that a document should hold for a node with the declared
/// listeners `listeners` and the key path `path`.
pub open spec fn declared_attachments(listeners: Seq<ListenerModel>, path: Seq<u32>) -> Set<
    Attachment,
> {
    Set::new(
        |a: Attachment|
            a.keys == path && listeners.contains(
                ListenerModel { handler: a.handler, event: a.event },
            ),
    )
}

/// Whether the document shows the declared node `node`, whose parent has the
/// key path `keys`, in its node `handle`: the node is what is declared, it
/// has exactly the declared attributes, its listeners are exactly the
/// declared ones, each with the key path of the node, and its children show
/// the declared children, one by one and in order.
pub open spec fn document_shows(host: HostModel, handle: int, keys: Seq<u32>, node: NodeModel) -> bool
    decreases node,
{
    let path = child_path(keys, node.key);
    &&& host.has(handle)
    &&& host.nodes[handle].value == node.value
    &&& host.nodes[handle].attributes == attribute_map(node.attributes)
    &&& host.nodes[handle].listeners.values() == declared_attachments(node.listeners, path)
    &&& host.nodes[handle].children.len() == node.children.len()
    &&& forall|i: int|
        0 <= i < node.children.len() ==> document_shows(
            host,
            host.nodes[handle].children[i],
            path,
            #[trigger] node.children[i],
        )
}

/// Two sequences of attributes without repeated keys that hold the same
/// attributes stand for the same attributes in the document.
pub proof fn lemma_same_attributes(retained: Seq<AttributeModel>, declared: Seq<AttributeModel>)
    requires
        keys_unique(retained),
        keys_unique(declared),
        forall|a: AttributeModel| #[trigger] retained.contains(a) == declared.contains(a),
    ensures
        attribute_map(retained) == attribute_map(declared),
{
    lemma_keys_unique_differ(retained);
    lemma_keys_unique_differ(declared);
    let left = attribute_map(retained);
    let right = attribute_map(declared);
    assert forall|key: Seq<char>| left.dom().contains(key) == right.dom().contains(key) by {
        if left.dom().contains(key) {
            let i = choose|i: int|
                0 <= i < retained.len() && attribute_key()(#[trigger] retained[i]) == key;
            assert(retained.contains(retained[i]));
            assert(declared.contains(retained[i]));
            let j = choose|j: int| 0 <= j < declared.len() && declared[j] == retained[i];
            assert(attribute_key()(declared[j]) == key);
        }
        if right.dom().contains(key) {
            let j = choose|j: int|
                0 <= j < declared.len() && attribute_key()(#[trigger] declared[j]) == key;
            assert(declared.contains(declared[j]));
            assert(retained.contains(declared[j]));
            let i = choose|i: int| 0 <= i < retained.len() && retained[i] == declared[j];
            assert(attribute_key()(retained[i]) == key);
        }
    }
    assert forall|key: Seq<char>| left.dom().contains(key) implies left[key] == right[key] by {
        let i = choose|i: int|
            0 <= i < retained.len() && attribute_key()(#[trigger] retained[i]) == key;
        assert(retained.contains(retained[i]));
        assert(declared.contains(retained[i]));
        let j = choose|j: int| 0 <= j < declared.len() && declared[j] == retained[i];
        lemma_keyed_at(retained, attribute_key(), attribute_value(), i);
        lemma_keyed_at(declared, attribute_key(), attribute_value(), j);
    }
    assert(left =~= right);
}

/// A document that holds a materialized node which shows a declared node
/// shows the declared node.
pub proof fn law_held_and_shown(
    host: HostModel,
    v: VNodeModel,
    next: int,
    keys: Seq<u32>,
    node: NodeModel,
)
    requires
        synced(host, v),
        tree_wf(v, next),
        renders(v, keys, node),
        declared_wf(node),
    ensures
        document_shows(host, v.handle, keys, node),
    decreases node,
{
    let path = child_path(keys, node.key);
    lemma_same_attributes(v.attributes, node.attributes);
    let held = host.nodes[v.handle].listeners;
    let wanted = declared_attachments(node.listeners, path);
    assert forall|a: Attachment| held.values().contains(a) == wanted.contains(a) by {
        let l = ListenerModel { handler: a.handler, event: a.event };
        if held.values().contains(a) {
            let h = choose|h: int| held.dom().contains(h) && held[h] == a;
            let i = choose|i: int|
                0 <= i < v.listeners.len() && listener_handle()(#[trigger] v.listeners[i]) == h;
            lemma_keyed_at(v.listeners, listener_handle(), attachment(v.keys), i);
            assert(v.listeners[i].listener() == l);
            assert(serves(v.listeners, l));
        }
        if wanted.contains(a) {
            assert(serves(v.listeners, l));
            let i = choose|i: int|
                0 <= i < v.listeners.len() && #[trigger] v.listeners[i].listener() == l;
            lemma_keyed_at(v.listeners, listener_handle(), attachment(v.keys), i);
            assert(held.dom().contains(v.listeners[i].handle) && held[v.listeners[i].handle]
                == a);
        }
    }
    assert(held.values() =~= wanted);
    assert forall|i: int| 0 <= i < node.children.len() implies document_shows(
        host,
        host.nodes[v.handle].children[i],
        path,
        #[trigger] node.children[i],
    ) by {
        assert(renders(v.children[i], path, node.children[i]));
        assert(synced(host, v.children[i]));
        law_held_and_shown(host, v.children[i], next, path, node.children[i]);
    }
}

/// The document shows the rendering: where the document holds the children
/// of the root before a pass for a rendering in which no node has two
/// attributes with one key, then after the mutations of the pass the root
/// has one child in the document, and that child shows the rendering, down
/// to the last attribute, listener and leaf.
pub proof fn law_document_shows_rendering(
    start: HostModel,
    root: VNodeModel,
    next: int,
    rendered: NodeModel,
)
    requires
        level_follows(start, at_rest(next), root.handle, root.children),
        declared_wf(rendered),
    ensures
        ({
            let done = root_pass(root, next, rendered);
            let after = run(start, done.doc.ops);
            &&& accepted(start, done.doc.ops)
            &&& after.nodes[root.handle].children.len() == 1
            &&& document_shows(after, after.nodes[root.handle].children[0], Seq::empty(), rendered)
        }),
{
    let done = root_pass(root, next, rendered);
    let after = run(start, done.doc.ops);
    law_document_follows(start, root, next, rendered);
    law_render_pass_converges(root, next, rendered);
    assert(synced(after, done.level[0]));
    assert(tree_wf(done.level[0], done.doc.next));
    law_held_and_shown(after, done.level[0], done.doc.next, Seq::empty(), rendered);
}

/// Whether the document holds nothing but the node `root` and the nodes of
/// the materialized level below it.
pub open spec fn nothing_else(host: HostModel, root: int, level: Seq<VNodeModel>) -> bool {
    forall|h: int| #[trigger] host.has(h) ==> h == root || level_holds(level, h)
}

/// Nothing is left behind: where the document holds nothing but the root and
/// the nodes of the materialized tree before a pass, it holds nothing but
/// the root and the nodes of the materialized tree after the mutations of
/// the pass. What a pass removes from the tree is gone from the document,
/// with all below it, so that the document does not grow beyond the tree.
pub proof fn law_nothing_left_behind(
    start: HostModel,
    root: VNodeModel,
    next: int,
    rendered: NodeModel,
)
    requires
        level_follows(start, at_rest(next), root.handle, root.children),
        nothing_else(start, root.handle, root.children),
        declared_wf(rendered),
    ensures
        nothing_else(
            run(start, root_pass(root, next, rendered).doc.ops),
            root.handle,
            root_pass(root, next, rendered).level,
        ),
{
    let pass = Pass { level: root.children, doc: at_rest(next) };
    let done = root_pass(root, next, rendered);
    let after = run(start, done.doc.ops);
    assert(seq![rendered][0] == rendered);
    law_reconcile_follows(start, pass, Seq::empty(), root.handle, seq![rendered]);
    assert forall|h: int| #[trigger] after.has(h) implies h == root.handle || level_holds(
        done.level,
        h,
    ) by {
        if start.has(h) && h != root.handle {
            lemma_level_held_is_owned(root.children, h);
        }
    }
}

/// After the mount of an application in a document that holds nothing but
/// the root element, the document holds nothing but the root element and the
/// nodes of the materialized tree.
pub proof fn law_mount_leaves_nothing_else(start: HostModel, rendered: NodeModel)
    requires
        forall|h: int| #[trigger] start.has(h) <==> h == ROOT_HANDLE,
        declared_wf(rendered),
    ensures
        ({
            let done = root_pass(mount_point(ROOT_HANDLE as int), FIRST_HANDLE as int, rendered);
            let ops = seq![OpModel::RemoveAllChildren { handle: ROOT_HANDLE as int }]
                + done.doc.ops;
            &&& accepted(start, ops)
            &&& level_follows(
                run(start, ops),
                at_rest(done.doc.next),
                ROOT_HANDLE as int,
                done.level,
            )
            &&& nothing_else(run(start, ops), ROOT_HANDLE as int, done.level)
        }),
{
    let root = mount_point(ROOT_HANDLE as int);
    let first = seq![OpModel::RemoveAllChildren { handle: ROOT_HANDLE as int }];
    let done = root_pass(root, FIRST_HANDLE as int, rendered);
    assert(start.has(ROOT_HANDLE as int));
    law_mount_follows(start, rendered);
    lemma_run_push(start, Seq::empty(), first[0]);
    assert(Seq::<OpModel>::empty().push(first[0]) =~= first);
    let emptied = run(start, first);
    assert(handles_of(root.children) =~= emptied.nodes[ROOT_HANDLE as int].children);
    assert forall|h: int| #[trigger] emptied.has(h) implies h == ROOT_HANDLE by {
        assert(start.has(h));
    }
    assert forall|h: int| !level_owns(root.children, h) by {}
    law_nothing_left_behind(emptied, root, FIRST_HANDLE as int, rendered);
    lemma_run_concat(start, first, done.doc.ops);
}

} // verus!
