//! What a reconciliation pass does, stated over the mathematical values of
//! the trees: which materialized nodes it leaves and which mutations it
//! records, in which order.

use vstd::prelude::*;
use crate::document::{create_op, DocumentModel, OpModel};
use crate::dom::{AttributeModel, ListenerModel, NodeModel, ValueModel};
use crate::keys::{child_path, KEY_CAPACITY};
use crate::vdom::{owned_handles, AttachedModel, VNodeModel};

verus! {

/// One level of the materialized tree in the course of a pass, together with
/// the document that records the pass.
pub struct Pass {
    pub level: Seq<VNodeModel>,
    pub doc: DocumentModel,
}

/// Whether a materialized node can be reused for a declared node with the key
/// path `path` and the value `value`: both must agree.
pub open spec fn is_match(v: VNodeModel, path: Seq<u32>, value: ValueModel) -> bool {
    v.keys == path && v.value == value
}

/// The index of the first entry of `level` at or after `from` that matches,
/// or the length of `level` where there is none.
pub open spec fn first_match(
    level: Seq<VNodeModel>,
    from: int,
    path: Seq<u32>,
    value: ValueModel,
) -> int
    decreases level.len() - from,
{
    if from < 0 || from >= level.len() {
        level.len() as int
    } else if is_match(level[from], path, value) {
        from
    } else {
        first_match(level, from + 1, path, value)
    }
}

/// Whether the declared listeners hold the one that `a` serves.
pub open spec fn declares(declared: Seq<ListenerModel>, a: AttachedModel) -> bool {
    declared.contains(a.listener())
}

/// Whether one of the attached listeners serves the declared listener `l`.
pub open spec fn serves(attached: Seq<AttachedModel>, l: ListenerModel) -> bool {
    exists|i: int| 0 <= i < attached.len() && #[trigger] attached[i].listener() == l
}

/// The test that tells the attached listeners that stay.
pub open spec fn wanted(declared: Seq<ListenerModel>) -> spec_fn(AttachedModel) -> bool {
    |a: AttachedModel| declares(declared, a)
}

/// The test that tells the attached listeners that go.
pub open spec fn unwanted(declared: Seq<ListenerModel>) -> spec_fn(AttachedModel) -> bool {
    |a: AttachedModel| !declares(declared, a)
}

/// The mutation that detaches an attached listener from the node `handle`.
pub open spec fn detach_op(handle: int) -> spec_fn(AttachedModel) -> OpModel {
    |a: AttachedModel| OpModel::DetachListener { handle, event: a.event, listener: a.handle }
}

/// Detaching what is no longer declared: the attached listeners that stay, in
/// their order, and the document after it has recorded one detachment for
/// each of the others, in their order.
pub open spec fn detach_stale(
    handle: int,
    attached: Seq<AttachedModel>,
    declared: Seq<ListenerModel>,
    doc: DocumentModel,
) -> (Seq<AttachedModel>, DocumentModel) {
    (
        attached.filter(wanted(declared)),
        doc.record_all(attached.filter(unwanted(declared)).map_values(detach_op(handle))),
    )
}

/// Attaching what is declared and not yet served, going through the declared
/// listeners in order. Each new attachment takes the document's next handle.
pub open spec fn attach_missing(
    handle: int,
    path: Seq<u32>,
    attached: Seq<AttachedModel>,
    declared: Seq<ListenerModel>,
    doc: DocumentModel,
) -> (Seq<AttachedModel>, DocumentModel)
    decreases declared.len(),
{
    if declared.len() == 0 {
        (attached, doc)
    } else {
        let (before, d) = attach_missing(handle, path, attached, declared.drop_last(), doc);
        let l = declared.last();
        if serves(before, l) {
            (before, d)
        } else {
            (
                before.push(AttachedModel { handle: d.next, handler: l.handler, event: l.event }),
                d.record(
                    OpModel::AttachListener {
                        handle,
                        event: l.event,
                        handler: l.handler,
                        keys: path,
                        listener: d.next,
                    },
                ).allocate(),
            )
        }
    }
}

/// Attaching every declared listener to a node that was just created, in
/// order.
pub open spec fn attach_all(
    handle: int,
    path: Seq<u32>,
    declared: Seq<ListenerModel>,
    doc: DocumentModel,
) -> (Seq<AttachedModel>, DocumentModel)
    decreases declared.len(),
{
    if declared.len() == 0 {
        (Seq::empty(), doc)
    } else {
        let (before, d) = attach_all(handle, path, declared.drop_last(), doc);
        let l = declared.last();
        (
            before.push(AttachedModel { handle: d.next, handler: l.handler, event: l.event }),
            d.record(
                OpModel::AttachListener {
                    handle,
                    event: l.event,
                    handler: l.handler,
                    keys: path,
                    listener: d.next,
                },
            ).allocate(),
        )
    }
}

/// The listener part of an update: first what is stale goes, then what is
/// missing comes.
pub open spec fn diff_listeners(
    handle: int,
    path: Seq<u32>,
    attached: Seq<AttachedModel>,
    declared: Seq<ListenerModel>,
    doc: DocumentModel,
) -> (Seq<AttachedModel>, DocumentModel) {
    let (kept, d) = detach_stale(handle, attached, declared, doc);
    attach_missing(handle, path, kept, declared, d)
}

/// The test that tells the retained attributes that stay: those that are
/// declared with the same key and the same value.
pub open spec fn still_declared(declared: Seq<AttributeModel>) -> spec_fn(AttributeModel) -> bool {
    |a: AttributeModel| declared.contains(a)
}

/// The test that tells the retained attributes that go.
pub open spec fn no_longer_declared(declared: Seq<AttributeModel>) -> spec_fn(
    AttributeModel,
) -> bool {
    |a: AttributeModel| !declared.contains(a)
}

/// The mutation that removes an attribute from the node `handle`.
pub open spec fn remove_attribute_op(handle: int) -> spec_fn(AttributeModel) -> OpModel {
    |a: AttributeModel| OpModel::RemoveAttribute { handle, key: a.key }
}

/// The mutation that sets an attribute on the node `handle`.
pub open spec fn set_attribute_op(handle: int) -> spec_fn(AttributeModel) -> OpModel {
    |a: AttributeModel| OpModel::SetAttribute { handle, attribute: a }
}

/// Removing what is no longer declared: the retained attributes that stay, in
/// their order, and the document after it has recorded one removal for each
/// of the others, in their order.
pub open spec fn remove_stale(
    handle: int,
    retained: Seq<AttributeModel>,
    declared: Seq<AttributeModel>,
    doc: DocumentModel,
) -> (Seq<AttributeModel>, DocumentModel) {
    (
        retained.filter(still_declared(declared)),
        doc.record_all(
            retained.filter(no_longer_declared(declared)).map_values(remove_attribute_op(handle)),
        ),
    )
}

/// Setting what is declared and not yet retained, going through the declared
/// attributes in order.
pub open spec fn set_missing(
    handle: int,
    retained: Seq<AttributeModel>,
    declared: Seq<AttributeModel>,
    doc: DocumentModel,
) -> (Seq<AttributeModel>, DocumentModel)
    decreases declared.len(),
{
    if declared.len() == 0 {
        (retained, doc)
    } else {
        let (before, d) = set_missing(handle, retained, declared.drop_last(), doc);
        let a = declared.last();
        if before.contains(a) {
            (before, d)
        } else {
            (before.push(a), d.record(OpModel::SetAttribute { handle, attribute: a }))
        }
    }
}

/// The attribute part of an update: first what is stale goes, then what is
/// missing comes.
pub open spec fn diff_attributes(
    handle: int,
    retained: Seq<AttributeModel>,
    declared: Seq<AttributeModel>,
    doc: DocumentModel,
) -> (Seq<AttributeModel>, DocumentModel) {
    let (kept, d) = remove_stale(handle, retained, declared, doc);
    set_missing(handle, kept, declared, d)
}

/// Setting every declared attribute on a node that was just created, in order.
pub open spec fn set_all(handle: int, declared: Seq<AttributeModel>, doc: DocumentModel) -> DocumentModel {
    doc.record_all(declared.map_values(set_attribute_op(handle)))
}

/// The mutation that removes a materialized node from the document, with
/// all that belongs to it.
pub open spec fn remove_op(v: VNodeModel) -> OpModel {
    OpModel::RemoveChild { handle: v.handle, released: owned_handles(v) }
}

/// The removals that clear a level from `cursor` on: one for each entry at or
/// after `cursor`, the last entry first.
pub open spec fn trailing_removals(level: Seq<VNodeModel>, cursor: int) -> Seq<OpModel> {
    Seq::new((level.len() - cursor) as nat, |j: int| remove_op(level[level.len() - 1 - j]))
}

/// Clearing a level from `cursor` on: the entries before `cursor` stay, and
/// the document records the removal of the others.
pub open spec fn remove_trailing(level: Seq<VNodeModel>, cursor: int, doc: DocumentModel) -> Pass {
    Pass { level: level.take(cursor), doc: doc.record_all(trailing_removals(level, cursor)) }
}

/// Bringing a materialized node up to date with the declared node `node` that
/// it matches: its listeners, its attributes and its children are reconciled,
/// in this order; what it is, its key path and its handle stay.
pub open spec fn update_node(
    old_node: VNodeModel,
    path: Seq<u32>,
    node: NodeModel,
    doc: DocumentModel,
) -> (VNodeModel, DocumentModel)
    decreases node, 0int,
{
    let (listeners, d1) = diff_listeners(
        old_node.handle,
        path,
        old_node.listeners,
        node.listeners,
        doc,
    );
    let (attributes, d2) = diff_attributes(old_node.handle, old_node.attributes, node.attributes, d1);
    let below = reconcile(
        Pass { level: old_node.children, doc: d2 },
        path,
        old_node.handle,
        node.children,
    );
    (VNodeModel { attributes, listeners, children: below.level, ..old_node }, below.doc)
}

/// Materializing the declared node `node` anew: it is created under the
/// document's next handle, gets all its listeners and all its attributes, and
/// its children are materialized below it.
pub open spec fn create_node(path: Seq<u32>, node: NodeModel, doc: DocumentModel) -> (
    VNodeModel,
    DocumentModel,
)
    decreases node, 0int,
{
    let handle = doc.next;
    let d0 = doc.record(create_op(handle, node.value)).allocate();
    let (listeners, d1) = attach_all(handle, path, node.listeners, d0);
    let d2 = set_all(handle, node.attributes, d1);
    let below = reconcile(Pass { level: Seq::empty(), doc: d2 }, path, handle, node.children);
    (
        VNodeModel {
            value: node.value,
            keys: path,
            handle,
            attributes: node.attributes,
            listeners,
            children: below.level,
        },
        below.doc,
    )
}

/// One step of a pass: the declared node `node` is brought to place `cursor`
/// of the level, under the host element `parent`, whose key path is `keys`.
///
/// The first entry at or after `cursor` that matches the node is reused: it
/// is brought up to date, and it moves to `cursor` where it is not there
/// already. Where nothing matches, a node is created and put at `cursor`.
pub open spec fn add_node(pass: Pass, keys: Seq<u32>, parent: int, cursor: int, node: NodeModel) -> Pass
    decreases node, 1int,
{
    let path = child_path(keys, node.key);
    let found = first_match(pass.level, cursor, path, node.value);
    if found < pass.level.len() {
        let (new_node, doc) = update_node(pass.level[found], path, node, pass.doc);
        Pass {
            level: pass.level.remove(found).insert(cursor, new_node),
            doc: if found == cursor {
                doc
            } else {
                doc.record(OpModel::MoveChild { parent, old_index: found, new_index: cursor })
            },
        }
    } else {
        let (new_node, doc) = create_node(path, node, pass.doc);
        Pass {
            level: pass.level.insert(cursor, new_node),
            doc: doc.record(
                OpModel::InsertChild { parent, index: cursor, child: new_node.handle },
            ),
        }
    }
}

/// The steps of a pass for the declared nodes `nodes`, one after the other;
/// node number `i` is brought to place `i`.
pub open spec fn add_all(pass: Pass, keys: Seq<u32>, parent: int, nodes: Seq<NodeModel>) -> Pass
    decreases nodes, 2int,
{
    if nodes.len() == 0 {
        pass
    } else {
        add_node(
            add_all(pass, keys, parent, nodes.drop_last()),
            keys,
            parent,
            nodes.len() - 1,
            nodes.last(),
        )
    }
}

/// A whole pass on one level: every declared node is brought to its place,
/// then what is left of the level behind them is removed.
pub open spec fn reconcile(pass: Pass, keys: Seq<u32>, parent: int, nodes: Seq<NodeModel>) -> Pass
    decreases nodes, 3int,
{
    let brought = add_all(pass, keys, parent, nodes);
    remove_trailing(brought.level, nodes.len() as int, brought.doc)
}

/// The number of handles that a pass can need for the declared node `node`
/// and all below it: one for each node and one for each listener.
pub open spec fn handles_needed(node: NodeModel) -> nat
    decreases node, 0int,
{
    1 + node.listeners.len() + handles_needed_all(node.children)
}

/// The number of handles that a pass can need for the declared nodes `nodes`
/// and all below them.
pub open spec fn handles_needed_all(nodes: Seq<NodeModel>) -> nat
    decreases nodes, 1int,
{
    if nodes.len() == 0 {
        0
    } else {
        handles_needed_all(nodes.drop_last()) + handles_needed(nodes.last())
    }
}

/// Whether the key path of `node` and of every node below it stays within the
/// capacity, where the parent's key path has `depth` keys.
pub open spec fn keys_fit(node: NodeModel, depth: nat) -> bool
    decreases node, 0int,
{
    let below = if node.key is Some {
        depth + 1
    } else {
        depth
    };
    below <= KEY_CAPACITY && all_keys_fit(node.children, below as nat)
}

/// Whether the key paths of all of `nodes` and of every node below them stay
/// within the capacity, where the parent's key path has `depth` keys.
pub open spec fn all_keys_fit(nodes: Seq<NodeModel>, depth: nat) -> bool
    decreases nodes, 1int,
{
    forall|i: int| 0 <= i < nodes.len() ==> keys_fit(#[trigger] nodes[i], depth)
}

/// Whether the materialized node `v` shows the declared node `node`, whose
/// parent has the key path `keys`: they agree in what they are and in their
/// key path, the attributes set are those declared, the listeners attached
/// serve those declared and no others, and the children show the declared
/// children, one by one.
pub open spec fn renders(v: VNodeModel, keys: Seq<u32>, node: NodeModel) -> bool
    decreases node, 0int,
{
    let path = child_path(keys, node.key);
    &&& v.value == node.value
    &&& v.keys == path
    &&& forall|a: AttributeModel| #[trigger] v.attributes.contains(a) == node.attributes.contains(a)
    &&& forall|l: ListenerModel| #[trigger] serves(v.listeners, l) == node.listeners.contains(l)
    &&& level_renders(v.children, path, node.children)
}

/// Whether the level shows the declared nodes: as many entries as nodes, and
/// each entry shows the node at its place.
pub open spec fn level_renders(level: Seq<VNodeModel>, keys: Seq<u32>, nodes: Seq<NodeModel>) -> bool
    decreases nodes, 1int,
{
    &&& level.len() == nodes.len()
    &&& forall|i: int| 0 <= i < nodes.len() ==> renders(level[i], keys, #[trigger] nodes[i])
}

/// Whether the document `after` is the document `before` with more mutations
/// recorded behind those it had and, maybe, more handles handed out.
pub open spec fn extends(after: DocumentModel, before: DocumentModel) -> bool {
    &&& before.ops.len() <= after.ops.len()
    &&& after.ops.take(before.ops.len() as int) == before.ops
    &&& before.next <= after.next
}

/// Whether two materialized nodes would match the same declared nodes: they
/// agree in key path and value.
pub open spec fn same_identity(a: VNodeModel, b: VNodeModel) -> bool {
    a.keys == b.keys && a.value == b.value
}

/// Whether no two entries of the level agree in key path and value.
pub open spec fn identities_distinct(level: Seq<VNodeModel>) -> bool {
    forall|i: int, j: int|
        0 <= i < j < level.len() ==> !same_identity(#[trigger] level[i], #[trigger] level[j])
}

/// Whether no two of the declared nodes, all children of a node with the key
/// path `keys`, agree in key path and value.
pub open spec fn declared_distinct(keys: Seq<u32>, nodes: Seq<NodeModel>) -> bool {
    forall|i: int, j: int|
        0 <= i < j < nodes.len() ==> !(child_path(keys, (#[trigger] nodes[i]).key) == child_path(
            keys,
            (#[trigger] nodes[j]).key,
        ) && nodes[i].value == nodes[j].value)
}

/// Whether the document `after` is the document `before` with nothing more
/// than moves recorded behind what it had, and no handle handed out.
pub open spec fn only_moves(after: DocumentModel, before: DocumentModel) -> bool {
    &&& extends(after, before)
    &&& after.next == before.next
    &&& forall|i: int|
        before.ops.len() <= i < after.ops.len() ==> #[trigger] after.ops[i] is MoveChild
}

} // verus!
