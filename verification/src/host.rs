//! The host document as the library thinks of it: what each mutation does to
//! a document, and which mutations a document accepts.

use vstd::prelude::*;
use crate::document::OpModel;
use crate::dom::{AttributeValueModel, ValueModel};

verus! {

/// A listener as it is attached in the document.
pub struct Attachment {
    pub handler: u64,
    pub event: Seq<char>,
    pub keys: Seq<u32>,
}

/// An element or a leaf of text in the document.
pub struct HostNode {
    /// What it was created as.
    pub value: ValueModel,
    /// The attributes set on it, by key.
    pub attributes: Map<Seq<char>, AttributeValueModel>,
    /// The listeners attached to it, by their handles.
    pub listeners: Map<int, Attachment>,
    /// The handles of its children, in order.
    pub children: Seq<int>,
    /// The handle of the node that it hangs under, if it hangs under one.
    pub parent: Option<int>,
}

/// A document: the nodes that exist in it, by their handles.
pub struct HostModel {
    pub nodes: Map<int, HostNode>,
}

/// A node right after its creation: nothing is set on it, nothing is
/// attached to it, it has no children and hangs nowhere.
pub open spec fn blank(value: ValueModel) -> HostNode {
    HostNode {
        value,
        attributes: Map::empty(),
        listeners: Map::empty(),
        children: Seq::empty(),
        parent: None,
    }
}

/// Where a child that moves from `old_index` lands when it is put before the
/// child that stood at `new_index`.
pub open spec fn landing(old_index: int, new_index: int) -> int {
    if new_index > old_index {
        new_index - 1
    } else {
        new_index
    }
}

impl HostModel {
    /// Whether the document holds a node with the handle `handle`.
    pub open spec fn has(self, handle: int) -> bool {
        self.nodes.dom().contains(handle)
    }

    /// The document with the node `handle` replaced by `node`.
    pub open spec fn with(self, handle: int, node: HostNode) -> HostModel {
        HostModel { nodes: self.nodes.insert(handle, node) }
    }

    /// Whether the document can make the mutation `op`: the handles that the
    /// mutation names stand for what it takes them for, a handle that it
    /// introduces is unused, and an index that it gives is in range.
    pub open spec fn accepts(self, op: OpModel) -> bool {
        match op {
            OpModel::CreateElement { handle, tag } => !self.has(handle),
            OpModel::CreateText { handle, content } => !self.has(handle),
            OpModel::InsertChild { parent, index, child } => {
                &&& self.has(parent)
                &&& self.has(child)
                &&& parent != child
                &&& self.nodes[child].parent is None
                &&& 0 <= index <= self.nodes[parent].children.len()
            },
            OpModel::MoveChild { parent, old_index, new_index } => {
                &&& self.has(parent)
                &&& 0 <= old_index < self.nodes[parent].children.len()
                &&& 0 <= new_index <= self.nodes[parent].children.len()
            },
            OpModel::RemoveChild { handle, released } => {
                &&& self.has(handle)
                &&& released.contains(handle)
                &&& self.nodes[handle].parent is Some
                &&& self.nodes[handle].parent->0 != handle
                &&& !released.contains(self.nodes[handle].parent->0)
                &&& self.has(self.nodes[handle].parent->0)
                &&& self.nodes[self.nodes[handle].parent->0].children.contains(handle)
            },
            OpModel::RemoveAllChildren { handle } => self.has(handle),
            OpModel::SetAttribute { handle, attribute } => self.has(handle),
            OpModel::RemoveAttribute { handle, key } => self.has(handle),
            OpModel::AttachListener { handle, event, handler, keys, listener } => {
                &&& self.has(handle)
                &&& !self.has(listener)
                &&& !self.nodes[handle].listeners.dom().contains(listener)
            },
            OpModel::DetachListener { handle, event, listener } => {
                &&& self.has(handle)
                &&& self.nodes[handle].listeners.dom().contains(listener)
                &&& self.nodes[handle].listeners[listener].event == event
            },
        }
    }

    /// The document after the mutation `op`.
    pub open spec fn apply(self, op: OpModel) -> HostModel {
        match op {
            OpModel::CreateElement { handle, tag } => self.with(
                handle,
                blank(ValueModel::Element { tag }),
            ),
            OpModel::CreateText { handle, content } => self.with(
                handle,
                blank(ValueModel::Text(content)),
            ),
            OpModel::InsertChild { parent, index, child } => self.with(
                parent,
                HostNode {
                    children: self.nodes[parent].children.insert(index, child),
                    ..self.nodes[parent]
                },
            ).with(child, HostNode { parent: Some(parent), ..self.nodes[child] }),
            OpModel::MoveChild { parent, old_index, new_index } => {
                let children = self.nodes[parent].children;
                self.with(
                    parent,
                    HostNode {
                        children: children.remove(old_index).insert(
                            landing(old_index, new_index),
                            children[old_index],
                        ),
                        ..self.nodes[parent]
                    },
                )
            },
            OpModel::RemoveChild { handle, released } => {
                let parent = self.nodes[handle].parent->0;
                let children = self.nodes[parent].children;
                HostModel {
                    nodes: self.nodes.insert(
                        parent,
                        HostNode {
                            children: children.remove(children.index_of(handle)),
                            ..self.nodes[parent]
                        },
                    ).remove_keys(released.to_set()),
                }
            },
            OpModel::RemoveAllChildren { handle } => self.with(
                handle,
                HostNode { children: Seq::empty(), ..self.nodes[handle] },
            ),
            OpModel::SetAttribute { handle, attribute } => self.with(
                handle,
                HostNode {
                    attributes: self.nodes[handle].attributes.insert(
                        attribute.key,
                        attribute.value,
                    ),
                    ..self.nodes[handle]
                },
            ),
            OpModel::RemoveAttribute { handle, key } => self.with(
                handle,
                HostNode {
                    attributes: self.nodes[handle].attributes.remove(key),
                    ..self.nodes[handle]
                },
            ),
            OpModel::AttachListener { handle, event, handler, keys, listener } => self.with(
                handle,
                HostNode {
                    listeners: self.nodes[handle].listeners.insert(
                        listener,
                        Attachment { handler, event, keys },
                    ),
                    ..self.nodes[handle]
                },
            ),
            OpModel::DetachListener { handle, event, listener } => self.with(
                handle,
                HostNode {
                    listeners: self.nodes[handle].listeners.remove(listener),
                    ..self.nodes[handle]
                },
            ),
        }
    }
}

/// The document after the mutations `ops`, made in order.
pub open spec fn run(host: HostModel, ops: Seq<OpModel>) -> HostModel
    decreases ops.len(),
{
    if ops.len() == 0 {
        host
    } else {
        run(host, ops.drop_last()).apply(ops.last())
    }
}

/// Whether the document can make the mutations `ops` in order: each one is
/// accepted by the document as the ones before it leave it.
pub open spec fn accepted(host: HostModel, ops: Seq<OpModel>) -> bool
    decreases ops.len(),
{
    ops.len() == 0 || (accepted(host, ops.drop_last()) && run(host, ops.drop_last()).accepts(
        ops.last(),
    ))
}

/// Whether every handle of the document lies below `next`, so that `next`
/// and the handles after it are unused.
pub open spec fn bounded(host: HostModel, next: int) -> bool {
    forall|h: int| #[trigger] host.has(h) ==> h < next
}

/// One more mutation at the end of a run.
pub proof fn lemma_run_push(host: HostModel, ops: Seq<OpModel>, op: OpModel)
    ensures
        run(host, ops.push(op)) == run(host, ops).apply(op),
        accepted(host, ops.push(op)) == (accepted(host, ops) && run(host, ops).accepts(op)),
{
    assert(ops.push(op).drop_last() =~= ops);
    assert(ops.push(op).last() == op);
}

/// A run of two sequences of mutations, one after the other.
pub proof fn lemma_run_concat(host: HostModel, first: Seq<OpModel>, second: Seq<OpModel>)
    ensures
        run(host, first + second) == run(run(host, first), second),
        accepted(host, first + second) == (accepted(host, first) && accepted(
            run(host, first),
            second,
        )),
    decreases second.len(),
{
    if second.len() == 0 {
        assert(first + second =~= first);
    } else {
        lemma_run_concat(host, first, second.drop_last());
        assert((first + second).drop_last() =~= first + second.drop_last());
        assert((first + second).last() == second.last());
    }
}

} // verus!
