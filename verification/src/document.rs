//! The host surface: the mutations a document can be asked to make, and the
//! recorder that collects them during a pass.

use vstd::prelude::*;
use crate::dom::{AttributeModel, DomValue, KeyValue, ValueModel};
use crate::keys::Keys;

verus! {

/// The handle of the element under which the whole tree is mounted.
pub const ROOT_HANDLE: u64 = 0;

/// The first handle that a recorder hands out.
pub const FIRST_HANDLE: u64 = 1;

/// One mutation of the host document. Handles are chosen by the recorder; the
/// host keeps the table that leads from a handle to the thing it stands for.
#[derive(Debug, PartialEq, Eq)]
pub enum HostOp {
    /// Create an element with the tag `tag` and call it `handle`.
    CreateElement { handle: u64, tag: String },
    /// Create a leaf of text and call it `handle`.
    CreateText { handle: u64, content: String },
    /// Put `child` under `parent`, as its child number `index`.
    InsertChild { parent: u64, index: usize, child: u64 },
    /// Move child number `old_index` of `parent` in front of the child that
    /// stands at `new_index`, or behind the last child where `new_index` is
    /// the number of children.
    MoveChild { parent: u64, old_index: usize, new_index: usize },
    /// Take `handle` out of its parent for good. With it go all below it and
    /// all listeners attached to them: `released` lists every handle that
    /// is free again, that of the node first.
    RemoveChild { handle: u64, released: Vec<u64> },
    /// Take every child out of `handle`.
    RemoveAllChildren { handle: u64 },
    /// Set an attribute of `handle`, overwriting what the key held.
    SetAttribute { handle: u64, attribute: KeyValue },
    /// Remove the attribute `key` of `handle`.
    RemoveAttribute { handle: u64, key: String },
    /// Attach to `handle` a listener for `event` and call it `listener`;
    /// events go to `handler`, together with the key path `keys`.
    AttachListener { handle: u64, event: String, handler: u64, keys: Keys, listener: u64 },
    /// Detach the listener `listener` for `event` from `handle`.
    DetachListener { handle: u64, event: String, listener: u64 },
}

/// The mathematical value of a [`HostOp`].
pub enum OpModel {
    CreateElement { handle: int, tag: Seq<char> },
    CreateText { handle: int, content: Seq<char> },
    InsertChild { parent: int, index: int, child: int },
    MoveChild { parent: int, old_index: int, new_index: int },
    RemoveChild { handle: int, released: Seq<int> },
    RemoveAllChildren { handle: int },
    SetAttribute { handle: int, attribute: AttributeModel },
    RemoveAttribute { handle: int, key: Seq<char> },
    AttachListener { handle: int, event: Seq<char>, handler: u64, keys: Seq<u32>, listener: int },
    DetachListener { handle: int, event: Seq<char>, listener: int },
}

impl View for HostOp {
    type V = OpModel;

    open spec fn view(&self) -> OpModel {
        match self {
            HostOp::CreateElement { handle, tag } => OpModel::CreateElement {
                handle: *handle as int,
                tag: tag@,
            },
            HostOp::CreateText { handle, content } => OpModel::CreateText {
                handle: *handle as int,
                content: content@,
            },
            HostOp::InsertChild { parent, index, child } => OpModel::InsertChild {
                parent: *parent as int,
                index: *index as int,
                child: *child as int,
            },
            HostOp::MoveChild { parent, old_index, new_index } => OpModel::MoveChild {
                parent: *parent as int,
                old_index: *old_index as int,
                new_index: *new_index as int,
            },
            HostOp::RemoveChild { handle, released } => OpModel::RemoveChild {
                handle: *handle as int,
                released: handle_values(released@),
            },
            HostOp::RemoveAllChildren { handle } => OpModel::RemoveAllChildren {
                handle: *handle as int,
            },
            HostOp::SetAttribute { handle, attribute } => OpModel::SetAttribute {
                handle: *handle as int,
                attribute: attribute@,
            },
            HostOp::RemoveAttribute { handle, key } => OpModel::RemoveAttribute {
                handle: *handle as int,
                key: key@,
            },
            HostOp::AttachListener { handle, event, handler, keys, listener } => {
                OpModel::AttachListener {
                    handle: *handle as int,
                    event: event@,
                    handler: *handler,
                    keys: keys@,
                    listener: *listener as int,
                }
            },
            HostOp::DetachListener { handle, event, listener } => OpModel::DetachListener {
                handle: *handle as int,
                event: event@,
                listener: *listener as int,
            },
        }
    }
}

/// The handles of a sequence, as numbers.
pub open spec fn handle_values(handles: Seq<u64>) -> Seq<int> {
    Seq::new(handles.len(), |i: int| handles[i] as int)
}

/// The values of a sequence of mutations, in order.
pub open spec fn op_models(ops: Seq<HostOp>) -> Seq<OpModel> {
    Seq::new(ops.len(), |i: int| ops[i]@)
}

/// The mutation that creates a node of the value `value` under the name
/// `handle`.
pub open spec fn create_op(handle: int, value: ValueModel) -> OpModel {
    match value {
        ValueModel::Element { tag } => OpModel::CreateElement { handle, tag },
        ValueModel::Text(content) => OpModel::CreateText { handle, content },
    }
}

/// Records the mutations of a pass, in the order in which they are to be
/// made, and hands out the handles.
#[derive(Debug)]
pub struct WebDocument {
    pub ops: Vec<HostOp>,
    pub next_handle: u64,
}

/// The mathematical value of a [`WebDocument`]: the mutations recorded so far
/// and the next handle to hand out.
pub struct DocumentModel {
    pub ops: Seq<OpModel>,
    pub next: int,
}

impl DocumentModel {
    /// The document with one more mutation recorded.
    pub open spec fn record(self, op: OpModel) -> DocumentModel {
        DocumentModel { ops: self.ops.push(op), next: self.next }
    }

    /// The document with more mutations recorded, in order.
    pub open spec fn record_all(self, ops: Seq<OpModel>) -> DocumentModel {
        DocumentModel { ops: self.ops + ops, next: self.next }
    }

    /// The document after it has handed out its next handle.
    pub open spec fn allocate(self) -> DocumentModel {
        DocumentModel { ops: self.ops, next: self.next + 1 }
    }
}

impl View for WebDocument {
    type V = DocumentModel;

    open spec fn view(&self) -> DocumentModel {
        DocumentModel { ops: op_models(self.ops@), next: self.next_handle as int }
    }
}

impl WebDocument {
    /// A document with nothing recorded, whose first handle is the first of
    /// all.
    pub fn new() -> (document: WebDocument)
        ensures
            document@ == (DocumentModel { ops: Seq::empty(), next: FIRST_HANDLE as int }),
    {
        let document = WebDocument { ops: Vec::new(), next_handle: FIRST_HANDLE };
        assert(document@.ops =~= Seq::empty());
        document
    }

    /// A document with nothing recorded, whose first handle is `next_handle`.
    pub fn starting_at(next_handle: u64) -> (document: WebDocument)
        ensures
            document@ == (DocumentModel { ops: Seq::empty(), next: next_handle as int }),
    {
        let document = WebDocument { ops: Vec::new(), next_handle };
        assert(document@.ops =~= Seq::empty());
        document
    }

    /// Hands over what was recorded and starts afresh; the handles go on
    /// from where they were.
    pub fn take_ops(&mut self) -> (ops: Vec<HostOp>)
        ensures
            op_models(ops@) == old(self)@.ops,
            final(self)@ == (DocumentModel { ops: Seq::empty(), next: old(self)@.next }),
    {
        let mut ops: Vec<HostOp> = Vec::new();
        core::mem::swap(&mut ops, &mut self.ops);
        assert(self@.ops =~= Seq::empty());
        ops
    }

    fn record(&mut self, op: HostOp)
        ensures
            final(self)@ == old(self)@.record(op@),
    {
        self.ops.push(op);
        assert(self@.ops =~= old(self)@.ops.push(op@));
    }

    fn allocate(&mut self) -> (handle: u64)
        requires
            old(self).next_handle < u64::MAX,
        ensures
            handle == old(self).next_handle,
            final(self)@ == old(self)@.allocate(),
    {
        let handle = self.next_handle;
        self.next_handle = handle + 1;
        handle
    }

    /// Records the creation of an element and returns its handle.
    pub fn create_element(&mut self, tag: &str) -> (handle: u64)
        requires
            old(self).next_handle < u64::MAX,
        ensures
            handle as int == old(self)@.next,
            final(self)@ == old(self)@.record(
                OpModel::CreateElement { handle: handle as int, tag: tag@ },
            ).allocate(),
    {
        let handle = self.next_handle;
        self.record(HostOp::CreateElement { handle, tag: tag.to_owned() });
        self.allocate()
    }

    /// Records the creation of a leaf of text and returns its handle.
    pub fn create_text_node(&mut self, text: &str) -> (handle: u64)
        requires
            old(self).next_handle < u64::MAX,
        ensures
            handle as int == old(self)@.next,
            final(self)@ == old(self)@.record(
                OpModel::CreateText { handle: handle as int, content: text@ },
            ).allocate(),
    {
        let handle = self.next_handle;
        self.record(HostOp::CreateText { handle, content: text.to_owned() });
        self.allocate()
    }

    /// Records the creation of a node of the value `value` and returns its
    /// handle.
    pub fn create(&mut self, value: &DomValue) -> (handle: u64)
        requires
            old(self).next_handle < u64::MAX,
        ensures
            handle as int == old(self)@.next,
            final(self)@ == old(self)@.record(create_op(handle as int, value@)).allocate(),
    {
        match value {
            DomValue::Element { tag } => self.create_element(tag.as_str()),
            DomValue::Text(text) => self.create_text_node(text.as_str()),
        }
    }

    /// Records that `child` goes under `parent` as its child number `index`.
    pub fn insert(&mut self, parent: u64, index: usize, child: u64)
        ensures
            final(self)@ == old(self)@.record(
                OpModel::InsertChild {
                    parent: parent as int,
                    index: index as int,
                    child: child as int,
                },
            ),
    {
        self.record(HostOp::InsertChild { parent, index, child });
    }

    /// Records that child number `old_index` of `parent` moves to place
    /// `new_index`.
    pub fn move_child(&mut self, parent: u64, old_index: usize, new_index: usize)
        ensures
            final(self)@ == old(self)@.record(
                OpModel::MoveChild {
                    parent: parent as int,
                    old_index: old_index as int,
                    new_index: new_index as int,
                },
            ),
    {
        self.record(HostOp::MoveChild { parent, old_index, new_index });
    }

    /// Records that `handle` leaves its parent for good, and that the handles
    /// `released` are free again.
    pub fn remove_self(&mut self, handle: u64, released: Vec<u64>)
        ensures
            final(self)@ == old(self)@.record(
                OpModel::RemoveChild {
                    handle: handle as int,
                    released: handle_values(released@),
                },
            ),
    {
        self.record(HostOp::RemoveChild { handle, released });
    }

    /// Records that `handle` loses all its children.
    pub fn remove_all_children(&mut self, handle: u64)
        ensures
            final(self)@ == old(self)@.record(
                OpModel::RemoveAllChildren { handle: handle as int },
            ),
    {
        self.record(HostOp::RemoveAllChildren { handle });
    }

    /// Records that `handle` gets the attribute `attribute`.
    pub fn set_attribute(&mut self, handle: u64, attribute: &KeyValue)
        ensures
            final(self)@ == old(self)@.record(
                OpModel::SetAttribute { handle: handle as int, attribute: attribute@ },
            ),
    {
        self.record(HostOp::SetAttribute { handle, attribute: attribute.clone() });
    }

    /// Records that `handle` loses the attribute `key`.
    pub fn remove_attribute(&mut self, handle: u64, key: &str)
        ensures
            final(self)@ == old(self)@.record(
                OpModel::RemoveAttribute { handle: handle as int, key: key@ },
            ),
    {
        self.record(HostOp::RemoveAttribute { handle, key: key.to_owned() });
    }

    /// Records that `handle` gets a listener for `event` whose events go to
    /// `handler` with the key path `keys`, and returns the listener's handle.
    pub fn set_listener(&mut self, handle: u64, event: &str, handler: u64, keys: Keys) -> (listener:
        u64)
        requires
            old(self).next_handle < u64::MAX,
        ensures
            listener as int == old(self)@.next,
            final(self)@ == old(self)@.record(
                OpModel::AttachListener {
                    handle: handle as int,
                    event: event@,
                    handler,
                    keys: keys@,
                    listener: listener as int,
                },
            ).allocate(),
    {
        let listener = self.next_handle;
        self.record(
            HostOp::AttachListener { handle, event: event.to_owned(), handler, keys, listener },
        );
        self.allocate()
    }

    /// Records that `handle` loses the listener `listener` for `event`.
    pub fn remove_listener(&mut self, handle: u64, event: &str, listener: u64)
        ensures
            final(self)@ == old(self)@.record(
                OpModel::DetachListener {
                    handle: handle as int,
                    event: event@,
                    listener: listener as int,
                },
            ),
    {
        self.record(HostOp::DetachListener { handle, event: event.to_owned(), listener });
    }
}

} // verus!
