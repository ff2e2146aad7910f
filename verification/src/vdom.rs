//! The materialized tree: what the last pass left in the document, node by
//! node, each with the handle that the host knows it by.

use vstd::prelude::*;
use crate::document::handle_values;
use crate::dom::{attribute_models, AttributeModel, DomValue, KeyValue, ListenerModel, ValueModel};
use crate::sequences::lemma_take_next;
use crate::keys::Keys;

verus! {

/// A listener that is attached in the document.
#[derive(Debug, PartialEq, Eq)]
pub struct AttachedListener {
    /// The handle by which the host knows the attached listener.
    pub handle: u64,
    /// The identity of the handler that its events go to.
    pub handler: u64,
    /// The name of the event it waits for.
    pub event: String,
}

/// The mathematical value of an [`AttachedListener`].
pub struct AttachedModel {
    pub handle: int,
    pub handler: u64,
    pub event: Seq<char>,
}

impl AttachedModel {
    /// The declared listener that this attachment serves.
    pub open spec fn listener(self) -> ListenerModel {
        ListenerModel { handler: self.handler, event: self.event }
    }
}

impl View for AttachedListener {
    type V = AttachedModel;

    open spec fn view(&self) -> AttachedModel {
        AttachedModel { handle: self.handle as int, handler: self.handler, event: self.event@ }
    }
}

/// The values of a sequence of attached listeners, in order.
pub open spec fn attached_models(attached: Seq<AttachedListener>) -> Seq<AttachedModel> {
    Seq::new(attached.len(), |i: int| attached[i]@)
}

/// A node as it stands in the document.
#[derive(Debug, PartialEq, Eq)]
pub struct VDomNode {
    /// What the node is.
    pub value: DomValue,
    /// The key path of the node.
    pub keys: Keys,
    /// The handle by which the host knows the node.
    pub handle: u64,
    /// The attributes that are set on it.
    pub attributes: Vec<KeyValue>,
    /// The listeners that are attached to it.
    pub listeners: Vec<AttachedListener>,
    /// Its children, in the order in which the host holds them.
    pub children: Vec<VDomNode>,
}

/// The mathematical value of a [`VDomNode`].
pub struct VNodeModel {
    pub value: ValueModel,
    pub keys: Seq<u32>,
    pub handle: int,
    pub attributes: Seq<AttributeModel>,
    pub listeners: Seq<AttachedModel>,
    pub children: Seq<VNodeModel>,
}

/// The value of a materialized node: its own data, and the values of its
/// children.
pub open spec fn vnode_model(node: VDomNode) -> VNodeModel
    decreases node,
{
    VNodeModel {
        value: node.value@,
        keys: node.keys@,
        handle: node.handle as int,
        attributes: attribute_models(node.attributes@),
        listeners: attached_models(node.listeners@),
        children: Seq::new(
            node.children@.len(),
            |i: int|
                if 0 <= i < node.children@.len() {
                    vnode_model(node.children@[i])
                } else {
                    arbitrary()
                },
        ),
    }
}

impl View for VDomNode {
    type V = VNodeModel;

    open spec fn view(&self) -> VNodeModel {
        vnode_model(*self)
    }
}

/// The values of one level of materialized nodes, in order.
pub open spec fn level_models(level: Seq<VDomNode>) -> Seq<VNodeModel> {
    Seq::new(level.len(), |i: int| level[i]@)
}

/// The value of the node under which a tree is mounted, before anything is
/// mounted: an element without a tag that stands for the host element with
/// the handle `handle`, with the empty key path and nothing on it or in it.
pub open spec fn mount_point(handle: int) -> VNodeModel {
    VNodeModel {
        value: ValueModel::Element { tag: Seq::empty() },
        keys: Seq::empty(),
        handle,
        attributes: Seq::empty(),
        listeners: Seq::empty(),
        children: Seq::empty(),
    }
}

/// The handles of a sequence of attached listeners, in order.
pub open spec fn listener_handles(attached: Seq<AttachedModel>) -> Seq<int> {
    Seq::new(attached.len(), |i: int| attached[i].handle)
}

/// Every handle that belongs to a materialized node: its own, those of its
/// attached listeners, and those that belong to its children, in this order.
pub open spec fn owned_handles(v: VNodeModel) -> Seq<int>
    decreases v, 0int,
{
    seq![v.handle] + listener_handles(v.listeners) + level_handles(v.children)
}

/// Every handle that belongs to an entry of the level, entry by entry.
pub open spec fn level_handles(level: Seq<VNodeModel>) -> Seq<int>
    decreases level, 1int,
{
    if level.len() == 0 {
        Seq::empty()
    } else {
        level_handles(level.drop_last()) + owned_handles(level.last())
    }
}

impl VDomNode {
    /// Adds every handle that belongs to the node to `into`.
    pub fn collect_handles(&self, into: &mut Vec<u64>)
        ensures
            handle_values(final(into)@) == handle_values(old(into)@) + owned_handles(self@),
        decreases self,
    {
        let ghost before = handle_values(into@);
        let ghost attached = listener_handles(self@.listeners);
        let ghost below = self@.children;
        proof {
            self.lemma_view_children();
        }
        into.push(self.handle);
        assert(handle_values(into@) =~= before + seq![self@.handle]);
        let mut i: usize = 0;
        while i < self.listeners.len()
            invariant
                i <= self.listeners@.len(),
                attached == listener_handles(self@.listeners),
                handle_values(into@) =~= before + seq![self@.handle] + attached.take(i as int),
            decreases self.listeners@.len() - i,
        {
            let ghost so_far = handle_values(into@);
            into.push(self.listeners[i].handle);
            proof {
                assert(self@.listeners[i as int].handle == self.listeners@[i as int].handle as int);
                assert(attached[i as int] == self.listeners@[i as int].handle as int);
                assert(handle_values(into@) =~= so_far.push(attached[i as int]));
                assert(attached.take(i + 1) =~= attached.take(i as int).push(attached[i as int]));
            }
            i += 1;
        }
        assert(attached.take(i as int) =~= attached);
        let ghost own = handle_values(into@);
        let mut j: usize = 0;
        proof {
            assert(below.take(0) =~= Seq::empty());
        }
        while j < self.children.len()
            invariant
                j <= self.children@.len(),
                below == self@.children,
                below == level_models(self.children@),
                handle_values(into@) =~= own + level_handles(below.take(j as int)),
            decreases self.children@.len() - j,
        {
            proof {
                lemma_take_next(below, j as int);
            }
            self.children[j].collect_handles(into);
            j += 1;
        }
        assert(below.take(j as int) =~= below);
    }

    /// Every handle that belongs to the node: its own, those of its attached
    /// listeners, and those that belong to its children, in this order.
    pub fn handles(&self) -> (handles: Vec<u64>)
        ensures
            handle_values(handles@) == owned_handles(self@),
    {
        let mut handles: Vec<u64> = Vec::new();
        self.collect_handles(&mut handles);
        assert(handle_values(Seq::<u64>::empty()) + owned_handles(self@) =~= owned_handles(self@));
        handles
    }

    /// The children of the view are the views of the children.
    pub proof fn lemma_view_children(&self)
        ensures
            self@.children == level_models(self.children@),
    {
        assert(self@.children =~= level_models(self.children@));
    }

    /// The node under which a tree is mounted: it stands for the host element
    /// with the handle `handle` and has no children yet.
    pub fn root(handle: u64) -> (node: VDomNode)
        ensures
            node@ == mount_point(handle as int),
    {
        let node = VDomNode {
            value: DomValue::Element { tag: String::new() },
            keys: Keys::new(),
            handle,
            attributes: Vec::new(),
            listeners: Vec::new(),
            children: Vec::new(),
        };
        assert(node@.attributes =~= Seq::empty());
        assert(node@.listeners =~= Seq::empty());
        assert(node@.children =~= Seq::empty());
        node
    }
}

} // verus!
