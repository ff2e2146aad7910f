//! The declarative node model: what a rendering says the document should
//! look like.

use vstd::prelude::*;

verus! {

/// What a node is: an element with a tag, or a leaf of text.
#[derive(Debug, PartialEq, Eq)]
pub enum DomValue {
    Element { tag: String },
    Text(String),
}

/// The mathematical value of a [`DomValue`].
pub enum ValueModel {
    Element { tag: Seq<char> },
    Text(Seq<char>),
}

impl View for DomValue {
    type V = ValueModel;

    open spec fn view(&self) -> ValueModel {
        match self {
            DomValue::Element { tag } => ValueModel::Element { tag: tag@ },
            DomValue::Text(text) => ValueModel::Text(text@),
        }
    }
}

impl DomValue {
    /// Whether both are of the same variant with the same content.
    pub fn same_as(&self, other: &DomValue) -> (b: bool)
        ensures
            b == (self@ == other@),
    {
        match (self, other) {
            (DomValue::Element { tag: a }, DomValue::Element { tag: b }) => *a == *b,
            (DomValue::Text(a), DomValue::Text(b)) => *a == *b,
            _ => false,
        }
    }
}

impl Clone for DomValue {
    fn clone(&self) -> (copy: DomValue)
        ensures
            copy@ == self@,
    {
        match self {
            DomValue::Element { tag } => DomValue::Element { tag: tag.clone() },
            DomValue::Text(text) => DomValue::Text(text.clone()),
        }
    }
}

/// The value of an attribute: a string or a flag.
#[derive(Debug, PartialEq, Eq)]
pub enum AttributeValue {
    Str(String),
    Bool(bool),
}

/// The mathematical value of an [`AttributeValue`].
pub enum AttributeValueModel {
    Str(Seq<char>),
    Bool(bool),
}

impl View for AttributeValue {
    type V = AttributeValueModel;

    open spec fn view(&self) -> AttributeValueModel {
        match self {
            AttributeValue::Str(s) => AttributeValueModel::Str(s@),
            AttributeValue::Bool(b) => AttributeValueModel::Bool(*b),
        }
    }
}

/// The text of a flag that is set.
pub open spec fn true_text() -> Seq<char> {
    seq!['t', 'r', 'u', 'e']
}

/// The text of a flag that is not set.
pub open spec fn false_text() -> Seq<char> {
    seq!['f', 'a', 'l', 's', 'e']
}

impl AttributeValueModel {
    /// The value as the host receives it: a string as it is, a flag as
    /// `true` or `false`.
    pub open spec fn text(self) -> Seq<char> {
        match self {
            AttributeValueModel::Str(s) => s,
            AttributeValueModel::Bool(b) => if b {
                true_text()
            } else {
                false_text()
            },
        }
    }
}

impl AttributeValue {
    /// Whether both are of the same variant with the same content.
    pub fn same_as(&self, other: &AttributeValue) -> (b: bool)
        ensures
            b == (self@ == other@),
    {
        match (self, other) {
            (AttributeValue::Str(a), AttributeValue::Str(b)) => *a == *b,
            (AttributeValue::Bool(a), AttributeValue::Bool(b)) => *a == *b,
            _ => false,
        }
    }

    /// The value as the host receives it: a string as it is, a flag as
    /// `true` or `false`.
    pub fn as_str(&self) -> (text: &str)
        ensures
            text@ == self@.text(),
    {
        match self {
            AttributeValue::Str(s) => s.as_str(),
            AttributeValue::Bool(b) => {
                proof {
                    reveal_strlit("true");
                    reveal_strlit("false");
                }
                if *b {
                    let text = "true";
                    assert(text@ =~= true_text());
                    text
                } else {
                    let text = "false";
                    assert(text@ =~= false_text());
                    text
                }
            },
        }
    }
}

impl Clone for AttributeValue {
    fn clone(&self) -> (copy: AttributeValue)
        ensures
            copy@ == self@,
    {
        match self {
            AttributeValue::Str(s) => AttributeValue::Str(s.clone()),
            AttributeValue::Bool(b) => AttributeValue::Bool(*b),
        }
    }
}

/// An attribute: a key and its value.
#[derive(Debug, PartialEq, Eq)]
pub struct KeyValue(pub String, pub AttributeValue);

/// The mathematical value of a [`KeyValue`].
pub struct AttributeModel {
    pub key: Seq<char>,
    pub value: AttributeValueModel,
}

impl View for KeyValue {
    type V = AttributeModel;

    open spec fn view(&self) -> AttributeModel {
        AttributeModel { key: self.0@, value: self.1@ }
    }
}

impl KeyValue {
    /// Whether both have the same key and the same value.
    pub fn same_as(&self, other: &KeyValue) -> (b: bool)
        ensures
            b == (self@ == other@),
    {
        self.0 == other.0 && self.1.same_as(&other.1)
    }
}

impl Clone for KeyValue {
    fn clone(&self) -> (copy: KeyValue)
        ensures
            copy@ == self@,
    {
        KeyValue(self.0.clone(), self.1.clone())
    }
}

/// A listener as a node declares it: the name of the event it waits for and
/// the identity of the handler that turns the event into a message.
///
/// Two listeners are the same when handler and event name agree.
#[derive(Debug, PartialEq, Eq)]
pub struct Listener {
    pub handler: u64,
    pub event: String,
}

/// The mathematical value of a [`Listener`].
pub struct ListenerModel {
    pub handler: u64,
    pub event: Seq<char>,
}

impl View for Listener {
    type V = ListenerModel;

    open spec fn view(&self) -> ListenerModel {
        ListenerModel { handler: self.handler, event: self.event@ }
    }
}

impl Listener {
    /// A listener for the event `event`, handled by `handler`.
    pub fn on(event: &str, handler: u64) -> (listener: Listener)
        ensures
            listener@ == (ListenerModel { handler, event: event@ }),
    {
        Listener { handler, event: event.to_owned() }
    }

    /// The name of the event that the listener waits for.
    pub fn event_type_handled(&self) -> (event: &str)
        ensures
            event@ == self@.event,
    {
        self.event.as_str()
    }
}

impl Clone for Listener {
    fn clone(&self) -> (copy: Listener)
        ensures
            copy@ == self@,
    {
        Listener { handler: self.handler, event: self.event.clone() }
    }
}

/// One node of a rendering, with everything below it.
#[derive(Debug, PartialEq, Eq)]
pub struct DomNode {
    pub value: DomValue,
    pub key: Option<u32>,
    pub attributes: Vec<KeyValue>,
    pub listeners: Vec<Listener>,
    pub children: Vec<DomNode>,
}

/// The mathematical value of a [`DomNode`].
pub struct NodeModel {
    pub value: ValueModel,
    pub key: Option<u32>,
    pub attributes: Seq<AttributeModel>,
    pub listeners: Seq<ListenerModel>,
    pub children: Seq<NodeModel>,
}

/// The values of a sequence of attributes, in order.
pub open spec fn attribute_models(attributes: Seq<KeyValue>) -> Seq<AttributeModel> {
    Seq::new(attributes.len(), |i: int| attributes[i]@)
}

/// The values of a sequence of listeners, in order.
pub open spec fn listener_models(listeners: Seq<Listener>) -> Seq<ListenerModel> {
    Seq::new(listeners.len(), |i: int| listeners[i]@)
}

/// The values of a sequence of nodes, in order.
pub open spec fn node_models(nodes: Seq<DomNode>) -> Seq<NodeModel> {
    Seq::new(nodes.len(), |i: int| nodes[i]@)
}

/// The value of a node: its own data, and the values of its children.
pub open spec fn node_model(node: DomNode) -> NodeModel
    decreases node,
{
    NodeModel {
        value: node.value@,
        key: node.key,
        attributes: attribute_models(node.attributes@),
        listeners: listener_models(node.listeners@),
        children: Seq::new(
            node.children@.len(),
            |i: int|
                if 0 <= i < node.children@.len() {
                    node_model(node.children@[i])
                } else {
                    arbitrary()
                },
        ),
    }
}

impl View for DomNode {
    type V = NodeModel;

    open spec fn view(&self) -> NodeModel {
        node_model(*self)
    }
}

/// Whether no two attributes of the sequence have the same key.
pub open spec fn keys_unique(attributes: Seq<AttributeModel>) -> bool {
    forall|i: int, j: int|
        0 <= i < j < attributes.len() ==> (#[trigger] attributes[i]).key != (
        #[trigger] attributes[j]).key
}

/// Whether no key occurs twice among the attributes of the declared node
/// `node`, nor among those of any node below it.
pub open spec fn declared_wf(node: NodeModel) -> bool
    decreases node, 0int,
{
    keys_unique(node.attributes) && all_declared_wf(node.children)
}

/// Whether no key occurs twice among the attributes of any of the declared
/// nodes, nor among those of any node below them.
pub open spec fn all_declared_wf(nodes: Seq<NodeModel>) -> bool
    decreases nodes, 1int,
{
    forall|i: int| 0 <= i < nodes.len() ==> declared_wf(#[trigger] nodes[i])
}

/// Whether no two of the attributes have the same key.
pub fn attribute_keys_unique(attributes: &Vec<KeyValue>) -> (b: bool)
    ensures
        b == keys_unique(attribute_models(attributes@)),
{
    let mut j: usize = 0;
    while j < attributes.len()
        invariant
            j <= attributes@.len(),
            forall|a: int, b: int|
                0 <= a < b < j ==> (#[trigger] attribute_models(attributes@)[a]).key != (
                #[trigger] attribute_models(attributes@)[b]).key,
        decreases attributes@.len() - j,
    {
        let mut i: usize = 0;
        while i < j
            invariant
                i <= j < attributes@.len(),
                forall|a: int|
                    0 <= a < i ==> (#[trigger] attribute_models(attributes@)[a]).key
                        != attribute_models(attributes@)[j as int].key,
            decreases j - i,
        {
            if attributes[i].0 == attributes[j].0 {
                assert(attribute_models(attributes@)[i as int].key == attribute_models(
                    attributes@,
                )[j as int].key);
                return false;
            }
            i += 1;
        }
        j += 1;
    }
    true
}

impl DomNode {
    /// Whether no key occurs twice among the attributes of the node, nor among
    /// those of any node below it.
    pub fn is_well_formed(&self) -> (b: bool)
        ensures
            b == declared_wf(self@),
        decreases self,
    {
        proof {
            self.lemma_view_children();
            assert(declared_wf(self@) == (keys_unique(self@.attributes) && all_declared_wf(
                self@.children,
            )));
        }
        if !attribute_keys_unique(&self.attributes) {
            return false;
        }
        let mut i: usize = 0;
        while i < self.children.len()
            invariant
                i <= self.children@.len(),
                self@.children == node_models(self.children@),
                declared_wf(self@) == all_declared_wf(self@.children),
                forall|j: int| 0 <= j < i ==> declared_wf(#[trigger] self@.children[j]),
            decreases self.children@.len() - i,
        {
            if !self.children[i].is_well_formed() {
                assert(!declared_wf(self@.children[i as int]));
                assert(!all_declared_wf(self@.children));
                return false;
            }
            i += 1;
        }
        assert(all_declared_wf(self@.children));
        true
    }

    /// The children of the view are the views of the children.
    pub proof fn lemma_view_children(&self)
        ensures
            self@.children == node_models(self.children@),
    {
        assert(self@.children =~= node_models(self.children@));
    }

    /// An element with the tag `tag` and nothing else.
    pub fn element(tag: &str) -> (node: DomNode)
        ensures
            node@ == (NodeModel {
                value: ValueModel::Element { tag: tag@ },
                key: None,
                attributes: Seq::empty(),
                listeners: Seq::empty(),
                children: Seq::empty(),
            }),
    {
        let node = DomNode {
            value: DomValue::Element { tag: tag.to_owned() },
            key: None,
            attributes: Vec::new(),
            listeners: Vec::new(),
            children: Vec::new(),
        };
        assert(node@.attributes =~= Seq::empty());
        assert(node@.listeners =~= Seq::empty());
        assert(node@.children =~= Seq::empty());
        node
    }

    /// A leaf of text.
    pub fn text(content: &str) -> (node: DomNode)
        ensures
            node@ == (NodeModel {
                value: ValueModel::Text(content@),
                key: None,
                attributes: Seq::empty(),
                listeners: Seq::empty(),
                children: Seq::empty(),
            }),
    {
        let node = DomNode {
            value: DomValue::Text(content.to_owned()),
            key: None,
            attributes: Vec::new(),
            listeners: Vec::new(),
            children: Vec::new(),
        };
        assert(node@.attributes =~= Seq::empty());
        assert(node@.listeners =~= Seq::empty());
        assert(node@.children =~= Seq::empty());
        node
    }

    /// The node with the key `key`, which tells it from its siblings.
    pub fn with_key(self, key: u32) -> (node: DomNode)
        ensures
            node@ == (NodeModel { key: Some(key), ..self@ }),
    {
        let node = DomNode { key: Some(key), ..self };
        assert(node@.children =~= self@.children);
        node
    }

    /// The node with one more attribute, after those it has.
    pub fn with_attribute(self, key: &str, value: AttributeValue) -> (node: DomNode)
        ensures
            node@ == (NodeModel {
                attributes: self@.attributes.push(AttributeModel { key: key@, value: value@ }),
                ..self@
            }),
    {
        let mut node = self;
        node.attributes.push(KeyValue(key.to_owned(), value));
        assert(node@.attributes =~= self@.attributes.push(
            AttributeModel { key: key@, value: value@ },
        ));
        assert(node@.children =~= self@.children);
        node
    }

    /// The node with one more listener, after those it has.
    pub fn with_listener(self, event: &str, handler: u64) -> (node: DomNode)
        ensures
            node@ == (NodeModel {
                listeners: self@.listeners.push(ListenerModel { handler, event: event@ }),
                ..self@
            }),
    {
        let mut node = self;
        node.listeners.push(Listener::on(event, handler));
        assert(node@.listeners =~= self@.listeners.push(ListenerModel { handler, event: event@ }));
        assert(node@.children =~= self@.children);
        node
    }

    /// The node with one more child, after those it has.
    pub fn with_child(self, child: DomNode) -> (node: DomNode)
        ensures
            node@ == (NodeModel { children: self@.children.push(child@), ..self@ }),
    {
        let mut node = self;
        node.children.push(child);
        assert(node@.children =~= self@.children.push(child@));
        node
    }

    /// What the node is.
    pub fn value(&self) -> (value: &DomValue)
        ensures
            value@ == self@.value,
    {
        &self.value
    }

    /// The key that tells the node from its siblings, if it has one.
    pub fn key(&self) -> (key: Option<u32>)
        ensures
            key == self@.key,
    {
        self.key
    }

    /// The attributes, in declared order.
    pub fn attributes(&self) -> (attributes: &Vec<KeyValue>)
        ensures
            attribute_models(attributes@) == self@.attributes,
    {
        &self.attributes
    }

    /// The listeners, in declared order.
    pub fn listeners(&self) -> (listeners: &Vec<Listener>)
        ensures
            listener_models(listeners@) == self@.listeners,
    {
        &self.listeners
    }

    /// The children, in declared order.
    pub fn children(&self) -> (children: &Vec<DomNode>)
        ensures
            node_models(children@) == self@.children,
    {
        proof {
            self.lemma_view_children();
        }
        &self.children
    }
}

} // verus!
