use std::collections::BTreeMap;

use domafic::document::{HostOp, FIRST_HANDLE, ROOT_HANDLE};
use domafic::dom::{AttributeValue, DomNode, DomValue};
use domafic::system::render_pass;
use domafic::vdom::VDomNode;

/// A node of a document that does what the mutations say.
#[derive(Debug, Clone, PartialEq)]
struct HostNode {
    value: Option<DomValue>,
    attributes: BTreeMap<String, AttributeValue>,
    listeners: BTreeMap<u64, (String, u64, Vec<u32>)>,
    children: Vec<u64>,
    parent: Option<u64>,
}

fn blank(value: Option<DomValue>) -> HostNode {
    HostNode {
        value,
        attributes: BTreeMap::new(),
        listeners: BTreeMap::new(),
        children: Vec::new(),
        parent: None,
    }
}

struct Host {
    nodes: BTreeMap<u64, HostNode>,
    made: usize,
}

impl Host {
    fn new() -> Host {
        let mut nodes = BTreeMap::new();
        nodes.insert(ROOT_HANDLE, blank(None));
        Host { nodes, made: 0 }
    }

    fn node(&mut self, handle: u64) -> &mut HostNode {
        self.nodes.get_mut(&handle).expect("the mutation names a handle that the document lacks")
    }

    /// Makes one mutation, and panics where a document would not accept it.
    fn apply(&mut self, op: &HostOp) {
        self.made += 1;
        match op {
            HostOp::CreateElement { handle, tag } => {
                assert!(!self.nodes.contains_key(handle), "the handle is taken");
                self.nodes.insert(*handle, blank(Some(DomValue::Element { tag: tag.clone() })));
            }
            HostOp::CreateText { handle, content } => {
                assert!(!self.nodes.contains_key(handle), "the handle is taken");
                self.nodes.insert(*handle, blank(Some(DomValue::Text(content.clone()))));
            }
            HostOp::InsertChild { parent, index, child } => {
                assert!(parent != child);
                assert_eq!(self.node(*child).parent, None, "the child hangs elsewhere");
                assert!(*index <= self.node(*parent).children.len(), "insert out of range");
                self.node(*parent).children.insert(*index, *child);
                self.node(*child).parent = Some(*parent);
            }
            HostOp::MoveChild { parent, old_index, new_index } => {
                let children = &mut self.node(*parent).children;
                assert!(*old_index < children.len(), "move out of range");
                assert!(*new_index <= children.len(), "move out of range");
                let child = children.remove(*old_index);
                let landing = if new_index > old_index { new_index - 1 } else { *new_index };
                children.insert(landing, child);
            }
            HostOp::RemoveChild { handle, released } => {
                let parent = self.node(*handle).parent.expect("the node hangs nowhere");
                assert!(released.contains(handle));
                assert!(!released.contains(&parent));
                let children = &mut self.node(parent).children;
                let at = children.iter().position(|c| c == handle).expect("not a child");
                children.remove(at);
                for gone in released.iter() {
                    self.nodes.remove(gone);
                }
            }
            HostOp::RemoveAllChildren { handle } => {
                self.node(*handle).children.clear();
            }
            HostOp::SetAttribute { handle, attribute } => {
                self.node(*handle).attributes.insert(attribute.0.clone(), attribute.1.clone());
            }
            HostOp::RemoveAttribute { handle, key } => {
                self.node(*handle).attributes.remove(key);
            }
            HostOp::AttachListener { handle, event, handler, keys, listener } => {
                assert!(!self.nodes.contains_key(listener), "the handle is taken");
                let path: Vec<u32> = (0..keys.len()).map(|i| keys.get(i).unwrap()).collect();
                let listeners = &mut self.node(*handle).listeners;
                assert!(!listeners.contains_key(listener), "the handle is taken");
                listeners.insert(*listener, (event.clone(), *handler, path));
            }
            HostOp::DetachListener { handle, event, listener } => {
                let attached = self.node(*handle).listeners.remove(listener);
                assert_eq!(attached.expect("no such listener").0, *event);
            }
        }
    }

    /// Whether the node `handle` shows the declared node, whose parent has
    /// the key path `keys`.
    fn shows(&self, handle: u64, keys: &[u32], node: &DomNode) {
        let host = &self.nodes[&handle];
        let mut path = keys.to_vec();
        if let Some(key) = node.key {
            path.push(key);
        }
        assert_eq!(host.value.as_ref(), Some(&node.value));
        let declared: BTreeMap<String, AttributeValue> =
            node.attributes.iter().map(|a| (a.0.clone(), a.1.clone())).collect();
        assert_eq!(host.attributes, declared);
        let mut attached: Vec<(String, u64, Vec<u32>)> = host.listeners.values().cloned().collect();
        let mut wanted: Vec<(String, u64, Vec<u32>)> =
            node.listeners.iter().map(|l| (l.event.clone(), l.handler, path.clone())).collect();
        attached.sort();
        attached.dedup();
        wanted.sort();
        wanted.dedup();
        assert_eq!(attached, wanted);
        assert_eq!(host.children.len(), node.children.len());
        for (child, declared) in host.children.iter().zip(node.children.iter()) {
            assert_eq!(self.nodes[child].parent, Some(handle));
            self.shows(*child, &path, declared);
        }
    }

    /// Whether the document holds the materialized node and all below it.
    fn holds(&self, v: &VDomNode) {
        let host = &self.nodes[&v.handle];
        assert_eq!(host.value.as_ref(), Some(&v.value));
        let handles: Vec<u64> = v.children.iter().map(|c| c.handle).collect();
        assert_eq!(host.children, handles);
        let attached: Vec<u64> = v.listeners.iter().map(|l| l.handle).collect();
        let held: Vec<u64> = host.listeners.keys().cloned().collect();
        let mut sorted = attached.clone();
        sorted.sort();
        assert_eq!(held, sorted);
        assert_eq!(host.attributes.len(), v.attributes.len());
        for child in v.children.iter() {
            self.holds(child);
        }
    }
}

struct App {
    host: Host,
    root: VDomNode,
    next: u64,
}

impl App {
    fn new() -> App {
        App { host: Host::new(), root: VDomNode::root(ROOT_HANDLE), next: FIRST_HANDLE }
    }

    /// One pass for `tree`; the document makes the mutations and must show
    /// the tree afterwards. Returns the number of mutations.
    fn render(&mut self, tree: &DomNode) -> usize {
        assert!(tree.is_well_formed());
        let ops = render_pass(&mut self.root, &mut self.next, tree).unwrap();
        for op in ops.iter() {
            self.host.apply(op);
        }
        let children = self.host.nodes[&ROOT_HANDLE].children.clone();
        assert_eq!(children.len(), 1);
        self.host.shows(children[0], &[], tree);
        assert_eq!(self.root.children.len(), 1);
        self.host.holds(&self.root.children[0]);
        // the document holds nothing but the root and the nodes of the tree
        let mut held = vec![ROOT_HANDLE];
        nodes_of(&self.root.children[0], &mut held);
        held.sort();
        assert_eq!(self.host.nodes.keys().cloned().collect::<Vec<u64>>(), held);
        ops.len()
    }
}

fn nodes_of(v: &VDomNode, into: &mut Vec<u64>) {
    into.push(v.handle);
    for child in v.children.iter() {
        nodes_of(child, into);
    }
}

fn value(s: &str) -> AttributeValue {
    AttributeValue::Str(s.to_string())
}

fn item(key: u32, label: &str, done: bool) -> DomNode {
    let mut node = DomNode::element("li")
        .with_key(key)
        .with_attribute("class", value(if done { "done" } else { "open" }))
        .with_child(DomNode::text(label))
        .with_child(
            DomNode::element("button").with_listener("click", 100 + key as u64).with_child(
                DomNode::text("x"),
            ),
        );
    if done {
        node = node.with_attribute("hidden", AttributeValue::Bool(true));
    }
    node
}

fn page(items: Vec<DomNode>) -> DomNode {
    let mut list = DomNode::element("ul").with_listener("keydown", 1);
    for it in items {
        list = list.with_child(it);
    }
    DomNode::element("main").with_attribute("id", value("app")).with_child(
        DomNode::element("h1").with_child(DomNode::text("todo")),
    ).with_child(list)
}

#[test]
fn the_document_shows_each_rendering_in_turn() {
    let mut app = App::new();
    assert!(app.render(&page(vec![])) > 0);
    assert_eq!(app.render(&page(vec![])), 0);
    app.render(&page(vec![item(1, "milk", false)]));
    app.render(&page(vec![item(1, "milk", false), item(2, "dog", false), item(3, "tax", true)]));
    assert_eq!(
        app.render(&page(vec![item(1, "milk", false), item(2, "dog", false), item(3, "tax", true)])),
        0
    );
    // reorder
    assert_eq!(
        app.render(&page(vec![item(3, "tax", true), item(1, "milk", false), item(2, "dog", false)])),
        1
    );
    // change in place
    app.render(&page(vec![item(3, "tax", false), item(1, "milk", true), item(2, "cat", false)]));
    // remove the middle, add at the front
    app.render(&page(vec![item(9, "new", false), item(3, "tax", false), item(2, "cat", false)]));
    // another variant at the root
    app.render(&DomNode::text("gone"));
    app.render(&page(vec![item(2, "cat", false)]));
    app.render(&page(vec![]));
}

#[test]
fn unkeyed_and_repeated_siblings_are_shown_too() {
    let mut app = App::new();
    let row = |texts: &[&str]| {
        let mut r = DomNode::element("tr");
        for t in texts {
            r = r.with_child(DomNode::element("td").with_child(DomNode::text(t)));
        }
        r
    };
    let table = |rows: Vec<DomNode>| {
        let mut t = DomNode::element("table");
        for r in rows {
            t = t.with_child(r);
        }
        t
    };
    app.render(&table(vec![row(&["a", "b"]), row(&["c"]), row(&[])]));
    app.render(&table(vec![row(&["c"]), row(&["a", "b"]), row(&["a", "b"])]));
    app.render(&table(vec![row(&["b", "a", "b", "a"])]));
    app.render(&table(vec![row(&["a"]), row(&["a"]), row(&["a"]), row(&["a"])]));
    assert_eq!(app.render(&table(vec![row(&["a"]), row(&["a"]), row(&["a"]), row(&["a"])])), 0);
    app.render(&table(vec![]));
}

/// A small generator of numbers that always gives the same sequence.
struct Numbers(u64);

impl Numbers {
    fn next(&mut self, below: u64) -> u64 {
        self.0 = self.0.wrapping_mul(6364136223846793005).wrapping_add(1442695040888963407);
        (self.0 >> 33) % below
    }
}

fn random_tree(numbers: &mut Numbers, depth: u32) -> DomNode {
    let tags = ["div", "span", "p"];
    let texts = ["", "a", "b"];
    if depth == 0 || numbers.next(4) == 0 {
        let mut leaf = DomNode::text(texts[numbers.next(3) as usize]);
        if numbers.next(3) == 0 {
            leaf = leaf.with_key(numbers.next(3) as u32);
        }
        return leaf;
    }
    let mut node = DomNode::element(tags[numbers.next(3) as usize]);
    if numbers.next(2) == 0 {
        node = node.with_key(numbers.next(4) as u32);
    }
    let keys = ["id", "class", "title"];
    for key in keys.iter() {
        match numbers.next(4) {
            0 => node = node.with_attribute(key, value(texts[numbers.next(3) as usize])),
            1 => node = node.with_attribute(key, AttributeValue::Bool(numbers.next(2) == 0)),
            _ => {}
        }
    }
    for _ in 0..numbers.next(3) {
        let events = ["click", "input"];
        node = node.with_listener(events[numbers.next(2) as usize], numbers.next(3));
    }
    for _ in 0..numbers.next(5) {
        node = node.with_child(random_tree(numbers, depth - 1));
    }
    node
}

#[test]
fn the_document_follows_any_sequence_of_renderings() {
    for seed in 0..40u64 {
        let mut numbers = Numbers(seed);
        let mut app = App::new();
        for _ in 0..12 {
            let tree = random_tree(&mut numbers, 3);
            app.render(&tree);
            assert_eq!(app.render(&tree), 0, "the same rendering again records nothing");
        }
        assert!(app.host.made > 0);
    }
}
