use domafic::document::{HostOp, WebDocument, FIRST_HANDLE, ROOT_HANDLE};
use domafic::dom::{AttributeValue, DomNode, DomValue, KeyValue, Listener};
use domafic::keys::Keys;
use domafic::processors::{gather_listeners, process_all, ListenersToVec, Processor};
use domafic::reconciler::{
    add_node, attach_all_listeners, attach_new_listeners, create_node, find_match, has_attribute,
    is_declared, is_served, reconcile_level, remove_stale_attributes, remove_stale_listeners,
    remove_unused, set_all_attributes, set_new_attributes, update_attributes, update_listeners,
    update_node,
};
use domafic::writer::{check_keys_fit, count_handles, write_nodes, RenderError, WebWriter, WebWriterAcc};
use domafic::vdom::{AttachedListener, VDomNode};

fn text_value(s: &str) -> AttributeValue {
    AttributeValue::Str(s.to_string())
}

fn attribute(key: &str, value: &str) -> KeyValue {
    KeyValue(key.to_string(), text_value(value))
}

fn remove(handle: u64, released: &[u64]) -> HostOp {
    HostOp::RemoveChild { handle, released: released.to_vec() }
}

fn attached(handle: u64, handler: u64, event: &str) -> AttachedListener {
    AttachedListener { handle, handler, event: event.to_string() }
}

fn vnode(tag: &str, keys: Keys, handle: u64) -> VDomNode {
    VDomNode {
        value: DomValue::Element { tag: tag.to_string() },
        keys,
        handle,
        attributes: Vec::new(),
        listeners: Vec::new(),
        children: Vec::new(),
    }
}

#[test]
fn builders_fill_a_node_in_declared_order() {
    let node = DomNode::element("a")
        .with_key(3)
        .with_attribute("href", text_value("/"))
        .with_attribute("hidden", AttributeValue::Bool(true))
        .with_listener("click", 8)
        .with_child(DomNode::text("home"))
        .with_child(DomNode::element("b"));
    assert_eq!(*node.value(), DomValue::Element { tag: "a".to_string() });
    assert_eq!(node.key(), Some(3));
    assert_eq!(
        *node.attributes(),
        vec![attribute("href", "/"), KeyValue("hidden".to_string(), AttributeValue::Bool(true))]
    );
    assert_eq!(*node.listeners(), vec![Listener { handler: 8, event: "click".to_string() }]);
    assert_eq!(node.children().len(), 2);
    assert_eq!(*node.children()[0].value(), DomValue::Text("home".to_string()));
    assert_eq!(node.children()[0].key(), None);
    assert_eq!(node.listeners()[0].event_type_handled(), "click");
    assert_eq!(Listener::on("input", 2), Listener { handler: 2, event: "input".to_string() });
}

#[test]
fn values_compare_by_variant_and_content() {
    let div = DomValue::Element { tag: "div".to_string() };
    assert!(div.same_as(&div.clone()));
    assert!(!div.same_as(&DomValue::Element { tag: "p".to_string() }));
    assert!(!div.same_as(&DomValue::Text("div".to_string())));
    assert!(DomValue::Text("x".to_string()).same_as(&DomValue::Text("x".to_string())));
    assert!(!DomValue::Text("x".to_string()).same_as(&DomValue::Text("y".to_string())));

    assert!(text_value("1").same_as(&text_value("1")));
    assert!(!text_value("true").same_as(&AttributeValue::Bool(true)));
    assert!(AttributeValue::Bool(false).same_as(&AttributeValue::Bool(false)));
    assert!(!AttributeValue::Bool(false).same_as(&AttributeValue::Bool(true)));

    assert!(attribute("k", "v").same_as(&attribute("k", "v").clone()));
    assert!(!attribute("k", "v").same_as(&attribute("k", "w")));
    assert!(!attribute("k", "v").same_as(&attribute("j", "v")));
    assert_eq!(Listener::on("click", 1).clone(), Listener::on("click", 1));
}

#[test]
fn a_flag_is_handed_to_the_host_as_text() {
    assert_eq!(AttributeValue::Bool(true).as_str(), "true");
    assert_eq!(AttributeValue::Bool(false).as_str(), "false");
    assert_eq!(text_value("plain").as_str(), "plain");
}

#[test]
fn the_recorder_hands_out_handles_in_order() {
    let mut doc = WebDocument::new();
    assert_eq!(doc.next_handle, FIRST_HANDLE);
    let a = doc.create_element("div");
    let b = doc.create_text_node("t");
    let c = doc.set_listener(a, "click", 9, Keys::new().push(2));
    let d = doc.create(&DomValue::Text("u".to_string()));
    let e = doc.create(&DomValue::Element { tag: "p".to_string() });
    assert_eq!((a, b, c, d, e), (1, 2, 3, 4, 5));
    doc.insert(ROOT_HANDLE, 0, a);
    doc.move_child(a, 3, 1);
    doc.set_attribute(a, &attribute("k", "v"));
    doc.remove_attribute(a, "k");
    doc.remove_listener(a, "click", c);
    doc.remove_self(b, vec![b, c]);
    doc.remove_all_children(a);
    let ops = doc.take_ops();
    assert_eq!(
        ops,
        vec![
            HostOp::CreateElement { handle: 1, tag: "div".to_string() },
            HostOp::CreateText { handle: 2, content: "t".to_string() },
            HostOp::AttachListener {
                handle: 1,
                event: "click".to_string(),
                handler: 9,
                keys: Keys::new().push(2),
                listener: 3,
            },
            HostOp::CreateText { handle: 4, content: "u".to_string() },
            HostOp::CreateElement { handle: 5, tag: "p".to_string() },
            HostOp::InsertChild { parent: 0, index: 0, child: 1 },
            HostOp::MoveChild { parent: 1, old_index: 3, new_index: 1 },
            HostOp::SetAttribute { handle: 1, attribute: attribute("k", "v") },
            HostOp::RemoveAttribute { handle: 1, key: "k".to_string() },
            HostOp::DetachListener { handle: 1, event: "click".to_string(), listener: 3 },
            remove(2, &[2, 3]),
            HostOp::RemoveAllChildren { handle: 1 },
        ]
    );
    assert!(doc.ops.is_empty());
    assert_eq!(doc.next_handle, 6);
    assert_eq!(WebDocument::starting_at(40).next_handle, 40);
}

#[test]
fn the_scan_takes_the_first_match_from_the_cursor_on() {
    let path = Keys::new().push(1);
    let level = vec![
        vnode("li", path, 10),
        vnode("li", Keys::new(), 11),
        vnode("p", path, 12),
        vnode("li", path, 13),
    ];
    let li = DomValue::Element { tag: "li".to_string() };
    assert_eq!(find_match(&level, 0, &path, &li), Some(0));
    assert_eq!(find_match(&level, 1, &path, &li), Some(3));
    assert_eq!(find_match(&level, 4, &path, &li), None);
    assert_eq!(find_match(&level, 9, &path, &li), None);
    assert_eq!(find_match(&level, 0, &Keys::new(), &li), Some(1));
    assert_eq!(find_match(&level, 2, &Keys::new(), &li), None);
    assert_eq!(find_match(&level, 0, &path, &DomValue::Text("li".to_string())), None);
    assert_eq!(find_match(&level, 0, &path, &DomValue::Element { tag: "p".to_string() }), Some(2));
}

#[test]
fn membership_goes_by_identity() {
    let declared = vec![Listener::on("click", 1), Listener::on("input", 2)];
    assert!(is_declared(&declared, &attached(50, 1, "click")));
    assert!(!is_declared(&declared, &attached(50, 2, "click")));
    assert!(!is_declared(&declared, &attached(50, 1, "input")));
    let attachments = vec![attached(50, 1, "click")];
    assert!(is_served(&attachments, &Listener::on("click", 1)));
    assert!(!is_served(&attachments, &Listener::on("click", 2)));
    assert!(!is_served(&Vec::new(), &Listener::on("click", 1)));
    let attributes = vec![attribute("a", "1")];
    assert!(has_attribute(&attributes, &attribute("a", "1")));
    assert!(!has_attribute(&attributes, &attribute("a", "2")));
    assert!(!has_attribute(&attributes, &KeyValue("a".to_string(), AttributeValue::Bool(true))));
}

#[test]
fn stale_listeners_go_and_missing_ones_come() {
    let mut doc = WebDocument::starting_at(20);
    let mut attachments = vec![attached(5, 1, "click"), attached(6, 2, "input"), attached(7, 3, "blur")];
    let declared = vec![Listener::on("input", 2), Listener::on("focus", 4), Listener::on("focus", 4)];
    remove_stale_listeners(&mut doc, 9, &mut attachments, &declared);
    assert_eq!(attachments, vec![attached(6, 2, "input")]);
    let path = Keys::new().push(7);
    attach_new_listeners(&mut doc, 9, &path, &mut attachments, &declared);
    assert_eq!(attachments, vec![attached(6, 2, "input"), attached(20, 4, "focus")]);
    assert_eq!(
        doc.ops,
        vec![
            HostOp::DetachListener { handle: 9, event: "click".to_string(), listener: 5 },
            HostOp::DetachListener { handle: 9, event: "blur".to_string(), listener: 7 },
            HostOp::AttachListener {
                handle: 9,
                event: "focus".to_string(),
                handler: 4,
                keys: path,
                listener: 20,
            },
        ]
    );
    assert_eq!(doc.next_handle, 21);

    let all = attach_all_listeners(&mut doc, 9, &path, &declared);
    assert_eq!(all, vec![attached(21, 2, "input"), attached(22, 4, "focus"), attached(23, 4, "focus")]);
    assert_eq!(doc.next_handle, 24);
}

#[test]
fn stale_attributes_go_and_missing_ones_come() {
    let mut doc = WebDocument::new();
    let mut retained = vec![attribute("a", "1"), attribute("b", "2"), attribute("c", "3")];
    let declared = vec![attribute("c", "3"), attribute("b", "9"), attribute("d", "4")];
    remove_stale_attributes(&mut doc, 7, &mut retained, &declared);
    assert_eq!(retained, vec![attribute("c", "3")]);
    set_new_attributes(&mut doc, 7, &mut retained, &declared);
    assert_eq!(retained, vec![attribute("c", "3"), attribute("b", "9"), attribute("d", "4")]);
    assert_eq!(
        doc.take_ops(),
        vec![
            HostOp::RemoveAttribute { handle: 7, key: "a".to_string() },
            HostOp::RemoveAttribute { handle: 7, key: "b".to_string() },
            HostOp::SetAttribute { handle: 7, attribute: attribute("b", "9") },
            HostOp::SetAttribute { handle: 7, attribute: attribute("d", "4") },
        ]
    );
    let all = set_all_attributes(&mut doc, 8, &declared);
    assert_eq!(all, declared);
    assert_eq!(doc.ops.len(), 3);
    assert_eq!(doc.next_handle, FIRST_HANDLE);
}

#[test]
fn unused_entries_are_removed_from_the_end() {
    let mut doc = WebDocument::new();
    let mut level = vec![
        vnode("a", Keys::new(), 4),
        vnode("b", Keys::new(), 5),
        vnode("c", Keys::new(), 6),
    ];
    remove_unused(&mut doc, &mut level, 3);
    assert!(doc.ops.is_empty());
    remove_unused(&mut doc, &mut level, 1);
    assert_eq!(
        doc.ops,
        vec![remove(6, &[6]), remove(5, &[5])]
    );
    assert_eq!(level, vec![vnode("a", Keys::new(), 4)]);
    remove_unused(&mut doc, &mut level, 0);
    assert!(level.is_empty());
    assert_eq!(doc.ops.len(), 3);
}

#[test]
fn a_step_reuses_moves_or_creates() {
    let mut doc = WebDocument::starting_at(30);
    let keys = Keys::new();
    let mut level = vec![vnode("a", keys, 4), vnode("b", keys, 5), vnode("c", keys, 6)];

    add_node(&mut doc, &keys, 2, &mut level, 0, &DomNode::element("c"));
    assert_eq!(doc.take_ops(), vec![HostOp::MoveChild { parent: 2, old_index: 2, new_index: 0 }]);
    assert_eq!(level.iter().map(|v| v.handle).collect::<Vec<u64>>(), vec![6, 4, 5]);

    add_node(&mut doc, &keys, 2, &mut level, 1, &DomNode::element("a"));
    assert_eq!(doc.take_ops(), vec![]);

    add_node(&mut doc, &keys, 2, &mut level, 2, &DomNode::element("a"));
    assert_eq!(
        doc.take_ops(),
        vec![
            HostOp::CreateElement { handle: 30, tag: "a".to_string() },
            HostOp::InsertChild { parent: 2, index: 2, child: 30 },
        ]
    );
    assert_eq!(level.iter().map(|v| v.handle).collect::<Vec<u64>>(), vec![6, 4, 30, 5]);

    add_node(&mut doc, &keys, 2, &mut level, 4, &DomNode::element("b").with_key(1));
    assert_eq!(level.len(), 5);
    assert_eq!(level[4].keys, Keys::new().push(1));
    assert_eq!(level[4].handle, 31);
}

#[test]
fn updating_and_creating_fill_the_node() {
    let mut doc = WebDocument::starting_at(10);
    let path = Keys::new().push(2);
    let node = DomNode::element("div")
        .with_key(2)
        .with_attribute("id", text_value("x"))
        .with_listener("click", 1)
        .with_child(DomNode::text("t"));
    let created = create_node(&mut doc, &path, &node);
    assert_eq!(created.handle, 10);
    assert_eq!(created.keys, path);
    assert_eq!(created.value, DomValue::Element { tag: "div".to_string() });
    assert_eq!(created.attributes, vec![attribute("id", "x")]);
    assert_eq!(created.listeners, vec![attached(11, 1, "click")]);
    assert_eq!(created.children.len(), 1);
    assert_eq!(created.children[0].handle, 12);
    assert_eq!(created.children[0].keys, path);
    assert_eq!(doc.take_ops().len(), 5);

    let mut existing = vnode("div", path, 3);
    update_node(&mut doc, &path, &mut existing, &node);
    assert_eq!(existing.handle, 3);
    assert_eq!(existing.attributes, vec![attribute("id", "x")]);
    assert_eq!(existing.listeners, vec![attached(13, 1, "click")]);
    assert_eq!(existing.children[0].handle, 14);
    assert_eq!(
        doc.take_ops(),
        vec![
            HostOp::AttachListener {
                handle: 3,
                event: "click".to_string(),
                handler: 1,
                keys: path,
                listener: 13,
            },
            HostOp::SetAttribute { handle: 3, attribute: attribute("id", "x") },
            HostOp::CreateText { handle: 14, content: "t".to_string() },
            HostOp::InsertChild { parent: 3, index: 0, child: 14 },
        ]
    );

    let mut level = vec![existing];
    reconcile_level(&mut doc, &Keys::new(), 0, &mut level, &vec![]);
    assert!(level.is_empty());
    assert_eq!(doc.take_ops(), vec![remove(3, &[3, 13, 14])]);
}

#[test]
fn the_checks_before_a_pass_count_keys_and_handles() {
    let node = DomNode::element("div")
        .with_key(1)
        .with_listener("a", 1)
        .with_listener("b", 2)
        .with_child(DomNode::text("x").with_key(2))
        .with_child(DomNode::element("p").with_listener("c", 3));
    assert_eq!(count_handles(&node), Some(6));
    assert_eq!(count_handles(&DomNode::text("x")), Some(1));
    assert!(check_keys_fit(&node, 0));
    assert!(check_keys_fit(&node, 30));
    assert!(!check_keys_fit(&node, 31));
    assert!(!check_keys_fit(&node, 32));
    assert!(check_keys_fit(&DomNode::text("x"), 32));
    assert!(!check_keys_fit(&DomNode::text("x").with_key(0), 32));
}

#[test]
fn gathering_listeners_keeps_their_order() {
    let listeners = vec![Listener::on("a", 1), Listener::on("b", 2), Listener::on("a", 1)];
    assert_eq!(gather_listeners(&listeners), listeners);
    let mut gathered = vec![Listener::on("z", 0)];
    let result = process_all::<Listener, ListenersToVec>(&listeners, &mut gathered);
    assert_eq!(result, Ok(()));
    assert_eq!(gathered.len(), 4);
    assert_eq!(gathered[0], Listener::on("z", 0));
    assert_eq!(gathered[3], Listener::on("a", 1));
}

struct UntilZero;

impl Processor<u32> for UntilZero {
    type Acc = Vec<u32>;
    type Error = usize;

    fn process(acc: &mut Vec<u32>, item: &u32) -> Result<(), usize> {
        if *item == 0 {
            Err(acc.len())
        } else {
            acc.push(*item);
            Ok(())
        }
    }
}

#[test]
fn a_traversal_stops_at_the_first_failure() {
    let mut seen = Vec::new();
    let result = process_all::<u32, UntilZero>(&vec![4, 5, 0, 6, 0, 7], &mut seen);
    assert_eq!(result, Err(2));
    assert_eq!(seen, vec![4, 5]);

    let mut seen = Vec::new();
    let result = process_all::<u32, UntilZero>(&vec![1, 2, 3], &mut seen);
    assert_eq!(result, Ok(()));
    assert_eq!(seen, vec![1, 2, 3]);

    let mut seen = vec![9];
    assert_eq!(process_all::<u32, UntilZero>(&vec![], &mut seen), Ok(()));
    assert_eq!(seen, vec![9]);
}

#[test]
fn the_root_starts_empty() {
    let root = VDomNode::root(ROOT_HANDLE);
    assert_eq!(root.handle, 0);
    assert_eq!(root.keys, Keys::new());
    assert!(root.children.is_empty());
    assert!(root.attributes.is_empty());
    assert!(root.listeners.is_empty());
}

struct CountText;

impl Processor<DomNode> for CountText {
    type Acc = usize;
    type Error = String;

    fn process(acc: &mut usize, item: &DomNode) -> Result<(), String> {
        match item.value() {
            DomValue::Text(_) => {
                *acc += 1;
                Ok(())
            }
            DomValue::Element { tag } if tag == "script" => Err(format!("script after {}", acc)),
            DomValue::Element { .. } => item.process_children::<CountText>(acc),
        }
    }
}

struct Keys3;

impl Processor<KeyValue> for Keys3 {
    type Acc = Vec<String>;
    type Error = ();

    fn process(acc: &mut Vec<String>, item: &KeyValue) -> Result<(), ()> {
        if acc.len() == 3 {
            return Err(());
        }
        acc.push(item.0.clone());
        Ok(())
    }
}

#[test]
fn a_node_is_traversed_in_declared_order() {
    let node = DomNode::element("div")
        .with_attribute("a", text_value("1"))
        .with_attribute("b", text_value("2"))
        .with_listener("click", 1)
        .with_listener("input", 2)
        .with_child(DomNode::text("x"))
        .with_child(DomNode::element("p").with_child(DomNode::text("y")).with_child(DomNode::text("z")))
        .with_child(DomNode::element("script").with_child(DomNode::text("never")))
        .with_child(DomNode::text("after"));

    let mut keys = Vec::new();
    assert_eq!(node.process_attributes::<Keys3>(&mut keys), Ok(()));
    assert_eq!(keys, vec!["a".to_string(), "b".to_string()]);
    assert_eq!(node.process_attributes::<Keys3>(&mut keys), Err(()));
    assert_eq!(keys, vec!["a".to_string(), "b".to_string(), "a".to_string()]);

    let mut listeners = Vec::new();
    assert_eq!(node.process_listeners::<ListenersToVec>(&mut listeners), Ok(()));
    assert_eq!(listeners, vec![Listener::on("click", 1), Listener::on("input", 2)]);

    let mut texts = 0;
    assert_eq!(node.process_children::<CountText>(&mut texts), Err("script after 3".to_string()));
    assert_eq!(texts, 3);
}

#[test]
fn the_writer_stops_at_the_first_node_that_is_refused() {
    let mut deep = DomNode::element("div").with_key(0);
    for key in 1..33u32 {
        deep = DomNode::element("div").with_key(key).with_child(deep);
    }
    let nodes = vec![DomNode::element("a"), DomNode::text("t"), deep, DomNode::element("never")];
    let level = vec![vnode("x", Keys::new(), 4), vnode("a", Keys::new(), 5)];
    let mut writer = WebWriterAcc::new(WebDocument::starting_at(10), Keys::new(), 2, level);
    assert_eq!(writer.node_index(), 0);

    let result = process_all::<DomNode, WebWriter>(&nodes, &mut writer);
    assert_eq!(result, Err(RenderError::KeyPathOverflow));
    assert_eq!(writer.node_index(), 2);

    // what the steps before the failure did is done, and nothing more
    let (document, level) = writer.into_parts();
    assert_eq!(
        document.ops,
        vec![
            HostOp::MoveChild { parent: 2, old_index: 1, new_index: 0 },
            HostOp::CreateText { handle: 10, content: "t".to_string() },
            HostOp::InsertChild { parent: 2, index: 1, child: 10 },
        ]
    );
    assert_eq!(level.iter().map(|v| v.handle).collect::<Vec<u64>>(), vec![5, 10, 4]);
}

#[test]
fn the_writer_brings_a_whole_level_in_and_clears_the_rest() {
    let nodes = vec![DomNode::element("b"), DomNode::element("a")];
    let level = vec![
        vnode("a", Keys::new(), 4),
        vnode("b", Keys::new(), 5),
        vnode("c", Keys::new(), 6),
    ];
    let mut writer = WebWriterAcc::new(WebDocument::starting_at(10), Keys::new(), 2, level);
    assert_eq!(process_all::<DomNode, WebWriter>(&nodes, &mut writer), Ok(()));
    assert_eq!(writer.node_index(), 2);
    let (document, level) = writer.finish();
    assert_eq!(
        document.ops,
        vec![
            HostOp::MoveChild { parent: 2, old_index: 1, new_index: 0 },
            remove(6, &[6]),
        ]
    );
    assert_eq!(level.iter().map(|v| v.handle).collect::<Vec<u64>>(), vec![5, 4]);
    assert_eq!(document.next_handle, 10);
}

#[test]
fn a_pass_node_by_node_ends_at_the_first_refusal() {
    let level = vec![vnode("a", Keys::new(), 4), vnode("b", Keys::new(), 5)];
    let nodes = vec![DomNode::element("b"), DomNode::element("c"), DomNode::element("a")];
    let (result, document, level) =
        write_nodes(WebDocument::starting_at(u64::MAX - 2), Keys::new(), 2, level, &nodes);
    assert_eq!(result, Ok(()));
    assert_eq!(
        document.ops,
        vec![
            HostOp::MoveChild { parent: 2, old_index: 1, new_index: 0 },
            HostOp::CreateElement { handle: u64::MAX - 2, tag: "c".to_string() },
            HostOp::InsertChild { parent: 2, index: 1, child: u64::MAX - 2 },
        ]
    );
    assert_eq!(document.next_handle, u64::MAX - 1);
    assert_eq!(level.iter().map(|v| v.handle).collect::<Vec<u64>>(), vec![5, u64::MAX - 2, 4]);

    // one handle is left: the first node is brought in, the second, which
    // could need two, is refused, and the pass ends there; the entry that no
    // node has matched yet is not removed
    let nodes = vec![
        DomNode::element("a"),
        DomNode::element("d").with_listener("click", 1),
        DomNode::element("b"),
    ];
    let (result, document, level) =
        write_nodes(WebDocument::starting_at(u64::MAX - 1), Keys::new(), 2, level, &nodes);
    assert_eq!(result, Err(RenderError::HandlesExhausted));
    assert_eq!(document.ops, vec![HostOp::MoveChild { parent: 2, old_index: 2, new_index: 0 }]);
    assert_eq!(document.next_handle, u64::MAX - 1);
    assert_eq!(level.iter().map(|v| v.handle).collect::<Vec<u64>>(), vec![4, 5, u64::MAX - 2]);

    // no handle is left: even a node that an entry matches is refused
    let nodes = vec![DomNode::element("a")];
    let (result, document, level) =
        write_nodes(WebDocument::starting_at(u64::MAX), Keys::new(), 2, level, &nodes);
    assert_eq!(result, Err(RenderError::HandlesExhausted));
    assert_eq!(document.ops, vec![]);
    assert_eq!(level.len(), 3);
}

#[test]
fn a_node_lists_every_handle_that_belongs_to_it() {
    let mut node = vnode("div", Keys::new(), 4);
    node.listeners = vec![attached(9, 1, "click"), attached(7, 2, "input")];
    let mut child = vnode("p", Keys::new(), 5);
    child.listeners = vec![attached(8, 1, "click")];
    child.children = vec![vnode("i", Keys::new(), 12), vnode("b", Keys::new(), 6)];
    node.children = vec![vnode("a", Keys::new(), 20), child, vnode("z", Keys::new(), 1)];
    assert_eq!(node.handles(), vec![4, 9, 7, 20, 5, 8, 12, 6, 1]);
    let mut into = vec![99];
    node.children[1].collect_handles(&mut into);
    assert_eq!(into, vec![99, 5, 8, 12, 6]);
    assert_eq!(vnode("x", Keys::new(), 3).handles(), vec![3]);
}

#[test]
fn listeners_and_attributes_end_as_declared() {
    let mut doc = WebDocument::starting_at(20);
    let mut attachments = vec![attached(5, 1, "click"), attached(6, 2, "input")];
    let declared = vec![Listener::on("input", 2), Listener::on("focus", 4)];
    update_listeners(&mut doc, 9, &Keys::new(), &mut attachments, &declared);
    assert_eq!(attachments, vec![attached(6, 2, "input"), attached(20, 4, "focus")]);

    let mut retained = vec![attribute("a", "1"), attribute("b", "2")];
    let declared = vec![attribute("b", "2"), attribute("c", "3")];
    update_attributes(&mut doc, 9, &mut retained, &declared);
    assert_eq!(retained, vec![attribute("b", "2"), attribute("c", "3")]);

    assert_eq!(
        doc.take_ops(),
        vec![
            HostOp::DetachListener { handle: 9, event: "click".to_string(), listener: 5 },
            HostOp::AttachListener {
                handle: 9,
                event: "focus".to_string(),
                handler: 4,
                keys: Keys::new(),
                listener: 20,
            },
            HostOp::RemoveAttribute { handle: 9, key: "a".to_string() },
            HostOp::SetAttribute { handle: 9, attribute: attribute("c", "3") },
        ]
    );

    // from nothing, and to nothing
    let mut retained = Vec::new();
    update_attributes(&mut doc, 9, &mut retained, &declared);
    assert_eq!(retained, declared);
    update_attributes(&mut doc, 9, &mut retained, &Vec::new());
    assert!(retained.is_empty());
    update_listeners(&mut doc, 9, &Keys::new(), &mut attachments, &Vec::new());
    assert!(attachments.is_empty());
    assert_eq!(doc.ops.len(), 6);
    assert_eq!(doc.next_handle, 21);
}
