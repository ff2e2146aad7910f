use domafic::document::{HostOp, ROOT_HANDLE};
use domafic::dom::{AttributeValue, DomNode, KeyValue};
use domafic::keys::Keys;
use domafic::system::render_pass;
use domafic::writer::RenderError;
use domafic::vdom::VDomNode;

fn create_element(handle: u64, tag: &str) -> HostOp {
    HostOp::CreateElement { handle, tag: tag.to_string() }
}

fn create_text(handle: u64, content: &str) -> HostOp {
    HostOp::CreateText { handle, content: content.to_string() }
}

fn insert(parent: u64, index: usize, child: u64) -> HostOp {
    HostOp::InsertChild { parent, index, child }
}

fn attach(handle: u64, event: &str, handler: u64, keys: Keys, listener: u64) -> HostOp {
    HostOp::AttachListener { handle, event: event.to_string(), handler, keys, listener }
}

fn set(handle: u64, key: &str, value: AttributeValue) -> HostOp {
    HostOp::SetAttribute { handle, attribute: KeyValue(key.to_string(), value) }
}

fn text_value(s: &str) -> AttributeValue {
    AttributeValue::Str(s.to_string())
}

fn list_of(children: Vec<DomNode>) -> DomNode {
    let mut list = DomNode::element("ul");
    for child in children {
        list = list.with_child(child);
    }
    list
}

fn todo_item(key: u32, text: &str) -> DomNode {
    DomNode::element("div").with_key(key).with_child(DomNode::text(text)).with_child(
        DomNode::element("button").with_listener("click", 1).with_child(DomNode::text("Remove")),
    )
}

fn keyed(tag: &str, key: u32) -> DomNode {
    DomNode::element(tag).with_key(key)
}

fn fresh() -> (VDomNode, u64) {
    (VDomNode::root(ROOT_HANDLE), ROOT_HANDLE + 1)
}

fn remove(handle: u64, released: &[u64]) -> HostOp {
    HostOp::RemoveChild { handle, released: released.to_vec() }
}

fn handles(level: &Vec<VDomNode>) -> Vec<u64> {
    level.iter().map(|v| v.handle).collect()
}

#[test]
fn first_render_creates_and_inserts() {
    let (mut root, mut next) = fresh();
    let tree = DomNode::element("div").with_attribute("class", text_value("box")).with_child(
        DomNode::text("hello"),
    );
    let ops = render_pass(&mut root, &mut next, &tree).unwrap();
    assert_eq!(
        ops,
        vec![
            create_element(1, "div"),
            set(1, "class", text_value("box")),
            create_text(2, "hello"),
            insert(1, 0, 2),
            insert(0, 0, 1),
        ]
    );
    assert_eq!(next, 3);
    assert_eq!(root.children.len(), 1);
    assert_eq!(root.children[0].handle, 1);
    assert_eq!(root.children[0].children[0].handle, 2);
}

#[test]
fn same_tree_again_touches_nothing() {
    let (mut root, mut next) = fresh();
    let tree = list_of(vec![todo_item(0, "a"), todo_item(1, "b")]).with_attribute(
        "class",
        text_value("todos"),
    );
    let first = render_pass(&mut root, &mut next, &tree).unwrap();
    assert!(!first.is_empty());
    let next_after_first = next;
    let again = list_of(vec![todo_item(0, "a"), todo_item(1, "b")]).with_attribute(
        "class",
        text_value("todos"),
    );
    let second = render_pass(&mut root, &mut next, &again).unwrap();
    assert_eq!(second, vec![]);
    assert_eq!(next, next_after_first);
}

#[test]
fn removing_the_middle_item_removes_once_and_keeps_the_others() {
    let (mut root, mut next) = fresh();
    let tree = list_of(vec![todo_item(0, "a"), todo_item(1, "b"), todo_item(2, "c")]);
    render_pass(&mut root, &mut next, &tree).unwrap();
    let list = root.children[0].handle;
    let before = handles(&root.children[0].children);
    let middle = before[1];
    let released = root.children[0].children[1].handles();
    assert_eq!(released, vec![middle, middle + 1, middle + 2, middle + 3, middle + 4]);
    let listeners_before: Vec<u64> = root.children[0].children.iter().map(
        |item| item.children[1].listeners[0].handle,
    ).collect();

    let tree = list_of(vec![todo_item(0, "a"), todo_item(2, "c")]);
    let ops = render_pass(&mut root, &mut next, &tree).unwrap();

    let removals: Vec<&HostOp> = ops.iter().filter(
        |op| matches!(op, HostOp::RemoveChild { .. }),
    ).collect();
    assert_eq!(removals, vec![&remove(middle, &released)]);
    assert_eq!(
        ops,
        vec![
            HostOp::MoveChild { parent: list, old_index: 2, new_index: 1 },
            remove(middle, &released),
        ]
    );
    let after = &root.children[0].children;
    assert_eq!(handles(after), vec![before[0], before[2]]);
    assert_eq!(after[0].children[1].listeners[0].handle, listeners_before[0]);
    assert_eq!(after[1].children[1].listeners[0].handle, listeners_before[2]);
    assert_eq!(after[0].children[1].listeners[0].handler, 1);
    assert_eq!(after[1].children[1].listeners[0].handler, 1);
}

#[test]
fn reordering_reuses_every_node_and_only_moves() {
    let (mut root, mut next) = fresh();
    let tree = list_of(vec![keyed("li", 10), keyed("li", 11), keyed("li", 12)]);
    render_pass(&mut root, &mut next, &tree).unwrap();
    let list = root.children[0].handle;
    let before = handles(&root.children[0].children);
    let next_before = next;

    let tree = list_of(vec![keyed("li", 12), keyed("li", 10), keyed("li", 11)]);
    let ops = render_pass(&mut root, &mut next, &tree).unwrap();

    assert_eq!(ops, vec![HostOp::MoveChild { parent: list, old_index: 2, new_index: 0 }]);
    assert!(ops.iter().all(|op| matches!(op, HostOp::MoveChild { .. })));
    assert_eq!(handles(&root.children[0].children), vec![before[2], before[0], before[1]]);
    assert_eq!(next, next_before);
}

#[test]
fn reversing_moves_twice() {
    let (mut root, mut next) = fresh();
    let tree = list_of(vec![keyed("li", 0), keyed("li", 1), keyed("li", 2)]);
    render_pass(&mut root, &mut next, &tree).unwrap();
    let list = root.children[0].handle;
    let before = handles(&root.children[0].children);

    let tree = list_of(vec![keyed("li", 2), keyed("li", 1), keyed("li", 0)]);
    let ops = render_pass(&mut root, &mut next, &tree).unwrap();

    assert_eq!(
        ops,
        vec![
            HostOp::MoveChild { parent: list, old_index: 2, new_index: 0 },
            HostOp::MoveChild { parent: list, old_index: 2, new_index: 1 },
        ]
    );
    assert_eq!(handles(&root.children[0].children), vec![before[2], before[1], before[0]]);
}

#[test]
fn changing_the_variant_replaces_the_node() {
    let (mut root, mut next) = fresh();
    render_pass(&mut root, &mut next, &DomNode::element("div")).unwrap();
    let old = root.children[0].handle;
    assert_eq!(old, 1);

    let ops = render_pass(&mut root, &mut next, &DomNode::text("x")).unwrap();

    assert_eq!(
        ops,
        vec![create_text(2, "x"), insert(0, 0, 2), remove(old, &[old])]
    );
    assert_eq!(handles(&root.children), vec![2]);
    assert_eq!(root.children[0].keys, Keys::new());
}

#[test]
fn changing_the_tag_or_the_text_replaces_the_node() {
    let (mut root, mut next) = fresh();
    let tree = DomNode::element("div").with_child(DomNode::element("p").with_key(4)).with_child(
        DomNode::text("one"),
    );
    render_pass(&mut root, &mut next, &tree).unwrap();
    let tree = DomNode::element("div").with_child(
        DomNode::element("span").with_key(4),
    ).with_child(DomNode::text("two"));
    let ops = render_pass(&mut root, &mut next, &tree).unwrap();
    assert_eq!(
        ops,
        vec![
            create_element(4, "span"),
            insert(1, 0, 4),
            create_text(5, "two"),
            insert(1, 1, 5),
            remove(3, &[3]),
            remove(2, &[2]),
        ]
    );
    assert_eq!(handles(&root.children[0].children), vec![4, 5]);
}

#[test]
fn attributes_converge_on_the_declared_set() {
    let (mut root, mut next) = fresh();
    let tree = DomNode::element("input").with_attribute("type", text_value("text")).with_attribute(
        "value",
        text_value("old"),
    ).with_attribute("autofocus", AttributeValue::Bool(true));
    render_pass(&mut root, &mut next, &tree).unwrap();

    let tree = DomNode::element("input").with_attribute("value", text_value("new")).with_attribute(
        "type",
        text_value("text"),
    ).with_attribute("placeholder", text_value("what?"));
    let ops = render_pass(&mut root, &mut next, &tree).unwrap();

    assert_eq!(
        ops,
        vec![
            HostOp::RemoveAttribute { handle: 1, key: "value".to_string() },
            HostOp::RemoveAttribute { handle: 1, key: "autofocus".to_string() },
            set(1, "value", text_value("new")),
            set(1, "placeholder", text_value("what?")),
        ]
    );
    assert_eq!(
        root.children[0].attributes,
        vec![
            KeyValue("type".to_string(), text_value("text")),
            KeyValue("value".to_string(), text_value("new")),
            KeyValue("placeholder".to_string(), text_value("what?")),
        ]
    );
}

#[test]
fn listeners_are_detached_and_attached_by_identity() {
    let (mut root, mut next) = fresh();
    let tree = DomNode::element("button").with_listener("click", 1).with_listener("keydown", 2);
    let ops = render_pass(&mut root, &mut next, &tree).unwrap();
    assert_eq!(
        ops,
        vec![
            create_element(1, "button"),
            attach(1, "click", 1, Keys::new(), 2),
            attach(1, "keydown", 2, Keys::new(), 3),
            insert(0, 0, 1),
        ]
    );

    let tree = DomNode::element("button").with_listener("keydown", 2).with_listener("click", 9);
    let ops = render_pass(&mut root, &mut next, &tree).unwrap();
    assert_eq!(
        ops,
        vec![
            HostOp::DetachListener { handle: 1, event: "click".to_string(), listener: 2 },
            attach(1, "click", 9, Keys::new(), 4),
        ]
    );
    let attached = &root.children[0].listeners;
    assert_eq!(attached.len(), 2);
    assert_eq!((attached[0].handle, attached[0].handler, attached[0].event.as_str()), (3, 2, "keydown"));
    assert_eq!((attached[1].handle, attached[1].handler, attached[1].event.as_str()), (4, 9, "click"));
}

#[test]
fn fewer_children_removes_the_trailing_ones_last_first() {
    let (mut root, mut next) = fresh();
    let tree = list_of(vec![
        DomNode::element("a"),
        DomNode::element("b"),
        DomNode::element("c"),
        DomNode::element("d"),
    ]);
    render_pass(&mut root, &mut next, &tree).unwrap();
    let before = handles(&root.children[0].children);

    let tree = list_of(vec![DomNode::element("a"), DomNode::element("b")]);
    let ops = render_pass(&mut root, &mut next, &tree).unwrap();

    assert_eq!(
        ops,
        vec![
            remove(before[3], &[before[3]]),
            remove(before[2], &[before[2]]),
        ]
    );
    assert_eq!(handles(&root.children[0].children), vec![before[0], before[1]]);
}

#[test]
fn empty_list_then_one_item_then_two() {
    let (mut root, mut next) = fresh();
    let ops = render_pass(&mut root, &mut next, &list_of(vec![])).unwrap();
    assert_eq!(ops, vec![create_element(1, "ul"), insert(0, 0, 1)]);
    assert_eq!(root.children[0].children.len(), 0);

    let ops = render_pass(&mut root, &mut next, &list_of(vec![todo_item(0, "buy milk")])).unwrap();
    let path = Keys::new().push(0);
    assert_eq!(
        ops,
        vec![
            create_element(2, "div"),
            create_text(3, "buy milk"),
            insert(2, 0, 3),
            create_element(4, "button"),
            attach(4, "click", 1, path, 5),
            create_text(6, "Remove"),
            insert(4, 0, 6),
            insert(2, 1, 4),
            insert(1, 0, 2),
        ]
    );
    let first_item = handles(&root.children[0].children);
    assert_eq!(first_item, vec![2]);
    let first_listener = root.children[0].children[0].children[1].listeners[0].handle;
    assert_eq!(first_listener, 5);

    let ops = render_pass(
        &mut root,
        &mut next,
        &list_of(vec![todo_item(0, "buy milk"), todo_item(1, "walk dog")]),
    ).unwrap();
    let path = Keys::new().push(1);
    assert_eq!(
        ops,
        vec![
            create_element(7, "div"),
            create_text(8, "walk dog"),
            insert(7, 0, 8),
            create_element(9, "button"),
            attach(9, "click", 1, path, 10),
            create_text(11, "Remove"),
            insert(9, 0, 11),
            insert(7, 1, 9),
            insert(1, 1, 7),
        ]
    );
    assert_eq!(handles(&root.children[0].children), vec![2, 7]);
    assert_eq!(root.children[0].children[0].children[1].listeners[0].handle, first_listener);
    assert_eq!(next, 12);
}

#[test]
fn unkeyed_siblings_match_by_scan_position() {
    let (mut root, mut next) = fresh();
    let tree = list_of(vec![
        DomNode::element("li").with_attribute("id", text_value("x")),
        DomNode::element("li").with_attribute("id", text_value("y")),
    ]);
    render_pass(&mut root, &mut next, &tree).unwrap();
    let before = handles(&root.children[0].children);

    let tree = list_of(vec![
        DomNode::element("li").with_attribute("id", text_value("y")),
        DomNode::element("li").with_attribute("id", text_value("x")),
    ]);
    let ops = render_pass(&mut root, &mut next, &tree).unwrap();
    assert_eq!(
        ops,
        vec![
            HostOp::RemoveAttribute { handle: before[0], key: "id".to_string() },
            set(before[0], "id", text_value("y")),
            HostOp::RemoveAttribute { handle: before[1], key: "id".to_string() },
            set(before[1], "id", text_value("x")),
        ]
    );
    assert_eq!(handles(&root.children[0].children), before);
}

#[test]
fn a_key_path_beyond_the_capacity_is_refused() {
    let (mut root, mut next) = fresh();
    let mut deep = DomNode::element("div").with_key(0);
    for key in 1..33u32 {
        deep = DomNode::element("div").with_key(key).with_child(deep);
    }
    let result = render_pass(&mut root, &mut next, &deep);
    assert_eq!(result, Err(RenderError::KeyPathOverflow));
    assert_eq!(root.children.len(), 0);
    assert_eq!(next, 1);

    let mut fits = DomNode::element("div").with_key(0);
    for key in 1..32u32 {
        fits = DomNode::element("div").with_key(key).with_child(fits);
    }
    assert!(render_pass(&mut root, &mut next, &fits).is_ok());
    assert_eq!(next, 33);
}

#[test]
fn running_out_of_handles_is_refused() {
    let mut root = VDomNode::root(ROOT_HANDLE);
    let tree = DomNode::element("div").with_listener("click", 1).with_child(DomNode::text("x"));
    let mut next = u64::MAX - 2;
    assert_eq!(render_pass(&mut root, &mut next, &tree), Err(RenderError::HandlesExhausted));
    assert_eq!(next, u64::MAX - 2);
    assert_eq!(root.children.len(), 0);
    let mut next = u64::MAX - 3;
    assert!(render_pass(&mut root, &mut next, &tree).is_ok());
    assert_eq!(next, u64::MAX);
}
