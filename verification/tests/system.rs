use std::cell::RefCell;

use domafic::document::HostOp;
use domafic::dom::{AttributeValue, DomNode, KeyValue};
use domafic::events::Event;
use domafic::http::{HttpError, HttpRequest, HttpResponse, HttpResponseHandler, HttpResult, JsIo};
use domafic::keys::{KeyIter, Keys};
use domafic::system::{AppSystem, EventHandler, Renderer, Updater};
use domafic::writer::RenderError;

enum Msg {
    UpdateField(String),
    Add(String),
    Remove,
    Fetch,
    Fetched(u16, usize),
    Failed(HttpError),
    Nest,
    Nothing,
}

struct TodoState {
    entry_box: String,
    todos: Vec<String>,
    fetched: Option<(u16, usize)>,
    failed: Option<HttpError>,
    nested: bool,
}

fn empty_state() -> TodoState {
    TodoState { entry_box: String::new(), todos: Vec::new(), fetched: None, failed: None, nested: false }
}

const ON_INPUT: u64 = 1;
const ON_KEYDOWN: u64 = 2;
const ON_REMOVE: u64 = 3;
const ENTER_KEYCODE: i32 = 13;

#[derive(Clone, Copy)]
struct Todo;

struct StatusHandler;

impl HttpResponseHandler for StatusHandler {
    type Message = Msg;

    fn handle<'a>(&self, response: HttpResult<'a>) -> Msg {
        match response {
            Ok(response) => Msg::Fetched(response.status_code, response.headers.len()),
            Err(error) => Msg::Failed(error),
        }
    }
}

impl Updater<TodoState, Msg> for Todo {
    fn update<J: JsIo<Msg>>(&self, state: &mut TodoState, msg: Msg, mut keys: KeyIter, js_io: &J) {
        match msg {
            Msg::UpdateField(value) => state.entry_box = value,
            Msg::Add(todo) => {
                state.entry_box = String::new();
                state.todos.push(todo);
            }
            Msg::Remove => {
                state.todos.remove(keys.next().unwrap());
            }
            Msg::Fetch => js_io.http(
                HttpRequest {
                    method: "GET",
                    headers: &[("accept", "text/plain")],
                    url: "/todos",
                    body: "",
                    timeout_millis: Some(500),
                },
                StatusHandler,
            ),
            Msg::Fetched(code, headers) => state.fetched = Some((code, headers)),
            Msg::Failed(error) => state.failed = Some(error),
            Msg::Nest => state.nested = true,
            Msg::Nothing => {}
        }
    }
}

impl Renderer<TodoState, Msg> for Todo {
    fn render(&self, state: &TodoState) -> DomNode {
        if state.nested {
            let mut deep = DomNode::element("div").with_key(0);
            for key in 1..40u32 {
                deep = DomNode::element("div").with_key(key).with_child(deep);
            }
            return deep;
        }
        let mut page = DomNode::element("div")
            .with_child(DomNode::element("h1").with_child(DomNode::text("To do:")))
            .with_child(
                DomNode::element("input")
                    .with_attribute("type", AttributeValue::Str("text".to_string()))
                    .with_attribute("value", AttributeValue::Str(state.entry_box.clone()))
                    .with_listener("input", ON_INPUT)
                    .with_listener("keydown", ON_KEYDOWN),
            );
        for (index, todo) in state.todos.iter().enumerate() {
            page = page.with_child(
                DomNode::element("div")
                    .with_key(index as u32)
                    .with_child(DomNode::text(todo))
                    .with_child(
                        DomNode::element("button")
                            .with_listener("click", ON_REMOVE)
                            .with_child(DomNode::text("Remove")),
                    ),
            );
        }
        page
    }
}

impl EventHandler<Msg> for Todo {
    fn handle_event<'a>(&self, handler: u64, event: Event<'a>) -> Msg {
        match (handler, event.target_value) {
            (ON_INPUT, Some(value)) => Msg::UpdateField(value.to_owned()),
            (ON_KEYDOWN, Some(value)) if event.which_keycode == ENTER_KEYCODE => {
                Msg::Add(value.to_owned())
            }
            (ON_REMOVE, _) => Msg::Remove,
            _ => Msg::Nothing,
        }
    }
}

struct Requests {
    issued: RefCell<Vec<(String, String, u32, usize)>>,
}

impl JsIo<Msg> for Requests {
    fn http<'b, H: HttpResponseHandler<Message = Msg>>(&self, http_request: HttpRequest<'b>, _handler: H) {
        self.issued.borrow_mut().push((
            http_request.method.to_string(),
            http_request.url.to_string(),
            http_request.timeout_or_zero(),
            http_request.headers.len(),
        ));
    }
}

fn no_requests() -> Requests {
    Requests { issued: RefCell::new(Vec::new()) }
}

fn event<'a>(name: &'a str, value: Option<&'a str>, keycode: i32) -> Event<'a> {
    Event::from_raw(Some(name), value, 0, 0, 0, 0, keycode, 0, 0, 0, 0)
}

fn set(handle: u64, key: &str, value: &str) -> HostOp {
    HostOp::SetAttribute {
        handle,
        attribute: KeyValue(key.to_string(), AttributeValue::Str(value.to_string())),
    }
}

type System = AppSystem<TodoState, Msg, Todo, Todo>;

fn mounted() -> (System, Vec<HostOp>) {
    System::mount(Todo, Todo, empty_state()).unwrap()
}

/// An application whose mount has ended: no cycle is in flight.
fn idle() -> System {
    let (mut system, _) = mounted();
    assert_eq!(system.finish(&no_requests()), None);
    system
}

#[test]
fn mounting_empties_the_root_and_draws_the_first_rendering() {
    let (system, ops) = mounted();
    assert_eq!(
        ops,
        vec![
            HostOp::RemoveAllChildren { handle: 0 },
            HostOp::CreateElement { handle: 1, tag: "div".to_string() },
            HostOp::CreateElement { handle: 2, tag: "h1".to_string() },
            HostOp::CreateText { handle: 3, content: "To do:".to_string() },
            HostOp::InsertChild { parent: 2, index: 0, child: 3 },
            HostOp::InsertChild { parent: 1, index: 0, child: 2 },
            HostOp::CreateElement { handle: 4, tag: "input".to_string() },
            HostOp::AttachListener {
                handle: 4,
                event: "input".to_string(),
                handler: ON_INPUT,
                keys: Keys::new(),
                listener: 5,
            },
            HostOp::AttachListener {
                handle: 4,
                event: "keydown".to_string(),
                handler: ON_KEYDOWN,
                keys: Keys::new(),
                listener: 6,
            },
            set(4, "type", "text"),
            set(4, "value", ""),
            HostOp::InsertChild { parent: 1, index: 1, child: 4 },
            HostOp::InsertChild { parent: 0, index: 0, child: 1 },
        ]
    );
    assert_eq!(system.next_handle, 7);
    assert_eq!(system.vdom_root.handle, 0);
    assert_eq!(system.vdom_root.children.len(), 1);
    assert_eq!(system.rendered, Todo.render(&empty_state()));
}

#[test]
fn a_cycle_updates_renders_and_reconciles() {
    let mut system = idle();
    let io = no_requests();

    let ops = system
        .handle_listener(&Todo, ON_INPUT, event("input", Some("buy milk"), 0), Keys::new(), &io)
        .unwrap()
        .unwrap();
    assert_eq!(system.finish(&io), None);
    assert_eq!(system.state.entry_box, "buy milk");
    assert_eq!(
        ops,
        vec![
            HostOp::RemoveAttribute { handle: 4, key: "value".to_string() },
            set(4, "value", "buy milk"),
        ]
    );

    let ops = system
        .handle_listener(
            &Todo,
            ON_KEYDOWN,
            event("keydown", Some("buy milk"), ENTER_KEYCODE),
            Keys::new(),
            &io,
        )
        .unwrap()
        .unwrap();
    assert_eq!(system.finish(&io), None);
    assert_eq!(system.state.todos, vec!["buy milk".to_string()]);
    assert_eq!(
        ops,
        vec![
            HostOp::RemoveAttribute { handle: 4, key: "value".to_string() },
            set(4, "value", ""),
            HostOp::CreateElement { handle: 7, tag: "div".to_string() },
            HostOp::CreateText { handle: 8, content: "buy milk".to_string() },
            HostOp::InsertChild { parent: 7, index: 0, child: 8 },
            HostOp::CreateElement { handle: 9, tag: "button".to_string() },
            HostOp::AttachListener {
                handle: 9,
                event: "click".to_string(),
                handler: ON_REMOVE,
                keys: Keys::new().push(0),
                listener: 10,
            },
            HostOp::CreateText { handle: 11, content: "Remove".to_string() },
            HostOp::InsertChild { parent: 9, index: 0, child: 11 },
            HostOp::InsertChild { parent: 7, index: 1, child: 9 },
            HostOp::InsertChild { parent: 1, index: 2, child: 7 },
        ]
    );

    let ops = system
        .handle_listener(&Todo, ON_KEYDOWN, event("keydown", Some("x"), 65), Keys::new(), &io)
        .unwrap()
        .unwrap();
    assert_eq!(ops, vec![]);
    assert_eq!(system.finish(&io), None);

    let ops = system
        .handle_listener(&Todo, ON_REMOVE, event("click", None, 0), Keys::new().push(0), &io)
        .unwrap()
        .unwrap();
    assert!(system.state.todos.is_empty());
    assert_eq!(
        ops,
        vec![HostOp::RemoveChild { handle: 7, released: vec![7, 8, 9, 10, 11] }]
    );
    assert_eq!(system.vdom_root.children[0].children.len(), 2);
    assert!(io.issued.borrow().is_empty());
}

#[test]
fn a_request_is_issued_and_its_outcome_comes_back_as_a_message() {
    let mut system = idle();
    let io = no_requests();

    let ops = system.update_system(Msg::Fetch, Keys::new(), &io).unwrap();
    assert_eq!(ops, vec![]);
    assert_eq!(
        *io.issued.borrow(),
        vec![("GET".to_string(), "/todos".to_string(), 500, 1)]
    );

    let headers = [("content-type", "text/plain"), ("x", "y")];
    let response = HttpResponse { status_code: 200, status_text: "OK", headers: &headers, body: "" };
    let ops = system.handle_http_result(&StatusHandler, Ok(response), &io).unwrap().unwrap();
    assert_eq!(ops, vec![]);
    assert_eq!(system.state.fetched, Some((200, 2)));
    assert_eq!(system.finish(&io), None);

    system.handle_http_result(&StatusHandler, Err(HttpError::Timeout), &io).unwrap().unwrap();
    assert_eq!(system.state.failed, Some(HttpError::Timeout));
    assert_eq!(system.finish(&io), None);
    system.handle_http_result(&StatusHandler, Err(HttpError::NetworkError), &io).unwrap().unwrap();
    assert_eq!(system.state.failed, Some(HttpError::NetworkError));
}

#[test]
fn a_rendering_that_is_refused_leaves_the_document_alone() {
    let mut system = idle();
    let io = no_requests();
    let next = system.next_handle;
    let result = system.deliver(Msg::Nest, Keys::new(), &io);
    assert_eq!(result, Some(Err(RenderError::KeyPathOverflow)));
    assert_eq!(system.next_handle, next);
    assert_eq!(system.vdom_root.children.len(), 1);
    assert_eq!(system.vdom_root.children[0].handle, 1);
    assert_eq!(system.vdom_root.children[0].children.len(), 2);

    let state = TodoState { nested: true, ..empty_state() };
    assert_eq!(System::mount(Todo, Todo, state).err(), Some(RenderError::KeyPathOverflow));
}

#[test]
fn mounting_a_given_rendering_draws_it() {
    let rendered = DomNode::text("hi");
    let (system, ops) =
        System::mount_rendered(Todo, Todo, empty_state(), DomNode::text("hi")).unwrap();
    assert_eq!(
        ops,
        vec![
            HostOp::RemoveAllChildren { handle: 0 },
            HostOp::CreateText { handle: 1, content: "hi".to_string() },
            HostOp::InsertChild { parent: 0, index: 0, child: 1 },
        ]
    );
    assert_eq!(system.rendered, rendered);
    assert_eq!(system.next_handle, 2);
}

#[test]
fn a_message_that_arrives_during_a_cycle_waits_its_turn() {
    let (mut system, _) = mounted();
    let io = no_requests();
    assert!(system.mailbox.is_busy());

    // the mount is still in flight: both messages wait
    assert_eq!(system.deliver(Msg::Add("first".to_string()), Keys::new(), &io), None);
    assert_eq!(system.deliver(Msg::Add("second".to_string()), Keys::new(), &io), None);
    assert_eq!(system.mailbox.waiting(), 2);
    assert!(system.state.todos.is_empty());
    assert_eq!(system.next_handle, 7);

    // the mount ends: the oldest message gets its cycle
    let ops = system.finish(&io).unwrap().unwrap();
    assert_eq!(system.state.todos, vec!["first".to_string()]);
    assert_eq!(ops.len(), 9);
    assert_eq!(ops[0], HostOp::CreateElement { handle: 7, tag: "div".to_string() });
    assert_eq!(system.mailbox.waiting(), 1);

    // a message that arrives now gets in line behind the one that waits
    assert_eq!(system.deliver(Msg::Remove, Keys::new().push(0), &io), None);
    assert_eq!(system.state.todos, vec!["first".to_string()]);

    let ops = system.finish(&io).unwrap().unwrap();
    assert_eq!(system.state.todos, vec!["first".to_string(), "second".to_string()]);
    assert_eq!(ops.last(), Some(&HostOp::InsertChild { parent: 1, index: 3, child: 12 }));

    // the items are keyed by their place, so the first item stays and takes
    // the text of the second, and the second item goes
    let ops = system.finish(&io).unwrap().unwrap();
    assert_eq!(system.state.todos, vec!["second".to_string()]);
    assert_eq!(
        ops,
        vec![
            HostOp::CreateText { handle: 17, content: "second".to_string() },
            HostOp::InsertChild { parent: 7, index: 0, child: 17 },
            HostOp::MoveChild { parent: 7, old_index: 2, new_index: 1 },
            HostOp::RemoveChild { handle: 8, released: vec![8] },
            HostOp::RemoveChild { handle: 12, released: vec![12, 13, 14, 15, 16] },
        ]
    );

    assert_eq!(system.finish(&io), None);
    assert!(!system.mailbox.is_busy());
    assert_eq!(system.finish(&io), None);

    // no cycle is in flight: the next message gets its cycle at once
    let step = system.deliver(Msg::Nothing, Keys::new(), &io);
    assert_eq!(step, Some(Ok(vec![])));
    assert!(system.mailbox.is_busy());
}
