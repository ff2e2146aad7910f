//! The driver: it owns the application state, the current rendering and the
//! materialized tree, and runs one cycle for each message.

use vstd::prelude::*;
use crate::document::{
    op_models, DocumentModel, HostOp, OpModel, WebDocument, FIRST_HANDLE, ROOT_HANDLE,
};
use crate::dom::{DomNode, NodeModel};
use crate::events::Event;
use crate::http::{HttpResponseHandler, HttpResult, JsIo};
use crate::keys::{KeyIter, Keys};
use crate::laws::law_render_pass_converges;
use crate::mailbox::{Delivery, Mailbox};
use crate::pass;
use crate::pass::{level_renders, Pass};
use crate::processors::Processor;
use crate::vdom::{mount_point, VDomNode, VNodeModel};
use crate::writer::{refusal_at, RenderError, WebWriter, WebWriterAcc};

verus! {

/// Changes the application state in answer to a message.
pub trait Updater<State, Message>: Sized {
    /// Changes `state` in answer to `msg`. `keys` is the key path of the
    /// node whose listener sent the message, and is empty where no listener
    /// did; `js_io` issues side effects.
    fn update<J: JsIo<Message>>(&self, state: &mut State, msg: Message, keys: KeyIter, js_io: &J);
}

/// Turns the application state into the tree that shows it.
pub trait Renderer<State, Message> {
    /// The tree that shows `state`.
    fn render(&self, state: &State) -> DomNode;
}

/// Turns the events of the document into messages.
pub trait EventHandler<Message> {
    /// The message for `event`, which came to a listener whose handler has
    /// the identity `handler`.
    fn handle_event<'a>(&self, handler: u64, event: Event<'a>) -> Message;
}

/// What stands in the way of bringing the rendering `node` under the root of
/// a document whose next handle is `next`, if anything does.
pub open spec fn refusal(node: NodeModel, next: int) -> Option<RenderError> {
    refusal_at(node, 0, next)
}

/// The pass that brings the rendering `node` under the root `root`: the
/// children of the root after it, and the document that has recorded it,
/// starting from an empty record with `next` as the next handle.
pub open spec fn root_pass(root: VNodeModel, next: int, node: NodeModel) -> Pass {
    pass::reconcile(
        Pass { level: root.children, doc: DocumentModel { ops: Seq::empty(), next } },
        Seq::empty(),
        root.handle,
        seq![node],
    )
}

/// Whether `result`, the root `root_after` and the next handle `next_after`
/// are what bringing the rendering `rendered` under the root `root_before`
/// leaves, where `next_before` was the next handle.
///
/// A rendering that cannot be brought in is refused, and nothing changes.
/// Else the children of the root and the mutations are those of the pass, and
/// the root is otherwise as it was.
pub open spec fn pass_outcome(
    root_before: VNodeModel,
    next_before: u64,
    rendered: NodeModel,
    root_after: VNodeModel,
    next_after: u64,
    result: Result<Vec<HostOp>, RenderError>,
) -> bool {
    match result {
        Ok(ops) => {
            let done = root_pass(root_before, next_before as int, rendered);
            &&& refusal(rendered, next_before as int) is None
            &&& root_after == (VNodeModel { children: done.level, ..root_before })
            &&& op_models(ops@) == done.doc.ops
            &&& next_after as int == done.doc.next
        },
        Err(e) => {
            &&& refusal(rendered, next_before as int) == Some(e)
            &&& root_after == root_before
            &&& next_after == next_before
        },
    }
}

/// Brings the rendering `rendered` into the document under `root`, and
/// returns the mutations that the host has to make, in order. Afterwards the
/// one child of the root shows the rendering.
///
/// A rendering that cannot be brought in is refused before anything is
/// touched.
pub fn render_pass(root: &mut VDomNode, next_handle: &mut u64, rendered: &DomNode) -> (result:
    Result<Vec<HostOp>, RenderError>)
    ensures
        pass_outcome(
            old(root)@,
            *old(next_handle),
            rendered@,
            final(root)@,
            *final(next_handle),
            result,
        ),
        result is Err ==> *final(root) == *old(root),
        result is Ok ==> level_renders(final(root)@.children, Seq::empty(), seq![rendered@]),
{
    proof {
        root.lemma_view_children();
        law_render_pass_converges(root@, *next_handle as int, rendered@);
    }
    let mut level: Vec<VDomNode> = Vec::new();
    core::mem::swap(&mut root.children, &mut level);
    let mut writer = WebWriterAcc::new(
        WebDocument::starting_at(*next_handle),
        Keys::new(),
        root.handle,
        level,
    );
    let ghost start = writer@.pass;
    proof {
        assert(seq![rendered@].drop_last() =~= Seq::<NodeModel>::empty());
        assert(pass::add_all(start, Seq::empty(), root@.handle, seq![rendered@]) == pass::add_node(
            pass::add_all(start, Seq::empty(), root@.handle, Seq::<NodeModel>::empty()),
            Seq::empty(),
            root@.handle,
            0,
            rendered@,
        ));
    }
    match WebWriter::process(&mut writer, rendered) {
        Ok(_) => {
            let (mut doc, level) = writer.finish();
            root.children = level;
            *next_handle = doc.next_handle;
            proof {
                root.lemma_view_children();
            }
            Ok(doc.take_ops())
        },
        Err(e) => {
            let (_, level) = writer.into_parts();
            root.children = level;
            Err(e)
        },
    }
}

/// An application in the document: its state, what shows it, what the
/// document holds of it, and the messages that wait for their cycle.
pub struct AppSystem<S, M, U, R> {
    /// The current rendering.
    pub rendered: DomNode,
    /// What changes the state.
    pub updater: U,
    /// What renders the state.
    pub renderer: R,
    /// The application state.
    pub state: S,
    /// The root of the materialized tree. It stands for the host element
    /// under which the application is mounted.
    pub vdom_root: VDomNode,
    /// The next handle to hand out.
    pub next_handle: u64,
    /// What lets one message through to its cycle at a time.
    pub mailbox: Mailbox<M>,
}

/// A cycle that ran: the mutations that the host has to make, in order, or
/// the reason why the rendering was refused.
pub type Cycle = Result<Vec<HostOp>, RenderError>;

impl<S, M, U: Updater<S, M>, R: Renderer<S, M>> AppSystem<S, M, U, R> {
    /// Whether the cycle that ran between `before` and `self` was the pass
    /// for the rendering that `self` holds, with the outcome `result`.
    pub open spec fn ran_cycle(&self, before: &Self, result: Cycle) -> bool {
        pass_outcome(
            before.vdom_root@,
            before.next_handle,
            self.rendered@,
            self.vdom_root@,
            self.next_handle,
            result,
        )
    }

    /// Whether nothing of what the document holds changed between `before`
    /// and `self`.
    pub open spec fn at_rest_since(&self, before: &Self) -> bool {
        &&& self.rendered == before.rendered
        &&& self.state == before.state
        &&& self.vdom_root == before.vdom_root
        &&& self.next_handle == before.next_handle
    }

    /// Mounts an application whose initial state `rendered` shows: brings
    /// the rendering into the document under the root element, which is
    /// emptied first. Returns the application and the mutations that the
    /// host has to make, in order.
    ///
    /// The mount is the first cycle in flight: messages that arrive before
    /// [`AppSystem::finish`] is called wait.
    pub fn mount_rendered(updater: U, renderer: R, initial_state: S, rendered: DomNode) -> (result:
        Result<(AppSystem<S, M, U, R>, Vec<HostOp>), RenderError>)
        ensures
            match result {
                Ok((system, ops)) => {
                    let done = root_pass(
                        mount_point(ROOT_HANDLE as int),
                        FIRST_HANDLE as int,
                        rendered@,
                    );
                    &&& refusal(rendered@, FIRST_HANDLE as int) is None
                    &&& system.rendered@ == rendered@
                    &&& system.vdom_root@ == (VNodeModel {
                        children: done.level,
                        ..mount_point(ROOT_HANDLE as int)
                    })
                    &&& op_models(ops@) == seq![
                        OpModel::RemoveAllChildren { handle: ROOT_HANDLE as int },
                    ] + done.doc.ops
                    &&& system.next_handle as int == done.doc.next
                    &&& system.mailbox.wf()
                    &&& system.mailbox.busy()
                    &&& system.mailbox.delivered() == Seq::<Delivery<M>>::empty()
                },
                Err(e) => refusal(rendered@, FIRST_HANDLE as int) == Some(e),
            },
    {
        let mut vdom_root = VDomNode::root(ROOT_HANDLE);
        let mut next_handle: u64 = FIRST_HANDLE;
        match render_pass(&mut vdom_root, &mut next_handle, &rendered) {
            Ok(pass_ops) => {
                let mut ops: Vec<HostOp> = Vec::new();
                ops.push(HostOp::RemoveAllChildren { handle: ROOT_HANDLE });
                let ghost first = op_models(ops@);
                let mut pass_ops = pass_ops;
                let ghost rest = op_models(pass_ops@);
                ops.append(&mut pass_ops);
                proof {
                    assert(op_models(ops@) =~= first + rest);
                    assert(first =~= seq![
                        OpModel::RemoveAllChildren { handle: ROOT_HANDLE as int },
                    ]);
                }
                Ok(
                    (
                        AppSystem {
                            rendered,
                            updater,
                            renderer,
                            state: initial_state,
                            vdom_root,
                            next_handle,
                            mailbox: Mailbox::occupied(),
                        },
                        ops,
                    ),
                )
            },
            Err(e) => Err(e),
        }
    }

    /// Mounts an application: renders its initial state and brings the
    /// rendering into the document, as [`AppSystem::mount_rendered`] does
    /// with what the renderer returns.
    pub fn mount(updater: U, renderer: R, initial_state: S) -> (result: Result<
        (AppSystem<S, M, U, R>, Vec<HostOp>),
        RenderError,
    >)
        ensures
            match result {
                Ok((system, ops)) => {
                    let done = root_pass(
                        mount_point(ROOT_HANDLE as int),
                        FIRST_HANDLE as int,
                        system.rendered@,
                    );
                    &&& refusal(system.rendered@, FIRST_HANDLE as int) is None
                    &&& system.vdom_root@ == (VNodeModel {
                        children: done.level,
                        ..mount_point(ROOT_HANDLE as int)
                    })
                    &&& op_models(ops@) == seq![
                        OpModel::RemoveAllChildren { handle: ROOT_HANDLE as int },
                    ] + done.doc.ops
                    &&& system.next_handle as int == done.doc.next
                    &&& system.mailbox.wf()
                    &&& system.mailbox.busy()
                    &&& system.mailbox.delivered() == Seq::<Delivery<M>>::empty()
                },
                Err(e) => exists|rendered: NodeModel| #[trigger]
                    refusal(rendered, FIRST_HANDLE as int) == Some(e),
            },
    {
        let rendered = renderer.render(&initial_state);
        Self::mount_rendered(updater, renderer, initial_state, rendered)
    }

    /// One cycle: the state is changed in answer to `message`, which came
    /// from a listener on the node with the key path `keys` (or from a side
    /// effect, with the empty path); the new state is rendered; and the
    /// rendering is brought into the document. Returns the mutations that
    /// the host has to make, in order.
    ///
    /// Whatever the updater and the renderer do, the pass is the one between
    /// the new rendering and the materialized tree as the last cycle left it.
    /// The mailbox is not asked: see [`AppSystem::deliver`].
    pub fn update_system<J: JsIo<M>>(&mut self, message: M, keys: Keys, js_io: &J) -> (result:
        Cycle)
        ensures
            final(self).ran_cycle(old(self), result),
            final(self).mailbox == old(self).mailbox,
    {
        self.updater.update(&mut self.state, message, keys.into_iter(), js_io);
        self.rendered = self.renderer.render(&self.state);
        render_pass(&mut self.vdom_root, &mut self.next_handle, &self.rendered)
    }

    /// A message arrives, from a listener on the node with the key path
    /// `keys` or, with the empty path, from a side effect. Where no cycle is
    /// in flight, its cycle runs at once, as [`AppSystem::update_system`]
    /// does it, and stays in flight until [`AppSystem::finish`] is called.
    /// Where a cycle is in flight, the message waits behind those that wait
    /// already, and nothing else happens.
    pub fn deliver<J: JsIo<M>>(&mut self, message: M, keys: Keys, js_io: &J) -> (step: Option<
        Cycle,
    >)
        requires
            old(self).mailbox.wf(),
        ensures
            final(self).mailbox.wf(),
            final(self).mailbox.busy(),
            final(self).mailbox.delivered() == old(self).mailbox.delivered().push(
                Delivery { message, keys },
            ),
            match step {
                Some(result) => {
                    &&& !old(self).mailbox.busy()
                    &&& final(self).mailbox.pending() == old(self).mailbox.pending()
                    &&& final(self).mailbox.started() == old(self).mailbox.started().push(
                        Delivery { message, keys },
                    )
                    &&& final(self).ran_cycle(old(self), result)
                },
                None => {
                    &&& old(self).mailbox.busy()
                    &&& final(self).mailbox.pending() == old(self).mailbox.pending().push(
                        Delivery { message, keys },
                    )
                    &&& final(self).mailbox.started() == old(self).mailbox.started()
                    &&& final(self).at_rest_since(old(self))
                },
            },
    {
        match self.mailbox.deliver(message, keys) {
            Some(delivery) => Some(self.update_system(delivery.message, delivery.keys, js_io)),
            None => None,
        }
    }

    /// The cycle in flight has ended and the host has made its mutations.
    /// Where messages wait, the cycle of the oldest runs at once, as
    /// [`AppSystem::update_system`] does it, and is in flight until the next
    /// call. Where none waits, no cycle is in flight any more, and nothing
    /// else happens.
    pub fn finish<J: JsIo<M>>(&mut self, js_io: &J) -> (step: Option<Cycle>)
        requires
            old(self).mailbox.wf(),
        ensures
            final(self).mailbox.wf(),
            final(self).mailbox.delivered() == old(self).mailbox.delivered(),
            match step {
                Some(result) => {
                    &&& old(self).mailbox.pending().len() > 0
                    &&& final(self).mailbox.busy()
                    &&& final(self).mailbox.pending() == old(self).mailbox.pending().skip(1)
                    &&& final(self).mailbox.started() == old(self).mailbox.started().push(
                        old(self).mailbox.pending()[0],
                    )
                    &&& final(self).ran_cycle(old(self), result)
                },
                None => {
                    &&& old(self).mailbox.pending().len() == 0
                    &&& !final(self).mailbox.busy()
                    &&& final(self).mailbox.pending() == old(self).mailbox.pending()
                    &&& final(self).mailbox.started() == old(self).mailbox.started()
                    &&& final(self).at_rest_since(old(self))
                },
            },
    {
        match self.mailbox.finish() {
            Some(delivery) => Some(self.update_system(delivery.message, delivery.keys, js_io)),
            None => None,
        }
    }

    /// An event of the document arrives: `handlers` turns the event, which
    /// came to a listener with the handler `handler` on the node with the
    /// key path `keys`, into a message, and the message is delivered as
    /// [`AppSystem::deliver`] does it.
    pub fn handle_listener<'a, H: EventHandler<M>, J: JsIo<M>>(
        &mut self,
        handlers: &H,
        handler: u64,
        event: Event<'a>,
        keys: Keys,
        js_io: &J,
    ) -> (step: Option<Cycle>)
        requires
            old(self).mailbox.wf(),
        ensures
            final(self).mailbox.wf(),
            final(self).mailbox.busy(),
            final(self).mailbox.delivered().len() == old(self).mailbox.delivered().len() + 1,
            final(self).mailbox.delivered().last().keys == keys,
            match step {
                Some(result) => !old(self).mailbox.busy() && final(self).ran_cycle(
                    old(self),
                    result,
                ),
                None => old(self).mailbox.busy() && final(self).at_rest_since(old(self)),
            },
    {
        let message = handlers.handle_event(handler, event);
        self.deliver(message, keys, js_io)
    }

    /// The outcome of a request arrives: `handler` turns the outcome into a
    /// message, and the message is delivered as [`AppSystem::deliver`] does
    /// it, with the empty key path.
    pub fn handle_http_result<'a, H: HttpResponseHandler<Message = M>, J: JsIo<M>>(
        &mut self,
        handler: &H,
        outcome: HttpResult<'a>,
        js_io: &J,
    ) -> (step: Option<Cycle>)
        requires
            old(self).mailbox.wf(),
        ensures
            final(self).mailbox.wf(),
            final(self).mailbox.busy(),
            final(self).mailbox.delivered().len() == old(self).mailbox.delivered().len() + 1,
            final(self).mailbox.delivered().last().keys@ == Seq::<u32>::empty(),
            match step {
                Some(result) => !old(self).mailbox.busy() && final(self).ran_cycle(
                    old(self),
                    result,
                ),
                None => old(self).mailbox.busy() && final(self).at_rest_since(old(self)),
            },
    {
        let message = handler.handle(outcome);
        self.deliver(message, Keys::new(), js_io)
    }
}

} // verus!
