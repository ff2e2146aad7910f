//! The writer: the traversal that brings declared nodes into a level of the
//! materialized tree, one step for each node, and stops at the first node
//! that cannot be brought in.

use vstd::prelude::*;
use crate::document::WebDocument;
use crate::dom::{node_models, DomNode, NodeModel};
use crate::keys::{Keys, KEY_CAPACITY};
use crate::pass;
use crate::pass::{all_keys_fit, handles_needed, handles_needed_all, keys_fit, Pass};
use crate::processors::{process_all, threaded, Processor};
use crate::reconciler::{add_node, lemma_handles_prefix, remove_unused};
use crate::sequences::lemma_take_next;
use crate::vdom::{level_models, VDomNode};

verus! {

/// Why a rendering cannot be brought into the document.
#[derive(Debug, Copy, Clone, PartialEq, Eq)]
pub enum RenderError {
    /// A node of the rendering lies under more keyed nodes than a key path
    /// can hold.
    KeyPathOverflow,
    /// There are not enough handles left for the nodes and listeners of the
    /// rendering.
    HandlesExhausted,
}

/// Whether the key path of `node` and of every node below it stays within the
/// capacity, where the parent's key path has `depth` keys.
pub fn check_keys_fit(node: &DomNode, depth: usize) -> (b: bool)
    requires
        depth <= KEY_CAPACITY,
    ensures
        b == keys_fit(node@, depth as nat),
    decreases node,
{
    let below: usize = if node.key.is_some() {
        depth + 1
    } else {
        depth
    };
    if below > KEY_CAPACITY {
        return false;
    }
    proof {
        node.lemma_view_children();
        assert(keys_fit(node@, depth as nat) == all_keys_fit(node@.children, below as nat));
    }
    let mut i: usize = 0;
    while i < node.children.len()
        invariant
            i <= node.children@.len(),
            below <= KEY_CAPACITY,
            keys_fit(node@, depth as nat) == all_keys_fit(node@.children, below as nat),
            node@.children == node_models(node.children@),
            forall|j: int| 0 <= j < i ==> keys_fit(#[trigger] node@.children[j], below as nat),
        decreases node.children@.len() - i,
    {
        if !check_keys_fit(&node.children[i], below) {
            assert(!keys_fit(node@.children[i as int], below as nat));
            assert(!all_keys_fit(node@.children, below as nat));
            return false;
        }
        i += 1;
    }
    assert(all_keys_fit(node@.children, below as nat));
    true
}

/// The number of handles that a pass can need for `node` and all below it,
/// or `None` where the number is beyond what a handle can count.
pub fn count_handles(node: &DomNode) -> (count: Option<u64>)
    ensures
        match count {
            Some(n) => n == handles_needed(node@),
            None => handles_needed(node@) > u64::MAX,
        },
    decreases node,
{
    proof {
        node.lemma_view_children();
    }
    let ghost below = node_models(node.children@);
    let own: u64 = match (node.listeners.len() as u64).checked_add(1) {
        Some(n) => n,
        None => {
            return None;
        },
    };
    let mut total: u64 = own;
    let mut i: usize = 0;
    proof {
        assert(below.take(0) =~= Seq::empty());
    }
    while i < node.children.len()
        invariant
            i <= node.children@.len(),
            below == node_models(node.children@),
            node@.children == below,
            own == 1 + node@.listeners.len(),
            total == own + handles_needed_all(below.take(i as int)),
        decreases node.children@.len() - i,
    {
        proof {
            lemma_take_next(below, i as int);
            lemma_handles_prefix(below, i + 1);
        }
        let more = match count_handles(&node.children[i]) {
            Some(n) => n,
            None => {
                return None;
            },
        };
        total = match total.checked_add(more) {
            Some(n) => n,
            None => {
                return None;
            },
        };
        i += 1;
    }
    proof {
        assert(below.take(i as int) =~= below);
    }
    Some(total)
}

/// What stands in the way of bringing the declared node `node` into a level
/// whose key path has `depth` keys, with a document whose next handle is
/// `next`, if anything does.
pub open spec fn refusal_at(node: NodeModel, depth: nat, next: int) -> Option<RenderError> {
    if !keys_fit(node, depth) {
        Some(RenderError::KeyPathOverflow)
    } else if next + handles_needed(node) > u64::MAX {
        Some(RenderError::HandlesExhausted)
    } else {
        None
    }
}

/// The mathematical value of a [`WebWriterAcc`].
pub struct WriterModel {
    /// The level as the steps so far have left it, and the document that
    /// records them.
    pub pass: Pass,
    /// The key path of the node whose children the level holds.
    pub keys: Seq<u32>,
    /// The handle of that node.
    pub parent: int,
    /// The place to which the next declared node is brought.
    pub cursor: int,
}

/// What the writer threads through its steps: the document that records
/// them, the level they work on, and the place of the next step, which never
/// lies behind the end of the level.
pub struct WebWriterAcc {
    document: WebDocument,
    keys: Keys,
    parent: u64,
    node_level: Vec<VDomNode>,
    node_index: usize,
}

impl View for WebWriterAcc {
    type V = WriterModel;

    closed spec fn view(&self) -> WriterModel {
        WriterModel {
            pass: Pass { level: level_models(self.node_level@), doc: self.document@ },
            keys: self.keys@,
            parent: self.parent as int,
            cursor: if self.node_index <= self.node_level@.len() {
                self.node_index as int
            } else {
                self.node_level@.len() as int
            },
        }
    }
}

impl WebWriterAcc {
    /// A writer for the children of the host element `parent`, whose key
    /// path is `keys`; `node_level` is what the document holds of them, and
    /// `document` records the steps. The first step brings its node to
    /// place 0.
    pub fn new(document: WebDocument, keys: Keys, parent: u64, node_level: Vec<VDomNode>) -> (writer:
        WebWriterAcc)
        ensures
            writer@ == (WriterModel {
                pass: Pass { level: level_models(node_level@), doc: document@ },
                keys: keys@,
                parent: parent as int,
                cursor: 0,
            }),
            writer.document_value() == document,
            writer.level_value() == node_level,
    {
        WebWriterAcc { document, keys, parent, node_level, node_index: 0 }
    }

    /// The place to which the next declared node is brought.
    pub fn node_index(&self) -> (index: usize)
        ensures
            index == self@.cursor,
            index <= self@.pass.level.len(),
    {
        if self.node_index <= self.node_level.len() {
            self.node_index
        } else {
            self.node_level.len()
        }
    }

    /// Ends the pass: removes from the document what is left of the level at
    /// and behind the place of the next step, and hands back the document
    /// and the level.
    pub fn finish(self) -> (parts: (WebDocument, Vec<VDomNode>))
        ensures
            (Pass { level: level_models(parts.1@), doc: parts.0@ }) == pass::remove_trailing(
                self@.pass.level,
                self@.cursor,
                self@.pass.doc,
            ),
    {
        let cursor = self.node_index();
        let WebWriterAcc { document, node_level, .. } = self;
        let mut document = document;
        let mut node_level = node_level;
        remove_unused(&mut document, &mut node_level, cursor);
        (document, node_level)
    }

    /// Breaks the pass off: hands back the document and the level as the
    /// steps so far have left them.
    pub fn into_parts(self) -> (parts: (WebDocument, Vec<VDomNode>))
        ensures
            level_models(parts.1@) == self@.pass.level,
            parts.0@ == self@.pass.doc,
            parts.0 == self.document_value(),
            parts.1 == self.level_value(),
    {
        let WebWriterAcc { document, node_level, .. } = self;
        (document, node_level)
    }

    /// The document that records the steps.
    pub closed spec fn document_value(self) -> WebDocument {
        self.document
    }

    /// The level that the steps work on.
    pub closed spec fn level_value(self) -> Vec<VDomNode> {
        self.node_level
    }
}

/// The traversal of the reconciler. A step brings one declared node to its
/// place in the level; a node that cannot be brought in is refused before
/// its step touches anything, and ends the traversal.
pub struct WebWriter;

impl Processor<DomNode> for WebWriter {
    type Acc = WebWriterAcc;

    type Error = RenderError;

    /// A step that succeeds is the step of a pass for the node, at the place
    /// of the writer, and moves the place on by one.
    open spec fn step(before: WebWriterAcc, item: DomNode, after: WebWriterAcc) -> bool {
        &&& refusal_at(item@, before@.keys.len(), before@.pass.doc.next) is None
        &&& after@ == (WriterModel {
            pass: pass::add_node(
                before@.pass,
                before@.keys,
                before@.parent,
                before@.cursor,
                item@,
            ),
            cursor: before@.cursor + 1,
            ..before@
        })
    }

    /// A step fails exactly for a node that is refused, and leaves the
    /// writer as it was.
    open spec fn refuses(
        before: WebWriterAcc,
        item: DomNode,
        after: WebWriterAcc,
        error: RenderError,
    ) -> bool {
        &&& refusal_at(item@, before@.keys.len(), before@.pass.doc.next) == Some(error)
        &&& after == before
    }

    fn process(acc: &mut WebWriterAcc, item: &DomNode) -> (result: Result<(), RenderError>) {
        let cursor = acc.node_index();
        if !check_keys_fit(item, acc.keys.len()) {
            return Err(RenderError::KeyPathOverflow);
        }
        let needed = match count_handles(item) {
            Some(n) => n,
            None => {
                return Err(RenderError::HandlesExhausted);
            },
        };
        if needed > u64::MAX - acc.document.next_handle {
            return Err(RenderError::HandlesExhausted);
        }
        add_node(&mut acc.document, &acc.keys, acc.parent, &mut acc.node_level, cursor, item);
        proof {
            vstd::std_specs::vec::axiom_spec_len(&acc.node_level);
        }
        acc.node_index = cursor + 1;
        Ok(())
    }
}

/// Whether none of the first `n` of the declared nodes is refused when its
/// turn comes in a traversal that starts with the pass `start`.
pub open spec fn none_refused(
    start: Pass,
    keys: Seq<u32>,
    parent: int,
    nodes: Seq<NodeModel>,
    n: int,
) -> bool {
    forall|m: int|
        0 <= m < n ==> refusal_at(
            nodes[m],
            keys.len(),
            pass::add_all(start, keys, parent, #[trigger] nodes.take(m)).doc.next,
        ) is None
}

/// What the steps of the writer for `items` leave, where all succeed: the
/// steps of a pass for them, one after the other, and none of the items was
/// refused when its turn came.
pub proof fn lemma_written(before: WebWriterAcc, items: Seq<DomNode>, after: WebWriterAcc)
    requires
        threaded::<DomNode, WebWriter>(before, items, after),
        before@.cursor == 0,
    ensures
        after@ == (WriterModel {
            pass: pass::add_all(before@.pass, before@.keys, before@.parent, node_models(items)),
            cursor: items.len() as int,
            ..before@
        }),
        none_refused(
            before@.pass,
            before@.keys,
            before@.parent,
            node_models(items),
            items.len() as int,
        ),
    decreases items.len(),
{
    let nodes = node_models(items);
    if items.len() > 0 {
        let mid = choose|mid: WebWriterAcc|
            threaded::<DomNode, WebWriter>(before, items.drop_last(), mid) && WebWriter::step(
                mid,
                items.last(),
                after,
            );
        lemma_written(before, items.drop_last(), mid);
        let rest = node_models(items.drop_last());
        assert(rest =~= nodes.drop_last());
        assert(nodes.last() == items.last()@);
        assert forall|m: int| 0 <= m < items.len() implies refusal_at(
            nodes[m],
            before@.keys.len(),
            pass::add_all(before@.pass, before@.keys, before@.parent, #[trigger] nodes.take(m)).doc.next,
        ) is None by {
            if m < items.len() - 1 {
                assert(rest.take(m) =~= nodes.take(m));
                assert(rest[m] == nodes[m]);
            } else {
                assert(nodes.take(m) =~= rest);
            }
        }
    }
}

/// A pass on one level, node by node: brings every declared node of `nodes`
/// to its place among the children of the host element `parent`, whose key
/// path is `keys`, then removes what is left of `level` behind them. A node
/// that cannot be brought in ends the pass at once: the level and the
/// document stay as the steps for the nodes before it left them, and nothing
/// is removed.
pub fn write_nodes(
    document: WebDocument,
    keys: Keys,
    parent: u64,
    level: Vec<VDomNode>,
    nodes: &Vec<DomNode>,
) -> (outcome: (Result<(), RenderError>, WebDocument, Vec<VDomNode>))
    ensures
        ({
            let start = Pass { level: level_models(level@), doc: document@ };
            let wish = node_models(nodes@);
            let left = Pass { level: level_models(outcome.2@), doc: outcome.1@ };
            match outcome.0 {
                Ok(_) => {
                    &&& none_refused(start, keys@, parent as int, wish, wish.len() as int)
                    &&& left == pass::reconcile(start, keys@, parent as int, wish)
                },
                Err(e) => exists|n: int|
                    {
                        &&& 0 <= n < wish.len()
                        &&& none_refused(start, keys@, parent as int, wish, n)
                        &&& left == pass::add_all(
                            start,
                            keys@,
                            parent as int,
                            #[trigger] wish.take(n),
                        )
                        &&& refusal_at(wish[n], keys@.len(), left.doc.next) == Some(e)
                    },
            }
        }),
{
    let mut writer = WebWriterAcc::new(document, keys, parent, level);
    let ghost before = writer;
    let ghost wish = node_models(nodes@);
    match process_all::<DomNode, WebWriter>(nodes, &mut writer) {
        Ok(_) => {
            proof {
                lemma_written(before, nodes@, writer);
            }
            let (document, level) = writer.finish();
            (Ok(()), document, level)
        },
        Err(e) => {
            proof {
                let (n, mid) = choose|n: int, mid: WebWriterAcc|
                    0 <= n < nodes@.len() && #[trigger] threaded::<DomNode, WebWriter>(
                        before,
                        nodes@.take(n),
                        mid,
                    ) && WebWriter::refuses(mid, nodes@[n], writer, e);
                lemma_written(before, nodes@.take(n), mid);
                assert(node_models(nodes@.take(n)) =~= wish.take(n));
                assert forall|m: int| 0 <= m < n implies refusal_at(
                    wish[m],
                    keys@.len(),
                    pass::add_all(before@.pass, keys@, parent as int, #[trigger] wish.take(m)).doc.next,
                ) is None by {
                    assert(wish.take(n).take(m) =~= wish.take(m));
                    assert(wish.take(n)[m] == wish[m]);
                }
            }
            let (document, level) = writer.into_parts();
            (Err(e), document, level)
        },
    }
}

} // verus!
