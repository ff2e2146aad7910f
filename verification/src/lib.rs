//! A declarative user-interface tree and the reconciler that turns each new
//! rendering of it into the host mutations that bring the document up to date.
//!
//! An application is three functions: one changes the state in answer to a
//! message, one renders the state as a tree of nodes, and one turns the
//! events of the document into messages. The library keeps the tree that the
//! document holds, walks each new rendering against it, and records what the
//! document has to do: create, insert, move, remove, set, attach, detach.
//!
//! * [`dom`], [`keys`]: the declared nodes and their key paths.
//! * [`vdom`]: the materialized tree, which mirrors the document.
//! * [`document`]: the mutations, and the recorder that collects them.
//! * [`reconciler`], [`writer`]: the pass. [`pass`] says what a pass does, as
//!   mathematics; [`laws`] proves what holds of every pass.
//! * [`host`], [`sync`], [`sync_node`], [`sync_tree`]: what the mutations do to
//!   a document, and the proof that the document follows the materialized
//!   tree and shows the rendering.
//! * [`system`], [`mailbox`]: the driver, one cycle at a time.
//! * [`processors`]: traversals that thread an accumulator and stop at the
//!   first failure.
//! * [`events`], [`http`], [`headers`]: what comes in from the host.

pub mod document;
pub mod dom;
pub mod events;
pub mod headers;
pub mod host;
pub mod http;
pub mod keys;
pub mod laws;
pub mod mailbox;
pub mod pass;
pub mod processors;
pub mod reconciler;
pub mod sequences;
pub mod sync;
pub mod sync_node;
pub mod sync_tree;
pub mod system;
pub mod vdom;
pub mod writer;
