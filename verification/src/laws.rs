//! What holds of every pass: the laws of the reconciler, proved of the
//! mathematical description of a pass.

use vstd::prelude::*;
use crate::document::{create_op, DocumentModel, OpModel};
use crate::dom::{keys_unique, AttributeModel, ListenerModel, NodeModel, ValueModel};
use crate::keys::child_path;
use crate::pass::{
    add_all, add_node, attach_all, attach_missing, create_node, declared_distinct, declares,
    detach_op, detach_stale, diff_attributes, diff_listeners, extends, first_match,
    identities_distinct, remove_attribute_op, remove_op, set_attribute_op,
    is_match, level_renders, no_longer_declared, only_moves, reconcile,
    remove_stale, renders, same_identity, serves, set_all, set_missing,
    still_declared, trailing_removals, unwanted, update_node, wanted, Pass,
};
use crate::sequences::{
    lemma_filter_all, lemma_filter_members, lemma_filter_no_duplicates, lemma_filter_none,
};
use crate::system::root_pass;
use crate::vdom::{AttachedModel, VNodeModel};

verus! {

/// First match, not best match: the entry that a scan from `from` finds is
/// the first one at or after `from` that agrees with the declared node in key
/// path and value, and where the scan finds none, there is none.
pub proof fn law_first_match(level: Seq<VNodeModel>, from: int, path: Seq<u32>, value: ValueModel)
    requires
        0 <= from <= level.len(),
    ensures
        from <= first_match(level, from, path, value) <= level.len(),
        forall|j: int|
            from <= j < first_match(level, from, path, value) ==> !is_match(
                #[trigger] level[j],
                path,
                value,
            ),
        first_match(level, from, path, value) < level.len() ==> is_match(
            level[first_match(level, from, path, value)],
            path,
            value,
        ),
    decreases level.len() - from,
{
    if from < level.len() && !is_match(level[from], path, value) {
        law_first_match(level, from + 1, path, value);
    }
}

/// What setting the missing attributes leaves: the retained attributes come
/// first, unchanged; what follows them is declared; and everything declared
/// is there.
pub proof fn lemma_set_missing(
    handle: int,
    retained: Seq<AttributeModel>,
    declared: Seq<AttributeModel>,
    doc: DocumentModel,
)
    ensures
        ({
            let (after, d) = set_missing(handle, retained, declared, doc);
            &&& retained.len() <= after.len()
            &&& after.take(retained.len() as int) == retained
            &&& forall|j: int|
                retained.len() <= j < after.len() ==> declared.contains(#[trigger] after[j])
            &&& forall|i: int| 0 <= i < declared.len() ==> after.contains(#[trigger] declared[i])
            &&& retained.no_duplicates() ==> after.no_duplicates()
            &&& d.next == doc.next
            &&& doc.ops.len() <= d.ops.len()
            &&& d.ops.take(doc.ops.len() as int) == doc.ops
        }),
    decreases declared.len(),
{
    if declared.len() == 0 {
        assert(retained.take(retained.len() as int) =~= retained);
        assert(doc.ops.take(doc.ops.len() as int) =~= doc.ops);
    } else {
        let rest = declared.drop_last();
        let a = declared.last();
        lemma_set_missing(handle, retained, rest, doc);
        let (before, d0) = set_missing(handle, retained, rest, doc);
        let (after, d) = set_missing(handle, retained, declared, doc);
        assert(after.take(retained.len() as int) =~= before.take(retained.len() as int));
        assert(d.ops.take(doc.ops.len() as int) =~= d0.ops.take(doc.ops.len() as int));
        assert forall|j: int| retained.len() <= j < after.len() implies declared.contains(
            #[trigger] after[j],
        ) by {
            if j < before.len() {
                assert(rest.contains(before[j]));
                let k = choose|k: int| 0 <= k < rest.len() && rest[k] == before[j];
                assert(declared[k] == after[j]);
            } else {
                assert(declared[declared.len() - 1] == after[j]);
            }
        }
        assert forall|i: int| 0 <= i < declared.len() implies after.contains(
            #[trigger] declared[i],
        ) by {
            if i < rest.len() {
                assert(before.contains(rest[i]));
                let k = choose|k: int| 0 <= k < before.len() && before[k] == rest[i];
                assert(after[k] == declared[i]);
            } else if before.contains(a) {
            } else {
                assert(after[after.len() - 1] == a);
            }
        }
        if retained.no_duplicates() && !before.contains(a) {
            assert forall|i: int, j: int|
                0 <= i < after.len() && 0 <= j < after.len() && i != j implies after[i]
                != after[j] by {
                if i == before.len() {
                    assert(before[j] == after[j]);
                    assert(before.contains(before[j]));
                } else if j == before.len() {
                    assert(before[i] == after[i]);
                    assert(before.contains(before[i]));
                }
            }
        }
    }
}

/// Attribute convergence: whatever was retained, after the attributes of a
/// node are brought up to date the retained attributes are, as a set, exactly
/// the declared ones, and no handle was used.
pub proof fn law_attributes_converge(
    handle: int,
    retained: Seq<AttributeModel>,
    declared: Seq<AttributeModel>,
    doc: DocumentModel,
)
    ensures
        diff_attributes(handle, retained, declared, doc).0.to_set() == declared.to_set(),
        forall|a: AttributeModel|
            #[trigger] diff_attributes(handle, retained, declared, doc).0.contains(a)
                == declared.contains(a),
        diff_attributes(handle, retained, declared, doc).1.next == doc.next,
{
    let (kept, d1) = remove_stale(handle, retained, declared, doc);
    let (after, d2) = set_missing(handle, kept, declared, d1);
    lemma_filter_members(retained, still_declared(declared));
    lemma_set_missing(handle, kept, declared, d1);
    assert forall|a: AttributeModel| #[trigger] after.contains(a) == declared.contains(a) by {
        if after.contains(a) {
            let j = choose|j: int| 0 <= j < after.len() && after[j] == a;
            if j < kept.len() {
                assert(after.take(kept.len() as int)[j] == kept[j]);
                assert(kept.contains(a));
            } else {
                assert(declared.contains(after[j]));
            }
        }
        if declared.contains(a) {
            let i = choose|i: int| 0 <= i < declared.len() && declared[i] == a;
            assert(after.contains(declared[i]));
        }
    }
    assert(after.to_set() =~= declared.to_set());
}

/// Attribute convergence for key-unique sets: where no key occurs twice among
/// the retained attributes nor among the declared ones, the attributes
/// retained after the update hold each declared attribute exactly once and
/// nothing else, whatever was retained before.
pub proof fn law_attributes_converge_unique(
    handle: int,
    retained: Seq<AttributeModel>,
    declared: Seq<AttributeModel>,
    doc: DocumentModel,
)
    requires
        keys_unique(retained),
        keys_unique(declared),
    ensures
        diff_attributes(handle, retained, declared, doc).0.to_set() == declared.to_set(),
        diff_attributes(handle, retained, declared, doc).0.len() == declared.len(),
        diff_attributes(handle, retained, declared, doc).0.no_duplicates(),
        keys_unique(diff_attributes(handle, retained, declared, doc).0),
{
    let (kept, d1) = remove_stale(handle, retained, declared, doc);
    let (after, d2) = set_missing(handle, kept, declared, d1);
    law_attributes_converge(handle, retained, declared, doc);
    lemma_keys_unique_no_duplicates(retained);
    lemma_keys_unique_no_duplicates(declared);
    lemma_filter_no_duplicates(retained, still_declared(declared));
    lemma_set_missing(handle, kept, declared, d1);
    after.unique_seq_to_set();
    declared.unique_seq_to_set();
    assert forall|i: int, j: int| 0 <= i < j < after.len() implies (#[trigger] after[i]).key != (
    #[trigger] after[j]).key by {
        assert(after.contains(after[i]));
        assert(after.contains(after[j]));
        assert(declared.contains(after[i]));
        assert(declared.contains(after[j]));
        let a = choose|a: int| 0 <= a < declared.len() && declared[a] == after[i];
        let b = choose|b: int| 0 <= b < declared.len() && declared[b] == after[j];
        assert(after[i] != after[j]);
        if a < b {
            assert(declared[a].key != declared[b].key);
        } else {
            assert(declared[b].key != declared[a].key);
        }
    }
}

/// Attributes with distinct keys are distinct.
pub proof fn lemma_keys_unique_no_duplicates(attributes: Seq<AttributeModel>)
    requires
        keys_unique(attributes),
    ensures
        attributes.no_duplicates(),
{
    assert forall|i: int, j: int|
        0 <= i < attributes.len() && 0 <= j < attributes.len() && i != j implies attributes[i]
        != attributes[j] by {
        if i < j {
            assert(attributes[i].key != attributes[j].key);
        } else {
            assert(attributes[j].key != attributes[i].key);
        }
    }
}

/// Where the retained attributes are already, as a set, the declared ones,
/// bringing them up to date changes nothing and records nothing.
pub proof fn law_attributes_settled(
    handle: int,
    retained: Seq<AttributeModel>,
    declared: Seq<AttributeModel>,
    doc: DocumentModel,
)
    requires
        forall|a: AttributeModel| #[trigger] retained.contains(a) == declared.contains(a),
    ensures
        diff_attributes(handle, retained, declared, doc) == (retained, doc),
{
    assert forall|i: int| 0 <= i < retained.len() implies still_declared(declared)(
        #[trigger] retained[i],
    ) by {
        assert(retained.contains(retained[i]));
    }
    assert forall|i: int| 0 <= i < retained.len() implies !no_longer_declared(declared)(
        #[trigger] retained[i],
    ) by {
        assert(retained.contains(retained[i]));
    }
    lemma_filter_all(retained, still_declared(declared));
    lemma_filter_none(retained, no_longer_declared(declared));
    let (kept, d1) = remove_stale(handle, retained, declared, doc);
    assert(d1.ops =~= doc.ops);
    assert(d1 == doc);
    lemma_set_missing_settled(handle, retained, declared, doc);
}

/// Nothing is set where everything declared is retained.
proof fn lemma_set_missing_settled(
    handle: int,
    retained: Seq<AttributeModel>,
    declared: Seq<AttributeModel>,
    doc: DocumentModel,
)
    requires
        forall|i: int| 0 <= i < declared.len() ==> retained.contains(#[trigger] declared[i]),
    ensures
        set_missing(handle, retained, declared, doc) == (retained, doc),
    decreases declared.len(),
{
    if declared.len() > 0 {
        assert forall|i: int| 0 <= i < declared.drop_last().len() implies retained.contains(
            #[trigger] declared.drop_last()[i],
        ) by {
            assert(declared.drop_last()[i] == declared[i]);
        }
        lemma_set_missing_settled(handle, retained, declared.drop_last(), doc);
        assert(retained.contains(declared[declared.len() - 1]));
    }
}

/// What attaching the missing listeners leaves: the attached listeners come
/// first, unchanged; what follows them serves a declared listener and has a
/// handle that the document handed out during the step; and every declared
/// listener is served.
pub proof fn lemma_attach_missing(
    handle: int,
    path: Seq<u32>,
    attached: Seq<AttachedModel>,
    declared: Seq<ListenerModel>,
    doc: DocumentModel,
)
    ensures
        ({
            let (after, d) = attach_missing(handle, path, attached, declared, doc);
            &&& attached.len() <= after.len()
            &&& after.take(attached.len() as int) == attached
            &&& forall|j: int|
                attached.len() <= j < after.len() ==> declared.contains(
                    (#[trigger] after[j]).listener(),
                ) && doc.next <= after[j].handle < d.next
            &&& forall|i: int| 0 <= i < declared.len() ==> serves(after, #[trigger] declared[i])
            &&& d.next == doc.next + after.len() - attached.len()
            &&& d.next <= doc.next + declared.len()
            &&& doc.ops.len() <= d.ops.len()
            &&& d.ops.take(doc.ops.len() as int) == doc.ops
        }),
    decreases declared.len(),
{
    if declared.len() == 0 {
        assert(attached.take(attached.len() as int) =~= attached);
        assert(doc.ops.take(doc.ops.len() as int) =~= doc.ops);
    } else {
        let rest = declared.drop_last();
        let l = declared.last();
        lemma_attach_missing(handle, path, attached, rest, doc);
        let (before, d0) = attach_missing(handle, path, attached, rest, doc);
        let (after, d) = attach_missing(handle, path, attached, declared, doc);
        assert(after.take(attached.len() as int) =~= before.take(attached.len() as int));
        assert(d.ops.take(doc.ops.len() as int) =~= d0.ops.take(doc.ops.len() as int));
        assert forall|j: int| attached.len() <= j < after.len() implies declared.contains(
            (#[trigger] after[j]).listener(),
        ) && doc.next <= after[j].handle < d.next by {
            if j < before.len() {
                assert(rest.contains(before[j].listener()));
                let k = choose|k: int| 0 <= k < rest.len() && rest[k] == before[j].listener();
                assert(declared[k] == after[j].listener());
            } else {
                assert(declared[declared.len() - 1] == after[j].listener());
            }
        }
        assert forall|i: int| 0 <= i < declared.len() implies serves(
            after,
            #[trigger] declared[i],
        ) by {
            if i < rest.len() {
                assert(serves(before, rest[i]));
                let k = choose|k: int|
                    0 <= k < before.len() && #[trigger] before[k].listener() == rest[i];
                assert(after[k].listener() == declared[i]);
            } else if serves(before, l) {
            } else {
                assert(after[after.len() - 1].listener() == l);
            }
        }
    }
}

/// Listener convergence: whatever was attached, after the listeners of a node
/// are brought up to date the attached listeners serve exactly the declared
/// ones.
pub proof fn law_listeners_converge(
    handle: int,
    path: Seq<u32>,
    attached: Seq<AttachedModel>,
    declared: Seq<ListenerModel>,
    doc: DocumentModel,
)
    ensures
        forall|l: ListenerModel|
            #[trigger] serves(diff_listeners(handle, path, attached, declared, doc).0, l)
                == declared.contains(l),
        doc.next <= diff_listeners(handle, path, attached, declared, doc).1.next <= doc.next
            + declared.len(),
{
    let (kept, d1) = detach_stale(handle, attached, declared, doc);
    let (after, d2) = attach_missing(handle, path, kept, declared, d1);
    lemma_filter_members(attached, wanted(declared));
    lemma_attach_missing(handle, path, kept, declared, d1);
    assert forall|l: ListenerModel| #[trigger] serves(after, l) == declared.contains(l) by {
        if serves(after, l) {
            let j = choose|j: int| 0 <= j < after.len() && #[trigger] after[j].listener() == l;
            if j < kept.len() {
                assert(after.take(kept.len() as int)[j] == kept[j]);
                assert(kept.contains(kept[j]));
                assert(declares(declared, kept[j]));
            } else {
                assert(declared.contains(after[j].listener()));
            }
        }
        if declared.contains(l) {
            let i = choose|i: int| 0 <= i < declared.len() && declared[i] == l;
            assert(serves(after, declared[i]));
        }
    }
}

/// Identity of listeners: bringing the listeners of a node up to date
/// attaches nothing anew that is attached already. Every attached listener
/// that serves a declared one stays attached under the handle it has, and
/// what is attached afterwards was attached before or has a handle that was
/// handed out on the way.
pub proof fn law_listeners_kept(
    handle: int,
    path: Seq<u32>,
    attached: Seq<AttachedModel>,
    declared: Seq<ListenerModel>,
    doc: DocumentModel,
)
    ensures
        forall|i: int|
            0 <= i < attached.len() && declares(declared, #[trigger] attached[i])
                ==> diff_listeners(handle, path, attached, declared, doc).0.contains(attached[i]),
        forall|j: int|
            0 <= j < diff_listeners(handle, path, attached, declared, doc).0.len()
                ==> attached.contains(
                #[trigger] diff_listeners(handle, path, attached, declared, doc).0[j],
            ) || doc.next <= diff_listeners(handle, path, attached, declared, doc).0[j].handle
                < diff_listeners(handle, path, attached, declared, doc).1.next,
{
    let (kept, d1) = detach_stale(handle, attached, declared, doc);
    let (after, d2) = attach_missing(handle, path, kept, declared, d1);
    lemma_filter_members(attached, wanted(declared));
    lemma_attach_missing(handle, path, kept, declared, d1);
    assert forall|i: int|
        0 <= i < attached.len() && declares(declared, #[trigger] attached[i]) implies after.contains(
        attached[i],
    ) by {
        assert(attached.contains(attached[i]));
        assert(kept.contains(attached[i]));
        let k = choose|k: int| 0 <= k < kept.len() && kept[k] == attached[i];
        assert(after.take(kept.len() as int)[k] == kept[k]);
        assert(after[k] == attached[i]);
    }
    assert forall|j: int| 0 <= j < after.len() implies attached.contains(#[trigger] after[j])
        || doc.next <= after[j].handle < d2.next by {
        if j < kept.len() {
            assert(after.take(kept.len() as int)[j] == kept[j]);
            assert(kept.contains(kept[j]));
        }
    }
}

/// Where the attached listeners already serve exactly the declared ones,
/// bringing them up to date changes nothing and records nothing: no listener
/// is detached and none is attached anew.
pub proof fn law_listeners_settled(
    handle: int,
    path: Seq<u32>,
    attached: Seq<AttachedModel>,
    declared: Seq<ListenerModel>,
    doc: DocumentModel,
)
    requires
        forall|l: ListenerModel| #[trigger] serves(attached, l) == declared.contains(l),
    ensures
        diff_listeners(handle, path, attached, declared, doc) == (attached, doc),
{
    assert forall|i: int| 0 <= i < attached.len() implies wanted(declared)(
        #[trigger] attached[i],
    ) by {
        assert(attached[i].listener() == attached[i].listener());
        assert(serves(attached, attached[i].listener()));
    }
    assert forall|i: int| 0 <= i < attached.len() implies !unwanted(declared)(
        #[trigger] attached[i],
    ) by {
        assert(serves(attached, attached[i].listener()));
    }
    lemma_filter_all(attached, wanted(declared));
    lemma_filter_none(attached, unwanted(declared));
    let (kept, d1) = detach_stale(handle, attached, declared, doc);
    assert(d1.ops =~= doc.ops);
    assert(d1 == doc);
    lemma_attach_missing_settled(handle, path, attached, declared, doc);
}

/// Nothing is attached where every declared listener is served.
proof fn lemma_attach_missing_settled(
    handle: int,
    path: Seq<u32>,
    attached: Seq<AttachedModel>,
    declared: Seq<ListenerModel>,
    doc: DocumentModel,
)
    requires
        forall|i: int| 0 <= i < declared.len() ==> serves(attached, #[trigger] declared[i]),
    ensures
        attach_missing(handle, path, attached, declared, doc) == (attached, doc),
    decreases declared.len(),
{
    if declared.len() > 0 {
        assert forall|i: int| 0 <= i < declared.drop_last().len() implies serves(
            attached,
            #[trigger] declared.drop_last()[i],
        ) by {
            assert(declared.drop_last()[i] == declared[i]);
        }
        lemma_attach_missing_settled(handle, path, attached, declared.drop_last(), doc);
        assert(serves(attached, declared[declared.len() - 1]));
    }
}

/// What attaching all declared listeners leaves: one attached listener for
/// each declared one, in order, with the handles that the document handed
/// out, one after the other.
pub proof fn lemma_attach_all(
    handle: int,
    path: Seq<u32>,
    declared: Seq<ListenerModel>,
    doc: DocumentModel,
)
    ensures
        ({
            let (after, d) = attach_all(handle, path, declared, doc);
            &&& after.len() == declared.len()
            &&& forall|i: int|
                0 <= i < declared.len() ==> (#[trigger] after[i]).listener() == declared[i]
                    && after[i].handle == doc.next + i
            &&& forall|l: ListenerModel| #[trigger] serves(after, l) == declared.contains(l)
            &&& d.next == doc.next + declared.len()
            &&& doc.ops.len() <= d.ops.len()
            &&& d.ops.take(doc.ops.len() as int) == doc.ops
        }),
    decreases declared.len(),
{
    let (after, d) = attach_all(handle, path, declared, doc);
    if declared.len() == 0 {
        assert(doc.ops.take(doc.ops.len() as int) =~= doc.ops);
    } else {
        let rest = declared.drop_last();
        lemma_attach_all(handle, path, rest, doc);
        let (before, d0) = attach_all(handle, path, rest, doc);
        assert(d.ops.take(doc.ops.len() as int) =~= d0.ops.take(doc.ops.len() as int));
        assert forall|i: int| 0 <= i < declared.len() implies (#[trigger] after[i]).listener()
            == declared[i] && after[i].handle == doc.next + i by {
            if i < rest.len() {
                assert(before[i].listener() == rest[i]);
            }
        }
    }
    assert forall|l: ListenerModel| #[trigger] serves(after, l) == declared.contains(l) by {
        if serves(after, l) {
            let j = choose|j: int| 0 <= j < after.len() && #[trigger] after[j].listener() == l;
            assert(declared[j] == l);
        }
        if declared.contains(l) {
            let i = choose|i: int| 0 <= i < declared.len() && declared[i] == l;
            assert(after[i].listener() == l);
        }
    }
}

/// A node that was brought up to date shows the declared node, and it is
/// still the node it was: value, key path and handle are untouched.
pub proof fn law_update_renders(
    old_node: VNodeModel,
    keys: Seq<u32>,
    node: NodeModel,
    doc: DocumentModel,
)
    requires
        is_match(old_node, child_path(keys, node.key), node.value),
    ensures
        renders(update_node(old_node, child_path(keys, node.key), node, doc).0, keys, node),
        update_node(old_node, child_path(keys, node.key), node, doc).0.handle == old_node.handle,
        update_node(old_node, child_path(keys, node.key), node, doc).0.value == old_node.value,
        update_node(old_node, child_path(keys, node.key), node, doc).0.keys == old_node.keys,
    decreases node, 0int,
{
    let path = child_path(keys, node.key);
    let (listeners, d1) = diff_listeners(
        old_node.handle,
        path,
        old_node.listeners,
        node.listeners,
        doc,
    );
    let (attributes, d2) = diff_attributes(old_node.handle, old_node.attributes, node.attributes, d1);
    law_listeners_converge(old_node.handle, path, old_node.listeners, node.listeners, doc);
    law_attributes_converge(old_node.handle, old_node.attributes, node.attributes, d1);
    law_reconcile_renders(
        Pass { level: old_node.children, doc: d2 },
        path,
        old_node.handle,
        node.children,
    );
}

/// A node that was created shows the declared node, and its handle is the
/// one that the document had next.
pub proof fn law_create_renders(keys: Seq<u32>, node: NodeModel, doc: DocumentModel)
    ensures
        renders(create_node(child_path(keys, node.key), node, doc).0, keys, node),
        create_node(child_path(keys, node.key), node, doc).0.handle == doc.next,
    decreases node, 0int,
{
    let path = child_path(keys, node.key);
    let handle = doc.next;
    let d0 = doc.record(create_op(handle, node.value)).allocate();
    let (listeners, d1) = attach_all(handle, path, node.listeners, d0);
    let d2 = set_all(handle, node.attributes, d1);
    lemma_attach_all(handle, path, node.listeners, d0);
    law_reconcile_renders(Pass { level: Seq::empty(), doc: d2 }, path, handle, node.children);
}

/// After a step the entry at the cursor shows the declared node, and the
/// entries before the cursor are as they were.
pub proof fn law_add_node_renders(
    pass: Pass,
    keys: Seq<u32>,
    parent: int,
    cursor: int,
    node: NodeModel,
)
    requires
        0 <= cursor <= pass.level.len(),
    ensures
        add_node(pass, keys, parent, cursor, node).level.len() > cursor,
        add_node(pass, keys, parent, cursor, node).level.take(cursor) == pass.level.take(cursor),
        renders(add_node(pass, keys, parent, cursor, node).level[cursor], keys, node),
    decreases node, 1int,
{
    let path = child_path(keys, node.key);
    let found = first_match(pass.level, cursor, path, node.value);
    let after = add_node(pass, keys, parent, cursor, node);
    law_first_match(pass.level, cursor, path, node.value);
    if found < pass.level.len() {
        law_update_renders(pass.level[found], keys, node, pass.doc);
    } else {
        law_create_renders(keys, node, pass.doc);
    }
    assert(after.level.take(cursor) =~= pass.level.take(cursor));
}

/// After the steps for the declared nodes, the level begins with entries that
/// show them, one by one.
pub proof fn law_add_all_renders(pass: Pass, keys: Seq<u32>, parent: int, nodes: Seq<NodeModel>)
    ensures
        add_all(pass, keys, parent, nodes).level.len() >= nodes.len(),
        forall|i: int|
            0 <= i < nodes.len() ==> renders(
                add_all(pass, keys, parent, nodes).level[i],
                keys,
                #[trigger] nodes[i],
            ),
    decreases nodes, 2int,
{
    if nodes.len() > 0 {
        let rest = nodes.drop_last();
        let before = add_all(pass, keys, parent, rest);
        let after = add_all(pass, keys, parent, nodes);
        law_add_all_renders(pass, keys, parent, rest);
        law_add_node_renders(before, keys, parent, nodes.len() - 1, nodes.last());
        assert forall|i: int| 0 <= i < nodes.len() implies renders(
            after.level[i],
            keys,
            #[trigger] nodes[i],
        ) by {
            if i < rest.len() {
                assert(after.level.take(nodes.len() - 1)[i] == before.level.take(
                    nodes.len() - 1,
                )[i]);
                assert(renders(before.level[i], keys, rest[i]));
            }
        }
    }
}

/// Convergence: after a pass the level shows the declared nodes, whatever it
/// held before.
pub proof fn law_reconcile_renders(pass: Pass, keys: Seq<u32>, parent: int, nodes: Seq<NodeModel>)
    ensures
        level_renders(reconcile(pass, keys, parent, nodes).level, keys, nodes),
    decreases nodes, 3int,
{
    law_add_all_renders(pass, keys, parent, nodes);
    let brought = add_all(pass, keys, parent, nodes);
    let done = reconcile(pass, keys, parent, nodes);
    assert forall|i: int| 0 <= i < nodes.len() implies renders(
        done.level[i],
        keys,
        #[trigger] nodes[i],
    ) by {
        assert(done.level[i] == brought.level[i]);
    }
}

/// A node that shows the declared node is left alone when it is brought up
/// to date: nothing changes and nothing is recorded.
pub proof fn law_update_settled(
    old_node: VNodeModel,
    keys: Seq<u32>,
    node: NodeModel,
    doc: DocumentModel,
)
    requires
        renders(old_node, keys, node),
    ensures
        update_node(old_node, child_path(keys, node.key), node, doc) == (old_node, doc),
    decreases node, 0int,
{
    let path = child_path(keys, node.key);
    law_listeners_settled(old_node.handle, path, old_node.listeners, node.listeners, doc);
    law_attributes_settled(old_node.handle, old_node.attributes, node.attributes, doc);
    law_reconcile_settled(
        Pass { level: old_node.children, doc },
        path,
        old_node.handle,
        node.children,
    );
}

/// A step for a declared node that the entry at the cursor shows already
/// leaves the pass as it is.
pub proof fn law_add_node_settled(
    pass: Pass,
    keys: Seq<u32>,
    parent: int,
    cursor: int,
    node: NodeModel,
)
    requires
        0 <= cursor < pass.level.len(),
        renders(pass.level[cursor], keys, node),
    ensures
        add_node(pass, keys, parent, cursor, node) == pass,
    decreases node, 1int,
{
    let path = child_path(keys, node.key);
    law_update_settled(pass.level[cursor], keys, node, pass.doc);
    assert(pass.level.remove(cursor).insert(cursor, pass.level[cursor]) =~= pass.level);
}

/// The steps for declared nodes that the first entries of the level show
/// already leave the pass as it is.
pub proof fn law_add_all_settled(pass: Pass, keys: Seq<u32>, parent: int, nodes: Seq<NodeModel>)
    requires
        nodes.len() <= pass.level.len(),
        forall|i: int| 0 <= i < nodes.len() ==> renders(pass.level[i], keys, #[trigger] nodes[i]),
    ensures
        add_all(pass, keys, parent, nodes) == pass,
    decreases nodes, 2int,
{
    if nodes.len() > 0 {
        let rest = nodes.drop_last();
        assert forall|i: int| 0 <= i < rest.len() implies renders(
            pass.level[i],
            keys,
            #[trigger] rest[i],
        ) by {
            assert(rest[i] == nodes[i]);
        }
        law_add_all_settled(pass, keys, parent, rest);
        assert(renders(pass.level[nodes.len() - 1], keys, nodes[nodes.len() - 1]));
        law_add_node_settled(pass, keys, parent, nodes.len() - 1, nodes.last());
    }
}

/// Idempotence: a pass for declared nodes that the level shows already, as
/// it does right after a pass for the same nodes, changes nothing in the
/// level, records no mutation and uses no handle.
pub proof fn law_reconcile_settled(pass: Pass, keys: Seq<u32>, parent: int, nodes: Seq<NodeModel>)
    requires
        level_renders(pass.level, keys, nodes),
    ensures
        reconcile(pass, keys, parent, nodes) == pass,
    decreases nodes, 3int,
{
    law_add_all_settled(pass, keys, parent, nodes);
    let done = reconcile(pass, keys, parent, nodes);
    assert(done.level =~= pass.level);
    assert(trailing_removals(pass.level, nodes.len() as int) =~= Seq::<OpModel>::empty());
    assert(done.doc.ops =~= pass.doc.ops);
}

/// Idempotence, in full: the pass that follows a pass for the same declared
/// nodes changes nothing in the level, records no mutation and uses no
/// handle.
pub proof fn law_second_pass_is_silent(
    pass: Pass,
    keys: Seq<u32>,
    parent: int,
    nodes: Seq<NodeModel>,
)
    ensures
        reconcile(reconcile(pass, keys, parent, nodes), keys, parent, nodes) == reconcile(
            pass,
            keys,
            parent,
            nodes,
        ),
{
    law_reconcile_renders(pass, keys, parent, nodes);
    law_reconcile_settled(reconcile(pass, keys, parent, nodes), keys, parent, nodes);
}

/// Trailing cleanup: when the declared nodes have been brought to their
/// places, exactly the entries at and after the final cursor are removed from
/// the document, the last one first, and the level keeps exactly one entry
/// for each declared node.
pub proof fn law_trailing_cleanup(pass: Pass, keys: Seq<u32>, parent: int, nodes: Seq<NodeModel>)
    ensures
        ({
            let brought = add_all(pass, keys, parent, nodes);
            let done = reconcile(pass, keys, parent, nodes);
            &&& brought.level.len() >= nodes.len()
            &&& done.level == brought.level.take(nodes.len() as int)
            &&& done.level.len() == nodes.len()
            &&& done.doc.next == brought.doc.next
            &&& done.doc.ops.len() == brought.doc.ops.len() + brought.level.len() - nodes.len()
            &&& done.doc.ops.take(brought.doc.ops.len() as int) == brought.doc.ops
            &&& forall|j: int|
                0 <= j < brought.level.len() - nodes.len() ==> #[trigger] done.doc.ops[brought.doc.ops.len()
                    + j] == remove_op(brought.level[brought.level.len() - 1 - j])
        }),
{
    law_add_all_renders(pass, keys, parent, nodes);
    let brought = add_all(pass, keys, parent, nodes);
    let done = reconcile(pass, keys, parent, nodes);
    assert(done.doc.ops.take(brought.doc.ops.len() as int) =~= brought.doc.ops);
}

/// Variant change forces replacement: where no entry at or after the cursor
/// agrees with the declared node in both key path and value, in particular
/// where the entry with its key path is of another variant or has another
/// content, the step reuses nothing. It creates a node under a handle that
/// was never handed out before, and every entry that was at or after the
/// cursor is still there behind it, untouched, for the trailing cleanup to
/// remove or for a later sibling to match.
pub proof fn law_no_match_creates(
    pass: Pass,
    keys: Seq<u32>,
    parent: int,
    cursor: int,
    node: NodeModel,
)
    requires
        0 <= cursor <= pass.level.len(),
        forall|j: int|
            cursor <= j < pass.level.len() ==> !is_match(
                #[trigger] pass.level[j],
                child_path(keys, node.key),
                node.value,
            ),
    ensures
        ({
            let after = add_node(pass, keys, parent, cursor, node);
            &&& after.level.len() == pass.level.len() + 1
            &&& after.level[cursor].handle == pass.doc.next
            &&& after.level[cursor].value == node.value
            &&& after.level.take(cursor) == pass.level.take(cursor)
            &&& after.level.skip(cursor + 1) == pass.level.skip(cursor)
            &&& after.doc.next > pass.doc.next
            &&& after.doc.ops.len() > pass.doc.ops.len()
            &&& after.doc.ops[pass.doc.ops.len() as int] == create_op(pass.doc.next, node.value)
            &&& after.doc.ops.last() == (OpModel::InsertChild {
                parent,
                index: cursor,
                child: pass.doc.next,
            })
        }),
{
    let path = child_path(keys, node.key);
    law_first_match(pass.level, cursor, path, node.value);
    let found = first_match(pass.level, cursor, path, node.value);
    if found < pass.level.len() {
        assert(is_match(pass.level[found], path, node.value));
        assert(false);
    }
    let after = add_node(pass, keys, parent, cursor, node);
    assert(after.level.take(cursor) =~= pass.level.take(cursor));
    assert(after.level.skip(cursor + 1) =~= pass.level.skip(cursor));
    law_create_extends(path, node, pass.doc);
    let created = create_node(path, node, pass.doc).1;
    assert(after.doc.ops[pass.doc.ops.len() as int] == created.ops[pass.doc.ops.len() as int]);
}

/// Extending is transitive.
pub proof fn lemma_extends_trans(a: DocumentModel, b: DocumentModel, c: DocumentModel)
    requires
        extends(b, a),
        extends(c, b),
    ensures
        extends(c, a),
{
    assert(c.ops.take(a.ops.len() as int) =~= c.ops.take(b.ops.len() as int).take(
        a.ops.len() as int,
    ));
}

/// Recording more mutations extends a document.
pub proof fn lemma_record_all_extends(doc: DocumentModel, ops: Seq<OpModel>)
    ensures
        extends(doc.record_all(ops), doc),
        extends(doc, doc),
{
    assert(doc.record_all(ops).ops.take(doc.ops.len() as int) =~= doc.ops);
    assert(doc.ops.take(doc.ops.len() as int) =~= doc.ops);
}

/// Recording one more mutation extends a document, and so does handing out a
/// handle.
pub proof fn lemma_record_extends(doc: DocumentModel, op: OpModel)
    ensures
        extends(doc.record(op), doc),
        extends(doc.allocate(), doc),
        extends(doc.record(op).allocate(), doc),
{
    assert(doc.record(op).ops.take(doc.ops.len() as int) =~= doc.ops);
    assert(doc.ops.take(doc.ops.len() as int) =~= doc.ops);
}

/// Bringing a node up to date only adds to the record.
pub proof fn law_update_extends(
    old_node: VNodeModel,
    path: Seq<u32>,
    node: NodeModel,
    doc: DocumentModel,
)
    ensures
        extends(update_node(old_node, path, node, doc).1, doc),
    decreases node, 0int,
{
    let h = old_node.handle;
    let (kept, d0) = detach_stale(h, old_node.listeners, node.listeners, doc);
    let (listeners, d1) = attach_missing(h, path, kept, node.listeners, d0);
    let (retained, d2) = remove_stale(h, old_node.attributes, node.attributes, d1);
    let (attributes, d3) = set_missing(h, retained, node.attributes, d2);
    let below = reconcile(Pass { level: old_node.children, doc: d3 }, path, h, node.children);
    lemma_record_all_extends(
        doc,
        old_node.listeners.filter(unwanted(node.listeners)).map_values(
            detach_op(h),
        ),
    );
    lemma_attach_missing(h, path, kept, node.listeners, d0);
    lemma_record_all_extends(
        d1,
        old_node.attributes.filter(no_longer_declared(node.attributes)).map_values(
            remove_attribute_op(h),
        ),
    );
    lemma_set_missing(h, retained, node.attributes, d2);
    law_reconcile_extends(Pass { level: old_node.children, doc: d3 }, path, h, node.children);
    lemma_extends_trans(doc, d0, d1);
    lemma_extends_trans(doc, d1, d2);
    lemma_extends_trans(doc, d2, d3);
    lemma_extends_trans(doc, d3, below.doc);
}

/// Creating a node only adds to the record; the first mutation it adds is
/// the creation, under the handle that the document had next.
pub proof fn law_create_extends(path: Seq<u32>, node: NodeModel, doc: DocumentModel)
    ensures
        extends(create_node(path, node, doc).1, doc),
        create_node(path, node, doc).1.next > doc.next,
        create_node(path, node, doc).1.ops.len() > doc.ops.len(),
        create_node(path, node, doc).1.ops[doc.ops.len() as int] == create_op(
            doc.next,
            node.value,
        ),
    decreases node, 0int,
{
    let handle = doc.next;
    let d0 = doc.record(create_op(handle, node.value)).allocate();
    let (listeners, d1) = attach_all(handle, path, node.listeners, d0);
    let d2 = set_all(handle, node.attributes, d1);
    let below = reconcile(Pass { level: Seq::empty(), doc: d2 }, path, handle, node.children);
    lemma_record_extends(doc, create_op(handle, node.value));
    lemma_attach_all(handle, path, node.listeners, d0);
    lemma_record_all_extends(
        d1,
        node.attributes.map_values(set_attribute_op(handle)),
    );
    law_reconcile_extends(Pass { level: Seq::empty(), doc: d2 }, path, handle, node.children);
    lemma_extends_trans(d0, d1, d2);
    lemma_extends_trans(d0, d2, below.doc);
    lemma_extends_trans(doc, d0, below.doc);
    assert(below.doc.ops.take(d0.ops.len() as int)[doc.ops.len() as int]
        == below.doc.ops[doc.ops.len() as int]);
}

/// A step only adds to the record.
pub proof fn law_add_node_extends(
    pass: Pass,
    keys: Seq<u32>,
    parent: int,
    cursor: int,
    node: NodeModel,
)
    ensures
        extends(add_node(pass, keys, parent, cursor, node).doc, pass.doc),
    decreases node, 1int,
{
    let path = child_path(keys, node.key);
    let found = first_match(pass.level, cursor, path, node.value);
    if found < pass.level.len() {
        law_update_extends(pass.level[found], path, node, pass.doc);
        let d = update_node(pass.level[found], path, node, pass.doc).1;
        lemma_record_extends(
            d,
            OpModel::MoveChild { parent, old_index: found, new_index: cursor },
        );
        lemma_extends_trans(pass.doc, d, add_node(pass, keys, parent, cursor, node).doc);
    } else {
        law_create_extends(path, node, pass.doc);
        let (new_node, d) = create_node(path, node, pass.doc);
        lemma_record_extends(
            d,
            OpModel::InsertChild { parent, index: cursor, child: new_node.handle },
        );
        lemma_extends_trans(pass.doc, d, add_node(pass, keys, parent, cursor, node).doc);
    }
}

/// The steps for the declared nodes only add to the record.
pub proof fn law_add_all_extends(pass: Pass, keys: Seq<u32>, parent: int, nodes: Seq<NodeModel>)
    ensures
        extends(add_all(pass, keys, parent, nodes).doc, pass.doc),
    decreases nodes, 2int,
{
    if nodes.len() > 0 {
        let before = add_all(pass, keys, parent, nodes.drop_last());
        law_add_all_extends(pass, keys, parent, nodes.drop_last());
        law_add_node_extends(before, keys, parent, nodes.len() - 1, nodes.last());
        lemma_extends_trans(pass.doc, before.doc, add_all(pass, keys, parent, nodes).doc);
    } else {
        lemma_record_all_extends(pass.doc, Seq::empty());
    }
}

/// A pass only adds to the record: what was recorded before it stays as it
/// was, and no handle is handed out twice.
pub proof fn law_reconcile_extends(pass: Pass, keys: Seq<u32>, parent: int, nodes: Seq<NodeModel>)
    ensures
        extends(reconcile(pass, keys, parent, nodes).doc, pass.doc),
    decreases nodes, 3int,
{
    let brought = add_all(pass, keys, parent, nodes);
    law_add_all_extends(pass, keys, parent, nodes);
    lemma_record_all_extends(brought.doc, trailing_removals(brought.level, nodes.len() as int));
    lemma_extends_trans(pass.doc, brought.doc, reconcile(pass, keys, parent, nodes).doc);
}

/// One node for each identity: where no two of the declared nodes agree in
/// key path and value, no two entries of the level agree in key path and
/// value after the pass, whatever the level held before.
pub proof fn law_one_node_per_identity(
    pass: Pass,
    keys: Seq<u32>,
    parent: int,
    nodes: Seq<NodeModel>,
)
    requires
        declared_distinct(keys, nodes),
    ensures
        identities_distinct(reconcile(pass, keys, parent, nodes).level),
{
    law_reconcile_renders(pass, keys, parent, nodes);
    let level = reconcile(pass, keys, parent, nodes).level;
    assert forall|i: int, j: int| 0 <= i < j < level.len() implies !same_identity(
        #[trigger] level[i],
        #[trigger] level[j],
    ) by {
        assert(renders(level[i], keys, nodes[i]));
        assert(renders(level[j], keys, nodes[j]));
    }
}

/// Fewer children: where the first entries of the level show the declared
/// nodes already and more entries follow, the pass leaves the first entries
/// as they are and removes exactly those that follow, the last one first;
/// it records nothing else and uses no handle.
pub proof fn law_fewer_children(pass: Pass, keys: Seq<u32>, parent: int, nodes: Seq<NodeModel>)
    requires
        nodes.len() <= pass.level.len(),
        forall|i: int| 0 <= i < nodes.len() ==> renders(pass.level[i], keys, #[trigger] nodes[i]),
    ensures
        reconcile(pass, keys, parent, nodes) == (Pass {
            level: pass.level.take(nodes.len() as int),
            doc: pass.doc.record_all(trailing_removals(pass.level, nodes.len() as int)),
        }),
{
    law_add_all_settled(pass, keys, parent, nodes);
}

/// Taking an entry out of a level and putting it back at another place
/// leaves the same entries, and leaves them distinct where they were.
proof fn lemma_relocate(level: Seq<VNodeModel>, from: int, to: int)
    requires
        0 <= to <= from < level.len(),
    ensures
        level.remove(from).insert(to, level[from]).len() == level.len(),
        forall|x: VNodeModel|
            #[trigger] level.remove(from).insert(to, level[from]).contains(x) == level.contains(x),
        identities_distinct(level) ==> identities_distinct(
            level.remove(from).insert(to, level[from]),
        ),
        level.remove(from).insert(to, level[from]).take(to) == level.take(to),
        level.remove(from).insert(to, level[from])[to] == level[from],
{
    let moved = level.remove(from).insert(to, level[from]);
    // where each entry of the new level came from
    let origin = |i: int|
        if i < to {
            i
        } else if i == to {
            from
        } else if i <= from {
            i - 1
        } else {
            i
        };
    assert forall|i: int| 0 <= i < moved.len() implies moved[i] == level[origin(i)] && 0
        <= origin(i) < level.len() by {}
    assert forall|x: VNodeModel| #[trigger] moved.contains(x) == level.contains(x) by {
        if moved.contains(x) {
            let i = choose|i: int| 0 <= i < moved.len() && moved[i] == x;
            assert(level[origin(i)] == x);
        }
        if level.contains(x) {
            let j = choose|j: int| 0 <= j < level.len() && level[j] == x;
            let i = if j < to {
                j
            } else if j == from {
                to
            } else if j < from {
                j + 1
            } else {
                j
            };
            assert(moved[i] == x);
        }
    }
    if identities_distinct(level) {
        assert forall|i: int, j: int| 0 <= i < j < moved.len() implies !same_identity(
            #[trigger] moved[i],
            #[trigger] moved[j],
        ) by {
            let a = origin(i);
            let b = origin(j);
            assert(a != b);
            if a < b {
                assert(!same_identity(level[a], level[b]));
            } else {
                assert(!same_identity(level[b], level[a]));
            }
        }
    }
    assert(moved.take(to) =~= level.take(to));
}

/// Reuse: where the entries of the level are distinct in key path and value,
/// and so are the declared nodes, and every declared node is shown by some
/// entry of the level, the steps for the declared nodes create nothing. They
/// record nothing but moves and use no handle; the level keeps the entries it
/// had, each as it was, and only their order changes, so that the first
/// entries show the declared nodes, one by one.
pub proof fn law_known_nodes_are_reused(
    pass: Pass,
    keys: Seq<u32>,
    parent: int,
    nodes: Seq<NodeModel>,
)
    requires
        identities_distinct(pass.level),
        declared_distinct(keys, nodes),
        forall|i: int|
            0 <= i < nodes.len() ==> exists|j: int|
                0 <= j < pass.level.len() && renders(
                    #[trigger] pass.level[j],
                    keys,
                    #[trigger] nodes[i],
                ),
    ensures
        only_moves(add_all(pass, keys, parent, nodes).doc, pass.doc),
        add_all(pass, keys, parent, nodes).level.len() == pass.level.len(),
        nodes.len() <= pass.level.len(),
        forall|x: VNodeModel|
            #[trigger] add_all(pass, keys, parent, nodes).level.contains(x) == pass.level.contains(
                x,
            ),
        identities_distinct(add_all(pass, keys, parent, nodes).level),
        forall|i: int|
            0 <= i < nodes.len() ==> renders(
                add_all(pass, keys, parent, nodes).level[i],
                keys,
                #[trigger] nodes[i],
            ),
    decreases nodes.len(),
{
    if nodes.len() == 0 {
        assert(pass.doc.ops.take(pass.doc.ops.len() as int) =~= pass.doc.ops);
    } else {
        let rest = nodes.drop_last();
        let node = nodes.last();
        let cursor = nodes.len() - 1;
        let before = add_all(pass, keys, parent, rest);
        let after = add_all(pass, keys, parent, nodes);
        assert forall|i: int| 0 <= i < rest.len() implies exists|j: int|
            0 <= j < pass.level.len() && renders(
                #[trigger] pass.level[j],
                keys,
                #[trigger] rest[i],
            ) by {
            assert(rest[i] == nodes[i]);
            let j = choose|j: int|
                0 <= j < pass.level.len() && renders(#[trigger] pass.level[j], keys, nodes[i]);
            assert(renders(pass.level[j], keys, rest[i]));
        }
        assert forall|i: int, j: int| 0 <= i < j < rest.len() implies !(child_path(
            keys,
            (#[trigger] rest[i]).key,
        ) == child_path(keys, (#[trigger] rest[j]).key) && rest[i].value == rest[j].value) by {
            assert(rest[i] == nodes[i] && rest[j] == nodes[j]);
        }
        law_known_nodes_are_reused(pass, keys, parent, rest);

        // the entry that shows the node, and where it stands now
        let path = child_path(keys, node.key);
        let j = choose|j: int|
            0 <= j < pass.level.len() && renders(#[trigger] pass.level[j], keys, nodes[cursor]);
        let shown = pass.level[j];
        assert(pass.level.contains(shown));
        assert(before.level.contains(shown));
        let at = choose|at: int| 0 <= at < before.level.len() && before.level[at] == shown;
        if at < cursor {
            assert(renders(before.level[at], keys, rest[at]));
            assert(rest[at] == nodes[at]);
            assert(child_path(keys, nodes[at].key) == child_path(keys, nodes[cursor].key));
            assert(false);
        }
        law_first_match(before.level, cursor, path, node.value);
        let found = first_match(before.level, cursor, path, node.value);
        if found != at {
            assert(found < at);
            assert(is_match(before.level[found], path, node.value));
            assert(same_identity(before.level[found], before.level[at]));
            assert(false);
        }
        law_update_settled(shown, keys, node, before.doc);
        lemma_relocate(before.level, found, cursor);
        assert(after == add_node(before, keys, parent, cursor, node));
        assert(update_node(before.level[found], path, node, before.doc) == (shown, before.doc));
        assert(after.level == before.level.remove(found).insert(cursor, shown));
        lemma_record_extends(
            before.doc,
            OpModel::MoveChild { parent, old_index: found, new_index: cursor },
        );
        lemma_record_all_extends(before.doc, Seq::empty());
        lemma_extends_trans(pass.doc, before.doc, after.doc);
        assert forall|i: int| 0 <= i < nodes.len() implies renders(
            after.level[i],
            keys,
            #[trigger] nodes[i],
        ) by {
            if i < cursor {
                assert(after.level.take(cursor)[i] == before.level.take(cursor)[i]);
                assert(renders(before.level[i], keys, rest[i]));
            }
        }
        assert forall|i: int| pass.doc.ops.len() <= i < after.doc.ops.len() implies (
        #[trigger] after.doc.ops[i]) is MoveChild by {
            if i < before.doc.ops.len() {
                assert(after.doc.ops.take(before.doc.ops.len() as int)[i] == before.doc.ops[i]);
            }
        }
    }
}

/// Reuse, for a whole pass: where the entries of the level are distinct in
/// key path and value, and so are the declared nodes, and every declared node
/// is shown by some entry of the level, the pass creates nothing and uses no
/// handle. It records moves and, behind them, one removal for each entry
/// that shows no declared node; the entries that stay are as they were.
pub proof fn law_known_nodes_pass(pass: Pass, keys: Seq<u32>, parent: int, nodes: Seq<NodeModel>)
    requires
        identities_distinct(pass.level),
        declared_distinct(keys, nodes),
        forall|i: int|
            0 <= i < nodes.len() ==> exists|j: int|
                0 <= j < pass.level.len() && renders(
                    #[trigger] pass.level[j],
                    keys,
                    #[trigger] nodes[i],
                ),
    ensures
        ({
            let done = reconcile(pass, keys, parent, nodes);
            &&& extends(done.doc, pass.doc)
            &&& done.doc.next == pass.doc.next
            &&& forall|i: int|
                pass.doc.ops.len() <= i < done.doc.ops.len() ==> (#[trigger] done.doc.ops[i])
                    is MoveChild || done.doc.ops[i] is RemoveChild
            &&& forall|i: int|
                0 <= i < done.level.len() ==> pass.level.contains(#[trigger] done.level[i])
            &&& level_renders(done.level, keys, nodes)
        }),
{
    law_known_nodes_are_reused(pass, keys, parent, nodes);
    law_reconcile_renders(pass, keys, parent, nodes);
    law_reconcile_extends(pass, keys, parent, nodes);
    let brought = add_all(pass, keys, parent, nodes);
    let done = reconcile(pass, keys, parent, nodes);
    assert forall|i: int| pass.doc.ops.len() <= i < done.doc.ops.len() implies (
    #[trigger] done.doc.ops[i]) is MoveChild || done.doc.ops[i] is RemoveChild by {
        if i < brought.doc.ops.len() {
            assert(done.doc.ops[i] == brought.doc.ops[i]);
        }
    }
    assert forall|i: int| 0 <= i < done.level.len() implies pass.level.contains(
        #[trigger] done.level[i],
    ) by {
        assert(brought.level.contains(brought.level[i]));
    }
}

/// Convergence at the root: after a pass for a rendering, the root has one
/// child, and it shows the rendering.
pub proof fn law_render_pass_converges(root: VNodeModel, next: int, rendered: NodeModel)
    ensures
        level_renders(root_pass(root, next, rendered).level, Seq::empty(), seq![rendered]),
        root_pass(root, next, rendered).level.len() == 1,
        renders(root_pass(root, next, rendered).level[0], Seq::empty(), rendered),
        next <= root_pass(root, next, rendered).doc.next,
{
    let start = Pass { level: root.children, doc: DocumentModel { ops: Seq::empty(), next } };
    law_reconcile_renders(start, Seq::empty(), root.handle, seq![rendered]);
    law_reconcile_extends(start, Seq::empty(), root.handle, seq![rendered]);
    assert(seq![rendered][0] == rendered);
}

/// Idempotence at the root: the pass for a rendering that directly follows a
/// pass for the same rendering leaves the materialized tree as it is,
/// records no mutation and uses no handle.
pub proof fn law_same_rendering_again(root: VNodeModel, next: int, rendered: NodeModel)
    ensures
        ({
            let first = root_pass(root, next, rendered);
            let shown = VNodeModel { children: first.level, ..root };
            root_pass(shown, first.doc.next, rendered) == (Pass {
                level: first.level,
                doc: DocumentModel { ops: Seq::empty(), next: first.doc.next },
            })
        }),
{
    let first = root_pass(root, next, rendered);
    law_render_pass_converges(root, next, rendered);
    law_reconcile_settled(
        Pass { level: first.level, doc: DocumentModel { ops: Seq::empty(), next: first.doc.next } },
        Seq::empty(),
        root.handle,
        seq![rendered],
    );
}

} // verus!
