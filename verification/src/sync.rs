//! The materialized tree and the document, side by side: what it means that
//! the document holds what the tree says, and that the handles of the tree
//! are in order.

use vstd::prelude::*;
use crate::dom::{keys_unique, AttributeModel, AttributeValueModel};
use crate::host::{Attachment, HostModel};
use crate::vdom::{
    level_handles, listener_handles, owned_handles, AttachedModel, VNodeModel,
};

verus! {

/// Whether one of the items has the key `key`.
pub open spec fn keyed<A, K>(items: Seq<A>, key_of: spec_fn(A) -> K, key: K) -> bool {
    exists|i: int| 0 <= i < items.len() && key_of(#[trigger] items[i]) == key
}

/// Whether no two of the items have the same key.
pub open spec fn keys_differ<A, K>(items: Seq<A>, key_of: spec_fn(A) -> K) -> bool {
    forall|i: int, j: int|
        0 <= i < j < items.len() ==> key_of(#[trigger] items[i]) != key_of(#[trigger] items[j])
}

/// The map that leads from the key of each item to what the item stands for.
pub open spec fn keyed_map<A, K, V>(
    items: Seq<A>,
    key_of: spec_fn(A) -> K,
    value_of: spec_fn(A) -> V,
) -> Map<K, V> {
    Map::new(
        |key: K| keyed(items, key_of, key),
        |key: K|
            value_of(
                items[choose|i: int| 0 <= i < items.len() && key_of(#[trigger] items[i]) == key],
            ),
    )
}

/// Where keys differ, the map leads from the key of each item to that item.
pub proof fn lemma_keyed_at<A, K, V>(
    items: Seq<A>,
    key_of: spec_fn(A) -> K,
    value_of: spec_fn(A) -> V,
    i: int,
)
    requires
        keys_differ(items, key_of),
        0 <= i < items.len(),
    ensures
        keyed_map(items, key_of, value_of).dom().contains(key_of(items[i])),
        keyed_map(items, key_of, value_of)[key_of(items[i])] == value_of(items[i]),
{
    let key = key_of(items[i]);
    assert(keyed(items, key_of, key));
    let j = choose|j: int| 0 <= j < items.len() && key_of(#[trigger] items[j]) == key;
    if j < i {
        assert(key_of(items[j]) != key_of(items[i]));
    } else if i < j {
        assert(key_of(items[i]) != key_of(items[j]));
    }
}

/// One more item with a new key adds one entry to the map.
pub proof fn lemma_keyed_push<A, K, V>(
    items: Seq<A>,
    key_of: spec_fn(A) -> K,
    value_of: spec_fn(A) -> V,
    item: A,
)
    requires
        keys_differ(items, key_of),
        !keyed(items, key_of, key_of(item)),
    ensures
        keys_differ(items.push(item), key_of),
        keyed_map(items.push(item), key_of, value_of) == keyed_map(
            items,
            key_of,
            value_of,
        ).insert(key_of(item), value_of(item)),
{
    let more = items.push(item);
    assert forall|i: int, j: int| 0 <= i < j < more.len() implies key_of(#[trigger] more[i])
        != key_of(#[trigger] more[j]) by {
        if j == items.len() {
            assert(more[i] == items[i]);
            if key_of(items[i]) == key_of(item) {
                assert(keyed(items, key_of, key_of(item)));
            }
        } else {
            assert(more[i] == items[i] && more[j] == items[j]);
        }
    }
    let left = keyed_map(more, key_of, value_of);
    let right = keyed_map(items, key_of, value_of).insert(key_of(item), value_of(item));
    assert forall|key: K| left.dom().contains(key) == right.dom().contains(key) by {
        if keyed(more, key_of, key) {
            let i = choose|i: int| 0 <= i < more.len() && key_of(#[trigger] more[i]) == key;
            if i < items.len() {
                assert(more[i] == items[i]);
                assert(keyed(items, key_of, key));
            }
        }
        if keyed(items, key_of, key) {
            let i = choose|i: int| 0 <= i < items.len() && key_of(#[trigger] items[i]) == key;
            assert(more[i] == items[i]);
            assert(keyed(more, key_of, key));
        }
        if key == key_of(item) {
            assert(more[items.len() as int] == item);
            assert(keyed(more, key_of, key));
        }
    }
    assert forall|key: K| left.dom().contains(key) implies left[key] == right[key] by {
        let i = choose|i: int| 0 <= i < more.len() && key_of(#[trigger] more[i]) == key;
        lemma_keyed_at(more, key_of, value_of, i);
        if i < items.len() {
            assert(more[i] == items[i]);
            lemma_keyed_at(items, key_of, value_of, i);
        }
    }
    assert(left =~= right);
}

/// One item less takes one entry off the map.
pub proof fn lemma_keyed_remove<A, K, V>(
    items: Seq<A>,
    key_of: spec_fn(A) -> K,
    value_of: spec_fn(A) -> V,
    at: int,
)
    requires
        keys_differ(items, key_of),
        0 <= at < items.len(),
    ensures
        keys_differ(items.remove(at), key_of),
        keyed_map(items.remove(at), key_of, value_of) == keyed_map(
            items,
            key_of,
            value_of,
        ).remove(key_of(items[at])),
{
    let less = items.remove(at);
    let origin = |i: int|
        if i < at {
            i
        } else {
            i + 1
        };
    assert forall|i: int| 0 <= i < less.len() implies less[i] == items[origin(i)] by {}
    assert forall|i: int, j: int| 0 <= i < j < less.len() implies key_of(#[trigger] less[i])
        != key_of(#[trigger] less[j]) by {
        assert(less[i] == items[origin(i)] && less[j] == items[origin(j)]);
        assert(key_of(items[origin(i)]) != key_of(items[origin(j)]));
    }
    let left = keyed_map(less, key_of, value_of);
    let right = keyed_map(items, key_of, value_of).remove(key_of(items[at]));
    assert forall|key: K| left.dom().contains(key) == right.dom().contains(key) by {
        if keyed(less, key_of, key) {
            let i = choose|i: int| 0 <= i < less.len() && key_of(#[trigger] less[i]) == key;
            assert(less[i] == items[origin(i)]);
            assert(keyed(items, key_of, key));
            if origin(i) < at {
                assert(key_of(items[origin(i)]) != key_of(items[at]));
            } else {
                assert(key_of(items[at]) != key_of(items[origin(i)]));
            }
        }
        if keyed(items, key_of, key) && key != key_of(items[at]) {
            let j = choose|j: int| 0 <= j < items.len() && key_of(#[trigger] items[j]) == key;
            let i = if j < at {
                j
            } else {
                j - 1
            };
            assert(less[i] == items[j]);
            assert(keyed(less, key_of, key));
        }
    }
    assert forall|key: K| left.dom().contains(key) implies left[key] == right[key] by {
        let i = choose|i: int| 0 <= i < less.len() && key_of(#[trigger] less[i]) == key;
        lemma_keyed_at(less, key_of, value_of, i);
        assert(less[i] == items[origin(i)]);
        lemma_keyed_at(items, key_of, value_of, origin(i));
    }
    assert(left =~= right);
}

/// The handle of an attached listener.
pub open spec fn listener_handle() -> spec_fn(AttachedModel) -> int {
    |a: AttachedModel| a.handle
}

/// What an attached listener is in the document, on a node with the key path
/// `keys`.
pub open spec fn attachment(keys: Seq<u32>) -> spec_fn(AttachedModel) -> Attachment {
    |a: AttachedModel| Attachment { handler: a.handler, event: a.event, keys }
}

/// The listeners that the document holds for a node with the attached
/// listeners `attached` and the key path `keys`.
pub open spec fn attachment_map(attached: Seq<AttachedModel>, keys: Seq<u32>) -> Map<
    int,
    Attachment,
> {
    keyed_map(attached, listener_handle(), attachment(keys))
}

/// The key of an attribute.
pub open spec fn attribute_key() -> spec_fn(AttributeModel) -> Seq<char> {
    |a: AttributeModel| a.key
}

/// The value of an attribute.
pub open spec fn attribute_value() -> spec_fn(AttributeModel) -> AttributeValueModel {
    |a: AttributeModel| a.value
}

/// The attributes that the document holds for a node with the retained
/// attributes `attributes`.
pub open spec fn attribute_map(attributes: Seq<AttributeModel>) -> Map<
    Seq<char>,
    AttributeValueModel,
> {
    keyed_map(attributes, attribute_key(), attribute_value())
}

/// The handles of the entries of a level, in order.
pub open spec fn handles_of(level: Seq<VNodeModel>) -> Seq<int> {
    Seq::new(level.len(), |i: int| level[i].handle)
}

/// Whether `handle` belongs to the materialized node `v`: it is the handle of
/// the node, of one of its attached listeners, or of something below it.
pub open spec fn owns(v: VNodeModel, handle: int) -> bool
    decreases v, 0int,
{
    ||| handle == v.handle
    ||| keyed(v.listeners, listener_handle(), handle)
    ||| level_owns(v.children, handle)
}

/// Whether `handle` belongs to one of the entries of the level.
pub open spec fn level_owns(level: Seq<VNodeModel>, handle: int) -> bool
    decreases level, 1int,
{
    exists|i: int| 0 <= i < level.len() && owns(#[trigger] level[i], handle)
}

/// Whether `handle` is the handle of the materialized node `v` or of a node
/// below it.
pub open spec fn holds(v: VNodeModel, handle: int) -> bool
    decreases v, 0int,
{
    handle == v.handle || level_holds(v.children, handle)
}

/// Whether `handle` is the handle of an entry of the level or of a node below
/// one.
pub open spec fn level_holds(level: Seq<VNodeModel>, handle: int) -> bool
    decreases level, 1int,
{
    exists|i: int| 0 <= i < level.len() && holds(#[trigger] level[i], handle)
}

/// Whether the document holds nothing under the handles of the materialized
/// node `v` but the node and the nodes below it.
pub open spec fn node_tight(host: HostModel, v: VNodeModel) -> bool {
    forall|h: int| host.has(h) && #[trigger] owns(v, h) ==> holds(v, h)
}

/// Whether the document holds nothing under the handles of the level but its
/// entries and the nodes below them.
pub open spec fn level_tight(host: HostModel, level: Seq<VNodeModel>) -> bool {
    forall|h: int| host.has(h) && #[trigger] level_owns(level, h) ==> level_holds(level, h)
}

/// Whether the handles of the materialized node `v` and of all below it are
/// in order: each lies below `next`, none occurs twice, and no key occurs
/// twice among the attributes of a node.
pub open spec fn tree_wf(v: VNodeModel, next: int) -> bool
    decreases v, 0int,
{
    &&& v.handle < next
    &&& forall|i: int|
        0 <= i < v.listeners.len() ==> (#[trigger] v.listeners[i]).handle < next
            && v.listeners[i].handle != v.handle
    &&& keys_differ(v.listeners, listener_handle())
    &&& keys_unique(v.attributes)
    &&& !level_owns(v.children, v.handle)
    &&& forall|i: int|
        0 <= i < v.listeners.len() ==> !level_owns(v.children, (#[trigger] v.listeners[i]).handle)
    &&& level_wf(v.children, next)
}

/// Whether the handles of the entries of the level and of all below them are
/// in order, and no handle belongs to two entries.
pub open spec fn level_wf(level: Seq<VNodeModel>, next: int) -> bool
    decreases level, 1int,
{
    &&& forall|i: int| 0 <= i < level.len() ==> tree_wf(#[trigger] level[i], next)
    &&& forall|i: int, j: int, h: int|
        0 <= i < level.len() && 0 <= j < level.len() && i != j ==> !(#[trigger] owns(level[i], h)
            && #[trigger] owns(level[j], h))
}

/// Whether the document `host` holds the materialized node `v` and all below
/// it: the node exists as what it is, with the attributes retained and the
/// listeners attached, and its children are those of `v`, in order, each
/// held in the same way.
pub open spec fn synced(host: HostModel, v: VNodeModel) -> bool
    decreases v, 0int,
{
    &&& host.has(v.handle)
    &&& host.nodes[v.handle].value == v.value
    &&& host.nodes[v.handle].attributes == attribute_map(v.attributes)
    &&& host.nodes[v.handle].listeners == attachment_map(v.listeners, v.keys)
    &&& level_synced(host, v.handle, v.children)
}

/// Whether the document `host` holds the level as the children of the node
/// `parent`: the children of `parent` are the entries of the level, in
/// order, each hangs under `parent`, and each is held with all below it.
pub open spec fn level_synced(host: HostModel, parent: int, level: Seq<VNodeModel>) -> bool
    decreases level, 1int,
{
    &&& host.has(parent)
    &&& host.nodes[parent].children == handles_of(level)
    &&& forall|i: int|
        0 <= i < level.len() ==> synced(host, #[trigger] level[i]) && host.nodes[level[i].handle].parent
            == Some(parent)
}

/// Whether the documents `before` and `after` agree on the handle `h`: both
/// hold no node under it, or both hold the same.
pub open spec fn untouched(before: HostModel, after: HostModel, h: int) -> bool {
    before.has(h) == after.has(h) && (before.has(h) ==> before.nodes[h] == after.nodes[h])
}

/// The handles that belong to a node in order lie below the bound.
pub proof fn lemma_owned_below(v: VNodeModel, next: int, h: int)
    requires
        tree_wf(v, next),
        owns(v, h),
    ensures
        h < next,
    decreases v,
{
    if h == v.handle {
    } else if keyed(v.listeners, listener_handle(), h) {
        let i = choose|i: int|
            0 <= i < v.listeners.len() && listener_handle()(#[trigger] v.listeners[i]) == h;
        assert(v.listeners[i].handle < next);
    } else {
        let i = choose|i: int| 0 <= i < v.children.len() && owns(#[trigger] v.children[i], h);
        lemma_owned_below(v.children[i], next, h);
    }
}

/// A node in order stays in order when the bound grows.
pub proof fn lemma_wf_grows(v: VNodeModel, next: int, later: int)
    requires
        tree_wf(v, next),
        next <= later,
    ensures
        tree_wf(v, later),
    decreases v,
{
    assert forall|i: int| 0 <= i < v.children.len() implies tree_wf(
        #[trigger] v.children[i],
        later,
    ) by {
        lemma_wf_grows(v.children[i], next, later);
    }
}

/// A level in order stays in order when the bound grows.
pub proof fn lemma_level_wf_grows(level: Seq<VNodeModel>, next: int, later: int)
    requires
        level_wf(level, next),
        next <= later,
    ensures
        level_wf(level, later),
{
    assert forall|i: int| 0 <= i < level.len() implies tree_wf(#[trigger] level[i], later) by {
        lemma_wf_grows(level[i], next, later);
    }
}

/// A document that agrees with another on every handle of a node holds the
/// node where the other does.
pub proof fn lemma_synced_frame(before: HostModel, after: HostModel, v: VNodeModel)
    requires
        synced(before, v),
        forall|h: int| #[trigger] owns(v, h) ==> untouched(before, after, h),
    ensures
        synced(after, v),
    decreases v,
{
    assert(owns(v, v.handle));
    assert forall|i: int| 0 <= i < v.children.len() implies synced(
        after,
        #[trigger] v.children[i],
    ) && after.nodes[v.children[i].handle].parent == Some(v.handle) by {
        let child = v.children[i];
        assert forall|h: int| #[trigger] owns(child, h) implies untouched(before, after, h) by {
            assert(level_owns(v.children, h));
            assert(owns(v, h));
        }
        lemma_synced_frame(before, after, child);
        assert(owns(child, child.handle));
        assert(level_owns(v.children, child.handle));
        assert(owns(v, child.handle));
    }
}

/// The handles listed for a node are the handles that belong to it.
pub proof fn lemma_owned_handles(v: VNodeModel, h: int)
    ensures
        owned_handles(v).contains(h) == owns(v, h),
    decreases v, 0int,
{
    let own = seq![v.handle];
    let attached = listener_handles(v.listeners);
    let below = level_handles(v.children);
    let all = owned_handles(v);
    lemma_level_handles(v.children, h);
    if all.contains(h) {
        let i = choose|i: int| 0 <= i < all.len() && all[i] == h;
        if i == 0 {
        } else if i < 1 + attached.len() {
            assert(attached[i - 1] == h);
            assert(listener_handle()(v.listeners[i - 1]) == h);
        } else {
            assert(below[i - 1 - attached.len()] == h);
            assert(below.contains(h));
        }
    }
    if owns(v, h) {
        if h == v.handle {
            assert(all[0] == h);
        } else if keyed(v.listeners, listener_handle(), h) {
            let k = choose|k: int|
                0 <= k < v.listeners.len() && listener_handle()(#[trigger] v.listeners[k]) == h;
            assert(all[1 + k] == h);
        } else {
            let k = choose|k: int| 0 <= k < below.len() && below[k] == h;
            assert(all[1 + attached.len() + k] == h);
        }
    }
}

/// The handles listed for a level are the handles that belong to its
/// entries.
pub proof fn lemma_level_handles(level: Seq<VNodeModel>, h: int)
    ensures
        level_handles(level).contains(h) == level_owns(level, h),
    decreases level, 1int,
{
    if level.len() > 0 {
        let rest = level.drop_last();
        let last = level.last();
        let first = level_handles(rest);
        let second = owned_handles(last);
        let all = level_handles(level);
        lemma_level_handles(rest, h);
        lemma_owned_handles(last, h);
        if all.contains(h) {
            let i = choose|i: int| 0 <= i < all.len() && all[i] == h;
            if i < first.len() {
                assert(first[i] == h);
                assert(first.contains(h));
                let k = choose|k: int| 0 <= k < rest.len() && owns(#[trigger] rest[k], h);
                assert(owns(level[k], h));
            } else {
                assert(second[i - first.len()] == h);
                assert(second.contains(h));
                assert(owns(level[level.len() - 1], h));
            }
        }
        if level_owns(level, h) {
            let k = choose|k: int| 0 <= k < level.len() && owns(#[trigger] level[k], h);
            if k < rest.len() {
                assert(owns(rest[k], h));
                assert(first.contains(h));
                let i = choose|i: int| 0 <= i < first.len() && first[i] == h;
                assert(all[i] == h);
            } else {
                assert(second.contains(h));
                let i = choose|i: int| 0 <= i < second.len() && second[i] == h;
                assert(all[first.len() + i] == h);
            }
        }
    }
}

/// A handle of a node or of a node below it belongs to the node.
pub proof fn lemma_held_is_owned(v: VNodeModel, h: int)
    requires
        holds(v, h),
    ensures
        owns(v, h),
    decreases v,
{
    if h != v.handle {
        let i = choose|i: int| 0 <= i < v.children.len() && holds(#[trigger] v.children[i], h);
        lemma_held_is_owned(v.children[i], h);
    }
}

/// A handle of an entry of a level, or of a node below one, belongs to the
/// level.
pub proof fn lemma_level_held_is_owned(level: Seq<VNodeModel>, h: int)
    requires
        level_holds(level, h),
    ensures
        level_owns(level, h),
{
    let i = choose|i: int| 0 <= i < level.len() && holds(#[trigger] level[i], h);
    lemma_held_is_owned(level[i], h);
}

} // verus!
