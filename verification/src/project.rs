//! The projection of a JSON value into the nodes of a tree.

use vstd::prelude::*;
use crate::address::{address_text, Address, JsonPointer};
use crate::node::{addresses_distinct, forest_of, lemma_node_view, siblings_distinct, Node, Tree};
use crate::value::{
    json_text, keys_distinct, lemma_container_view, members_of, scalar_text, values_of,
    well_formed, Json, JsonValue, ScalarValue,
};

verus! {

/// What separates the address from the value in the label of a leaf.
pub open spec fn separator() -> Seq<char> {
    seq![':', ' ']
}

/// The label of the leaf for the scalar `scalar` at `address` inside a
/// container: the address, the separator, the scalar's JSON text.
pub open spec fn leaf_label(address: Address, scalar: ScalarValue) -> Seq<char> {
    address_text(address) + separator() + json_text(scalar)
}

/// The node for `value` where it stands at `address` inside a container.
pub open spec fn entry_tree(address: Address, value: Json) -> Tree
    decreases value,
{
    match value {
        Json::Scalar(scalar) => Tree {
            address,
            label: leaf_label(address, scalar),
            children: Seq::empty(),
        },
        Json::Array(items) => Tree {
            address,
            label: address_text(address),
            children: Seq::new(
                items.len(),
                |i: int|
                    if 0 <= i < items.len() {
                        entry_tree(Address::Index(i as nat), items[i])
                    } else {
                        arbitrary()
                    },
            ),
        },
        Json::Object(members) => Tree {
            address,
            label: address_text(address),
            children: Seq::new(
                members.len(),
                |i: int|
                    if 0 <= i < members.len() {
                        entry_tree(Address::Key(members[i].0), members[i].1)
                    } else {
                        arbitrary()
                    },
            ),
        },
    }
}

/// The nodes for the elements of an array, in index order.
pub open spec fn array_trees(items: Seq<Json>) -> Seq<Tree> {
    Seq::new(items.len(), |i: int| entry_tree(Address::Index(i as nat), items[i]))
}

/// The nodes for the members of an object, in the object's order.
pub open spec fn object_trees(members: Seq<(Seq<char>, Json)>) -> Seq<Tree> {
    Seq::new(members.len(), |i: int| entry_tree(Address::Key(members[i].0), members[i].1))
}

/// The top-level nodes of a document: the entries of a container, or the
/// one leaf that stands for a scalar.
pub open spec fn project(value: Json) -> Seq<Tree> {
    match value {
        Json::Scalar(scalar) => seq![
            Tree { address: Address::Root, label: json_text(scalar), children: Seq::empty() },
        ],
        Json::Array(items) => array_trees(items),
        Json::Object(members) => object_trees(members),
    }
}

/// The children of the node of a container are the nodes of its entries.
pub proof fn lemma_entry_children(address: Address, value: Json)
    ensures
        value matches Json::Array(items) ==> entry_tree(address, value).children == array_trees(
            items,
        ),
        value matches Json::Object(members) ==> entry_tree(address, value).children
            == object_trees(members),
{
    match value {
        Json::Scalar(_) => {},
        Json::Array(items) => {
            assert(entry_tree(address, value).children =~= array_trees(items));
        },
        Json::Object(members) => {
            assert(entry_tree(address, value).children =~= object_trees(members));
        },
    }
}

/// The label of the node for `value` at `address` inside a container: the
/// address alone for a container, the address and the JSON text for a scalar.
pub open spec fn entry_label(address: Address, value: Json) -> Seq<char> {
    match value {
        Json::Scalar(scalar) => leaf_label(address, scalar),
        _ => address_text(address),
    }
}

/// The nodes of a container stand in the order of its entries: the node at
/// each position has the address and the label of the entry at that
/// position.
pub proof fn lemma_projection_keeps_order(value: Json)
    ensures
        value matches Json::Array(items) ==> project(value).len() == items.len() && forall|i: int|
            0 <= i < items.len() ==> (#[trigger] project(value)[i]).address == Address::Index(
                i as nat,
            ) && project(value)[i].label == entry_label(Address::Index(i as nat), items[i]),
        value matches Json::Object(members) ==> project(value).len() == members.len()
            && forall|i: int|
            0 <= i < members.len() ==> (#[trigger] project(value)[i]).address == Address::Key(
                members[i].0,
            ) && project(value)[i].label == entry_label(Address::Key(members[i].0), members[i].1),
{
}

/// The leaf for a scalar inside a container is labelled with the text of
/// its address, a colon and a space, and the scalar's JSON text; it has no
/// children.
pub proof fn lemma_leaf_label(address: Address, scalar: ScalarValue)
    ensures
        entry_tree(address, Json::Scalar(scalar)).label == address_text(address) + seq![':', ' ']
            + json_text(scalar),
        entry_tree(address, Json::Scalar(scalar)).address == address,
        entry_tree(address, Json::Scalar(scalar)).children.len() == 0,
{
}

/// Below the node of a value whose objects have distinct keys, siblings
/// have distinct addresses at every level.
pub proof fn lemma_entry_addresses_distinct(address: Address, value: Json)
    requires
        well_formed(value),
    ensures
        addresses_distinct(entry_tree(address, value).children),
    decreases value,
{
    lemma_entry_children(address, value);
    match value {
        Json::Scalar(_) => {},
        Json::Array(items) => {
            let trees = array_trees(items);
            assert forall|i: int| 0 <= i < trees.len() implies addresses_distinct(
                (#[trigger] trees[i]).children,
            ) by {
                lemma_entry_addresses_distinct(Address::Index(i as nat), items[i]);
            }
            assert(siblings_distinct(trees));
        },
        Json::Object(members) => {
            let trees = object_trees(members);
            assert forall|i: int| 0 <= i < trees.len() implies addresses_distinct(
                (#[trigger] trees[i]).children,
            ) by {
                lemma_entry_addresses_distinct(Address::Key(members[i].0), members[i].1);
            }
            assert(keys_distinct(members));
            assert(siblings_distinct(trees));
        },
    }
}

/// In the projection of a value whose objects have distinct keys, siblings
/// have distinct addresses at every level.
pub proof fn lemma_projection_addresses_distinct(value: Json)
    requires
        well_formed(value),
    ensures
        addresses_distinct(project(value)),
{
    lemma_entry_addresses_distinct(Address::Root, value);
    lemma_entry_children(Address::Root, value);
    match value {
        Json::Scalar(scalar) => {
            let leaf = project(value)[0];
            assert(siblings_distinct(project(value)));
            assert(addresses_distinct(leaf.children));
        },
        _ => {},
    }
}

/// The nodes of the top level of `root`.
pub fn root_tree_items(root: &JsonValue) -> (items: Vec<Node>)
    ensures
        forest_of(items@) == project(root@),
        well_formed(root@) ==> addresses_distinct(forest_of(items@)),
{
    proof {
        if well_formed(root@) {
            lemma_projection_addresses_distinct(root@);
        }
    }
    match root {
        JsonValue::Object(members) => {
            proof {
                lemma_container_view(*root);
            }
            tree_items_obj(members)
        },
        JsonValue::Array(items) => {
            proof {
                lemma_container_view(*root);
            }
            tree_items_arr(items)
        },
        JsonValue::Scalar(scalar) => {
            let node = Node {
                address: JsonPointer::Root,
                label: scalar_text(scalar),
                children: Vec::new(),
            };
            let items = vec![node];
            proof {
                lemma_node_view(node);
                assert(node@.children =~= Seq::empty());
                assert(forest_of(items@) =~= project(root@));
            }
            items
        },
    }
}

/// The node for `value` under the address `key`.
pub fn tree_items(key: JsonPointer, value: &JsonValue) -> (node: Node)
    ensures
        node@ == entry_tree(key@, value@),
    decreases value, 1int,
{
    match value {
        JsonValue::Object(members) => {
            let text = key.to_string();
            let children = tree_items_obj(members);
            let node = Node { address: key, label: text, children };
            proof {
                lemma_container_view(*value);
                lemma_entry_children(node.address@, value@);
                lemma_node_view(node);
            }
            node
        },
        JsonValue::Array(items) => {
            let text = key.to_string();
            let children = tree_items_arr(items);
            let node = Node { address: key, label: text, children };
            proof {
                lemma_container_view(*value);
                lemma_entry_children(node.address@, value@);
                lemma_node_view(node);
            }
            node
        },
        JsonValue::Scalar(scalar) => {
            let mut text = key.to_string();
            text.append(": ");
            let rendered = scalar_text(scalar);
            text.append(rendered.as_str());
            proof {
                reveal_strlit(": ");
                assert(": "@ =~= separator());
            }
            let node = Node { address: key, label: text, children: Vec::new() };
            proof {
                lemma_node_view(node);
                assert(node@.children =~= Seq::empty());
            }
            node
        },
    }
}

/// The nodes for the members of an object.
pub fn tree_items_obj(members: &Vec<(String, JsonValue)>) -> (nodes: Vec<Node>)
    ensures
        forest_of(nodes@) == object_trees(members_of(members@)),
    decreases members, 0int,
{
    let mut nodes: Vec<Node> = Vec::new();
    let mut i: usize = 0;
    while i < members.len()
        invariant
            i <= members.len(),
            nodes.len() == i,
            forall|k: int|
                0 <= k < i ==> nodes@[k]@ == entry_tree(
                    Address::Key(members@[k].0@),
                    members@[k].1@,
                ),
        decreases members.len() - i,
    {
        let key = JsonPointer::ObjectKey(members[i].0.clone());
        let node = tree_items(key, &members[i].1);
        nodes.push(node);
        i += 1;
    }
    assert(forest_of(nodes@) =~= object_trees(members_of(members@)));
    nodes
}

/// The nodes for the elements of an array.
pub fn tree_items_arr(items: &Vec<JsonValue>) -> (nodes: Vec<Node>)
    ensures
        forest_of(nodes@) == array_trees(values_of(items@)),
    decreases items, 0int,
{
    let mut nodes: Vec<Node> = Vec::new();
    let mut i: usize = 0;
    while i < items.len()
        invariant
            i <= items.len(),
            nodes.len() == i,
            forall|k: int|
                0 <= k < i ==> nodes@[k]@ == entry_tree(Address::Index(k as nat), items@[k]@),
        decreases items.len() - i,
    {
        let node = tree_items(JsonPointer::ArrayIndex(i), &items[i]);
        nodes.push(node);
        i += 1;
    }
    assert(forest_of(nodes@) =~= array_trees(values_of(items@)));
    nodes
}

} // verus!
