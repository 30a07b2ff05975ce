use crate::trees::model::TreeModel;
use crate::trees::traits::NodeIdentifiableTree;
use vstd::prelude::*;
use vstd::string::StringExecFns;

verus! {

/// The mark in front of a node: one for a first child, which has a sibling
/// below it, and one for a last child.
pub open spec fn branch_mark(is_left: bool) -> Seq<char> {
    if is_left {
        "├──"@
    } else {
        "└──"@
    }
}

/// What the lines below a node begin with.
pub open spec fn child_prefix(prefix: Seq<char>, is_left: bool) -> Seq<char> {
    prefix + if is_left {
        "│   "@
    } else {
        "    "@
    }
}

/// The line for an absent node.
pub open spec fn nil_line(prefix: Seq<char>, is_left: bool) -> Seq<char> {
    prefix + branch_mark(is_left) + " NIL\n"@
}

/// The picture of a subtree, one line for each node and for each absent
/// child: the node's label behind its prefix and mark, then the pictures of
/// its two children, the right child first where `right_first` holds. Below
/// depth 100 a subtree is shown as absent.
pub open spec fn rendered<Key: Ord, Value, NodeId>(
    m: TreeModel<Key, Value, NodeId>,
    node: Option<NodeId>,
    label: spec_fn(Key, Value) -> Seq<char>,
    right_first: bool,
    prefix: Seq<char>,
    is_left: bool,
    depth: nat,
) -> Seq<char>
    decreases 101 - depth,
{
    if depth <= 100 && node is Some && m.has(node.unwrap()) {
        let n = m.nodes[node.unwrap()];
        let below = child_prefix(prefix, is_left);
        let (first, second) = if right_first {
            (n.right, n.left)
        } else {
            (n.left, n.right)
        };
        prefix + branch_mark(is_left) + " "@ + label(n.key, n.value) + "\n"@ + rendered(
            m,
            first,
            label,
            right_first,
            below,
            true,
            depth + 1,
        ) + rendered(m, second, label, right_first, below, false, depth + 1)
    } else {
        nil_line(prefix, is_left)
    }
}

/// `shown` tells what text `label` returns for every key and value.
pub open spec fn describes<Key, Value, F: Fn(&Key, &Value) -> String>(
    shown: spec_fn(Key, Value) -> Seq<char>,
    label: F,
) -> bool {
    forall|key: Key, value: Value, text: String|
        #[trigger] label.ensures((&key, &value), text) ==> text@ == shown(key, value)
}

/// Draws the subtree below `node_id`, with the text that `label` makes of
/// each node's key and payload.
pub fn stringify_subtree<Key, Value, NodeId, ImplTree, F>(
    tree: &ImplTree,
    node_id: Option<NodeId>,
    label: &F,
    right_first: bool,
    prefix: String,
    is_left: bool,
    depth: usize,
) -> (picture: String) where
    Key: Ord,
    NodeId: Copy,
    ImplTree: NodeIdentifiableTree<Key, Value, NodeId>,
    F: Fn(&Key, &Value) -> String,

    requires
        tree.wf(),
        forall|key: Key, value: Value| #[trigger] label.requires((&key, &value)),
    ensures
        forall|shown: spec_fn(Key, Value) -> Seq<char>|
            describes::<Key, Value, F>(shown, *label) ==> picture@ == #[trigger] rendered(
                tree.model(),
                node_id,
                shown,
                right_first,
                prefix@,
                is_left,
                depth as nat,
            ),
    decreases 101 - depth,
{
    let mut result = prefix.clone();
    result.append(if is_left {
            "├──"
        } else {
            "└──"
        },
    );
    let found = match node_id {
        Some(id) => match (tree.get_key_by_id(id), tree.get_by_id(id)) {
            (Some(key), Some(val)) => Some((id, key, val)),
            _ => None,
        },
        None => None,
    };
    let (id, key, val) = match found {
        Some(found) => found,
        None => {
            result.append(" NIL\n");
            return result;
        },
    };
    if depth > 100 {
        result.append(" NIL\n");
        return result;
    }
    result.append(" ");
    let text = label(key, val);
    result.append(text.as_str());
    result.append("\n");
    let mut below = prefix;
    below.append(if is_left {
            "│   "
        } else {
            "    "
        },
    );
    let (first, second) = if right_first {
        (tree.get_right_son_id(id), tree.get_left_son_id(id))
    } else {
        (tree.get_left_son_id(id), tree.get_right_son_id(id))
    };
    let first_picture = stringify_subtree(
        tree,
        first,
        label,
        right_first,
        below.clone(),
        true,
        depth + 1,
    );
    result.append(first_picture.as_str());
    let second_picture = stringify_subtree(tree, second, label, right_first, below, false, depth + 1);
    result.append(second_picture.as_str());
    proof {
        let m = tree.model();
        assert forall|shown: spec_fn(Key, Value) -> Seq<char>|
            describes::<Key, Value, F>(shown, *label) implies result@ == #[trigger] rendered(
            m,
            node_id,
            shown,
            right_first,
            prefix@,
            is_left,
            depth as nat,
        ) by {
            assert(text@ == shown(*key, *val));
            assert(first_picture@ == rendered(
                m,
                first,
                shown,
                right_first,
                below@,
                true,
                (depth + 1) as nat,
            ));
            assert(second_picture@ == rendered(
                m,
                second,
                shown,
                right_first,
                below@,
                false,
                (depth + 1) as nat,
            ));
        }
    }
    result
}

/// Draws the whole tree, the left child of each node first; an empty tree
/// is drawn as `NIL`.
pub fn stringify_tree<Key, Value, NodeId, ImplTree, F>(tree: &ImplTree, label: &F) -> (picture:
    String) where
    Key: Ord,
    NodeId: Copy,
    ImplTree: NodeIdentifiableTree<Key, Value, NodeId>,
    F: Fn(&Key, &Value) -> String,

    requires
        tree.wf(),
        forall|key: Key, value: Value| #[trigger] label.requires((&key, &value)),
    ensures
        tree.model().root is None ==> picture@ == "NIL"@,
        tree.model().root is Some ==> forall|shown: spec_fn(Key, Value) -> Seq<char>|
            describes::<Key, Value, F>(shown, *label) ==> picture@ == #[trigger] rendered(
                tree.model(),
                tree.model().root,
                shown,
                false,
                Seq::<char>::empty(),
                false,
                0,
            ),
{
    match tree.get_root_id() {
        Some(root_id) => stringify_subtree(tree, Some(root_id), label, false, String::new(), false, 0),
        None => {
            let mut picture = String::new();
            picture.append("NIL");
            picture
        },
    }
}

} // verus!
