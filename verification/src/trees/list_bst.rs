use crate::order::key_lt;
use crate::order::lemma_lt_asymmetric;
use crate::order::lemma_lt_irreflexive;
use crate::order::lemma_lt_total;
use crate::order::less;
use crate::order::total_order;
use crate::trees::traits::Tree;
use vstd::prelude::*;

verus! {

struct Node<Key, Value> {
    key: Key,
    val: Value,
    left_son: Option<Box<Node<Key, Value>>>,
    right_son: Option<Box<Node<Key, Value>>>,
}

/// A binary search tree of linked nodes, each of which owns its two
/// subtrees.
pub struct ListBST<Key: Ord, Value> {
    root: Option<Box<Node<Key, Value>>>,
}

/// The subtree holds `key`.
spec fn holds<Key, Value>(link: Option<Box<Node<Key, Value>>>, key: Key) -> bool
    decreases link,
{
    match link {
        None => false,
        Some(node) => node.key == key || holds(node.left_son, key) || holds(node.right_son, key),
    }
}

/// The value that the subtree holds under `key`.
spec fn value_at<Key, Value>(link: Option<Box<Node<Key, Value>>>, key: Key) -> Value
    decreases link,
{
    match link {
        None => arbitrary(),
        Some(node) => if node.key == key {
            node.val
        } else if holds(node.left_son, key) {
            value_at(node.left_son, key)
        } else {
            value_at(node.right_son, key)
        },
    }
}

/// In every node of the subtree the keys on the left are less than the
/// node's key, and those on the right greater.
spec fn ordered<Key: Ord, Value>(link: Option<Box<Node<Key, Value>>>) -> bool
    decreases link,
{
    match link {
        None => true,
        Some(node) => {
            &&& ordered(node.left_son)
            &&& ordered(node.right_son)
            &&& forall|k: Key| #[trigger] holds(node.left_son, k) ==> key_lt(k, node.key)
            &&& forall|k: Key| #[trigger] holds(node.right_son, k) ==> key_lt(node.key, k)
        },
    }
}

/// Stores `val` under `key` in the subtree: in the node that holds `key`,
/// or in a new leaf at the empty position where a search for `key` ends.
fn insert_into<Key: Ord, Value>(link: &mut Option<Box<Node<Key, Value>>>, key: Key, val: Value)
    requires
        total_order::<Key>(),
        ordered(*old(link)),
    ensures
        ordered(*final(link)),
        forall|k: Key| #[trigger] holds(*final(link), k) <==> k == key || holds(*old(link), k),
        value_at(*final(link), key) == val,
        forall|k: Key|
            k != key && holds(*old(link), k) ==> #[trigger] value_at(*final(link), k) == value_at(
                *old(link),
                k,
            ),
    decreases *old(link),
{
    match link {
        None => {
            *link = Some(Box::new(Node { key, val, left_son: None, right_son: None }));
        },
        Some(boxed) => {
            let node = &mut **boxed;
            let ghost before = *node;
            if less(&key, &node.key) {
                insert_into(&mut node.left_son, key, val);
                proof {
                    lemma_lt_asymmetric(key, before.key);
                    assert forall|k: Key| holds(before.right_son, k) implies k != key by {
                        if k == key {
                            lemma_lt_asymmetric(key, before.key);
                        }
                    }
                }
            } else if less(&node.key, &key) {
                insert_into(&mut node.right_son, key, val);
                proof {
                    lemma_lt_asymmetric(before.key, key);
                    assert forall|k: Key| holds(before.left_son, k) implies k != key by {
                        if k == key {
                            lemma_lt_asymmetric(before.key, key);
                        }
                    }
                    assert forall|k: Key| holds(before.left_son, k) implies !holds(
                        before.right_son,
                        k,
                    ) by {
                        if holds(before.right_son, k) {
                            lemma_lt_asymmetric(k, before.key);
                        }
                    }
                }
            } else {
                proof {
                    lemma_lt_total(key, node.key);
                }
                node.key = key;
                node.val = val;
            }
            proof {
                let old_link = *old(link);
                let new_link = *link;
                let after = *new_link.unwrap();
                assert(old_link == Some(Box::new(before)));
                assert forall|k: Key| #[trigger] holds(new_link, k) <==> k == key || holds(
                    old_link,
                    k,
                ) by {
                    assert(holds(old_link, k) <==> before.key == k || holds(before.left_son, k)
                        || holds(before.right_son, k));
                    assert(holds(new_link, k) <==> after.key == k || holds(after.left_son, k)
                        || holds(after.right_son, k));
                }
                assert forall|k: Key| k != key && holds(old_link, k) implies #[trigger] value_at(
                    new_link,
                    k,
                ) == value_at(old_link, k) by {
                    assert(holds(old_link, k) <==> before.key == k || holds(before.left_son, k)
                        || holds(before.right_son, k));
                    assert(holds(new_link, k) <==> after.key == k || holds(after.left_son, k)
                        || holds(after.right_son, k));
                    assert(holds(after.left_son, k) <==> holds(before.left_son, k));
                    assert(holds(after.right_son, k) <==> holds(before.right_son, k));
                    if holds(before.left_son, k) {
                        assert(value_at(after.left_son, k) == value_at(before.left_son, k));
                    }
                    if holds(before.right_son, k) {
                        assert(value_at(after.right_son, k) == value_at(before.right_son, k));
                    }
                    if holds(before.left_son, k) && holds(before.right_son, k) {
                        lemma_lt_asymmetric(k, before.key);
                    }
                    if holds(before.left_son, k) && before.key == k {
                        lemma_lt_irreflexive(k);
                    }
                    if holds(before.right_son, k) && before.key == k {
                        lemma_lt_irreflexive(k);
                    }
                }
            }
        },
    }
}

/// The value that the subtree holds under `key`.
fn get_from<'a, Key: Ord, Value>(link: &'a Option<Box<Node<Key, Value>>>, key: &Key) -> (found:
    Option<&'a Value>)
    requires
        total_order::<Key>(),
        ordered(*link),
    ensures
        found == if holds(*link, *key) {
            Some(&value_at(*link, *key))
        } else {
            None
        },
    decreases *link,
{
    match link {
        None => None,
        Some(node) => {
            if less(key, &node.key) {
                proof {
                    lemma_lt_asymmetric(*key, node.key);
                    if holds(node.right_son, *key) {
                        lemma_lt_asymmetric(node.key, *key);
                    }
                }
                get_from(&node.left_son, key)
            } else if less(&node.key, key) {
                proof {
                    lemma_lt_asymmetric(node.key, *key);
                    if holds(node.left_son, *key) {
                        lemma_lt_asymmetric(*key, node.key);
                    }
                }
                get_from(&node.right_son, key)
            } else {
                proof {
                    lemma_lt_total(*key, node.key);
                }
                Some(&node.val)
            }
        },
    }
}

impl<Key: Ord, Value> Default for ListBST<Key, Value> {
    fn default() -> (tree: Self)
        ensures
            total_order::<Key>() ==> tree.wf(),
            tree.content() == Map::<Key, Value>::empty(),
    {
        let tree = Self { root: None };
        proof {
            assert(tree.content() =~= Map::<Key, Value>::empty());
        }
        tree
    }
}

impl<Key: Ord, Value> Tree<Key, Value> for ListBST<Key, Value> {
    closed spec fn wf(&self) -> bool {
        total_order::<Key>() && ordered(self.root)
    }

    proof fn lemma_key_order(&self) {
    }

    closed spec fn content(&self) -> Map<Key, Value> {
        Map::new(|k: Key| holds(self.root, k), |k: Key| value_at(self.root, k))
    }

    open spec fn has_room(&self) -> bool {
        true
    }

    fn insert(&mut self, key: Key, val: Value) {
        insert_into(&mut self.root, key, val);
        proof {
            assert(self.content() =~= old(self).content().insert(key, val));
        }
    }

    fn get(&self, key: &Key) -> (found: Option<&Value>) {
        get_from(&self.root, key)
    }
}

} // verus!
