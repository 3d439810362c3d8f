//! The shape of a B-tree: nodes of keys and children, and the capacities
//! that follow from the tree's degree.
use vstd::prelude::*;

verus! {

struct Node<T> {
    keys: Vec<T>,
    children: Vec<Node<T>>,
}

impl<T: Ord> Node<T> {
    /// A node holding the given keys and children, or none of either where
    /// they are absent.
    fn new(degree: usize, keys: Option<Vec<T>>, children: Option<Vec<Node<T>>>) -> (r: Self)
        requires
            keys is None ==> degree >= 1,
        ensures
            keys is Some ==> r.keys@ == keys->0@,
            keys is None ==> r.keys@.len() == 0,
            children is Some ==> r.children@ == children->0@,
            children is None ==> r.children@.len() == 0,
    {
        Node {
            keys: match keys {
                Some(keys) => keys,
                None => Vec::with_capacity(degree - 1),
            },
            children: match children {
                Some(children) => children,
                None => Vec::with_capacity(degree),
            },
        }
    }

    #[allow(dead_code)]
    fn is_leaf(&self) -> (r: bool)
        ensures
            r == (self.children@.len() == 0),
    {
        self.children.len() == 0
    }
}

/// The capacities of a B-tree's nodes: at most `degree` children and
/// `max_keys` keys, and the index of the key that moves up on a split.
pub struct BTreeProps {
    pub degree: usize,
    pub max_keys: usize,
    pub mid_key_index: usize,
}

impl BTreeProps {
    pub fn new(degree: usize) -> (r: Self)
        requires
            degree >= 1,
        ensures
            r.degree == degree,
            r.max_keys == degree - 1,
            r.mid_key_index == (degree - 1) / 2,
    {
        BTreeProps { degree, max_keys: degree - 1, mid_key_index: (degree - 1) / 2 }
    }
}

/// A B-tree with an empty root.
pub struct BTree<T> {
    root: Node<T>,
    props: BTreeProps,
}

impl<T: Ord> BTree<T> {
    /// The capacities of the tree's nodes.
    pub closed spec fn props(&self) -> BTreeProps {
        self.props
    }

    /// The root holds no key and no child.
    pub closed spec fn is_empty_leaf(&self) -> bool {
        self.root.keys@.len() == 0 && self.root.children@.len() == 0
    }

    /// An empty tree whose degree is twice `branch_factor`.
    pub fn new(branch_factor: usize) -> (r: Self)
        requires
            1 <= branch_factor,
            2 * branch_factor <= usize::MAX,
        ensures
            r.props().degree == 2 * branch_factor,
            r.props().max_keys == 2 * branch_factor - 1,
            r.props().mid_key_index == (2 * branch_factor - 1) / 2,
            r.is_empty_leaf(),
    {
        let degree = 2 * branch_factor;
        let root = Node::new(degree, None, None);
        BTree { root, props: BTreeProps::new(degree) }
    }
}

} // verus!
