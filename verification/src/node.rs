use vstd::prelude::*;

verus! {

broadcast use vstd::seq::axiom_seq_index_decreases, vstd::std_specs::vec::axiom_vec_decreases_to_view;

/// A tree node: an identifier, the children it strongly owns, and a
/// non-owning back-reference to its parent. The back-reference is a lookup
/// relation, recorded as the parent's identifier; it is `None` for the root
/// and for nodes whose link has not been resolved yet (for instance right
/// after a load from bytes).
pub struct Node {
    pub id: usize,
    pub children: Vec<Node>,
    pub parent: Option<usize>,
}

/// The mathematical shape of a subtree: identifiers and child order only.
/// Parent back-references are left out on purpose: they are derived data,
/// reconstructible from the ownership edges alone.
pub ghost struct Shape {
    pub id: nat,
    pub children: Seq<Shape>,
}

impl Node {
    /// The shape of the subtree rooted at this node.
    pub open spec fn shape(self) -> Shape
        decreases self,
    {
        Shape { id: self.id as nat, children: shapes_of(self.children@) }
    }

    /// Every node below this one (this one excluded) carries the identifier
    /// of its owning parent in its back-reference.
    pub open spec fn links_resolved(self) -> bool
        decreases self,
    {
        forall|i: int|
            0 <= i < self.children@.len() ==> {
                &&& (#[trigger] self.children@[i]).parent == Some(self.id)
                &&& self.children@[i].links_resolved()
            }
    }

    /// Every node below this one (this one excluded) has an unresolved
    /// back-reference, as after a raw load from bytes.
    pub open spec fn links_cleared(self) -> bool
        decreases self,
    {
        forall|i: int|
            0 <= i < self.children@.len() ==> {
                &&& (#[trigger] self.children@[i]).parent is None
                &&& self.children@[i].links_cleared()
            }
    }

    /// A fresh node: the given identifier, no children, no parent.
    pub fn new(id: usize) -> (n: Node)
        ensures
            n.id == id,
            n.children@ == Seq::<Node>::empty(),
            n.parent is None,
    {
        Node { id, children: Vec::new(), parent: None }
    }

    /// Takes ownership of `child`, appending it to this node's children.
    /// Setting the child's back-reference is the caller's duty and must be
    /// done together with this call wherever resolved links are wanted.
    pub fn append_child(&mut self, child: Node)
        ensures
            final(self).id == old(self).id,
            final(self).parent == old(self).parent,
            final(self).children@ == old(self).children@.push(child),
    {
        self.children.push(child);
    }
}

/// The shapes of the subtrees rooted at each node of `s`, in order.
pub open spec fn shapes_of(s: Seq<Node>) -> Seq<Shape>
    decreases s,
{
    if s.len() == 0 {
        Seq::empty()
    } else {
        seq![s[0].shape()] + shapes_of(s.drop_first())
    }
}

/// The number of nodes in the subtree with this shape.
pub open spec fn shape_size(s: Shape) -> nat
    decreases s,
{
    1 + shapes_size(s.children)
}

/// The total number of nodes in the subtrees with these shapes.
pub open spec fn shapes_size(q: Seq<Shape>) -> nat
    decreases q,
{
    if q.len() == 0 {
        0
    } else {
        shape_size(q[0]) + shapes_size(q.drop_first())
    }
}

/// `shapes_of` maps each node of the sequence to its shape.
pub proof fn lemma_shapes_of_pointwise(s: Seq<Node>)
    ensures
        shapes_of(s).len() == s.len(),
        forall|i: int| 0 <= i < s.len() ==> shapes_of(s)[i] == s[i].shape(),
    decreases s.len(),
{
    if s.len() > 0 {
        lemma_shapes_of_pointwise(s.drop_first());
    }
}

/// `shapes_size` distributes over concatenation.
pub proof fn lemma_shapes_size_concat(a: Seq<Shape>, b: Seq<Shape>)
    ensures
        shapes_size(a + b) == shapes_size(a) + shapes_size(b),
    decreases a.len(),
{
    if a.len() == 0 {
        assert(a + b =~= b);
    } else {
        assert((a + b).drop_first() =~= a.drop_first() + b);
        lemma_shapes_size_concat(a.drop_first(), b);
    }
}

/// One node's subtree never holds more nodes than the whole sequence of
/// subtrees it belongs to.
pub proof fn lemma_shape_size_element(q: Seq<Shape>, i: int)
    requires
        0 <= i < q.len(),
    ensures
        shape_size(q[i]) <= shapes_size(q),
    decreases i,
{
    if i > 0 {
        lemma_shape_size_element(q.drop_first(), i - 1);
        assert(q.drop_first()[i - 1] == q[i]);
    }
}

/// A tree: the exclusive owner of its root node. All other nodes are owned,
/// transitively, through the `children` sequences, so dropping the tree
/// releases every node; back-references never extend a node's life.
pub struct Tree {
    pub root: Node,
}

impl Tree {
    /// A tree holding the single root node, with identifier 1.
    pub fn new() -> (t: Tree)
        ensures
            t.root.id == 1,
            t.root.children@ == Seq::<Node>::empty(),
            t.root.parent is None,
    {
        Tree { root: Node::new(1) }
    }
}

} // verus!
