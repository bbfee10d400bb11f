use vstd::prelude::*;

use crate::node::{
    lemma_shape_size_element, lemma_shapes_of_pointwise, shape_size, shapes_of, shapes_size, Node,
    Shape, Tree,
};

verus! {

/// Rewrites the back-reference of every node in `children` (and below) to
/// name the node that owns it; `parent_id` is the identifier of the node
/// that owns `children`. Shapes are untouched.
#[verifier::loop_isolation(false)]
fn relink_children(parent_id: usize, children: &mut Vec<Node>)
    ensures
        final(children)@.len() == old(children)@.len(),
        forall|i: int|
            0 <= i < final(children)@.len() ==> (#[trigger] final(children)@[i]).shape() == old(
                children,
            )@[i].shape(),
        forall|i: int|
            0 <= i < final(children)@.len() ==> (#[trigger] final(children)@[i]).parent == Some(
                parent_id,
            ),
        forall|i: int|
            0 <= i < final(children)@.len() ==> (#[trigger] final(children)@[i]).links_resolved(),
    decreases shapes_size(shapes_of(old(children)@)),
{
    proof {
        lemma_shapes_of_pointwise(old(children)@);
    }
    let mut i: usize = 0;
    while i < children.len()
        invariant
            i <= children@.len(),
            children@.len() == old(children)@.len(),
            forall|t: int| i <= t < children@.len() ==> children@[t] == old(children)@[t],
            forall|t: int|
                0 <= t < i ==> (#[trigger] children@[t]).shape() == old(children)@[t].shape(),
            forall|t: int| 0 <= t < i ==> (#[trigger] children@[t]).parent == Some(parent_id),
            forall|t: int| 0 <= t < i ==> (#[trigger] children@[t]).links_resolved(),
        decreases children@.len() - i,
    {
        let ghost before = children@;
        let mut ch = children.remove(i);
        proof {
            assert(ch == old(children)@[i as int]);
            lemma_shape_size_element(shapes_of(old(children)@), i as int);
            assert(shapes_of(old(children)@)[i as int] == ch.shape());
            assert(shape_size(ch.shape()) == 1 + shapes_size(shapes_of(ch.children@)));
        }
        ch.parent = Some(parent_id);
        let pid = ch.id;
        relink_children(pid, &mut ch.children);
        proof {
            lemma_shapes_of_pointwise(ch.children@);
            lemma_shapes_of_pointwise(old(children)@[i as int].children@);
            assert(ch.shape() == old(children)@[i as int].shape()) by {
                assert(shapes_of(ch.children@) =~= old(children)@[i as int].shape().children);
            }
            assert(ch.links_resolved());
        }
        children.insert(i, ch);
        proof {
            assert(forall|t: int|
                0 <= t < i ==> children@[t] == before[t]);
            assert(forall|t: int|
                i < t < children@.len() ==> children@[t] == before[t]);
            assert(children@[i as int] == ch);
        }
        i = i + 1;
    }
}

impl Tree {
    /// Restores upward navigability after a load: walks the whole tree and
    /// sets each child's back-reference to the node that owns it through
    /// `children`. Idempotent — on an already-correct tree every
    /// back-reference is overwritten with the value it already has. The
    /// ownership structure (identifiers, child order) is untouched, as is
    /// the root's own back-reference.
    pub fn rebuild_parent_links(&mut self)
        ensures
            final(self).root.shape() == old(self).root.shape(),
            final(self).root.id == old(self).root.id,
            final(self).root.parent == old(self).root.parent,
            final(self).root.links_resolved(),
    {
        let root_id = self.root.id;
        relink_children(root_id, &mut self.root.children);
        proof {
            lemma_shapes_of_pointwise(self.root.children@);
            lemma_shapes_of_pointwise(old(self).root.children@);
            assert(shapes_of(self.root.children@) =~= shapes_of(old(self).root.children@));
        }
    }
}

/// Node-by-node agreement: the two trees give every corresponding node the
/// same identifier, the same child count and the same back-reference.
pub open spec fn nodes_match(a: Node, b: Node) -> bool
    decreases a,
{
    &&& a.id == b.id
    &&& a.parent == b.parent
    &&& a.children@.len() == b.children@.len()
    &&& forall|i: int|
        0 <= i < a.children@.len() ==> nodes_match(
            #[trigger] a.children@[i],
            b.children@[i],
        )
}

/// Law: resolving back-references is deterministic, hence the relinker is
/// idempotent: any two trees with the same shape and the same root
/// back-reference whose links are both fully resolved agree on every node's
/// back-reference — so a second relinking pass reproduces the first's
/// result exactly.
pub proof fn lemma_relink_idempotent(a: Node, b: Node)
    requires
        a.shape() == b.shape(),
        a.parent == b.parent,
        a.links_resolved(),
        b.links_resolved(),
    ensures
        nodes_match(a, b),
    decreases a,
{
    lemma_shapes_of_pointwise(a.children@);
    lemma_shapes_of_pointwise(b.children@);
    assert(a.shape().id == b.shape().id);
    assert(a.shape().children.len() == b.shape().children.len());
    assert(a.children@.len() == b.children@.len());
    assert forall|i: int| 0 <= i < a.children@.len() implies nodes_match(
        #[trigger] a.children@[i],
        b.children@[i],
    ) by {
        assert(a.children@[i].shape() == a.shape().children[i]);
        assert(b.children@[i].shape() == b.shape().children[i]);
        lemma_relink_idempotent(a.children@[i], b.children@[i]);
    }
}

} // verus!
