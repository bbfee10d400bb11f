use vstd::prelude::*;

use crate::node::{
    lemma_shapes_of_pointwise, lemma_shapes_size_concat, shape_size, shapes_size, Node, Shape,
    Tree,
};

verus! {

/// The identifiers of all nodes reachable from the shapes queued in `q`, in
/// breadth-first order: the front shape's identifier, then the rest of the
/// queue with the front shape's children enqueued behind it.
pub open spec fn bfs_ids(q: Seq<Shape>) -> Seq<nat>
    decreases shapes_size(q),
    via bfs_ids_decreases
{
    if q.len() == 0 {
        Seq::empty()
    } else {
        seq![q[0].id] + bfs_ids(q.drop_first() + q[0].children)
    }
}

#[via_fn]
proof fn bfs_ids_decreases(q: Seq<Shape>) {
    if q.len() > 0 {
        lemma_shapes_size_concat(q.drop_first(), q[0].children);
        assert(shapes_size(q) == shape_size(q[0]) + shapes_size(q.drop_first()));
        assert(shape_size(q[0]) == 1 + shapes_size(q[0].children));
    }
}

/// The identifiers of the shapes of `q`, in queue order.
pub open spec fn level_ids(q: Seq<Shape>) -> Seq<nat> {
    Seq::new(q.len(), |i: int| q[i].id)
}

/// All children of the shapes of `q`, in order: the next breadth-first
/// level below `q`.
pub open spec fn concat_children(q: Seq<Shape>) -> Seq<Shape>
    decreases q.len(),
{
    if q.len() == 0 {
        Seq::empty()
    } else {
        q[0].children + concat_children(q.drop_first())
    }
}

/// Law: breadth-first order lists a whole queue's identifiers before any of
/// its members' children, which follow as one level.
pub proof fn lemma_bfs_split(x: Seq<Shape>, y: Seq<Shape>)
    ensures
        bfs_ids(x + y) == level_ids(x) + bfs_ids(y + concat_children(x)),
    decreases x.len(),
{
    if x.len() == 0 {
        assert(x + y =~= y);
        assert(y + concat_children(x) =~= y);
        assert(level_ids(x) + bfs_ids(y) =~= bfs_ids(y));
    } else {
        let x1 = x.drop_first();
        assert((x + y)[0] == x[0]);
        assert((x + y).drop_first() + (x + y)[0].children =~= x1 + (y + x[0].children));
        lemma_bfs_split(x1, y + x[0].children);
        assert((y + x[0].children) + concat_children(x1) =~= y + concat_children(x));
        assert(bfs_ids(x + y) == seq![x[0].id] + bfs_ids(x1 + (y + x[0].children)));
        assert(seq![x[0].id] + (level_ids(x1) + bfs_ids(y + concat_children(x))) =~= level_ids(x)
            + bfs_ids(y + concat_children(x)));
    }
}

/// A queue counts its own shapes plus everything below their children.
pub proof fn lemma_size_concat_children(q: Seq<Shape>)
    ensures
        shapes_size(q) == q.len() + shapes_size(concat_children(q)),
    decreases q.len(),
{
    if q.len() > 0 {
        lemma_size_concat_children(q.drop_first());
        lemma_shapes_size_concat(q[0].children, concat_children(q.drop_first()));
        assert(shape_size(q[0]) == 1 + shapes_size(q[0].children));
    }
}

/// A level of childless shapes has nothing below it.
pub proof fn lemma_concat_children_empty(q: Seq<Shape>)
    requires
        forall|i: int| 0 <= i < q.len() ==> (#[trigger] q[i]).children.len() == 0,
    ensures
        concat_children(q) == Seq::<Shape>::empty(),
    decreases q.len(),
{
    if q.len() > 0 {
        lemma_concat_children_empty(q.drop_first());
        assert(q[0].children =~= Seq::<Shape>::empty());
        assert(q[0].children + concat_children(q.drop_first()) =~= Seq::<Shape>::empty());
    }
}

/// The shapes of a queue of borrowed nodes.
pub open spec fn ref_shapes(q: Seq<&Node>) -> Seq<Shape> {
    Seq::new(q.len(), |i: int| q[i].shape())
}

/// A sequence of machine identifiers read as natural numbers.
pub open spec fn ids_view(v: Seq<usize>) -> Seq<nat> {
    Seq::new(v.len(), |i: int| v[i] as nat)
}

impl Tree {
    /// Breadth-first enumeration of the tree's node identifiers: a
    /// first-in-first-out queue starts with the root; each dequeued node is
    /// recorded and its children are enqueued in stored order. Read-only;
    /// the result is the full, deterministic level-by-level identifier list.
    pub fn traverse(&self) -> (ids: Vec<usize>)
        ensures
            ids_view(ids@) == bfs_ids(seq![self.root.shape()]),
    {
        let mut ids: Vec<usize> = Vec::new();
        let mut queue: Vec<&Node> = Vec::new();
        queue.push(&self.root);
        let mut head: usize = 0;
        proof {
            assert(ref_shapes(queue@.skip(0)) =~= seq![self.root.shape()]);
            assert(ids_view(ids@) + bfs_ids(seq![self.root.shape()]) =~= bfs_ids(
                seq![self.root.shape()],
            ));
        }
        while head < queue.len()
            invariant
                head <= queue@.len(),
                ids_view(ids@) + bfs_ids(ref_shapes(queue@.skip(head as int))) == bfs_ids(
                    seq![self.root.shape()],
                ),
            decreases shapes_size(ref_shapes(queue@.skip(head as int))),
        {
            let ghost pending = ref_shapes(queue@.skip(head as int));
            let node: &Node = queue[head];
            let ghost ids0 = ids@;
            let ghost q0 = queue@;
            ids.push(node.id);
            let mut j: usize = 0;
            while j < node.children.len()
                invariant
                    j <= node.children@.len(),
                    queue@.len() == q0.len() + j,
                    queue@.take(q0.len() as int) == q0,
                    forall|i: int|
                        0 <= i < j ==> (#[trigger] queue@[q0.len() + i]).shape()
                            == node.children@[i].shape(),
                decreases node.children@.len() - j,
            {
                let child: &Node = &node.children[j];
                queue.push(child);
                proof {
                    assert(queue@.take(q0.len() as int) =~= q0);
                }
                j = j + 1;
            }
            head = head + 1;
            proof {
                lemma_shapes_of_pointwise(node.children@);
                assert(pending[0] == node.shape());
                assert(ref_shapes(queue@.skip(head as int)) =~= pending.drop_first()
                    + node.shape().children) by {
                    assert forall|i: int|
                        0 <= i < queue@.skip(head as int).len() implies (#[trigger] queue@.skip(
                        head as int,
                    )[i]).shape() == (pending.drop_first() + node.shape().children)[i] by {
                        if i < q0.len() - head {
                            assert(queue@[head + i] == q0[head + i]);
                            assert(pending.drop_first()[i] == q0.skip(head as int - 1)[i
                                + 1].shape());
                        } else {
                            assert(queue@[head + i] == queue@[q0.len() + (i - (q0.len()
                                - head))]);
                        }
                    }
                }
                assert(ids_view(ids@) =~= ids_view(ids0) + seq![node.id as nat]);
                assert(bfs_ids(pending) == seq![pending[0].id] + bfs_ids(
                    pending.drop_first() + pending[0].children,
                ));
                assert(ids_view(ids@) + bfs_ids(ref_shapes(queue@.skip(head as int)))
                    =~= (ids_view(ids0) + seq![node.id as nat]) + bfs_ids(
                    pending.drop_first() + pending[0].children,
                ));
                assert((ids_view(ids0) + seq![node.id as nat]) + bfs_ids(
                    pending.drop_first() + pending[0].children,
                ) =~= ids_view(ids0) + (seq![pending[0].id] + bfs_ids(
                    pending.drop_first() + pending[0].children,
                )));
                lemma_shapes_size_concat(pending.drop_first(), pending[0].children);
                assert(shapes_size(pending) == shape_size(pending[0]) + shapes_size(
                    pending.drop_first(),
                ));
                assert(shape_size(pending[0]) == 1 + shapes_size(pending[0].children));
            }
        }
        proof {
            assert(ref_shapes(queue@.skip(head as int)) =~= Seq::<Shape>::empty());
            assert(ids_view(ids@) + bfs_ids(Seq::<Shape>::empty()) =~= ids_view(ids@));
        }
        ids
    }
}

} // verus!
