use vstd::prelude::*;

use crate::node::{
    lemma_shapes_of_pointwise, shape_size, shapes_of, shapes_size, Node, Shape, Tree,
};
use crate::traverse::{
    bfs_ids, concat_children, lemma_bfs_split, lemma_concat_children_empty,
    lemma_size_concat_children, level_ids,
};

verus! {

/// The fixed branching sequence: the leading digits of pi.
pub open spec fn pi_spec() -> Seq<nat> {
    seq![
        1nat,
        4,
        1,
        5,
        9,
        2,
        6,
        5,
        3,
        5,
        8,
        9,
        7,
        9,
        3,
        2,
        3,
        8,
        4,
        6,
        2,
        6,
        4,
        3,
    ]
}

/// The per-level child totals consumed when growing a tree to `depth`
/// levels: the digit sequence with its first value skipped (it seeds
/// nothing, the root already exists), at most `depth - 1` values.
pub open spec fn branch_counts(depth: nat) -> Seq<nat> {
    if depth <= 1 {
        Seq::empty()
    } else if depth <= pi_spec().len() {
        pi_spec().subrange(1, depth as int)
    } else {
        pi_spec().subrange(1, pi_spec().len() as int)
    }
}

/// Every digit of the branching sequence is between 1 and 9.
pub proof fn lemma_pi_digit_bounds()
    ensures
        forall|i: int| 0 <= i < pi_spec().len() ==> 1 <= #[trigger] pi_spec()[i] <= 9,
{
}

/// The digits of pi that drive the branching, as machine integers.
pub fn pi_digits() -> (d: Vec<usize>)
    ensures
        d@.len() == pi_spec().len(),
        forall|i: int| 0 <= i < d@.len() ==> d@[i] as nat == pi_spec()[i],
{
    let d: Vec<usize> = vec![
        1,
        4,
        1,
        5,
        9,
        2,
        6,
        5,
        3,
        5,
        8,
        9,
        7,
        9,
        3,
        2,
        3,
        8,
        4,
        6,
        2,
        6,
        4,
        3,
    ];
    d
}

/// Index, among the children created for one level, of the first child that
/// is assigned to parent number `p`, when `cnt` children are split as evenly
/// as possible over `len` parents: the first `cnt % len` parents receive one
/// child more than the others.
pub open spec fn chunk_ofs(cnt: int, len: int, p: int) -> int
    recommends
        len > 0,
        0 <= p,
{
    p * (cnt / len) + (if p <= cnt % len {
        p
    } else {
        cnt % len
    })
}

/// Consecutive chunk offsets differ by exactly the child count of parent
/// `p`: the per-parent base, plus one for the first `cnt % len` parents.
pub proof fn lemma_chunk_step(cnt: int, len: int, p: int)
    requires
        len > 0,
        0 <= cnt,
        0 <= p,
    ensures
        chunk_ofs(cnt, len, p + 1) == chunk_ofs(cnt, len, p) + cnt / len + (if p < cnt % len {
            1int
        } else {
            0int
        }),
{
    assert((p + 1) * (cnt / len) == p * (cnt / len) + cnt / len) by (nonlinear_arith);
}

/// The chunks start at 0 and, over all `len` parents, hand out all `cnt`
/// children.
pub proof fn lemma_chunk_total(cnt: int, len: int)
    requires
        len > 0,
        0 <= cnt,
    ensures
        chunk_ofs(cnt, len, 0) == 0,
        chunk_ofs(cnt, len, len) == cnt,
{
    vstd::arithmetic::div_mod::lemma_fundamental_div_mod(cnt, len);
    assert(len * (cnt / len) == (cnt / len) * len) by (nonlinear_arith);
    assert(0 <= cnt % len < len) by {
        vstd::arithmetic::div_mod::lemma_mod_bound(cnt, len);
    }
}

/// Chunk offsets are monotone in the parent number.
pub proof fn lemma_chunk_mono(cnt: int, len: int, a: int, b: int)
    requires
        len > 0,
        0 <= cnt,
        0 <= a <= b,
    ensures
        chunk_ofs(cnt, len, a) <= chunk_ofs(cnt, len, b),
{
    assert(0 <= cnt / len) by (nonlinear_arith)
        requires
            len > 0,
            0 <= cnt,
    ;
    assert(a * (cnt / len) <= b * (cnt / len)) by (nonlinear_arith)
        requires
            0 <= a <= b,
            0 <= cnt / len,
    ;
}

/// The shapes of one whole level of a generated tree: `len` nodes whose
/// identifiers are `start`, `start + 1`, ..., where the following levels'
/// child totals are drawn from `counts`, one value per level, and each
/// level's children are distributed evenly, parent-major, over the level
/// above.
pub open spec fn gen_level(start: nat, len: nat, counts: Seq<nat>) -> Seq<Shape>
    decreases counts.len(),
{
    if counts.len() == 0 || len == 0 {
        Seq::new(len as nat, |i: int| Shape { id: (start + i) as nat, children: Seq::empty() })
    } else {
        let cnt = counts[0];
        let child = gen_level((start + len) as nat, cnt, counts.drop_first());
        Seq::new(
            len as nat,
            |p: int|
                Shape {
                    id: (start + p) as nat,
                    children: child.subrange(
                        chunk_ofs(cnt as int, len as int, p),
                        chunk_ofs(cnt as int, len as int, p + 1),
                    ),
                },
        )
    }
}

/// The shape of the whole tree generated to `depth` levels.
pub open spec fn gen_tree(depth: nat) -> Shape {
    gen_level(1, 1, branch_counts(depth))[0]
}

/// The number of nodes in level `k` of a generated tree (the root alone is
/// level 0; level `k >= 1` holds exactly the `counts[k - 1]` children made
/// for it).
pub open spec fn level_len(counts: Seq<nat>, k: int) -> nat {
    if k <= 0 {
        1
    } else {
        counts[k - 1]
    }
}

/// The identifier of the first node of level `k` of a generated tree.
pub open spec fn level_start(counts: Seq<nat>, k: int) -> nat
    decreases k,
{
    if k <= 0 {
        1
    } else {
        (level_start(counts, k - 1) + level_len(counts, k - 1)) as nat
    }
}

impl Tree {
    /// Grows a fresh tree (a lone root with identifier 1) to `depth` levels:
    /// each value taken from the digit sequence, after the first, is the
    /// total number of children created for one level, distributed as evenly
    /// as possible over the previous level's nodes, parent-major, with
    /// identifiers assigned in creation order. Every created child's
    /// back-reference is set to its owning parent.
    #[verifier::loop_isolation(false)]
    #[verifier::rlimit(100)]
    pub fn generate(&mut self, depth: usize)
        requires
            old(self).root.id == 1,
            old(self).root.children@.len() == 0,
        ensures
            final(self).root.shape() == gen_tree(depth as nat),
            final(self).root.links_resolved(),
            final(self).root.id == 1,
            final(self).root.parent == old(self).root.parent,
    {
        proof {
            lemma_pi_digit_bounds();
        }
        let ghost cs: Seq<nat> = branch_counts(depth as nat);
        if depth <= 1 {
            proof {
                assert(gen_level(1, 1, cs) =~= Seq::new(
                    1,
                    |i: int| Shape { id: (1 + i) as nat, children: Seq::<Shape>::empty() },
                ));
                assert(shapes_of(self.root.children@) =~= Seq::<Shape>::empty());
                assert(self.root.shape() == gen_tree(depth as nat));
                assert(self.root.links_resolved());
            }
            return ;
        }
        let digits: Vec<usize> = pi_digits();
        let mut counts: Vec<usize> = Vec::new();
        let mut i: usize = 1;
        while i < digits.len() && i < depth
            invariant
                1 <= i <= digits.len(),
                depth >= 2,
                i <= depth,
                i == 1 + counts@.len(),
                digits@.len() == pi_spec().len(),
                forall|t: int| 0 <= t < digits@.len() ==> digits@[t] as nat == pi_spec()[t],
                forall|t: int| 0 <= t < counts@.len() ==> counts@[t] as nat == pi_spec()[t + 1],
            decreases digits@.len() - i,
        {
            counts.push(digits[i]);
            i = i + 1;
        }
        proof {
            assert(counts@.len() == cs.len());
            assert(forall|t: int| 0 <= t < cs.len() ==> #[trigger] cs[t] == pi_spec()[t + 1]);
            assert(forall|t: int| 0 <= t < counts@.len() ==> counts@[t] as nat == cs[t]);
            assert(forall|t: int| 0 <= t < counts@.len() ==> 1 <= #[trigger] counts@[t] <= 9);
        }
        proof {
            assert(counts@.len() < pi_spec().len());
        }
        let m: usize = counts.len();
        // Identifier of the first node of each level, computed forward.
        let mut starts: Vec<usize> = Vec::new();
        starts.push(1);
        let mut k: usize = 0;
        while k < m
            invariant
                k <= m,
                m == counts@.len(),
                starts@.len() == k + 1,
                cs.len() == m,
                forall|t: int| 0 <= t < counts@.len() ==> counts@[t] as nat == cs[t],
                forall|t: int| 0 <= t < counts@.len() ==> 1 <= #[trigger] counts@[t] <= 9,
                forall|t: int| 0 <= t <= k ==> starts@[t] as nat == level_start(cs, t),
                forall|t: int| 0 <= t <= k ==> #[trigger] starts@[t] <= 2 + 9 * t,
            decreases m - k,
        {
            let s: usize = starts[k];
            let ln: usize = if k == 0 {
                1
            } else {
                counts[k - 1]
            };
            proof {
                assert(ln as nat == level_len(cs, k as int));
                assert(s as nat == level_start(cs, k as int));
                assert(level_start(cs, k as int + 1) == level_start(cs, k as int) + level_len(
                    cs,
                    k as int,
                ));
                assert(ln <= 9);
            }
            let ghost starts0 = starts@;
            starts.push(s + ln);
            proof {
                assert(forall|t: int| 0 <= t <= k ==> starts@[t] == starts0[t]);
                assert(starts@[k as int + 1] == s + ln);
            }
            k = k + 1;
        }
        // Build the levels bottom-up: the deepest level first, as leaves.
        let len_m: usize = counts[m - 1];
        let mut level: Vec<Node> = Vec::new();
        let mut b: usize = 0;
        while b < len_m
            invariant
                b <= len_m,
                m == counts@.len(),
                m >= 1,
                cs.len() == m,
                len_m as nat == level_len(cs, m as int),
                starts@.len() == m + 1,
                forall|t: int| 0 <= t <= m ==> starts@[t] as nat == level_start(cs, t),
                forall|t: int| 0 <= t <= m ==> #[trigger] starts@[t] <= 2 + 9 * t,
                level@.len() == b,
                forall|t: int|
                    0 <= t < b ==> (#[trigger] level@[t]).shape() == (Shape {
                        id: (level_start(cs, m as int) + t) as nat,
                        children: Seq::<Shape>::empty(),
                    }),
                forall|t: int| 0 <= t < b ==> (#[trigger] level@[t]).links_resolved(),
            decreases len_m - b,
        {
            let leaf = Node::new(starts[m] + b);
            proof {
                assert(shapes_of(leaf.children@) =~= Seq::<Shape>::empty());
            }
            level.push(leaf);
            b = b + 1;
        }
        proof {
            lemma_shapes_of_pointwise(level@);
            assert(cs.skip(m as int) =~= Seq::<nat>::empty());
            assert(shapes_of(level@) =~= gen_level(
                level_start(cs, m as int),
                level_len(cs, m as int),
                cs.skip(m as int),
            ));
        }
        // Each pass turns the level below into the children of a new level.
        let mut lv: usize = m;
        while lv > 0
            invariant
                lv <= m,
                m == counts@.len(),
                m >= 1,
                cs.len() == m,
                starts@.len() == m + 1,
                forall|t: int| 0 <= t < counts@.len() ==> counts@[t] as nat == cs[t],
                forall|t: int| 0 <= t < counts@.len() ==> 1 <= #[trigger] counts@[t] <= 9,
                forall|t: int| 0 <= t <= m ==> starts@[t] as nat == level_start(cs, t),
                forall|t: int| 0 <= t <= m ==> #[trigger] starts@[t] <= 2 + 9 * t,
                level@.len() == level_len(cs, lv as int),
                shapes_of(level@) == gen_level(
                    level_start(cs, lv as int),
                    level_len(cs, lv as int),
                    cs.skip(lv as int),
                ),
                forall|t: int| 0 <= t < level@.len() ==> (#[trigger] level@[t]).links_resolved(),
            decreases lv,
        {
            lv = lv - 1;
            let parent_len: usize = if lv == 0 {
                1
            } else {
                counts[lv - 1]
            };
            let cnt: usize = counts[lv];
            let base: usize = cnt / parent_len;
            let extra: usize = cnt % parent_len;
            let start_lv: usize = starts[lv];
            let ghost child_shapes = shapes_of(level@);
            let ghost target = gen_level(
                level_start(cs, lv as int),
                level_len(cs, lv as int),
                cs.skip(lv as int),
            );
            proof {
                lemma_shapes_of_pointwise(level@);
                assert(cs.skip(lv as int).drop_first() =~= cs.skip(lv as int + 1));
                assert(cs.skip(lv as int)[0] == cs[lv as int]);
                assert(level_start(cs, lv as int + 1) == level_start(cs, lv as int) + level_len(
                    cs,
                    lv as int,
                ));
                assert(child_shapes == gen_level(
                    (level_start(cs, lv as int) + parent_len as nat) as nat,
                    cnt as nat,
                    cs.skip(lv as int).drop_first(),
                ));
                assert(target == Seq::new(
                    parent_len as nat,
                    |p: int|
                        Shape {
                            id: (level_start(cs, lv as int) + p) as nat,
                            children: child_shapes.subrange(
                                chunk_ofs(cnt as int, parent_len as int, p),
                                chunk_ofs(cnt as int, parent_len as int, p + 1),
                            ),
                        },
                ));
                lemma_chunk_total(cnt as int, parent_len as int);
            }
            let mut new_level: Vec<Node> = Vec::new();
            let mut p: usize = 0;
            while p < parent_len
                invariant
                    p <= parent_len,
                    1 <= parent_len <= 9,
                    cnt <= 9,
                    m <= 23,
                    base <= cnt,
                    start_lv <= 2 + 9 * m,
                    m == counts@.len(),
                    base == cnt as int / parent_len as int,
                    extra == cnt as int % parent_len as int,
                    start_lv as nat == level_start(cs, lv as int),
                    child_shapes.len() == cnt,
                    target == Seq::new(
                        parent_len as nat,
                        |q: int|
                            Shape {
                                id: (start_lv + q) as nat,
                                children: child_shapes.subrange(
                                    chunk_ofs(cnt as int, parent_len as int, q),
                                    chunk_ofs(cnt as int, parent_len as int, q + 1),
                                ),
                            },
                    ),
                    level@.len() == cnt - chunk_ofs(cnt as int, parent_len as int, p as int),
                    forall|t: int|
                        0 <= t < level@.len() ==> (#[trigger] level@[t]).shape() == child_shapes[
                        chunk_ofs(cnt as int, parent_len as int, p as int) + t],
                    forall|t: int|
                        0 <= t < level@.len() ==> (#[trigger] level@[t]).links_resolved(),
                    new_level@.len() == p,
                    forall|t: int|
                        0 <= t < p ==> (#[trigger] new_level@[t]).shape() == target[t],
                    forall|t: int| 0 <= t < p ==> (#[trigger] new_level@[t]).links_resolved(),
                decreases parent_len - p,
            {
                let ghost ofs_p = chunk_ofs(cnt as int, parent_len as int, p as int);
                proof {
                    lemma_chunk_step(cnt as int, parent_len as int, p as int);
                    lemma_chunk_mono(cnt as int, parent_len as int, p as int + 1, parent_len as int);
                    lemma_chunk_mono(cnt as int, parent_len as int, 0, p as int);
                    lemma_chunk_total(cnt as int, parent_len as int);
                    vstd::arithmetic::div_mod::lemma_mod_bound(cnt as int, parent_len as int);
                }
                let c: usize = if p < extra {
                    base + 1
                } else {
                    base
                };
                let mut node = Node::new(start_lv + p);
                let mut j: usize = 0;
                while j < c
                    invariant
                        j <= c,
                        node.id == start_lv + p,
                        node.parent is None,
                        node.children@.len() == j,
                        chunk_ofs(cnt as int, parent_len as int, p as int) == ofs_p,
                        ofs_p + c == chunk_ofs(cnt as int, parent_len as int, p as int + 1),
                        ofs_p + c <= cnt,
                        0 <= ofs_p,
                        child_shapes.len() == cnt,
                        level@.len() == cnt - ofs_p - j,
                        forall|t: int|
                            0 <= t < level@.len() ==> (#[trigger] level@[t]).shape()
                                == child_shapes[ofs_p + j + t],
                        forall|t: int|
                            0 <= t < level@.len() ==> (#[trigger] level@[t]).links_resolved(),
                        forall|t: int|
                            0 <= t < j ==> (#[trigger] node.children@[t]).shape() == child_shapes[
                            ofs_p + t],
                        forall|t: int|
                            0 <= t < j ==> (#[trigger] node.children@[t]).parent == Some(node.id),
                        forall|t: int|
                            0 <= t < j ==> (#[trigger] node.children@[t]).links_resolved(),
                    decreases c - j,
                {
                    let ghost lv0 = level@;
                    let mut ch = level.remove(0);
                    ch.parent = Some(node.id);
                    proof {
                        assert(ch.shape() == lv0[0].shape());
                        assert(ch.links_resolved() == lv0[0].links_resolved());
                        assert(forall|t: int|
                            0 <= t < level@.len() ==> level@[t] == lv0[t + 1]);
                    }
                    node.append_child(ch);
                    j = j + 1;
                }
                proof {
                    lemma_shapes_of_pointwise(node.children@);
                    assert(shapes_of(node.children@) =~= child_shapes.subrange(
                        ofs_p,
                        chunk_ofs(cnt as int, parent_len as int, p as int + 1),
                    ));
                    assert(node.shape() == target[p as int]);
                    assert(node.links_resolved());
                }
                new_level.push(node);
                p = p + 1;
            }
            proof {
                lemma_chunk_total(cnt as int, parent_len as int);
                lemma_shapes_of_pointwise(new_level@);
                assert(shapes_of(new_level@) =~= target);
                assert(new_level@.len() == level_len(cs, lv as int));
            }
            level = new_level;
        }
        // The single remaining node is the regrown root; keep the root's own
        // back-reference (it stays absent) and adopt the built children.
        proof {
            assert(cs.skip(0) =~= cs);
            assert(level_len(cs, 0) == 1);
            assert(level_start(cs, 0) == 1);
            assert(shapes_of(level@) == gen_level(1, 1, cs));
            assert(level@.len() == 1);
            lemma_shapes_of_pointwise(level@);
            assert(level@[0].shape() == gen_level(1, 1, cs)[0]);
        }
        let built = level.remove(0);
        let ghost built_snapshot = built;
        let root_parent = self.root.parent;
        self.root = Node { id: 1, children: built.children, parent: root_parent };
        proof {
            assert(built_snapshot.shape().id == 1);
            assert(self.root.shape() == built_snapshot.shape());
            assert(self.root.links_resolved() == built_snapshot.links_resolved());
        }
    }
}

/// A generated level always holds exactly `len` shapes.
pub proof fn lemma_gen_level_len(start: nat, len: nat, counts: Seq<nat>)
    ensures
        gen_level(start, len, counts).len() == len,
        forall|i: int|
            0 <= i < len ==> (#[trigger] gen_level(start, len, counts)[i]).id == start + i,
{
}

/// From parent `p` on, a generated level's children are exactly the tail of
/// the next generated level, starting at parent `p`'s first child.
proof fn lemma_gen_level_children_from(start: nat, len: nat, counts: Seq<nat>, p: int)
    requires
        counts.len() > 0,
        len > 0,
        0 <= p <= len,
    ensures
        concat_children(gen_level(start, len, counts).skip(p)) == gen_level(
            (start + len) as nat,
            counts[0],
            counts.drop_first(),
        ).subrange(chunk_ofs(counts[0] as int, len as int, p), counts[0] as int),
    decreases len - p,
{
    let level = gen_level(start, len, counts);
    let child = gen_level((start + len) as nat, counts[0], counts.drop_first());
    let cnt = counts[0] as int;
    let l = len as int;
    lemma_gen_level_len((start + len) as nat, counts[0], counts.drop_first());
    lemma_gen_level_len(start, len, counts);
    lemma_chunk_total(cnt, l);
    lemma_chunk_mono(cnt, l, 0, p);
    lemma_chunk_mono(cnt, l, p, l);
    if p == l {
        assert(level.skip(p) =~= Seq::<Shape>::empty());
        assert(concat_children(level.skip(p)) =~= child.subrange(cnt, cnt));
    } else {
        lemma_chunk_step(cnt, l, p);
        lemma_chunk_mono(cnt, l, p + 1, l);
        lemma_gen_level_children_from(start, len, counts, p + 1);
        assert(level.skip(p)[0] == level[p]);
        assert(level[p].children == child.subrange(
            chunk_ofs(cnt, l, p),
            chunk_ofs(cnt, l, p + 1),
        ));
        assert(level.skip(p).drop_first() =~= level.skip(p + 1));
        assert(child.subrange(chunk_ofs(cnt, l, p), chunk_ofs(cnt, l, p + 1)) + child.subrange(
            chunk_ofs(cnt, l, p + 1),
            cnt,
        ) =~= child.subrange(chunk_ofs(cnt, l, p), cnt));
    }
}

/// The children made for one generated level are exactly the next generated
/// level, whole and in order.
pub proof fn lemma_gen_level_children(start: nat, len: nat, counts: Seq<nat>)
    requires
        counts.len() > 0,
        len > 0,
    ensures
        concat_children(gen_level(start, len, counts)) == gen_level(
            (start + len) as nat,
            counts[0],
            counts.drop_first(),
        ),
{
    let child = gen_level((start + len) as nat, counts[0], counts.drop_first());
    lemma_gen_level_len((start + len) as nat, counts[0], counts.drop_first());
    lemma_gen_level_children_from(start, len, counts, 0);
    assert(gen_level(start, len, counts).skip(0) =~= gen_level(start, len, counts));
    assert(child.subrange(chunk_ofs(counts[0] as int, len as int, 0), counts[0] as int)
        =~= child);
}

/// Law: the breadth-first identifiers of a generated forest are exactly the
/// consecutive run `start`, `start + 1`, ..., one per node.
pub proof fn lemma_gen_level_bfs(start: nat, len: nat, counts: Seq<nat>)
    ensures
        bfs_ids(gen_level(start, len, counts)).len() == shapes_size(
            gen_level(start, len, counts),
        ),
        bfs_ids(gen_level(start, len, counts)) == Seq::new(
            shapes_size(gen_level(start, len, counts)),
            |i: int| (start + i) as nat,
        ),
    decreases counts.len(),
{
    let level = gen_level(start, len, counts);
    lemma_gen_level_len(start, len, counts);
    lemma_bfs_split(level, Seq::empty());
    assert(level + Seq::<Shape>::empty() =~= level);
    assert(Seq::<Shape>::empty() + concat_children(level) =~= concat_children(level));
    lemma_size_concat_children(level);
    if counts.len() == 0 || len == 0 {
        assert(forall|i: int|
            0 <= i < level.len() ==> (#[trigger] level[i]).children.len() == 0);
        lemma_concat_children_empty(level);
        assert(bfs_ids(Seq::<Shape>::empty()) =~= Seq::<nat>::empty());
        assert(level_ids(level) + Seq::<nat>::empty() =~= level_ids(level));
        assert(bfs_ids(level) == level_ids(level));
        assert(bfs_ids(level) =~= Seq::new(
            shapes_size(level),
            |i: int| (start + i) as nat,
        ));
    } else {
        lemma_gen_level_children(start, len, counts);
        lemma_gen_level_bfs((start + len) as nat, counts[0], counts.drop_first());
        assert(bfs_ids(level) =~= Seq::new(
            shapes_size(level),
            |i: int| (start + i) as nat,
        ));
    }
}

/// Law: after `generate`, the breadth-first identifiers of the whole tree
/// are exactly 1, 2, ..., N, where N is the node count: they are assigned
/// contiguously in creation order, with no gap and no repetition.
pub proof fn lemma_generated_ids_contiguous(depth: nat)
    ensures
        bfs_ids(seq![gen_tree(depth)]).len() == shape_size(gen_tree(depth)),
        bfs_ids(seq![gen_tree(depth)]) == Seq::new(
            shape_size(gen_tree(depth)),
            |i: int| (1 + i) as nat,
        ),
{
    let cs = branch_counts(depth);
    lemma_gen_level_bfs(1, 1, cs);
    lemma_gen_level_len(1, 1, cs);
    assert(seq![gen_tree(depth)] =~= gen_level(1, 1, cs));
    assert(gen_level(1, 1, cs).drop_first() =~= Seq::<Shape>::empty());
    assert(shapes_size(gen_level(1, 1, cs)) == shape_size(gen_level(1, 1, cs)[0]) + shapes_size(
        gen_level(1, 1, cs).drop_first(),
    ));
    assert(shapes_size(Seq::<Shape>::empty()) == 0);
    assert(shapes_size(gen_level(1, 1, cs)) == shape_size(gen_tree(depth)));
}

/// Law: within one generated level, the number of children assigned to any
/// two parents differs by at most one.
pub proof fn lemma_distribution_fair(start: nat, len: nat, counts: Seq<nat>, p: int, q: int)
    requires
        0 <= p < len,
        0 <= q < len,
    ensures
        gen_level(start, len, counts)[p].children.len() <= gen_level(
            start,
            len,
            counts,
        )[q].children.len() + 1,
{
    if counts.len() == 0 {
    } else {
        let cnt = counts[0] as int;
        let l = len as int;
        let child = gen_level((start + len) as nat, counts[0], counts.drop_first());
        lemma_gen_level_len((start + len) as nat, counts[0], counts.drop_first());
        lemma_chunk_total(cnt, l);
        lemma_chunk_step(cnt, l, p);
        lemma_chunk_step(cnt, l, q);
        lemma_chunk_mono(cnt, l, 0, p);
        lemma_chunk_mono(cnt, l, p + 1, l);
        lemma_chunk_mono(cnt, l, 0, q);
        lemma_chunk_mono(cnt, l, q + 1, l);
        assert(gen_level(start, len, counts)[p].children.len() == chunk_ofs(cnt, l, p + 1)
            - chunk_ofs(cnt, l, p));
        assert(gen_level(start, len, counts)[q].children.len() == chunk_ofs(cnt, l, q + 1)
            - chunk_ofs(cnt, l, q));
    }
}

/// The queue of shapes `k` breadth-first levels below `q`.
pub open spec fn level_of(q: Seq<Shape>, k: nat) -> Seq<Shape>
    decreases k,
{
    if k == 0 {
        q
    } else {
        level_of(concat_children(q), (k - 1) as nat)
    }
}

/// Taking one more level is taking the children of the last one.
proof fn lemma_level_of_step(q: Seq<Shape>, k: nat)
    ensures
        level_of(q, k + 1) == concat_children(level_of(q, k)),
    decreases k,
{
    if k == 0 {
        assert(level_of(q, 1) == level_of(concat_children(q), 0));
        assert(level_of(concat_children(q), 0) == concat_children(q));
        assert(level_of(q, 0) == q);
    } else {
        lemma_level_of_step(concat_children(q), (k - 1) as nat);
        assert(((k - 1) as nat) + 1 == k);
        assert(level_of(q, k + 1) == level_of(concat_children(q), k));
        assert(level_of(q, k) == level_of(concat_children(q), (k - 1) as nat));
    }
}

/// Level `k` of the generated tree is exactly the generated level `k`.
pub proof fn lemma_tree_level(depth: nat, k: nat)
    requires
        k <= branch_counts(depth).len(),
    ensures
        level_of(seq![gen_tree(depth)], k) == gen_level(
            level_start(branch_counts(depth), k as int),
            level_len(branch_counts(depth), k as int),
            branch_counts(depth).skip(k as int),
        ),
    decreases k,
{
    let cs = branch_counts(depth);
    lemma_pi_digit_bounds();
    assert(forall|i: int| 0 <= i < cs.len() ==> 1 <= #[trigger] cs[i] <= 9);
    if k == 0 {
        lemma_gen_level_len(1, 1, cs);
        assert(cs.skip(0) =~= cs);
        assert(seq![gen_tree(depth)] =~= gen_level(1, 1, cs));
    } else {
        lemma_tree_level(depth, (k - 1) as nat);
        lemma_level_of_step(seq![gen_tree(depth)], (k - 1) as nat);
        let st = level_start(cs, k as int - 1);
        let ln = level_len(cs, k as int - 1);
        assert(ln > 0);
        assert(cs.skip(k as int - 1).len() > 0);
        lemma_gen_level_children(st, ln, cs.skip(k as int - 1));
        assert(cs.skip(k as int - 1)[0] == cs[k as int - 1]);
        assert(cs.skip(k as int - 1).drop_first() =~= cs.skip(k as int));
        assert(level_start(cs, k as int) == st + ln);
        assert(level_len(cs, k as int) == cs[k as int - 1]);
    }
}

/// Law: at every level of the generated tree, the difference between the
/// largest and the smallest number of children assigned to that level's
/// parents is at most one.
pub proof fn lemma_generated_tree_fair(depth: nat, k: nat, p: int, q: int)
    requires
        k <= branch_counts(depth).len(),
        0 <= p < level_of(seq![gen_tree(depth)], k).len(),
        0 <= q < level_of(seq![gen_tree(depth)], k).len(),
    ensures
        level_of(seq![gen_tree(depth)], k)[p].children.len() <= level_of(
            seq![gen_tree(depth)],
            k,
        )[q].children.len() + 1,
{
    let cs = branch_counts(depth);
    lemma_tree_level(depth, k);
    lemma_gen_level_len(level_start(cs, k as int), level_len(cs, k as int), cs.skip(k as int));
    lemma_distribution_fair(
        level_start(cs, k as int),
        level_len(cs, k as int),
        cs.skip(k as int),
        p,
        q,
    );
}

} // verus!
