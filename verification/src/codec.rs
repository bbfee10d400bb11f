use vstd::prelude::*;

use crate::node::{
    lemma_shape_size_element, lemma_shapes_of_pointwise, shape_size, shapes_of, shapes_size, Node,
    Shape, Tree,
};

verus! {

broadcast use vstd::seq::axiom_seq_index_decreases, vstd::std_specs::vec::axiom_vec_decreases_to_view;

/// Why a byte stream could not be decoded into a tree.
#[derive(Debug, Clone, Copy, PartialEq, Eq, Structural)]
pub enum DecodeError {
    /// The bytes end before the structure they announce is complete.
    Truncated,
    /// An identifier or child count does not fit this machine's word size.
    Oversize,
    /// Well-formed tree, but bytes are left over behind it.
    TrailingBytes,
}

/// The eight little-endian bytes of a 64-bit value.
pub open spec fn le_bytes(v: u64) -> Seq<u8> {
    seq![
        (v & 0xff) as u8,
        ((v >> 8) & 0xff) as u8,
        ((v >> 16) & 0xff) as u8,
        ((v >> 24) & 0xff) as u8,
        ((v >> 32) & 0xff) as u8,
        ((v >> 40) & 0xff) as u8,
        ((v >> 48) & 0xff) as u8,
        ((v >> 56) & 0xff) as u8,
    ]
}

/// The 64-bit value held little-endian in the first eight bytes of `b`.
pub open spec fn le_val(b: Seq<u8>) -> u64
    recommends
        b.len() >= 8,
{
    ((b[0] as u64) | ((b[1] as u64) << 8) | ((b[2] as u64) << 16) | ((b[3] as u64) << 24) | ((
    b[4] as u64) << 32) | ((b[5] as u64) << 40) | ((b[6] as u64) << 48) | ((b[7] as u64) << 56))
}

/// Reading the eight little-endian bytes of a value gives the value back.
pub proof fn lemma_le_roundtrip(v: u64)
    ensures
        le_val(le_bytes(v)) == v,
{
    let b = le_bytes(v);
    assert(((v & 0xff) as u8 as u64) | ((((v >> 8) & 0xff) as u8 as u64) << 8) | ((((v >> 16)
        & 0xff) as u8 as u64) << 16) | ((((v >> 24) & 0xff) as u8 as u64) << 24) | ((((v >> 32)
        & 0xff) as u8 as u64) << 32) | ((((v >> 40) & 0xff) as u8 as u64) << 40) | ((((v >> 48)
        & 0xff) as u8 as u64) << 48) | ((((v >> 56) & 0xff) as u8 as u64) << 56) == v)
        by (bit_vector);
}

/// The persisted form of a subtree: its identifier, its child count, then
/// each child subtree in order, all integers as eight little-endian bytes.
/// Back-references are never encoded: they are derived data.
pub open spec fn encode_shape(s: Shape) -> Seq<u8>
    decreases s,
{
    le_bytes(s.id as u64) + le_bytes(s.children.len() as u64) + encode_shapes(s.children)
}

/// The persisted forms of the subtrees of `q`, in order.
pub open spec fn encode_shapes(q: Seq<Shape>) -> Seq<u8>
    decreases q,
{
    if q.len() == 0 {
        Seq::empty()
    } else {
        encode_shape(q[0]) + encode_shapes(q.drop_first())
    }
}

/// Every identifier and child count of the shape fits a machine word.
/// Shapes taken from in-memory trees always satisfy this.
pub open spec fn bounded_shape(s: Shape) -> bool
    decreases s,
{
    &&& s.id <= usize::MAX as nat
    &&& s.children.len() <= usize::MAX as nat
    &&& forall|i: int| 0 <= i < s.children.len() ==> bounded_shape(#[trigger] s.children[i])
}

/// The shape of an in-memory node is bounded.
pub proof fn lemma_node_shape_bounded(n: Node)
    ensures
        bounded_shape(n.shape()),
    decreases n,
{
    vstd::std_specs::vec::axiom_spec_len(&n.children);
    lemma_shapes_of_pointwise(n.children@);
    assert forall|i: int| 0 <= i < n.shape().children.len() implies bounded_shape(
        #[trigger] n.shape().children[i],
    ) by {
        lemma_node_shape_bounded(n.children@[i]);
    }
}

/// The specification decoder for one subtree: reads the identifier and the
/// child count, then that many child subtrees; returns the shape and the
/// bytes left over, or says why the bytes are unusable.
pub open spec fn parse_node(b: Seq<u8>) -> Result<(Shape, Seq<u8>), DecodeError>
    decreases b.len(), 0int,
{
    if b.len() < 16 {
        Err(DecodeError::Truncated)
    } else {
        let id = le_val(b);
        let cnt = le_val(b.skip(8));
        if id > usize::MAX as u64 || cnt > usize::MAX as u64 {
            Err(DecodeError::Oversize)
        } else {
            match parse_children(b.skip(16), cnt as nat) {
                Ok((kids, rest)) => Ok((Shape { id: id as nat, children: kids }, rest)),
                Err(e) => Err(e),
            }
        }
    }
}

/// The specification decoder for `n` consecutive subtrees.
pub open spec fn parse_children(b: Seq<u8>, n: nat) -> Result<(Seq<Shape>, Seq<u8>), DecodeError>
    decreases b.len(), 1int + n,
{
    if n == 0 {
        Ok((Seq::empty(), b))
    } else {
        match parse_node(b) {
            Ok((s, rest)) => {
                if rest.len() < b.len() {
                    match parse_children(rest, (n - 1) as nat) {
                        Ok((kids, rest2)) => Ok((seq![s] + kids, rest2)),
                        Err(e) => Err(e),
                    }
                } else {
                    Err(DecodeError::Truncated)
                }
            },
            Err(e) => Err(e),
        }
    }
}

/// The specification decoder for a whole byte stream: one subtree and
/// nothing behind it.
pub open spec fn parse_tree(b: Seq<u8>) -> Result<Shape, DecodeError> {
    match parse_node(b) {
        Ok((s, rest)) => {
            if rest.len() == 0 {
                Ok(s)
            } else {
                Err(DecodeError::TrailingBytes)
            }
        },
        Err(e) => Err(e),
    }
}

/// The encoded form of any subtree takes at least its sixteen header bytes.
pub proof fn lemma_encode_min_len(s: Shape)
    ensures
        encode_shape(s).len() >= 16,
{
    assert(le_bytes(s.id as u64).len() == 8);
    assert(le_bytes(s.children.len() as u64).len() == 8);
}

/// Encoding one more subtree appends its bytes at the end.
pub proof fn lemma_encode_shapes_push(q: Seq<Shape>, x: Shape)
    ensures
        encode_shapes(q.push(x)) == encode_shapes(q) + encode_shape(x),
    decreases q.len(),
{
    if q.len() == 0 {
        assert(q.push(x).drop_first() =~= Seq::<Shape>::empty());
        assert(encode_shape(x) + encode_shapes(Seq::<Shape>::empty()) =~= encode_shape(x));
        assert(encode_shapes(q) + encode_shape(x) =~= encode_shape(x));
    } else {
        assert(q.push(x).drop_first() =~= q.drop_first().push(x));
        lemma_encode_shapes_push(q.drop_first(), x);
        assert((encode_shape(q[0]) + encode_shapes(q.drop_first())) + encode_shape(x)
            =~= encode_shape(q[0]) + (encode_shapes(q.drop_first()) + encode_shape(x)));
    }
}

/// Appends the eight little-endian bytes of `v`.
fn push_le(out: &mut Vec<u8>, v: u64)
    ensures
        final(out)@ == old(out)@ + le_bytes(v),
{
    out.push((v & 0xff) as u8);
    out.push(((v >> 8) & 0xff) as u8);
    out.push(((v >> 16) & 0xff) as u8);
    out.push(((v >> 24) & 0xff) as u8);
    out.push(((v >> 32) & 0xff) as u8);
    out.push(((v >> 40) & 0xff) as u8);
    out.push(((v >> 48) & 0xff) as u8);
    out.push(((v >> 56) & 0xff) as u8);
    proof {
        assert(out@ =~= old(out)@ + le_bytes(v));
    }
}

/// Appends the encoded form of the subtree rooted at `n`.
#[verifier::loop_isolation(false)]
fn encode_node(n: &Node, out: &mut Vec<u8>)
    ensures
        final(out)@ == old(out)@ + encode_shape(n.shape()),
    decreases n,
{
    proof {
        lemma_shapes_of_pointwise(n.children@);
    }
    push_le(out, n.id as u64);
    push_le(out, n.children.len() as u64);
    let ghost base = out@;
    proof {
        assert(encode_shapes(n.shape().children.take(0)) =~= Seq::<u8>::empty());
        assert(out@ =~= base + encode_shapes(n.shape().children.take(0)));
    }
    let mut j: usize = 0;
    while j < n.children.len()
        invariant
            j <= n.children@.len(),
            out@ == base + encode_shapes(n.shape().children.take(j as int)),
        decreases n.children@.len() - j,
    {
        encode_node(&n.children[j], out);
        proof {
            assert(n.shape().children.take(j as int + 1) =~= n.shape().children.take(
                j as int,
            ).push(n.shape().children[j as int]));
            lemma_encode_shapes_push(
                n.shape().children.take(j as int),
                n.shape().children[j as int],
            );
            assert((base + encode_shapes(n.shape().children.take(j as int))) + encode_shape(
                n.children@[j as int].shape(),
            ) =~= base + encode_shapes(n.shape().children.take(j as int + 1)));
        }
        j = j + 1;
    }
    proof {
        assert(n.shape().children.take(n.children@.len() as int) =~= n.shape().children);
        assert(out@ =~= old(out)@ + encode_shape(n.shape()));
    }
}

/// Reads the eight little-endian bytes at `pos` as a 64-bit value.
fn read_le(bytes: &Vec<u8>, pos: usize) -> (v: u64)
    requires
        pos + 8 <= bytes@.len(),
    ensures
        v == le_val(bytes@.skip(pos as int)),
{
    proof {
        vstd::std_specs::vec::axiom_spec_len(bytes);
        assert(forall|k: int|
            0 <= k < 8 ==> bytes@.skip(pos as int)[k] == bytes@[pos + k]);
    }
    (bytes[pos] as u64) | ((bytes[pos + 1] as u64) << 8) | ((bytes[pos + 2] as u64) << 16) | ((
    bytes[pos + 3] as u64) << 24) | ((bytes[pos + 4] as u64) << 32) | ((bytes[pos + 5] as u64)
        << 40) | ((bytes[pos + 6] as u64) << 48) | ((bytes[pos + 7] as u64) << 56)
}

/// Decodes one subtree starting at `pos`; mirrors `parse_node` exactly.
/// Every decoded node comes back with an unresolved back-reference.
fn parse_node_exec(bytes: &Vec<u8>, pos: usize) -> (r: Result<(Node, usize), DecodeError>)
    requires
        pos <= bytes@.len(),
    ensures
        match r {
            Ok(p) => {
                &&& pos <= p.1 <= bytes@.len()
                &&& parse_node(bytes@.skip(pos as int)) == Ok::<(Shape, Seq<u8>), DecodeError>(
                    (p.0.shape(), bytes@.skip(p.1 as int)),
                )
                &&& p.0.links_cleared()
                &&& p.0.parent is None
            },
            Err(e) => parse_node(bytes@.skip(pos as int)) == Err::<(Shape, Seq<u8>), DecodeError>(
                e,
            ),
        },
    decreases bytes@.len() - pos, 0int,
{
    if bytes.len() - pos < 16 {
        return Err(DecodeError::Truncated);
    }
    let id_v = read_le(bytes, pos);
    let cnt_v = read_le(bytes, pos + 8);
    proof {
        assert(bytes@.skip(pos as int).skip(8) =~= bytes@.skip(pos as int + 8));
        assert(bytes@.skip(pos as int).skip(16) =~= bytes@.skip(pos as int + 16));
    }
    if id_v > usize::MAX as u64 || cnt_v > usize::MAX as u64 {
        return Err(DecodeError::Oversize);
    }
    let cnt: usize = cnt_v as usize;
    match parse_children_exec(bytes, pos + 16, cnt) {
        Ok((kids, end)) => {
            let node = Node { id: id_v as usize, children: kids, parent: None };
            proof {
                assert(node.shape() == Shape {
                    id: id_v as nat,
                    children: shapes_of(node.children@),
                });
                assert(node.links_cleared());
            }
            Ok((node, end))
        },
        Err(e) => Err(e),
    }
}

/// Decodes `n` consecutive subtrees starting at `pos`; mirrors
/// `parse_children` exactly.
fn parse_children_exec(bytes: &Vec<u8>, pos: usize, n: usize) -> (r: Result<
    (Vec<Node>, usize),
    DecodeError,
>)
    requires
        pos <= bytes@.len(),
    ensures
        match r {
            Ok(p) => {
                &&& pos <= p.1 <= bytes@.len()
                &&& parse_children(bytes@.skip(pos as int), n as nat) == Ok::<
                    (Seq<Shape>, Seq<u8>),
                    DecodeError,
                >((shapes_of(p.0@), bytes@.skip(p.1 as int)))
                &&& forall|i: int| 0 <= i < p.0@.len() ==> (#[trigger] p.0@[i]).links_cleared()
                &&& forall|i: int| 0 <= i < p.0@.len() ==> (#[trigger] p.0@[i]).parent is None
            },
            Err(e) => parse_children(bytes@.skip(pos as int), n as nat) == Err::<
                (Seq<Shape>, Seq<u8>),
                DecodeError,
            >(e),
        },
    decreases bytes@.len() - pos, 1int + n,
{
    if n == 0 {
        let kids: Vec<Node> = Vec::new();
        proof {
            assert(shapes_of(kids@) =~= Seq::<Shape>::empty());
        }
        return Ok((kids, pos));
    }
    match parse_node_exec(bytes, pos) {
        Ok((node, end)) => {
            if end > pos {
                match parse_children_exec(bytes, end, n - 1) {
                    Ok((mut kids, end2)) => {
                        let ghost kids0 = kids@;
                        kids.insert(0, node);
                        proof {
                            lemma_shapes_of_pointwise(kids0);
                            lemma_shapes_of_pointwise(kids@);
                            assert(forall|i: int|
                                0 <= i < kids0.len() ==> kids@[i + 1] == kids0[i]);
                            assert(shapes_of(kids@) =~= seq![node.shape()] + shapes_of(kids0));
                        }
                        Ok((kids, end2))
                    },
                    Err(e) => Err(e),
                }
            } else {
                Err(DecodeError::Truncated)
            }
        },
        Err(e) => Err(e),
    }
}

impl Tree {
    /// Encodes the tree's ownership structure — identifiers and child
    /// order, from the root down — as a byte stream. Back-references are
    /// never written: they are derived data, restored after a load by
    /// `rebuild_parent_links`. Encoding a well-formed in-memory tree cannot
    /// fail; delivering the bytes to a sink is the caller's concern.
    pub fn save(&self) -> (bytes: Vec<u8>)
        ensures
            bytes@ == encode_shape(self.root.shape()),
    {
        let mut bytes: Vec<u8> = Vec::new();
        encode_node(&self.root, &mut bytes);
        proof {
            assert(bytes@ =~= encode_shape(self.root.shape()));
        }
        bytes
    }

    /// Decodes a byte stream into a fresh tree. On success the ownership
    /// structure is exactly the decoded one and every node's back-reference
    /// is unresolved; the stream must hold one whole tree and nothing more,
    /// otherwise the exact reason comes back as a `DecodeError`.
    pub fn load(bytes: &Vec<u8>) -> (r: Result<Tree, DecodeError>)
        ensures
            match r {
                Ok(t) => {
                    &&& parse_tree(bytes@) == Ok::<Shape, DecodeError>(t.root.shape())
                    &&& t.root.links_cleared()
                    &&& t.root.parent is None
                },
                Err(e) => parse_tree(bytes@) == Err::<Shape, DecodeError>(e),
            },
    {
        proof {
            assert(bytes@.skip(0) =~= bytes@);
        }
        match parse_node_exec(bytes, 0) {
            Ok((node, end)) => {
                if end == bytes.len() {
                    proof {
                        assert(bytes@.skip(end as int).len() == 0);
                    }
                    Ok(Tree { root: node })
                } else {
                    proof {
                        assert(bytes@.skip(end as int).len() > 0);
                    }
                    Err(DecodeError::TrailingBytes)
                }
            },
            Err(e) => Err(e),
        }
    }
}

/// Law: decoding an encoded subtree gives the subtree back and consumes
/// exactly its bytes, whatever follows them.
pub proof fn lemma_parse_encode(s: Shape, tail: Seq<u8>)
    requires
        bounded_shape(s),
    ensures
        parse_node(encode_shape(s) + tail) == Ok::<(Shape, Seq<u8>), DecodeError>((s, tail)),
    decreases shape_size(s), 0int,
{
    let b = encode_shape(s) + tail;
    lemma_le_roundtrip(s.id as u64);
    lemma_le_roundtrip(s.children.len() as u64);
    lemma_encode_min_len(s);
    assert(forall|i: int| 0 <= i < 8 ==> b[i] == le_bytes(s.id as u64)[i]);
    assert(le_val(b) == s.id as u64);
    assert(forall|i: int| 0 <= i < 8 ==> b.skip(8)[i] == le_bytes(s.children.len() as u64)[i]);
    assert(le_val(b.skip(8)) == s.children.len() as u64);
    assert(b.skip(16) =~= encode_shapes(s.children) + tail);
    lemma_parse_children_encode(s.children, tail);
    assert((le_val(b) as nat) == s.id);
    assert((le_val(b.skip(8)) as nat) == s.children.len());
    assert(Shape { id: le_val(b) as nat, children: s.children } == s);
}

/// Law: decoding `q.len()` encoded subtrees gives them back in order.
pub proof fn lemma_parse_children_encode(q: Seq<Shape>, tail: Seq<u8>)
    requires
        forall|i: int| 0 <= i < q.len() ==> bounded_shape(#[trigger] q[i]),
    ensures
        parse_children(encode_shapes(q) + tail, q.len()) == Ok::<
            (Seq<Shape>, Seq<u8>),
            DecodeError,
        >((q, tail)),
    decreases shapes_size(q), 1int + q.len(),
{
    if q.len() == 0 {
        assert(encode_shapes(q) + tail =~= tail);
        assert(q =~= Seq::<Shape>::empty());
    } else {
        let b = encode_shapes(q) + tail;
        let rest = encode_shapes(q.drop_first()) + tail;
        assert(b =~= encode_shape(q[0]) + rest);
        lemma_shape_size_element(q, 0);
        assert(shape_size(q[0]) == 1 + shapes_size(q[0].children));
        assert(shapes_size(q) == shape_size(q[0]) + shapes_size(q.drop_first()));
        lemma_parse_encode(q[0], rest);
        lemma_encode_min_len(q[0]);
        assert(rest.len() < b.len());
        lemma_parse_children_encode(q.drop_first(), tail);
        assert(seq![q[0]] + q.drop_first() =~= q);
    }
}

/// Law: a save followed by a load restores exactly the saved ownership
/// structure, with no bytes left over. Together with the traversal's
/// contract this makes the enumeration of a reloaded tree equal that of the
/// tree that was saved.
pub proof fn lemma_save_load_roundtrip(s: Shape)
    requires
        bounded_shape(s),
    ensures
        parse_tree(encode_shape(s)) == Ok::<Shape, DecodeError>(s),
{
    lemma_parse_encode(s, Seq::empty());
    assert(encode_shape(s) + Seq::<u8>::empty() =~= encode_shape(s));
}

} // verus!
