use vstd::prelude::*;

use crate::seq_lemmas::lemma_flatten_contains;
use crate::set_block::{children_handles, lemma_octants_view};
use crate::tree::{Tree, SVO};
use crate::voxel_data::VoxelData;

verus! {

broadcast use vstd::std_specs::vec::group_vec_axioms;

/// Tag of a leaf in the byte format; four little-endian bytes of voxel type follow.
pub const VOXEL_TAG: u8 = 1;

/// Tag of an internal node in the byte format; it closes the eight nodes before it.
pub const OCTANT_TAG: u8 = 2;

/// Why a byte stream is not the encoding of a tree.
#[derive(Clone, Copy, Debug, PartialEq, Eq, Structural)]
pub enum DecodeError {
    /// A leaf tag without four bytes of payload after it.
    Truncated,
    /// A node tag with fewer than eight nodes before it.
    MissingChildren,
    /// A byte that is neither tag where a tag was due.
    UnknownTag { tag: u8 },
    /// The stream ended with this many nodes left instead of one root.
    RootCount { count: usize },
}

/// The four little-endian bytes of a 32-bit signed integer.
pub open spec fn le_bytes(x: i32) -> Seq<u8> {
    seq![x as u8, (x >> 8i32) as u8, (x >> 16i32) as u8, (x >> 24i32) as u8]
}

/// The 32-bit signed integer whose little-endian bytes are `b[0..4]`.
pub open spec fn le_value(b: Seq<u8>) -> i32 {
    ((b[0] as u32) | ((b[1] as u32) << 8u32) | ((b[2] as u32) << 16u32) | ((b[3] as u32) << 24u32)) as i32
}

proof fn lemma_le_round_trip(x: i32)
    ensures
        le_value(le_bytes(x)) == x,
{
    let b = le_bytes(x);
    assert(b[0] == x as u8 && b[1] == (x >> 8i32) as u8 && b[2] == (x >> 16i32) as u8 && b[3] == (x
        >> 24i32) as u8);
    assert((((x as u8) as u32) | ((((x >> 8i32) as u8) as u32) << 8u32) | ((((x >> 16i32) as u8) as u32)
        << 16u32) | ((((x >> 24i32) as u8) as u32) << 24u32)) as i32 == x) by (bit_vector);
}

/// Appends the four little-endian bytes of `x`.
fn write_i32_le(out: &mut Vec<u8>, x: i32)
    ensures
        final(out)@ == old(out)@ + le_bytes(x),
{
    out.push(x as u8);
    out.push((x >> 8i32) as u8);
    out.push((x >> 16i32) as u8);
    out.push((x >> 24i32) as u8);
    assert(out@ =~= old(out)@ + le_bytes(x));
}

/// Reads the little-endian integer in `bytes[pos..pos + 4]`.
fn read_i32_le(bytes: &[u8], pos: usize) -> (r: i32)
    requires
        pos + 4 <= bytes@.len(),
    ensures
        r == le_value(bytes@.subrange(pos as int, pos + 4)),
{
    let b0 = bytes[pos] as u32;
    let b1 = bytes[pos + 1] as u32;
    let b2 = bytes[pos + 2] as u32;
    let b3 = bytes[pos + 3] as u32;
    (b0 | (b1 << 8u32) | (b2 << 16u32) | (b3 << 24u32)) as i32
}

impl Tree {
    /// The byte encoding: children before their parent, each leaf as its tag
    /// and payload, each internal node as its eight children's encodings
    /// followed by its tag.
    pub open spec fn encoding(self) -> Seq<u8>
        decreases self,
    {
        match self {
            Tree::Leaf { data } => seq![VOXEL_TAG] + le_bytes(data.voxel_type),
            Tree::Node { children } => if children.len() == 8 {
                children[0].encoding() + children[1].encoding() + children[2].encoding()
                    + children[3].encoding() + children[4].encoding() + children[5].encoding()
                    + children[6].encoding() + children[7].encoding() + seq![OCTANT_TAG]
            } else {
                seq![OCTANT_TAG]
            },
        }
    }
}

/// The encodings of a sequence of trees, one after another.
pub open spec fn forest_encoding(ts: Seq<Tree>) -> Seq<u8>
    decreases ts.len(),
{
    if ts.len() == 0 {
        Seq::empty()
    } else {
        forest_encoding(ts.drop_last()) + ts.last().encoding()
    }
}

/// The decoder as a stack machine: the stack of decoded nodes after reading
/// all of `bytes` from `stack`, or the first error met.
pub open spec fn run(bytes: Seq<u8>, stack: Seq<Tree>) -> Result<Seq<Tree>, DecodeError>
    decreases bytes.len(),
{
    if bytes.len() == 0 {
        Ok(stack)
    } else if bytes[0] == VOXEL_TAG {
        if bytes.len() < 5 {
            Err(DecodeError::Truncated)
        } else {
            run(
                bytes.skip(5),
                stack.push(Tree::Leaf { data: VoxelData { voxel_type: le_value(bytes.subrange(1, 5)) } }),
            )
        }
    } else if bytes[0] == OCTANT_TAG {
        if stack.len() < 8 {
            Err(DecodeError::MissingChildren)
        } else {
            run(
                bytes.skip(1),
                stack.take(stack.len() - 8).push(Tree::Node { children: stack.skip(stack.len() - 8) }),
            )
        }
    } else {
        Err(DecodeError::UnknownTag { tag: bytes[0] })
    }
}

/// What decoding `bytes` gives: the single root left on the stack, or an error.
pub open spec fn decode_spec(bytes: Seq<u8>) -> Result<Tree, DecodeError> {
    match run(bytes, Seq::empty()) {
        Ok(stack) => if stack.len() == 1 {
            Ok(stack[0])
        } else {
            Err(DecodeError::RootCount { count: stack.len() as usize })
        },
        Err(e) => Err(e),
    }
}

/// The encodings of `cs[i..8]` followed by a node tag and `rest`.
spec fn node_suffix(cs: Seq<Tree>, i: int, rest: Seq<u8>) -> Seq<u8>
    decreases 8 - i,
{
    if i >= 8 {
        seq![OCTANT_TAG] + rest
    } else {
        cs[i].encoding() + node_suffix(cs, i + 1, rest)
    }
}

proof fn lemma_add_assoc(a: Seq<u8>, b: Seq<u8>, c: Seq<u8>)
    ensures
        (a + b) + c == a + (b + c),
{
    assert((a + b) + c =~= a + (b + c));
}

proof fn lemma_node_suffix(cs: Seq<Tree>, rest: Seq<u8>)
    requires
        cs.len() == 8,
    ensures
        (Tree::Node { children: cs }).encoding() + rest == node_suffix(cs, 0, rest),
{
    let e0 = cs[0].encoding();
    let e1 = cs[1].encoding();
    let e2 = cs[2].encoding();
    let e3 = cs[3].encoding();
    let e4 = cs[4].encoding();
    let e5 = cs[5].encoding();
    let e6 = cs[6].encoding();
    let e7 = cs[7].encoding();
    let p1 = e0;
    let p2 = p1 + e1;
    let p3 = p2 + e2;
    let p4 = p3 + e3;
    let p5 = p4 + e4;
    let p6 = p5 + e5;
    let p7 = p6 + e6;
    let p8 = p7 + e7;
    assert((Tree::Node { children: cs }).encoding() == p8 + seq![OCTANT_TAG]);
    lemma_add_assoc(p8, seq![OCTANT_TAG], rest);
    lemma_add_assoc(p7, e7, node_suffix(cs, 8, rest));
    lemma_add_assoc(p6, e6, node_suffix(cs, 7, rest));
    lemma_add_assoc(p5, e5, node_suffix(cs, 6, rest));
    lemma_add_assoc(p4, e4, node_suffix(cs, 5, rest));
    lemma_add_assoc(p3, e3, node_suffix(cs, 4, rest));
    lemma_add_assoc(p2, e2, node_suffix(cs, 3, rest));
    lemma_add_assoc(p1, e1, node_suffix(cs, 2, rest));
    assert(node_suffix(cs, 1, rest) == e1 + node_suffix(cs, 2, rest));
    assert(node_suffix(cs, 0, rest) == e0 + node_suffix(cs, 1, rest));
}

proof fn lemma_run_leaf(data: VoxelData, rest: Seq<u8>, stack: Seq<Tree>)
    ensures
        run((Tree::Leaf { data }).encoding() + rest, stack) == run(rest, stack.push(Tree::Leaf { data })),
{
    let all = (Tree::Leaf { data }).encoding() + rest;
    assert(all[0] == VOXEL_TAG);
    assert(all.subrange(1, 5) =~= le_bytes(data.voxel_type));
    assert(all.skip(5) =~= rest);
    lemma_le_round_trip(data.voxel_type);
}

proof fn lemma_push_take(stack: Seq<Tree>, cs: Seq<Tree>, k: int)
    requires
        0 <= k < cs.len(),
    ensures
        (stack + cs.take(k)).push(cs[k]) == stack + cs.take(k + 1),
{
    assert((stack + cs.take(k)).push(cs[k]) =~= stack + cs.take(k + 1));
}

proof fn lemma_run_close(stack: Seq<Tree>, cs: Seq<Tree>, rest: Seq<u8>)
    requires
        cs.len() == 8,
    ensures
        run(node_suffix(cs, 8, rest), stack + cs.take(8)) == run(rest, stack.push(Tree::Node { children: cs })),
{
    let all = node_suffix(cs, 8, rest);
    let st = stack + cs.take(8);
    assert(all[0] == OCTANT_TAG);
    assert(all.skip(1) =~= rest);
    assert(st.take(st.len() - 8) =~= stack);
    assert(st.skip(st.len() - 8) =~= cs);
}

#[verifier::rlimit(40)]
proof fn lemma_run_encoding(t: Tree, rest: Seq<u8>, stack: Seq<Tree>)
    requires
        t.wf(),
    ensures
        run(t.encoding() + rest, stack) == run(rest, stack.push(t)),
    decreases t,
{
    match t {
        Tree::Leaf { data } => {
            lemma_run_leaf(data, rest, stack);
        },
        Tree::Node { children: cs } => {
            assert(cs.len() == 8);
            lemma_node_suffix(cs, rest);
            assert(stack + cs.take(0) =~= stack);
            assert(cs[0].wf() && cs[1].wf() && cs[2].wf() && cs[3].wf());
            assert(cs[4].wf() && cs[5].wf() && cs[6].wf() && cs[7].wf());
            lemma_run_encoding(cs[0], node_suffix(cs, 1, rest), stack + cs.take(0));
            lemma_push_take(stack, cs, 0);
            lemma_run_encoding(cs[1], node_suffix(cs, 2, rest), stack + cs.take(1));
            lemma_push_take(stack, cs, 1);
            lemma_run_encoding(cs[2], node_suffix(cs, 3, rest), stack + cs.take(2));
            lemma_push_take(stack, cs, 2);
            lemma_run_encoding(cs[3], node_suffix(cs, 4, rest), stack + cs.take(3));
            lemma_push_take(stack, cs, 3);
            lemma_run_encoding(cs[4], node_suffix(cs, 5, rest), stack + cs.take(4));
            lemma_push_take(stack, cs, 4);
            lemma_run_encoding(cs[5], node_suffix(cs, 6, rest), stack + cs.take(5));
            lemma_push_take(stack, cs, 5);
            lemma_run_encoding(cs[6], node_suffix(cs, 7, rest), stack + cs.take(6));
            lemma_push_take(stack, cs, 6);
            lemma_run_encoding(cs[7], node_suffix(cs, 8, rest), stack + cs.take(7));
            lemma_push_take(stack, cs, 7);
            lemma_run_close(stack, cs, rest);
        },
    }
}

/// Decoding the encoding of a well-formed tree gives the same tree back.
pub proof fn lemma_round_trip(t: Tree)
    requires
        t.wf(),
    ensures
        decode_spec(t.encoding()) == Ok::<Tree, DecodeError>(t),
{
    lemma_run_encoding(t, Seq::empty(), Seq::empty());
    assert(t.encoding() + Seq::<u8>::empty() =~= t.encoding());
    assert(Seq::<u8>::empty().len() == 0);
    assert(Seq::<Tree>::empty().push(t)[0] == t);
}

proof fn lemma_forest_step(cs: Seq<Tree>, k: int)
    requires
        0 <= k < cs.len(),
    ensures
        forest_encoding(cs.take(k + 1)) == forest_encoding(cs.take(k)) + cs[k].encoding(),
{
    assert(cs.take(k + 1).drop_last() =~= cs.take(k));
}

proof fn lemma_forest_node(cs: Seq<Tree>)
    requires
        cs.len() == 8,
    ensures
        forest_encoding(cs.take(8)) + seq![OCTANT_TAG] == (Tree::Node { children: cs }).encoding(),
{
    assert(forest_encoding(cs.take(0)) == Seq::<u8>::empty()) by {
        assert(cs.take(0).len() == 0);
    }
    lemma_forest_step(cs, 0);
    assert(Seq::<u8>::empty() + cs[0].encoding() =~= cs[0].encoding());
    lemma_forest_step(cs, 1);
    lemma_forest_step(cs, 2);
    lemma_forest_step(cs, 3);
    lemma_forest_step(cs, 4);
    lemma_forest_step(cs, 5);
    lemma_forest_step(cs, 6);
    lemma_forest_step(cs, 7);
}

/// The trees that a stack of nodes stands for.
pub open spec fn stack_view(s: Seq<SVO>) -> Seq<Tree> {
    s.map_values(|t: SVO| t@)
}

impl SVO {
    /// Appends the byte encoding of this tree to `out`.
    pub fn write_to(&self, out: &mut Vec<u8>)
        requires
            self@.wf(),
        ensures
            final(out)@ == old(out)@ + self@.encoding(),
        decreases self@,
    {
        match self {
            SVO::Voxel { data, .. } => {
                out.push(VOXEL_TAG);
                write_i32_le(out, data.voxel_type);
                assert(out@ =~= old(out)@ + self@.encoding());
            },
            SVO::Octants(v) => {
                let ghost cs = self@->children;
                proof {
                    assert(cs == seq![v[0]@, v[1]@, v[2]@, v[3]@, v[4]@, v[5]@, v[6]@, v[7]@]);
                    assert(cs.take(0) =~= Seq::<Tree>::empty());
                    assert(out@ =~= old(out)@ + forest_encoding(cs.take(0)));
                }
                let mut i: usize = 0;
                while i < 8
                    invariant
                        0 <= i <= 8,
                        v.len() == 8,
                        cs.len() == 8,
                        self@ == (Tree::Node { children: cs }),
                        forall|j: int| 0 <= j < 8 ==> #[trigger] cs[j] == v@[j]@,
                        forall|j: int| 0 <= j < 8 ==> (#[trigger] cs[j]).wf(),
                        out@ == old(out)@ + forest_encoding(cs.take(i as int)),
                    decreases 8 - i,
                {
                    proof {
                        assert(decreases_to!(self@ => self@->Node_children));
                        assert(decreases_to!(self@->Node_children => self@->Node_children[i as int]));
                    }
                    v[i].write_to(out);
                    proof {
                        lemma_forest_step(cs, i as int);
                        assert(out@ =~= old(out)@ + forest_encoding(cs.take(i + 1)));
                    }
                    i = i + 1;
                }
                out.push(OCTANT_TAG);
                proof {
                    lemma_forest_node(cs);
                    assert(out@ =~= old(out)@ + self@.encoding());
                }
            },
        }
    }

    /// Decodes a byte stream into a tree. Decoded leaves carry the handle `0`:
    /// they are not registered with any outside mirror.
    pub fn read_from(bytes: &[u8]) -> (r: Result<SVO, DecodeError>)
        ensures
            decode_spec(bytes@) == match r {
                Ok(t) => Ok(t@),
                Err(e) => Err::<Tree, DecodeError>(e),
            },
            r matches Ok(t) ==> t@.wf(),
            r matches Ok(t) ==> forall|h: u32| #[trigger] t.handles().contains(h) ==> h == 0,
    {
        let mut stack: Vec<SVO> = Vec::new();
        let mut pos: usize = 0;
        proof {
            assert(bytes@.skip(0) =~= bytes@);
            assert(stack_view(stack@) =~= Seq::<Tree>::empty());
        }
        while pos < bytes.len()
            invariant
                pos <= bytes@.len(),
                forall|j: int| 0 <= j < stack.len() ==> (#[trigger] stack@[j])@.wf(),
                forall|j: int, h: u32| 0 <= j < stack.len() && #[trigger] stack@[j].handles().contains(h) ==> h == 0,
                run(bytes@, Seq::empty()) == run(bytes@.skip(pos as int), stack_view(stack@)),
            decreases bytes@.len() - pos,
        {
            let ghost rest = bytes@.skip(pos as int);
            let ghost sv = stack_view(stack@);
            let tag = bytes[pos];
            assert(rest[0] == tag);
            if tag == VOXEL_TAG {
                if bytes.len() - pos < 5 {
                    return Err(DecodeError::Truncated);
                }
                let x = read_i32_le(bytes, pos + 1);
                stack.push(SVO::Voxel { data: VoxelData::new(x), external_id: 0 });
                proof {
                    assert(rest.subrange(1, 5) =~= bytes@.subrange(pos + 1, pos + 5));
                    assert(rest.skip(5) =~= bytes@.skip(pos + 5));
                    assert(stack_view(stack@) =~= sv.push(Tree::Leaf { data: VoxelData { voxel_type: x } }));
                    assert(stack@[stack.len() - 1].handles() == seq![0u32]);
                }
                pos = pos + 5;
            } else if tag == OCTANT_TAG {
                if stack.len() < 8 {
                    return Err(DecodeError::MissingChildren);
                }
                let at = stack.len() - 8;
                let ghost before = stack@;
                let children = stack.split_off(at);
                let ghost node = SVO::Octants(children);
                proof {
                    assert(children@ == before.subrange(at as int, before.len() as int));
                    assert(node@ == Tree::Node {
                        children: seq![children[0]@, children[1]@, children[2]@, children[3]@, children[4]@, children[5]@, children[6]@, children[7]@],
                    });
                    assert(node@->children =~= sv.skip(sv.len() - 8));
                    assert forall|j: int| 0 <= j < 8 implies (#[trigger] node@->children[j]).wf() by {
                        assert(node@->children[j] == before[at + j]@);
                    }
                    lemma_octants_view(children);
                    assert forall|h: u32| #[trigger] node.handles().contains(h) implies h == 0 by {
                        let parts = children_handles(children@, 8);
                        lemma_flatten_contains(parts, h);
                        let j = choose|j: int| 0 <= j < parts.len() && #[trigger] parts[j].contains(h);
                        assert(parts[j] == before[at + j].handles());
                    }
                }
                stack.push(SVO::Octants(children));
                proof {
                    assert(stack_view(stack@) =~= sv.take(sv.len() - 8).push(node@));
                    assert(rest.skip(1) =~= bytes@.skip(pos + 1));
                }
                pos = pos + 1;
            } else {
                return Err(DecodeError::UnknownTag { tag });
            }
        }
        proof {
            assert(bytes@.skip(pos as int).len() == 0);
        }
        if stack.len() != 1 {
            return Err(DecodeError::RootCount { count: stack.len() });
        }
        match stack.pop() {
            Some(t) => {
                proof {
                    assert(stack_view(stack@.push(t))[0] == t@);
                    assert(stack@.push(t)[0] == t);
                }
                Ok(t)
            },
            None => Err(DecodeError::RootCount { count: 0 }),
        }
    }
}

} // verus!
