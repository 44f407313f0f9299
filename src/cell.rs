use vstd::prelude::*;

verus! {

/// The deepest level that a cell position can describe.
pub const MAX_DEPTH: u32 = 30;

/// Octant index of the cell above the midpoint on the given axes:
/// bit 0 is x, bit 1 is y, bit 2 is z.
pub open spec fn octant_of(above_x: bool, above_y: bool, above_z: bool) -> u8 {
    ((if above_x { 1u8 } else { 0u8 }) + (if above_y { 2u8 } else { 0u8 }) + (if above_z { 4u8 } else { 0u8 })) as u8
}

/// Whether octant `ix` lies in the upper half along `axis` (0 = x, 1 = y, 2 = z).
pub open spec fn octant_above(ix: u8, axis: int) -> bool {
    if axis == 0 {
        ix % 2 == 1
    } else if axis == 1 {
        (ix / 2) % 2 == 1
    } else {
        (ix / 4) % 2 == 1
    }
}

/// Whether every step of `path` names one of the eight octants.
pub open spec fn is_octant_path(path: Seq<u8>) -> bool {
    forall|i: int| 0 <= i < path.len() ==> #[trigger] path[i] < 8
}

/// The octant index of a point from the three "above the midpoint" flags.
pub fn index(above_x: bool, above_y: bool, above_z: bool) -> (r: u8)
    ensures
        r == octant_of(above_x, above_y, above_z),
        r < 8,
{
    let x: u8 = if above_x { 1 } else { 0 };
    let y: u8 = if above_y { 2 } else { 0 };
    let z: u8 = if above_z { 4 } else { 0 };
    x + y + z
}

/// The three "above the midpoint" flags of an octant index.
pub fn above_axis(ix: u8) -> (r: (bool, bool, bool))
    requires
        ix < 8,
    ensures
        r.0 == octant_above(ix, 0),
        r.1 == octant_above(ix, 1),
        r.2 == octant_above(ix, 2),
{
    (ix % 2 == 1, (ix / 2) % 2 == 1, (ix / 4) % 2 == 1)
}

/// Splitting an octant index into its axis flags and joining them again
/// gives the index back, and joining flags then splitting gives the flags.
pub proof fn lemma_index_above_axis_inverse(ix: u8, above_x: bool, above_y: bool, above_z: bool)
    requires
        ix < 8,
    ensures
        octant_of(octant_above(ix, 0), octant_above(ix, 1), octant_above(ix, 2)) == ix,
        octant_above(octant_of(above_x, above_y, above_z), 0) == above_x,
        octant_above(octant_of(above_x, above_y, above_z), 1) == above_y,
        octant_above(octant_of(above_x, above_y, above_z), 2) == above_z,
{
}

/// The order in which a ray query tries the children of a node, given the
/// flags of the octant that holds the entry point: that octant first, then
/// each single-axis flip, then each two-axis flip, then the opposite octant.
pub open spec fn probe_order_spec(x: bool, y: bool, z: bool) -> Seq<u8> {
    seq![
        octant_of(x, y, z),
        octant_of(!x, y, z),
        octant_of(x, !y, z),
        octant_of(x, y, !z),
        octant_of(x, !y, !z),
        octant_of(!x, y, !z),
        octant_of(!x, !y, z),
        octant_of(!x, !y, !z),
    ]
}

/// The children of a node in the order in which a ray query tries them.
pub fn probe_order(above_x: bool, above_y: bool, above_z: bool) -> (r: Vec<u8>)
    ensures
        r@ == probe_order_spec(above_x, above_y, above_z),
{
    let (x, y, z) = (above_x, above_y, above_z);
    vec![
        index(x, y, z),
        index(!x, y, z),
        index(x, !y, z),
        index(x, y, !z),
        index(x, !y, !z),
        index(!x, y, !z),
        index(!x, !y, z),
        index(!x, !y, !z),
    ]
}

/// Every octant is tried exactly once.
pub proof fn lemma_probe_order_is_permutation(x: bool, y: bool, z: bool)
    ensures
        probe_order_spec(x, y, z).len() == 8,
        forall|ix: u8| ix < 8 ==> probe_order_spec(x, y, z).contains(ix),
        forall|i: int, j: int|
            0 <= i < j < 8 ==> probe_order_spec(x, y, z)[i] != probe_order_spec(x, y, z)[j],
{
    let s = probe_order_spec(x, y, z);
    assert forall|ix: u8| ix < 8 implies s.contains(ix) by {
        let xi = octant_above(ix, 0);
        let yi = octant_above(ix, 1);
        let zi = octant_above(ix, 2);
        lemma_index_above_axis_inverse(ix, x, y, z);
        let k: int = if xi == x {
            if yi == y {
                if zi == z { 0 } else { 3 }
            } else {
                if zi == z { 2 } else { 4 }
            }
        } else {
            if yi == y {
                if zi == z { 1 } else { 5 }
            } else {
                if zi == z { 6 } else { 7 }
            }
        };
        assert(s[k] == ix);
    }
}

/// The cube of a node: its minimum corner is `(x, y, z) / 2^depth` in the
/// coordinates of the root's unit cube, and its side is `1 / 2^depth`.
#[derive(Clone, Copy, Debug, PartialEq, Eq, Structural)]
pub struct CellPos {
    pub depth: u32,
    pub x: u32,
    pub y: u32,
    pub z: u32,
}

pub open spec fn pow2(n: nat) -> nat
    decreases n,
{
    if n == 0 { 1 } else { 2 * pow2((n - 1) as nat) }
}

impl CellPos {
    /// A cell lies inside the root cube and no deeper than `MAX_DEPTH`.
    pub open spec fn wf(self) -> bool {
        &&& self.depth <= MAX_DEPTH
        &&& self.x < pow2(self.depth as nat)
        &&& self.y < pow2(self.depth as nat)
        &&& self.z < pow2(self.depth as nat)
    }

    pub open spec fn child_spec(self, ix: u8) -> CellPos {
        CellPos {
            depth: (self.depth + 1) as u32,
            x: (2 * self.x + (if octant_above(ix, 0) { 1int } else { 0 })) as u32,
            y: (2 * self.y + (if octant_above(ix, 1) { 1int } else { 0 })) as u32,
            z: (2 * self.z + (if octant_above(ix, 2) { 1int } else { 0 })) as u32,
        }
    }

    /// The root's own cube.
    pub fn root() -> (r: CellPos)
        ensures
            r.wf(),
            r == (CellPos { depth: 0, x: 0, y: 0, z: 0 }),
    {
        CellPos { depth: 0, x: 0, y: 0, z: 0 }
    }

    /// The cube of child `ix` of a node whose cube is `self`.
    pub fn child(&self, ix: u8) -> (r: CellPos)
        requires
            self.wf(),
            self.depth < MAX_DEPTH,
            ix < 8,
        ensures
            r == self.child_spec(ix),
            r.wf(),
    {
        proof {
            lemma_pow2_bound(self.depth as nat);
        }
        let (ax, ay, az) = above_axis(ix);
        let dx: u32 = if ax { 1 } else { 0 };
        let dy: u32 = if ay { 1 } else { 0 };
        let dz: u32 = if az { 1 } else { 0 };
        CellPos { depth: self.depth + 1, x: 2 * self.x + dx, y: 2 * self.y + dy, z: 2 * self.z + dz }
    }
}

proof fn lemma_pow2_monotone(n: nat, m: nat)
    requires
        n <= m,
    ensures
        pow2(n) <= pow2(m),
    decreases m - n,
{
    if n < m {
        lemma_pow2_monotone(n, (m - 1) as nat);
    }
}

proof fn lemma_pow2_bound(n: nat)
    requires
        n < MAX_DEPTH,
    ensures
        2 * pow2(n) <= 0x4000_0000,
        pow2(n + 1) == 2 * pow2(n),
{
    reveal_with_fuel(pow2, 30);
    assert(pow2(29) == 0x2000_0000);
    lemma_pow2_monotone(n, 29);
}

} // verus!
