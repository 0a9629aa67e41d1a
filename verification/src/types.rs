//! Data of a quantized mesh: vertices, edges, water mask and tile availability.
use vstd::arithmetic::power2::{lemma_pow2_strictly_increases, pow2};
use vstd::prelude::*;

verus! {

/// Largest quantized coordinate.
pub const QUANTIZED_MAX: u16 = 32767;

/// Number of cells of a water mask grid, 256 a side.
pub const WATER_MASK_LEN: usize = 65536;

/// Quantized vertices, each coordinate from 0 to [`QUANTIZED_MAX`].
#[derive(Debug, Clone)]
pub struct QuantizedVertices {
    /// Horizontal positions, from the west edge to the east edge.
    pub u: Vec<u16>,
    /// Vertical positions, from the south edge to the north edge.
    pub v: Vec<u16>,
    /// Heights, from the lowest to the highest.
    pub height: Vec<u16>,
}

impl QuantizedVertices {
    /// Every vertex has all three coordinates.
    pub open spec fn wf(&self) -> bool {
        self.u@.len() == self.v@.len() && self.u@.len() == self.height@.len()
    }

    /// Creates vertices, none yet.
    pub fn new() -> (vertices: QuantizedVertices)
        ensures
            vertices.wf(),
            vertices.u@ == Seq::<u16>::empty(),
            vertices.v@ == Seq::<u16>::empty(),
            vertices.height@ == Seq::<u16>::empty(),
    {
        QuantizedVertices { u: Vec::new(), v: Vec::new(), height: Vec::new() }
    }

    /// Creates vertices, none yet, with room for `capacity` of them.
    pub fn with_capacity(capacity: usize) -> (vertices: QuantizedVertices)
        ensures
            vertices.wf(),
            vertices.u@ == Seq::<u16>::empty(),
            vertices.v@ == Seq::<u16>::empty(),
            vertices.height@ == Seq::<u16>::empty(),
    {
        QuantizedVertices {
            u: Vec::with_capacity(capacity),
            v: Vec::with_capacity(capacity),
            height: Vec::with_capacity(capacity),
        }
    }

    /// Number of vertices.
    pub fn len(&self) -> (n: usize)
        ensures
            n == self.u@.len(),
    {
        self.u.len()
    }

    /// Whether there are no vertices.
    pub fn is_empty(&self) -> (empty: bool)
        ensures
            empty == (self.u@.len() == 0),
    {
        self.u.len() == 0
    }

    /// Adds a vertex.
    pub fn push(&mut self, u: u16, v: u16, height: u16)
        ensures
            final(self).u@ == old(self).u@.push(u),
            final(self).v@ == old(self).v@.push(v),
            final(self).height@ == old(self).height@.push(height),
            old(self).wf() ==> final(self).wf(),
    {
        self.u.push(u);
        self.v.push(v);
        self.height.push(height);
    }
}

impl Default for QuantizedVertices {
    fn default() -> (vertices: QuantizedVertices)
        ensures
            vertices.wf(),
            vertices.u@ == Seq::<u16>::empty(),
            vertices.v@ == Seq::<u16>::empty(),
            vertices.height@ == Seq::<u16>::empty(),
    {
        QuantizedVertices::new()
    }
}

/// Numbers of the vertices on each edge of the tile, in the order along the edge.
#[derive(Debug, Clone)]
pub struct EdgeIndices {
    /// West edge, from south to north.
    pub west: Vec<u32>,
    /// South edge, from west to east.
    pub south: Vec<u32>,
    /// East edge, from south to north.
    pub east: Vec<u32>,
    /// North edge, from west to east.
    pub north: Vec<u32>,
}

/// `a` comes before `b` along an edge: at a lower place, or at the same with a lower number.
pub open spec fn before(along: Seq<u16>, a: int, b: int) -> bool {
    along[a] < along[b] || (along[a] == along[b] && a < b)
}

/// `p` lists the positions with `across[i] == at`, in the order along the edge.
pub open spec fn is_edge_order(p: Seq<int>, across: Seq<u16>, along: Seq<u16>, at: u16) -> bool {
    &&& forall|i: int|
        #[trigger] p.contains(i) <==> 0 <= i < across.len() && i < along.len() && across[i] == at
    &&& forall|a: int, b: int| 0 <= a < b < p.len() ==> before(along, p[a], p[b])
}

/// `list` holds the numbers of the vertices with `across[i] == at`, in the order along the
/// edge.
pub open spec fn is_edge(list: Seq<u32>, across: Seq<u16>, along: Seq<u16>, at: u16) -> bool {
    exists|p: Seq<int>|
        #[trigger] is_edge_order(p, across, along, at) && list.len() == p.len() && forall|j: int|
            0 <= j < p.len() ==> list[j] == #[trigger] p[j] as u32
}

/// An edge lists the vertices on it and no others, each once, from its lower end to its upper
/// end; vertices at the same place come in the order of their numbers.
pub proof fn law_edge_lists_vertices(list: Seq<u32>, across: Seq<u16>, along: Seq<u16>, at: u16)
    requires
        is_edge(list, across, along, at),
        across.len() == along.len() <= u32::MAX,
    ensures
        forall|i: u32| #[trigger] list.contains(i) <==> i < across.len() && across[i as int] == at,
        forall|a: int, b: int|
            0 <= a < b < list.len() ==> along[#[trigger] list[a] as int] < along[
                #[trigger] list[b] as int] || (along[list[a] as int] == along[list[b] as int]
                && list[a] < list[b]),
{
    let p = choose|p: Seq<int>|
        #[trigger] is_edge_order(p, across, along, at) && list.len() == p.len() && forall|j: int|
            0 <= j < p.len() ==> list[j] == #[trigger] p[j] as u32;
    assert forall|j: int| 0 <= j < p.len() implies list[j] == #[trigger] p[j] && 0 <= p[j]
        < across.len() && across[p[j]] == at by {
        assert(p.contains(p[j]));
    }
    assert forall|i: u32| #[trigger] list.contains(i) <==> i < across.len() && across[i as int]
        == at by {
        if list.contains(i) {
            let j = list.index_of(i);
            assert(list[j] == p[j]);
        }
        if i < across.len() && across[i as int] == at {
            assert(p.contains(i as int));
            let j = p.index_of(i as int);
            assert(list[j] == i);
        }
    }
    assert forall|a: int, b: int| 0 <= a < b < list.len() implies along[#[trigger] list[a] as int]
        < along[#[trigger] list[b] as int] || (along[list[a] as int] == along[list[b] as int]
        && list[a] < list[b]) by {
        assert(list[a] == p[a] && list[b] == p[b]);
        assert(before(along, p[a], p[b]));
    }
}

/// Stable merge sort of the positions of an edge.
fn sort_along(items: &Vec<usize>, along: &Vec<u16>, lo: usize, hi: usize) -> (out: Vec<usize>)
    requires
        lo <= hi <= items.len(),
        forall|a: int, b: int| 0 <= a < b < items.len() ==> items@[a] < items@[b],
        forall|a: int| 0 <= a < items.len() ==> items@[a] < along.len(),
    ensures
        out.len() == hi - lo,
        forall|a: int, b: int|
            0 <= a < b < out.len() ==> before(along@, out@[a] as int, out@[b] as int),
        forall|x: usize| out@.contains(x) <==> #[trigger] items@.subrange(
            lo as int,
            hi as int,
        ).contains(x),
    decreases hi - lo,
{
    if hi - lo <= 1 {
        let mut out: Vec<usize> = Vec::new();
        if lo < hi {
            out.push(items[lo]);
        }
        assert(out@ =~= items@.subrange(lo as int, hi as int));
        return out;
    }
    let mid: usize = lo + (hi - lo) / 2;
    let left = sort_along(items, along, lo, mid);
    let right = sort_along(items, along, mid, hi);
    let ghost first = items@.subrange(lo as int, mid as int);
    let ghost second = items@.subrange(mid as int, hi as int);
    proof {
        assert forall|a: int| 0 <= a < left.len() implies #[trigger] left@[a] < along.len()
            && first.contains(left@[a]) by {
            assert(left@.contains(left@[a]));
            assert(first.contains(left@[a]));
        }
        assert forall|b: int| 0 <= b < right.len() implies #[trigger] right@[b] < along.len()
            && second.contains(right@[b]) by {
            assert(right@.contains(right@[b]));
            assert(second.contains(right@[b]));
        }
        assert forall|a: int, b: int| 0 <= a < left.len() && 0 <= b < right.len() implies left@[a]
            < right@[b] by {
            let i = choose|i: int| 0 <= i < first.len() && first[i] == left@[a];
            let j = choose|j: int| 0 <= j < second.len() && second[j] == right@[b];
            assert(items@[lo + i] < items@[mid + j]);
        }
    }
    let out = merge_along(&left, &right, along);
    proof {
        let all = items@.subrange(lo as int, hi as int);
        assert(all =~= first + second);
        assert forall|x: usize| out@.contains(x) <==> #[trigger] all.contains(x) by {
            if first.contains(x) {
                let i = choose|i: int| 0 <= i < first.len() && first[i] == x;
                assert(all[i] == x);
            }
            if second.contains(x) {
                let i = choose|i: int| 0 <= i < second.len() && second[i] == x;
                assert(all[first.len() + i] == x);
            }
            if all.contains(x) {
                let i = choose|i: int| 0 <= i < all.len() && all[i] == x;
                if i < first.len() {
                    assert(first[i] == x);
                } else {
                    assert(second[i - first.len()] == x);
                }
            }
        }
    }
    out
}

/// Merges two sorted runs; every position of the left one is lower.
fn merge_along(left: &Vec<usize>, right: &Vec<usize>, along: &Vec<u16>) -> (out: Vec<usize>)
    requires
        left.len() + right.len() <= usize::MAX,
        forall|a: int| 0 <= a < left.len() ==> #[trigger] left@[a] < along.len(),
        forall|b: int| 0 <= b < right.len() ==> #[trigger] right@[b] < along.len(),
        forall|a: int, b: int|
            0 <= a < b < left.len() ==> before(along@, left@[a] as int, left@[b] as int),
        forall|a: int, b: int|
            0 <= a < b < right.len() ==> before(along@, right@[a] as int, right@[b] as int),
        forall|a: int, b: int|
            0 <= a < left.len() && 0 <= b < right.len() ==> left@[a] < right@[b],
    ensures
        out.len() == left.len() + right.len(),
        forall|a: int, b: int|
            0 <= a < b < out.len() ==> before(along@, out@[a] as int, out@[b] as int),
        forall|x: usize|
            #[trigger] out@.contains(x) <==> left@.contains(x) || right@.contains(x),
{
    let mut out: Vec<usize> = Vec::new();
    let mut i: usize = 0;
    let mut j: usize = 0;
    while i < left.len() || j < right.len()
        invariant
            i <= left.len(),
            j <= right.len(),
            left.len() + right.len() <= usize::MAX,
            out.len() == i + j,
            forall|a: int| 0 <= a < left.len() ==> #[trigger] left@[a] < along.len(),
            forall|b: int| 0 <= b < right.len() ==> #[trigger] right@[b] < along.len(),
            forall|a: int, b: int|
                0 <= a < b < left.len() ==> before(along@, left@[a] as int, left@[b] as int),
            forall|a: int, b: int|
                0 <= a < b < right.len() ==> before(along@, right@[a] as int, right@[b] as int),
            forall|a: int, b: int|
                0 <= a < left.len() && 0 <= b < right.len() ==> left@[a] < right@[b],
            forall|a: int, b: int|
                0 <= a < b < out.len() ==> before(along@, out@[a] as int, out@[b] as int),
            forall|a: int, b: int|
                0 <= a < out.len() && i <= b < left.len() ==> before(
                    along@,
                    out@[a] as int,
                    left@[b] as int,
                ),
            forall|a: int, b: int|
                0 <= a < out.len() && j <= b < right.len() ==> before(
                    along@,
                    out@[a] as int,
                    right@[b] as int,
                ),
            forall|a: int|
                0 <= a < out.len() ==> left@.contains(#[trigger] out@[a]) || right@.contains(
                    out@[a],
                ),
            forall|a: int| 0 <= a < i ==> out@.contains(#[trigger] left@[a]),
            forall|b: int| 0 <= b < j ==> out@.contains(#[trigger] right@[b]),
        decreases left.len() - i + right.len() - j,
    {
        let ghost so_far = out@;
        let take_left: bool = if i == left.len() {
            false
        } else if j == right.len() {
            true
        } else {
            along[left[i]] <= along[right[j]]
        };
        let next: usize = if take_left {
            left[i]
        } else {
            right[j]
        };
        out.push(next);
        proof {
            assert(out@[so_far.len() as int] == next);
            assert forall|x: usize| so_far.contains(x) implies #[trigger] out@.contains(x) by {
                let a = choose|a: int| 0 <= a < so_far.len() && so_far[a] == x;
                assert(out@[a] == x);
            }
        }
        proof {
            assert forall|b: int| (if take_left { i + 1 } else { i as int }) <= b
                < left.len() implies before(along@, next as int, #[trigger] left@[b] as int) by {
                if !take_left {
                    assert(before(along@, right@[j as int] as int, left@[i as int] as int));
                    assert(i == b || before(along@, left@[i as int] as int, left@[b] as int));
                }
            }
            assert forall|b: int| (if take_left { j as int } else { j + 1 }) <= b
                < right.len() implies before(along@, next as int, #[trigger] right@[b] as int) by {
                if take_left {
                    assert(before(along@, left@[i as int] as int, right@[j as int] as int));
                    assert(j == b || before(along@, right@[j as int] as int, right@[b] as int));
                }
            }
        }
        if take_left {
            i = i + 1;
        } else {
            j = j + 1;
        }
    }
    proof {
        assert forall|x: usize| #[trigger] out@.contains(x) <==> left@.contains(x)
            || right@.contains(x) by {
            if out@.contains(x) {
                let a = choose|a: int| 0 <= a < out@.len() && out@[a] == x;
            }
            if left@.contains(x) {
                let a = choose|a: int| 0 <= a < left@.len() && left@[a] == x;
            }
            if right@.contains(x) {
                let a = choose|a: int| 0 <= a < right@.len() && right@[a] == x;
            }
        }
    }
    out
}

/// Lists the vertices with `across[i] == at` in the order along the edge.
fn edge_indices(across: &Vec<u16>, along: &Vec<u16>, at: u16) -> (list: Vec<u32>)
    ensures
        is_edge(list@, across@, along@, at),
{
    let count: usize = if across.len() <= along.len() {
        across.len()
    } else {
        along.len()
    };
    let mut found: Vec<usize> = Vec::new();
    let mut i: usize = 0;
    while i < count
        invariant
            i <= count,
            count <= across.len(),
            count <= along.len(),
            forall|a: int, b: int| 0 <= a < b < found.len() ==> found@[a] < found@[b],
            forall|a: int|
                0 <= a < found.len() ==> (#[trigger] found@[a]) < i && across@[found@[a] as int]
                    == at,
            forall|k: usize|
                k < i && #[trigger] across@[k as int] == at ==> found@.contains(k),
        decreases count - i,
    {
        if across[i] == at {
            let ghost so_far = found@;
            found.push(i);
            proof {
                assert(found@[so_far.len() as int] == i);
                assert forall|k: usize| so_far.contains(k) implies #[trigger] found@.contains(
                    k,
                ) by {
                    let a = choose|a: int| 0 <= a < so_far.len() && so_far[a] == k;
                    assert(found@[a] == k);
                }
            }
        }
        i = i + 1;
    }
    let sorted = sort_along(&found, along, 0, found.len());
    assert(found@.subrange(0, found@.len() as int) =~= found@);
    let mut list: Vec<u32> = Vec::new();
    let mut j: usize = 0;
    while j < sorted.len()
        invariant
            j <= sorted.len(),
            list.len() == j,
            forall|a: int| 0 <= a < j ==> #[trigger] list@[a] == sorted@[a] as u32,
        decreases sorted.len() - j,
    {
        list.push(sorted[j] as u32);
        j = j + 1;
    }
    proof {
        let p = sorted@.map_values(|x: usize| x as int);
        assert forall|k: int|
            #[trigger] p.contains(k) <==> 0 <= k < across@.len() && k < along@.len() && across@[k]
                == at by {
            if p.contains(k) {
                let a = choose|a: int| 0 <= a < p.len() && p[a] == k;
                assert(sorted@.contains(sorted@[a]));
                assert(found@.contains(sorted@[a]));
                let b = choose|b: int| 0 <= b < found@.len() && found@[b] == sorted@[a];
            }
            if 0 <= k < across@.len() && k < along@.len() && across@[k] == at {
                assert(found@.contains(k as usize));
                assert(sorted@.contains(k as usize));
                let a = choose|a: int| 0 <= a < sorted@.len() && sorted@[a] == k as usize;
                assert(p[a] == k);
            }
        }
        assert(is_edge_order(p, across@, along@, at));
    }
    list
}

impl EdgeIndices {
    /// Creates edges without vertices.
    pub fn new() -> (edges: EdgeIndices)
        ensures
            edges.west@ == Seq::<u32>::empty(),
            edges.south@ == Seq::<u32>::empty(),
            edges.east@ == Seq::<u32>::empty(),
            edges.north@ == Seq::<u32>::empty(),
    {
        EdgeIndices { west: Vec::new(), south: Vec::new(), east: Vec::new(), north: Vec::new() }
    }

    /// Finds the vertices on the edges of the tile: those with `u` or `v` at 0 or at
    /// [`QUANTIZED_MAX`].
    pub fn from_vertices(vertices: &QuantizedVertices) -> (edges: EdgeIndices)
        ensures
            is_edge(edges.west@, vertices.u@, vertices.v@, 0),
            is_edge(edges.east@, vertices.u@, vertices.v@, QUANTIZED_MAX),
            is_edge(edges.south@, vertices.v@, vertices.u@, 0),
            is_edge(edges.north@, vertices.v@, vertices.u@, QUANTIZED_MAX),
    {
        EdgeIndices {
            west: edge_indices(&vertices.u, &vertices.v, 0),
            south: edge_indices(&vertices.v, &vertices.u, 0),
            east: edge_indices(&vertices.u, &vertices.v, QUANTIZED_MAX),
            north: edge_indices(&vertices.v, &vertices.u, QUANTIZED_MAX),
        }
    }
}

impl Default for EdgeIndices {
    fn default() -> (edges: EdgeIndices)
        ensures
            edges.west@ == Seq::<u32>::empty(),
            edges.south@ == Seq::<u32>::empty(),
            edges.east@ == Seq::<u32>::empty(),
            edges.north@ == Seq::<u32>::empty(),
    {
        EdgeIndices::new()
    }
}

/// There is only one order along an edge: what [`EdgeIndices::from_vertices`] finds is
/// determined by the vertices.
pub proof fn law_edge_order_unique(
    p: Seq<int>,
    q: Seq<int>,
    across: Seq<u16>,
    along: Seq<u16>,
    at: u16,
)
    requires
        is_edge_order(p, across, along, at),
        is_edge_order(q, across, along, at),
    ensures
        p == q,
{
    lemma_edge_order_prefix(p, q, across, along, at, p.len() as int);
    lemma_edge_order_prefix(q, p, across, along, at, q.len() as int);
    assert(p =~= q);
}

proof fn lemma_edge_order_prefix(
    p: Seq<int>,
    q: Seq<int>,
    across: Seq<u16>,
    along: Seq<u16>,
    at: u16,
    n: int,
)
    requires
        is_edge_order(p, across, along, at),
        is_edge_order(q, across, along, at),
        0 <= n <= p.len(),
    ensures
        n <= q.len(),
        forall|j: int| 0 <= j < n ==> p[j] == q[j],
    decreases n,
{
    if n > 0 {
        lemma_edge_order_prefix(p, q, across, along, at, n - 1);
        let x = p[n - 1];
        assert(p.contains(x));
        assert(q.contains(x));
        let j = choose|j: int| 0 <= j < q.len() && q[j] == x;
        if j < n - 1 {
            assert(before(along, p[j], p[n - 1]));
        } else if j > n - 1 {
            let y = q[n - 1];
            assert(q.contains(y));
            assert(p.contains(y));
            let i = choose|i: int| 0 <= i < p.len() && p[i] == y;
            assert(before(along, q[n - 1], q[j]));
            if i < n - 1 {
                assert(before(along, q[i], q[n - 1]));
            } else {
                assert(before(along, p[n - 1], p[i]));
            }
        }
    }
}

/// Extensions of the quantized-mesh format.
#[derive(Debug, Clone, Copy, PartialEq, Eq, Structural)]
pub enum ExtensionId {
    /// Oct-encoded vertex normals, two bytes a vertex.
    OctEncodedVertexNormals,
    /// Water mask, one byte or 256 by 256 bytes.
    WaterMask,
    /// JSON metadata.
    Metadata,
}

impl ExtensionId {
    /// The byte that names the extension in a file.
    pub open spec fn spec_byte(self) -> u8 {
        match self {
            ExtensionId::OctEncodedVertexNormals => 1,
            ExtensionId::WaterMask => 2,
            ExtensionId::Metadata => 4,
        }
    }

    /// The byte that names the extension in a file.
    pub fn byte(self) -> (id: u8)
        ensures
            id == self.spec_byte(),
            self == ExtensionId::OctEncodedVertexNormals ==> id == 1,
            self == ExtensionId::WaterMask ==> id == 2,
            self == ExtensionId::Metadata ==> id == 4,
    {
        match self {
            ExtensionId::OctEncodedVertexNormals => 1,
            ExtensionId::WaterMask => 2,
            ExtensionId::Metadata => 4,
        }
    }
}

/// Where a tile is covered by water: 0 is land, 255 water.
#[derive(Debug, Clone)]
pub enum WaterMask {
    /// The same for the whole tile.
    Uniform(u8),
    /// 256 by 256 cells.
    Grid(Box<[u8; 65536]>),
}

/// What a water mask says, with the cells as a sequence.
#[verifier::ext_equal]
pub enum WaterMaskModel {
    Uniform(u8),
    Grid(Seq<u8>),
}

impl View for WaterMask {
    type V = WaterMaskModel;

    open spec fn view(&self) -> WaterMaskModel {
        match self {
            WaterMask::Uniform(value) => WaterMaskModel::Uniform(*value),
            WaterMask::Grid(grid) => WaterMaskModel::Grid(grid@),
        }
    }
}

impl Default for WaterMask {
    /// All land.
    fn default() -> (mask: WaterMask)
        ensures
            mask == WaterMask::Uniform(0),
    {
        WaterMask::Uniform(0)
    }
}

impl WaterMask {
    /// Creates a water mask from 256 by 256 cells: uniform if all are equal, and all land if
    /// there are too few. Further bytes are ignored.
    pub fn from_data(data: &[u8]) -> (mask: WaterMask)
        ensures
            mask@ == if data@.len() < 65536 {
                WaterMaskModel::Uniform(0)
            } else if forall|i: int| 0 <= i < 65536 ==> #[trigger] data@[i] == data@[0] {
                WaterMaskModel::Uniform(data@[0])
            } else {
                WaterMaskModel::Grid(data@.subrange(0, 65536))
            },
    {
        if data.len() < WATER_MASK_LEN {
            return WaterMask::Uniform(0);
        }
        let first: u8 = data[0];
        let mut grid: [u8; 65536] = [0; 65536];
        let mut uniform: bool = true;
        let mut i: usize = 0;
        while i < WATER_MASK_LEN
            invariant
                i <= 65536,
                data@.len() >= 65536,
                first == data@[0],
                forall|k: int| 0 <= k < i ==> grid@[k] == data@[k],
                uniform == (forall|k: int| 0 <= k < i ==> #[trigger] data@[k] == first),
            decreases 65536 - i,
        {
            if data[i] != first {
                uniform = false;
            }
            grid[i] = data[i];
            i = i + 1;
        }
        if uniform {
            return WaterMask::Uniform(first);
        }
        assert(grid@ =~= data@.subrange(0, 65536));
        WaterMask::Grid(Box::new(grid))
    }
}

/// A rectangle of available tiles, both ends counted.
#[derive(Debug, Clone, Copy, PartialEq, Eq, Structural)]
pub struct AvailableRange {
    /// First column.
    pub start_x: u32,
    /// Last column.
    pub end_x: u32,
    /// First row.
    pub start_y: u32,
    /// Last row.
    pub end_y: u32,
}

/// The range of a whole level of the geodetic scheme: `2^(zoom + 1)` by `2^zoom` tiles.
pub open spec fn full_geodetic_level(zoom: int) -> AvailableRange {
    AvailableRange {
        start_x: 0,
        end_x: (pow2((zoom + 1) as nat) - 1) as u32,
        start_y: 0,
        end_y: (pow2(zoom as nat) - 1) as u32,
    }
}

/// The range of the descendants of tile `(x, y)`, `levels` zoom levels further down.
pub open spec fn descendants(x: u32, y: u32, levels: int) -> AvailableRange {
    let scale = pow2(levels as nat) as int;
    AvailableRange {
        start_x: (x * scale) as u32,
        end_x: (x * scale + scale - 1) as u32,
        start_y: (y * scale) as u32,
        end_y: (y * scale + scale - 1) as u32,
    }
}

impl AvailableRange {
    /// Tile `(x, y)` is available.
    pub open spec fn contains(self, x: int, y: int) -> bool {
        self.start_x <= x <= self.end_x && self.start_y <= y <= self.end_y
    }
}

/// The descendants of a tile are the tiles that it is reached from by halving coordinates, once
/// for each level.
pub proof fn law_descendants_have_ancestor(x: u32, y: u32, levels: int, to_x: int, to_y: int)
    requires
        levels >= 0,
        (x + 1) * pow2(levels as nat) <= 0x1_0000_0000,
        (y + 1) * pow2(levels as nat) <= 0x1_0000_0000,
    ensures
        descendants(x, y, levels).contains(to_x, to_y) <==> to_x / (pow2(levels as nat) as int) == x
            && to_y / (pow2(levels as nat) as int) == y,
{
    let scale = pow2(levels as nat) as int;
    vstd::arithmetic::power2::lemma_pow2_pos(levels as nat);
    lemma_scaled_fits(x as int, scale, scale);
    lemma_scaled_fits(y as int, scale, scale);
    lemma_quotient(to_x, scale, x as int);
    lemma_quotient(to_y, scale, y as int);
}

/// A whole level of the geodetic scheme holds two columns for each row, `2^zoom` rows.
pub proof fn law_full_level_holds_all_tiles(zoom: int, x: int, y: int)
    requires
        0 <= zoom <= 30,
    ensures
        full_geodetic_level(zoom).contains(x, y) <==> 0 <= x < 2 * pow2(zoom as nat) && 0 <= y
            < pow2(zoom as nat),
{
    vstd::arithmetic::power2::lemma2_to64();
    vstd::arithmetic::power2::lemma_pow2_unfold((zoom + 1) as nat);
    vstd::arithmetic::power2::lemma_pow2_pos(zoom as nat);
    if zoom < 30 {
        lemma_pow2_strictly_increases(zoom as nat, 30);
    }
}

proof fn lemma_quotient(v: int, scale: int, q: int)
    requires
        scale > 0,
    ensures
        v / scale == q <==> q * scale <= v < q * scale + scale,
{
    vstd::arithmetic::div_mod::lemma_fundamental_div_mod(v, scale);
    vstd::arithmetic::div_mod::lemma_mod_bound(v, scale);
    let found = v / scale;
    assert(found == q <==> q * scale <= v < q * scale + scale) by (nonlinear_arith)
        requires
            v == scale * found + v % scale,
            0 <= v % scale < scale,
            scale > 0,
    ;
}

/// `1 << n`, for a shift that keeps the bit.
pub fn power_of_two(n: u8) -> (p: u32)
    requires
        n < 32,
    ensures
        p == pow2(n as nat),
        1 <= p <= 0x8000_0000,
{
    proof {
        vstd::arithmetic::power2::lemma2_to64();
        if n > 0 {
            lemma_pow2_strictly_increases(0, n as nat);
        }
        if n < 31 {
            lemma_pow2_strictly_increases(n as nat, 31);
        }
        vstd::bits::lemma_u32_shl_is_mul(1, n as u32);
    }
    1u32 << (n as u32)
}

impl AvailableRange {
    /// Creates a range.
    pub fn new(start_x: u32, end_x: u32, start_y: u32, end_y: u32) -> (range: AvailableRange)
        ensures
            range == (AvailableRange { start_x, end_x, start_y, end_y }),
    {
        AvailableRange { start_x, end_x, start_y, end_y }
    }

    /// Creates the range of a whole level of the geodetic scheme.
    pub fn full_level_geodetic(zoom: u8) -> (range: AvailableRange)
        requires
            zoom <= 30,
        ensures
            range == full_geodetic_level(zoom as int),
            range.start_x == 0 && range.start_y == 0,
            range.end_x + 1 == pow2((zoom + 1) as nat),
            range.end_y + 1 == pow2(zoom as nat),
    {
        let max_x: u32 = power_of_two(zoom + 1) - 1;
        let max_y: u32 = power_of_two(zoom) - 1;
        AvailableRange { start_x: 0, end_x: max_x, start_y: 0, end_y: max_y }
    }
}

/// Which descendants of a tile are available.
#[derive(Debug, Clone)]
pub struct TileMetadata {
    /// Available tiles by zoom level, the children first.
    pub available: Vec<Vec<AvailableRange>>,
}

impl TileMetadata {
    /// Number of levels listed.
    pub open spec fn levels(&self) -> nat {
        self.available@.len()
    }

    /// Level `i` below the tile lists exactly one range, `range`.
    pub open spec fn lists_only(&self, i: int, range: AvailableRange) -> bool {
        self.available@[i]@ == seq![range]
    }

    /// Creates metadata without any level.
    pub fn new() -> (metadata: TileMetadata)
        ensures
            metadata.levels() == 0,
    {
        TileMetadata { available: Vec::new() }
    }

    /// Creates metadata that lists every tile of each level from below `current_zoom` down to
    /// `max_zoom`.
    pub fn all_available(current_zoom: u8, max_zoom: u8) -> (metadata: TileMetadata)
        requires
            current_zoom < 255,
            max_zoom <= 30 || max_zoom <= current_zoom,
        ensures
            metadata.levels() == if max_zoom > current_zoom {
                max_zoom - current_zoom
            } else {
                0
            },
            forall|i: int|
                0 <= i < metadata.levels() ==> #[trigger] metadata.lists_only(
                    i,
                    full_geodetic_level(current_zoom + 1 + i),
                ),
    {
        let mut metadata = TileMetadata::new();
        let mut zoom: u8 = current_zoom;
        while zoom < max_zoom
            invariant
                current_zoom <= zoom,
                max_zoom <= 30 || max_zoom <= current_zoom,
                zoom <= max_zoom || zoom == current_zoom,
                metadata.levels() == zoom - current_zoom,
                forall|i: int|
                    0 <= i < metadata.levels() ==> #[trigger] metadata.lists_only(
                        i,
                        full_geodetic_level(current_zoom + 1 + i),
                    ),
            decreases max_zoom - zoom,
        {
            let ghost before = metadata;
            zoom = zoom + 1;
            let level: Vec<AvailableRange> = vec![AvailableRange::full_level_geodetic(zoom)];
            metadata.available.push(level);
            proof {
                lemma_push_level(before, metadata, full_geodetic_level(zoom as int));
                assert forall|i: int| 0 <= i < metadata.levels() implies #[trigger]
                    metadata.lists_only(i, full_geodetic_level(current_zoom + 1 + i)) by {
                    if i < before.levels() {
                        assert(before.lists_only(i, full_geodetic_level(current_zoom + 1 + i)));
                    }
                }
            }
        }
        metadata
    }

    /// Creates metadata that lists every descendant of tile `(tile_x, tile_y)` of each level
    /// from below `current_zoom` down to `max_zoom`.
    pub fn for_tile(tile_x: u32, tile_y: u32, current_zoom: u8, max_zoom: u8) -> (metadata:
        TileMetadata)
        requires
            current_zoom < 255,
            max_zoom > current_zoom ==> {
                let levels = max_zoom - current_zoom;
                &&& levels < 32
                &&& (tile_x + 1) * pow2(levels as nat) <= 0x1_0000_0000
                &&& (tile_y + 1) * pow2(levels as nat) <= 0x1_0000_0000
            },
        ensures
            metadata.levels() == if max_zoom > current_zoom {
                max_zoom - current_zoom
            } else {
                0
            },
            forall|i: int|
                0 <= i < metadata.levels() ==> #[trigger] metadata.lists_only(
                    i,
                    descendants(tile_x, tile_y, i + 1),
                ),
    {
        let mut metadata = TileMetadata::new();
        let mut zoom: u8 = current_zoom;
        while zoom < max_zoom
            invariant
                current_zoom <= zoom,
                zoom <= max_zoom || zoom == current_zoom,
                max_zoom > current_zoom ==> {
                    let levels = max_zoom - current_zoom;
                    &&& levels < 32
                    &&& (tile_x + 1) * pow2(levels as nat) <= 0x1_0000_0000
                    &&& (tile_y + 1) * pow2(levels as nat) <= 0x1_0000_0000
                },
                metadata.levels() == zoom - current_zoom,
                forall|i: int|
                    0 <= i < metadata.levels() ==> #[trigger] metadata.lists_only(
                        i,
                        descendants(tile_x, tile_y, i + 1),
                    ),
            decreases max_zoom - zoom,
        {
            let ghost before = metadata;
            zoom = zoom + 1;
            let levels: u8 = zoom - current_zoom;
            let scale: u32 = power_of_two(levels);
            proof {
                if zoom < max_zoom {
                    lemma_pow2_strictly_increases(
                        levels as nat,
                        (max_zoom - current_zoom) as nat,
                    );
                }
                lemma_scaled_fits(
                    tile_x as int,
                    scale as int,
                    pow2((max_zoom - current_zoom) as nat) as int,
                );
                lemma_scaled_fits(
                    tile_y as int,
                    scale as int,
                    pow2((max_zoom - current_zoom) as nat) as int,
                );
            }
            let start_x: u32 = tile_x * scale;
            let start_y: u32 = tile_y * scale;
            let end_x: u32 = start_x + (scale - 1);
            let end_y: u32 = start_y + (scale - 1);
            let level: Vec<AvailableRange> = vec![
                AvailableRange::new(start_x, end_x, start_y, end_y),
            ];
            metadata.available.push(level);
            proof {
                lemma_push_level(before, metadata, descendants(tile_x, tile_y, levels as int));
                assert forall|i: int| 0 <= i < metadata.levels() implies #[trigger]
                    metadata.lists_only(i, descendants(tile_x, tile_y, i + 1)) by {
                    if i < before.levels() {
                        assert(before.lists_only(i, descendants(tile_x, tile_y, i + 1)));
                    }
                }
            }
        }
        metadata
    }
}

proof fn lemma_scaled_fits(tile: int, scale: int, last: int)
    requires
        0 <= tile,
        0 <= scale <= last,
        (tile + 1) * last <= 0x1_0000_0000,
    ensures
        0 <= tile * scale,
        tile * scale + scale <= 0x1_0000_0000,
{
    assert(0 <= tile * scale && tile * scale + scale <= (tile + 1) * last) by (nonlinear_arith)
        requires
            0 <= tile,
            0 <= scale <= last,
    ;
}

/// A level that lists one range only holds it and nothing else.
pub proof fn law_listed_range(metadata: TileMetadata, i: int, range: AvailableRange)
    requires
        0 <= i < metadata.levels(),
        metadata.lists_only(i, range),
    ensures
        i < metadata.available@.len(),
        metadata.available@[i]@.len() == 1,
        metadata.available@[i]@[0] == range,
{
}

proof fn lemma_push_level(before: TileMetadata, after: TileMetadata, range: AvailableRange)
    requires
        after.available@.len() == before.available@.len() + 1,
        after.available@.drop_last() =~= before.available@,
        after.available@.last()@ =~= seq![range],
    ensures
        after.lists_only(before.levels() as int, range),
        forall|i: int, r: AvailableRange|
            0 <= i < before.levels() && #[trigger] before.lists_only(i, r) ==> after.lists_only(
                i,
                r,
            ),
{
    assert forall|i: int, r: AvailableRange| 0 <= i < before.levels()
        && #[trigger] before.lists_only(i, r) implies after.lists_only(i, r) by {
        assert(after.available@.drop_last()[i] == before.available@[i]);
    }
}

impl Default for TileMetadata {
    fn default() -> (metadata: TileMetadata)
        ensures
            metadata.levels() == 0,
    {
        TileMetadata::new()
    }
}

} // verus!
