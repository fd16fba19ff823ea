use vstd::prelude::*;
use vstd::arithmetic::div_mod::lemma_fundamental_div_mod_converse;

verus! {

/// Subdivision counts for which every vertex number of the skirted grid, and
/// the number of index entries, fit in a `u32`.
pub open spec fn valid_subdivisions(subdivisions: nat) -> bool {
    6 * (subdivisions + 1) * (subdivisions + 1) <= u32::MAX
}

/// Vertices along one side of the skirted grid: the `subdivisions + 2` vertices
/// of the plane and one skirt vertex at each end.
pub open spec fn axis_count(subdivisions: nat) -> nat {
    subdivisions + 4
}

/// The two triangles of the quad whose lower corner is vertex `row * count + col`
/// of a grid with `count` vertices per row.
pub open spec fn quad_triangles(count: int, row: int, col: int) -> Seq<u32> {
    let q = row * count + col;
    seq![
        (q + count + 1) as u32,
        (q + 1) as u32,
        (q + count) as u32,
        q as u32,
        (q + count) as u32,
        (q + 1) as u32,
    ]
}

/// The triangles of the first `n` quads, taken row by row, of a grid with
/// `count` vertices per row.
pub open spec fn grid_triangles(count: int, n: nat) -> Seq<u32>
    decreases n,
{
    if n == 0 || count <= 1 {
        Seq::empty()
    } else {
        let k = n - 1;
        grid_triangles(count, k as nat) + quad_triangles(count, k / (count - 1), k % (count - 1))
    }
}

/// Where a vertex of the skirted grid is placed: the plane column and row it
/// takes its position from, and whether it is a skirt vertex along x or z.
#[derive(Debug, Clone, Copy, PartialEq, Eq, Structural)]
pub struct SkirtVertex {
    pub x: u32,
    pub z: u32,
    pub skirt_x: bool,
    pub skirt_z: bool,
}

/// Column (or row) of the plane that grid column `x` of `count` takes its position from:
/// the outermost columns are folded onto their inner neighbours.
pub open spec fn clamp_to_plane(x: nat, count: nat) -> nat {
    if x == 0 {
        1
    } else if x >= count - 1 {
        (count - 2) as nat
    } else {
        x
    }
}

/// A grid column copies the nearest column of the plane: itself inside the
/// plane, and the plane's first or last column on the skirt.
pub proof fn lemma_clamp_nearest(x: nat, count: nat)
    requires
        count >= 4,
    ensures
        x == 0 ==> clamp_to_plane(x, count) == 1,
        1 <= x <= count - 2 ==> clamp_to_plane(x, count) == x,
        x >= count - 1 ==> clamp_to_plane(x, count) == count - 2,
        x < count ==> x - 1 <= clamp_to_plane(x, count) <= x + 1,
{
}

/// The entry at `i` of the triangle list of a grid with `count` vertices per
/// row: quad `k = i / 6` has lower corner `q = (k / (count - 1)) * count + k % (count - 1)`
/// and gives the two triangles `q+count+1, q+1, q+count` and `q, q+count, q+1`.
pub proof fn lemma_grid_triangle_entries(count: int, n: nat)
    requires
        count >= 2,
        n <= (count - 1) * (count - 1),
        count * count <= u32::MAX,
    ensures
        grid_triangles(count, n).len() == 6 * n,
        forall|i: int|
            0 <= i < 6 * n ==> {
                let k = i / 6;
                let q = (k / (count - 1)) * count + k % (count - 1);
                &&& i % 6 == 0 ==> #[trigger] grid_triangles(count, n)[i] == q + count + 1
                &&& i % 6 == 1 ==> grid_triangles(count, n)[i] == q + 1
                &&& i % 6 == 2 ==> grid_triangles(count, n)[i] == q + count
                &&& i % 6 == 3 ==> grid_triangles(count, n)[i] == q
                &&& i % 6 == 4 ==> grid_triangles(count, n)[i] == q + count
                &&& i % 6 == 5 ==> grid_triangles(count, n)[i] == q + 1
            },
    decreases n,
{
    lemma_grid_triangles_in_range(count, n);
    if n > 0 {
        let k = n - 1;
        lemma_grid_triangle_entries(count, k as nat);
        lemma_grid_triangles_in_range(count, k as nat);
        let row = k / (count - 1);
        let col = k % (count - 1);
        assert(row * (count - 1) + col == k) by {
            vstd::arithmetic::div_mod::lemma_fundamental_div_mod(k, count - 1);
        }
        assert(row <= count - 2) by (nonlinear_arith)
            requires
                row * (count - 1) + col == k,
                0 <= col,
                k < (count - 1) * (count - 1),
                count >= 2,
        {
            if row > count - 2 {
                assert(row * (count - 1) >= (count - 1) * (count - 1));
            }
        }
        assert(0 <= row) by (nonlinear_arith)
            requires
                row * (count - 1) + col == k,
                col < count - 1,
                k >= 0,
                count >= 2,
        {
            if row < 0 {
                assert(row * (count - 1) <= -(count - 1));
            }
        }
        assert(row * count + col + count + 1 <= count * count - 1) by (nonlinear_arith)
            requires
                0 <= row <= count - 2,
                0 <= col <= count - 2,
                count >= 2,
        ;
        let prev = grid_triangles(count, k as nat);
        let all = grid_triangles(count, n);
        assert forall|i: int| 0 <= i < 6 * n implies {
            let kk = i / 6;
            let q = (kk / (count - 1)) * count + kk % (count - 1);
            &&& i % 6 == 0 ==> #[trigger] all[i] == q + count + 1
            &&& i % 6 == 1 ==> all[i] == q + 1
            &&& i % 6 == 2 ==> all[i] == q + count
            &&& i % 6 == 3 ==> all[i] == q
            &&& i % 6 == 4 ==> all[i] == q + count
            &&& i % 6 == 5 ==> all[i] == q + 1
        } by {
            if i < 6 * k {
                assert(all[i] == prev[i]);
                assert(prev[i] == prev[i]);
            } else {
                assert(i / 6 == k);
                assert(all[i] == quad_triangles(count, row, col)[i - 6 * k]);
            }
        }
    }
}

/// Number of vertices along one side of the skirted grid.
pub fn skirt_axis_vertex_count(subdivisions: u32) -> (r: u32)
    requires
        valid_subdivisions(subdivisions as nat),
    ensures
        r == axis_count(subdivisions as nat),
        r == subdivisions + 4,
{
    proof {
        assert(subdivisions + 4 <= 6 * (subdivisions + 1) * (subdivisions + 1)) by (nonlinear_arith);
    }
    let vertex_count: u32 = subdivisions + 2;
    vertex_count + 2
}

/// Placement of grid vertex (`x`, `z`): the edge columns and rows are the skirt,
/// which repeats the neighbouring plane vertex.
pub fn skirt_vertex(subdivisions: u32, x: u32, z: u32) -> (r: SkirtVertex)
    requires
        valid_subdivisions(subdivisions as nat),
    ensures
        r.x == clamp_to_plane(x as nat, axis_count(subdivisions as nat)),
        r.z == clamp_to_plane(z as nat, axis_count(subdivisions as nat)),
        r.skirt_x == (x == 0 || x >= axis_count(subdivisions as nat) - 1),
        r.skirt_z == (z == 0 || z >= axis_count(subdivisions as nat) - 1),
        x == 0 ==> r.x == 1,
        1 <= x <= subdivisions + 2 ==> r.x == x,
        x >= subdivisions + 3 ==> r.x == subdivisions + 2,
        z == 0 ==> r.z == 1,
        1 <= z <= subdivisions + 2 ==> r.z == z,
        z >= subdivisions + 3 ==> r.z == subdivisions + 2,
        r.skirt_x == (x == 0 || x >= subdivisions + 3),
        r.skirt_z == (z == 0 || z >= subdivisions + 3),
{
    let x_vertex_count: u32 = skirt_axis_vertex_count(subdivisions);
    let z_vertex_count: u32 = x_vertex_count;
    let mut x2: u32 = x;
    let mut z2: u32 = z;
    let mut skirt_x: bool = false;
    let mut skirt_z: bool = false;
    if x >= x_vertex_count - 1 {
        x2 = x_vertex_count - 2;
        skirt_x = true;
    }
    if z >= z_vertex_count - 1 {
        z2 = z_vertex_count - 2;
        skirt_z = true;
    }
    if x == 0 {
        x2 = 1;
        skirt_x = true;
    }
    if z == 0 {
        z2 = 1;
        skirt_z = true;
    }
    SkirtVertex { x: x2, z: z2, skirt_x, skirt_z }
}

/// Every grid vertex takes its position from a vertex of the plane, never from
/// another skirt vertex.
pub proof fn lemma_clamp_inside_plane(x: nat, count: nat)
    requires
        count >= 4,
    ensures
        1 <= clamp_to_plane(x, count) <= count - 2,
{
}

/// The triangles of `n` quads hold six entries per quad, each naming a vertex
/// of the grid.
pub proof fn lemma_grid_triangles_in_range(count: int, n: nat)
    requires
        count >= 2,
        n <= (count - 1) * (count - 1),
        count * count <= u32::MAX,
    ensures
        grid_triangles(count, n).len() == 6 * n,
        forall|i: int| 0 <= i < 6 * n ==> #[trigger] grid_triangles(count, n)[i] < count * count,
    decreases n,
{
    if n > 0 {
        let k = n - 1;
        lemma_grid_triangles_in_range(count, k as nat);
        let row = k / (count - 1);
        let col = k % (count - 1);
        assert(row * (count - 1) + col == k) by {
            vstd::arithmetic::div_mod::lemma_fundamental_div_mod(k, count - 1);
        }
        assert(row <= count - 2) by (nonlinear_arith)
            requires
                row * (count - 1) + col == k,
                0 <= col,
                k < (count - 1) * (count - 1),
                count >= 2,
        {
            if row > count - 2 {
                assert(row * (count - 1) >= (count - 1) * (count - 1));
            }
        }
        assert(0 <= row) by (nonlinear_arith)
            requires
                row * (count - 1) + col == k,
                col < count - 1,
                k >= 0,
                count >= 2,
        {
            if row < 0 {
                assert(row * (count - 1) <= -(count - 1));
            }
        }
        assert(row * count + col + count + 1 <= count * count - 1) by (nonlinear_arith)
            requires
                0 <= row <= count - 2,
                0 <= col <= count - 2,
                count >= 2,
        ;
        let prev = grid_triangles(count, k as nat);
        let all = grid_triangles(count, n);
        assert forall|i: int| 0 <= i < 6 * n implies #[trigger] all[i] < count * count by {
            if i < 6 * k {
                assert(all[i] == prev[i]);
            }
        }
    }
}

/// Vertex numbers of a skirted grid stay below `count * count`, which fits in a `u32`.
proof fn lemma_axis_count_square(subdivisions: nat)
    requires
        valid_subdivisions(subdivisions),
    ensures
        axis_count(subdivisions) * axis_count(subdivisions) <= u32::MAX,
{
    let s = subdivisions;
    assert((s + 4) * (s + 4) <= u32::MAX) by (nonlinear_arith)
        requires
            6 * (s + 1) * (s + 1) <= u32::MAX,
    {
        if s >= 2 {
            assert((s + 4) * (s + 4) <= 6 * (s + 1) * (s + 1));
        }
    }
}

/// The triangle list of the skirted grid: two triangles for every quad, quads
/// taken row by row.
pub fn skirt_grid_indices(subdivisions: u32) -> (r: Vec<u32>)
    requires
        valid_subdivisions(subdivisions as nat),
    ensures
        r@ == grid_triangles(
            axis_count(subdivisions as nat) as int,
            ((axis_count(subdivisions as nat) - 1) * (axis_count(subdivisions as nat) - 1)) as nat,
        ),
        r@.len() == 6 * (subdivisions + 3) * (subdivisions + 3),
        forall|i: int|
            0 <= i < r@.len() ==> {
                let c = subdivisions + 4;
                let k = i / 6;
                let q = (k / (c - 1)) * c + k % (c - 1);
                &&& i % 6 == 0 ==> #[trigger] r@[i] == q + c + 1
                &&& i % 6 == 1 ==> r@[i] == q + 1
                &&& i % 6 == 2 ==> r@[i] == q + c
                &&& i % 6 == 3 ==> r@[i] == q
                &&& i % 6 == 4 ==> r@[i] == q + c
                &&& i % 6 == 5 ==> r@[i] == q + 1
            },
{
    let x_vertex_count: u32 = skirt_axis_vertex_count(subdivisions);
    let z_vertex_count: u32 = x_vertex_count;
    let ghost c: int = x_vertex_count as int;
    proof {
        lemma_axis_count_square(subdivisions as nat);
    }
    let mut indices: Vec<u32> = Vec::new();
    let mut y: u32 = 0;
    while y < z_vertex_count - 1
        invariant
            c == x_vertex_count,
            c == z_vertex_count,
            4 <= c,
            c * c <= u32::MAX,
            y <= c - 1,
            indices@ == grid_triangles(c, (y * (c - 1)) as nat),
        decreases c - 1 - y,
    {
        let mut x: u32 = 0;
        while x < x_vertex_count - 1
            invariant
                c == x_vertex_count,
                c == z_vertex_count,
                4 <= c,
                c * c <= u32::MAX,
                y < c - 1,
                x <= c - 1,
                indices@ == grid_triangles(c, (y * (c - 1) + x) as nat),
            decreases c - 1 - x,
        {
            proof {
                assert(y * c + x + c + 1 <= c * c - 1) by (nonlinear_arith)
                    requires
                        y <= c - 2,
                        x <= c - 2,
                        c >= 4,
                ;
            }
            let quad: u32 = y * x_vertex_count + x;
            indices.push(quad + x_vertex_count + 1);
            indices.push(quad + 1);
            indices.push(quad + x_vertex_count);
            indices.push(quad);
            indices.push(quad + x_vertex_count);
            indices.push(quad + 1);
            proof {
                let n = y * (c - 1) + x;
                assert(y * (c - 1) + x >= 0) by (nonlinear_arith)
                    requires
                        y >= 0,
                        c >= 4,
                        x >= 0,
                ;
                lemma_fundamental_div_mod_converse(n, c - 1, y as int, x as int);
                assert(indices@ =~= grid_triangles(c, (n + 1) as nat));
            }
            x = x + 1;
        }
        proof {
            assert(y * (c - 1) + (c - 1) == (y + 1) * (c - 1)) by (nonlinear_arith);
        }
        y = y + 1;
    }
    proof {
        let n = ((c - 1) * (c - 1)) as nat;
        lemma_grid_triangle_entries(c, n);
        assert(6 * (subdivisions + 3) * (subdivisions + 3) == 6 * n) by (nonlinear_arith)
            requires
                c == subdivisions + 4,
                n == (c - 1) * (c - 1),
        ;
    }
    indices
}

} // verus!
