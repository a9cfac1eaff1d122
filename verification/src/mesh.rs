use vstd::prelude::*;

use crate::game::{lemma_occupied_le, occupied, Cell, GRID_H, GRID_W};

verus! {

/// Columns of the sprite atlas.
pub const SPRITE_COLS: u32 = 3;
/// Rows of the sprite atlas.
pub const SPRITE_ROWS: u32 = 1;

/// One mesh vertex, held exactly: positions are numerators over the grid
/// dimensions (the rendered x is px / GRID_W, y is py / GRID_H, z is pz), and
/// texture coordinates are numerators over the atlas dimensions (the rendered
/// u is u / SPRITE_COLS, v is v / SPRITE_ROWS).
#[derive(Copy, Clone, Debug, PartialEq, Eq, Structural)]
pub struct Vertex {
    pub px: i32,
    pub py: i32,
    pub pz: i32,
    pub u: u32,
    pub v: u32,
}

/// Atlas column selected by a cell kind.
pub open spec fn sprite_col(c: Cell) -> int {
    match c {
        Cell::Head => 0,
        Cell::Tail => 1,
        Cell::Apple => 2,
    }
}

/// Atlas row selected by a cell kind.
pub open spec fn sprite_row(c: Cell) -> int {
    0
}

/// x of quad corner k of the local unit square, corners ordered
/// top-right, top-left, bottom-left, bottom-right.
pub open spec fn corner_x(k: int) -> int {
    if k == 0 || k == 3 {
        1
    } else {
        -1
    }
}

/// y of quad corner k of the local unit square.
pub open spec fn corner_y(k: int) -> int {
    if k == 0 || k == 1 {
        1
    } else {
        -1
    }
}

/// u of quad corner k of the unit texture square.
pub open spec fn corner_u(k: int) -> int {
    if k == 0 || k == 3 {
        1
    } else {
        0
    }
}

/// v of quad corner k of the unit texture square.
pub open spec fn corner_v(k: int) -> int {
    if k == 2 || k == 3 {
        1
    } else {
        0
    }
}

/// Vertex k of the quad of cell (x, y) of the given kind.
pub open spec fn quad_vertex(x: int, y: int, c: Cell, k: int) -> Vertex {
    Vertex {
        px: (corner_x(k) + 1 - GRID_W + 2 * x) as i32,
        py: (corner_y(k) + 1 - GRID_H + 2 * y) as i32,
        pz: 0,
        u: (corner_u(k) + sprite_col(c)) as u32,
        v: (corner_v(k) + sprite_row(c)) as u32,
    }
}

/// The four vertices of the quad of cell (x, y) of the given kind.
pub open spec fn quad_verts(x: int, y: int, c: Cell) -> Seq<Vertex> {
    Seq::new(4, |k: int| quad_vertex(x, y, c, k))
}

/// Triangle-list vertex offset k of one quad: two triangles 0-1-2 and 0-2-3.
pub open spec fn tri_offset(k: int) -> int {
    if k == 0 || k == 3 {
        0
    } else if k == 1 {
        1
    } else if k == 2 || k == 4 {
        2
    } else {
        3
    }
}

/// The six indices of a quad whose first vertex sits at index base.
pub open spec fn quad_indices(base: int) -> Seq<u16> {
    Seq::new(6, |k: int| (base + tri_offset(k)) as u16)
}

/// Grid x of flat board index i.
pub open spec fn cell_x(i: int) -> int {
    i / GRID_H as int
}

/// Grid y of flat board index i.
pub open spec fn cell_y(i: int) -> int {
    i % GRID_H as int
}

/// The vertices emitted for the first n board cells, in scan order.
pub open spec fn mesh_verts(b: Seq<Option<Cell>>, n: int) -> Seq<Vertex>
    decreases n,
{
    if n <= 0 {
        Seq::empty()
    } else {
        mesh_verts(b, n - 1) + match b[n - 1] {
            Some(c) => quad_verts(cell_x(n - 1), cell_y(n - 1), c),
            None => Seq::empty(),
        }
    }
}

/// The indices emitted for the first n board cells, in scan order.
pub open spec fn mesh_indis(b: Seq<Option<Cell>>, n: int) -> Seq<u16>
    decreases n,
{
    if n <= 0 {
        Seq::empty()
    } else {
        mesh_indis(b, n - 1) + match b[n - 1] {
            Some(_) => quad_indices(4 * occupied(b, n - 1)),
            None => Seq::empty(),
        }
    }
}

/// Mesh size: the first n cells, k of them occupied, yield exactly 4k
/// vertices and 6k indices.
pub proof fn lemma_mesh_counts(b: Seq<Option<Cell>>, n: int)
    requires
        0 <= n,
    ensures
        mesh_verts(b, n).len() == 4 * occupied(b, n),
        mesh_indis(b, n).len() == 6 * occupied(b, n),
    decreases n,
{
    if n > 0 {
        lemma_mesh_counts(b, n - 1);
    }
}

/// Texture coordinates of a quad span exactly one atlas cell: every corner's
/// u numerator is the cell kind's atlas column plus 0 or 1, and likewise for
/// v, so the u values span exactly 1 (of SPRITE_COLS) and the v values span
/// exactly 1 (of SPRITE_ROWS).
pub proof fn lemma_quad_uv_span(x: int, y: int, c: Cell)
    ensures
        quad_verts(x, y, c).len() == 4,
        forall|k: int|
            0 <= k < 4 ==> (#[trigger] quad_verts(x, y, c)[k]).u == sprite_col(c) + corner_u(k)
                && quad_verts(x, y, c)[k].v == sprite_row(c) + corner_v(k),
        quad_verts(x, y, c)[0].u == quad_verts(x, y, c)[1].u + 1,
        quad_verts(x, y, c)[3].u == quad_verts(x, y, c)[2].u + 1,
        quad_verts(x, y, c)[1].u == quad_verts(x, y, c)[2].u,
        quad_verts(x, y, c)[2].v == quad_verts(x, y, c)[1].v + 1,
        quad_verts(x, y, c)[3].v == quad_verts(x, y, c)[0].v + 1,
        quad_verts(x, y, c)[0].v == quad_verts(x, y, c)[1].v,
{
}

/// Texture span law for a built mesh: the vertices come in groups of four,
/// one quad per occupied cell, and within each group the u numerators span
/// exactly 1 (one cell of the SPRITE_COLS columns) and the v numerators span
/// exactly 1 (one cell of the SPRITE_ROWS rows).
pub proof fn lemma_mesh_uv_span(b: Seq<Option<Cell>>, n: int, j: int)
    requires
        0 <= n,
        0 <= j,
        4 * j + 3 < mesh_verts(b, n).len(),
    ensures
        mesh_verts(b, n)[4 * j].u == mesh_verts(b, n)[4 * j + 1].u + 1,
        mesh_verts(b, n)[4 * j + 1].u == mesh_verts(b, n)[4 * j + 2].u,
        mesh_verts(b, n)[4 * j + 3].u == mesh_verts(b, n)[4 * j + 2].u + 1,
        mesh_verts(b, n)[4 * j + 2].v == mesh_verts(b, n)[4 * j + 1].v + 1,
        mesh_verts(b, n)[4 * j].v == mesh_verts(b, n)[4 * j + 1].v,
        mesh_verts(b, n)[4 * j + 3].v == mesh_verts(b, n)[4 * j].v + 1,
    decreases n,
{
    lemma_mesh_counts(b, n);
    if n > 0 {
        let prev = mesh_verts(b, n - 1);
        lemma_mesh_counts(b, n - 1);
        if 4 * j + 3 < prev.len() {
            lemma_mesh_uv_span(b, n - 1, j);
        } else {
            assert(b[n - 1] is Some);
            assert(4 * j == prev.len());
            let c = b[n - 1]->0;
            let q = mesh_verts(b, n);
            assert(q[4 * j] == quad_vertex(cell_x(n - 1), cell_y(n - 1), c, 0));
            assert(q[4 * j + 1] == quad_vertex(cell_x(n - 1), cell_y(n - 1), c, 1));
            assert(q[4 * j + 2] == quad_vertex(cell_x(n - 1), cell_y(n - 1), c, 2));
            assert(q[4 * j + 3] == quad_vertex(cell_x(n - 1), cell_y(n - 1), c, 3));
        }
    }
}

/// Horizontally adjacent cells produce exactly contiguous quads: the left
/// edge of the quad of cell (x + 1, y) is the right edge of the quad of cell
/// (x, y); and likewise vertically.
pub proof fn lemma_quads_contiguous(x: int, y: int, c: Cell, d: Cell)
    ensures
        quad_verts(x + 1, y, c)[1].px == quad_verts(x, y, d)[0].px,
        quad_verts(x, y + 1, c)[2].py == quad_verts(x, y, d)[1].py,
{
}

/// Texture numerators of a quad corner for a sprite-atlas cell: the corner's
/// unit-square uv plus the atlas cell's column and row.
fn uv_from_index(uv_u: u32, uv_v: u32, sx: u32, sy: u32) -> (r: (u32, u32))
    requires
        uv_u <= 1,
        uv_v <= 1,
        sx < SPRITE_COLS,
        sy < SPRITE_ROWS,
    ensures
        r.0 == uv_u + sx,
        r.1 == uv_v + sy,
{
    (uv_u + sx, uv_v + sy)
}

/// Append the quad of cell (x, y) of the given kind: four fresh vertices and
/// six indices based at the number of vertices already emitted.
fn create_tile(x: usize, y: usize, cell: Cell, verts: &mut Vec<Vertex>, indis: &mut Vec<u16>)
    requires
        x < GRID_W,
        y < GRID_H,
        old(verts)@.len() + 4 <= u16::MAX,
    ensures
        final(verts)@ == old(verts)@ + quad_verts(x as int, y as int, cell),
        final(indis)@ == old(indis)@ + quad_indices(old(verts)@.len() as int),
{
    let base = verts.len() as u16;
    let nx_r: i32 = 2 * (x as i32) + 2 - (GRID_W as i32);
    let nx_l: i32 = 2 * (x as i32) - (GRID_W as i32);
    let ny_t: i32 = 2 * (y as i32) + 2 - (GRID_H as i32);
    let ny_b: i32 = 2 * (y as i32) - (GRID_H as i32);
    let (sx, sy): (u32, u32) = match cell {
        Cell::Head => (0, 0),
        Cell::Tail => (1, 0),
        Cell::Apple => (2, 0),
    };
    let uv_tr = uv_from_index(1, 0, sx, sy);
    let uv_tl = uv_from_index(0, 0, sx, sy);
    let uv_bl = uv_from_index(0, 1, sx, sy);
    let uv_br = uv_from_index(1, 1, sx, sy);
    verts.push(Vertex { px: nx_r, py: ny_t, pz: 0, u: uv_tr.0, v: uv_tr.1 });
    verts.push(Vertex { px: nx_l, py: ny_t, pz: 0, u: uv_tl.0, v: uv_tl.1 });
    verts.push(Vertex { px: nx_l, py: ny_b, pz: 0, u: uv_bl.0, v: uv_bl.1 });
    verts.push(Vertex { px: nx_r, py: ny_b, pz: 0, u: uv_br.0, v: uv_br.1 });
    indis.push(base);
    indis.push(base + 1);
    indis.push(base + 2);
    indis.push(base);
    indis.push(base + 2);
    indis.push(base + 3);
    proof {
        assert(verts@ =~= old(verts)@ + quad_verts(x as int, y as int, cell));
        assert(indis@ =~= old(indis)@ + quad_indices(old(verts)@.len() as int));
    }
}

/// Scan the board once and emit one textured quad per occupied cell, packed
/// as a vertex list, an index list, and the index count for the draw call.
pub fn build_mesh(board: &Vec<Option<Cell>>) -> (r: (Vec<Vertex>, Vec<u16>, usize))
    requires
        board@.len() == GRID_W * GRID_H,
    ensures
        r.0@ == mesh_verts(board@, board@.len() as int),
        r.1@ == mesh_indis(board@, board@.len() as int),
        r.2 == r.1@.len(),
        r.0@.len() == 4 * occupied(board@, board@.len() as int),
        r.1@.len() == 6 * occupied(board@, board@.len() as int),
{
    let mut verts: Vec<Vertex> = Vec::new();
    let mut indis: Vec<u16> = Vec::new();
    let mut i: usize = 0;
    while i < board.len()
        invariant
            board@.len() == GRID_W * GRID_H,
            i <= board@.len(),
            verts@ == mesh_verts(board@, i as int),
            indis@ == mesh_indis(board@, i as int),
            verts@.len() == 4 * occupied(board@, i as int),
            indis@.len() == 6 * occupied(board@, i as int),
        decreases board@.len() - i,
    {
        proof {
            lemma_occupied_le(board@, i as int);
        }
        match board[i] {
            Some(c) => {
                let x = i / GRID_H;
                let y = i % GRID_H;
                create_tile(x, y, c, &mut verts, &mut indis);
            },
            None => {},
        }
        i = i + 1;
    }
    let count = indis.len();
    proof {
        lemma_mesh_counts(board@, board@.len() as int);
    }
    (verts, indis, count)
}

} // verus!
