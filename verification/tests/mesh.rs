use snake_sim::game::{Cell, GameState, Pos, GRID_H, GRID_W};
use snake_sim::mesh::{build_mesh, Vertex};

fn pos(x: usize, y: usize) -> Pos {
    Pos { x, y }
}

fn vertex(px: i32, py: i32, u: u32, v: u32) -> Vertex {
    Vertex { px, py, pz: 0, u, v }
}

#[test]
fn empty_board_empty_mesh() {
    let board: Vec<Option<Cell>> = vec![None; GRID_W * GRID_H];
    let (verts, indis, count) = build_mesh(&board);
    assert!(verts.is_empty());
    assert!(indis.is_empty());
    assert_eq!(count, 0);
}

#[test]
fn single_cell_quad() {
    let mut board: Vec<Option<Cell>> = vec![None; GRID_W * GRID_H];
    board[0] = Some(Cell::Apple);
    let (verts, indis, count) = build_mesh(&board);
    assert_eq!(verts.len(), 4);
    assert_eq!(indis.len(), 6);
    assert_eq!(count, 6);
    // Cell (0, 0): position numerators span [-GRID, -GRID + 2]; the apple's
    // atlas column is 2, so its u numerators are 2 and 3.
    assert_eq!(verts[0], vertex(-18, -18, 3, 0));
    assert_eq!(verts[1], vertex(-20, -18, 2, 0));
    assert_eq!(verts[2], vertex(-20, -20, 2, 1));
    assert_eq!(verts[3], vertex(-18, -20, 3, 1));
    assert_eq!(indis, vec![0, 1, 2, 0, 2, 3]);
}

#[test]
fn mesh_counts_match_occupancy() {
    let s = GameState::from_parts(pos(10, 10), pos(5, 5), vec![pos(9, 10), pos(8, 10)])
        .unwrap();
    let k = 2 + s.tail.len();
    let (verts, indis, count) = build_mesh(&s.board);
    assert_eq!(verts.len(), 4 * k);
    assert_eq!(indis.len(), 6 * k);
    assert_eq!(count, 6 * k);
}

#[test]
fn quads_are_emitted_in_scan_order() {
    let s = GameState::from_parts(pos(0, 0), pos(1, 1), vec![]).unwrap();
    let (verts, indis, count) = build_mesh(&s.board);
    assert_eq!(verts.len(), 8);
    assert_eq!(indis.len(), 12);
    assert_eq!(count, 12);
    // The board is scanned x-major, so the head at (0, 0) comes first.
    assert_eq!(verts[0], vertex(-18, -18, 1, 0));
    assert_eq!(verts[1], vertex(-20, -18, 0, 0));
    assert_eq!(verts[2], vertex(-20, -20, 0, 1));
    assert_eq!(verts[3], vertex(-18, -20, 1, 1));
    // The apple at (1, 1): x and y numerators shift by 2, atlas column 2.
    assert_eq!(verts[4], vertex(-16, -16, 3, 0));
    assert_eq!(verts[5], vertex(-18, -16, 2, 0));
    assert_eq!(verts[6], vertex(-18, -18, 2, 1));
    assert_eq!(verts[7], vertex(-16, -18, 3, 1));
    // Each quad owns its four vertices; the second quad's indices are based
    // at 4.
    assert_eq!(indis, vec![0, 1, 2, 0, 2, 3, 4, 5, 6, 4, 6, 7]);
}

#[test]
fn each_quad_spans_one_atlas_cell() {
    let s = GameState::from_parts(pos(10, 10), pos(5, 5), vec![pos(9, 10), pos(8, 10)])
        .unwrap();
    let (verts, _indis, _count) = build_mesh(&s.board);
    assert_eq!(verts.len() % 4, 0);
    for quad in verts.chunks(4) {
        let u_min = quad.iter().map(|v| v.u).min().unwrap();
        let u_max = quad.iter().map(|v| v.u).max().unwrap();
        let v_min = quad.iter().map(|v| v.v).min().unwrap();
        let v_max = quad.iter().map(|v| v.v).max().unwrap();
        assert_eq!(u_max - u_min, 1);
        assert_eq!(v_max - v_min, 1);
        // Position numerators span exactly one cell as well.
        let x_min = quad.iter().map(|v| v.px).min().unwrap();
        let x_max = quad.iter().map(|v| v.px).max().unwrap();
        let y_min = quad.iter().map(|v| v.py).min().unwrap();
        let y_max = quad.iter().map(|v| v.py).max().unwrap();
        assert_eq!(x_max - x_min, 2);
        assert_eq!(y_max - y_min, 2);
    }
}

#[test]
fn atlas_column_tracks_cell_kind() {
    let s = GameState::from_parts(pos(0, 0), pos(2, 0), vec![pos(1, 0)]).unwrap();
    let (verts, _indis, _count) = build_mesh(&s.board);
    assert_eq!(verts.len(), 12);
    // Scan order: head (0,0), tail (1,0), apple (2,0); the minimum u of each
    // quad is the kind's atlas column.
    let head_u = verts[0..4].iter().map(|v| v.u).min().unwrap();
    let tail_u = verts[4..8].iter().map(|v| v.u).min().unwrap();
    let apple_u = verts[8..12].iter().map(|v| v.u).min().unwrap();
    assert_eq!(head_u, 0);
    assert_eq!(tail_u, 1);
    assert_eq!(apple_u, 2);
}

#[test]
fn adjacent_cells_tile_without_gaps() {
    let s = GameState::from_parts(pos(3, 7), pos(4, 7), vec![]).unwrap();
    let (verts, _indis, _count) = build_mesh(&s.board);
    assert_eq!(verts.len(), 8);
    // The head's right edge equals the apple's left edge.
    assert_eq!(verts[0].px, verts[5].px);
    assert_eq!(verts[3].px, verts[6].px);
}
