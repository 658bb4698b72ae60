use atlas::ball::Mesh;

fn mesh() -> Mesh {
    // eight atoms on a 8 × 8 frame
    let where_ = vec![(0, 0), (1, 0), (1, 1), (5, 6), (4, 7), (0, 0), (7, 7), (2, 3)];
    Mesh::from_cells(where_, 8, 8, 3)
}

#[test]
fn atoms_are_grouped_by_cell_in_id_order() {
    let m = mesh();
    let origin = m.cells.iter().find(|e| e.0 == (0, 0)).unwrap();
    assert_eq!(origin.1, vec![0, 5]);
    assert_eq!(m.cells.len(), 7);
}

#[test]
fn render_pools_and_observe_inverts_it() {
    let m = mesh();
    assert_eq!(m.render(3, 0), (5, 6));
    assert_eq!(m.render(3, 1), (2, 3));
    assert_eq!(m.render(3, 2), (1, 1));
    // pooled cell (0, 0) at level 1 covers (0..2, 0..2): atoms 0, 5 at (0,0); 1 at (1,0); 2 at (1,1)
    assert_eq!(m.observe((0, 0), 1), vec![0, 5, 1, 2]);
    assert_eq!(m.observe((2, 3), 1), vec![4, 3]);
    assert_eq!(m.observe((3, 3), 0), Vec::<u32>::new());
}

#[test]
fn tight_at_every_level() {
    let m = mesh();
    for level in 0..4 {
        assert!(m.tight(level));
    }
}

#[test]
fn pooled_counts() {
    let m = mesh();
    let t = m.at(2);
    let mut v = t.clone();
    v.sort();
    assert_eq!(v, vec![((0, 0), 5), ((1, 1), 3)]);
    let total: usize = m.at(0).iter().map(|e| e.1).sum();
    assert_eq!(total, 8);
}

#[test]
fn silhouette_shades_against_the_densest_cell() {
    let m = mesh();
    // level 2: a 2 × 2 frame; (0,0) holds 5 atoms, (1,1) holds 3; top row first
    assert_eq!(m.silhouette(2), " *\n@ ");
    assert_eq!(m.silhouette(3), "@");
}

#[test]
fn table_bytes_lists_cells_in_order() {
    let m = mesh();
    let t = m.table_bytes(2);
    assert_eq!(t, vec![0, 0, 0, 0, 0, 0, 0, 0, 5, 0, 0, 0, 1, 0, 0, 0, 1, 0, 0, 0, 3, 0, 0, 0]);
    assert_eq!(m.table_bytes(0).len(), 7 * 12);
}

#[test]
fn each_atom_is_observed_once_where_it_renders() {
    let m = mesh();
    for level in 0..4u32 {
        for a in 0..m.where_.len() {
            let c = m.render(a, level);
            let seen = m.observe(c, level);
            assert_eq!(seen.iter().filter(|&&x| x == a as u32).count(), 1);
            for &x in &seen {
                assert_eq!(m.render(x as usize, level), c);
            }
        }
    }
}
