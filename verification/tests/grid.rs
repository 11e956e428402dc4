use attofab_core::grid2d::{idx, mask_allows, Wafer2d};
use attofab_core::grid3d::{col_idx, Wafer3d};
use attofab_core::materials::Material;

#[test]
fn grid2d_new_wafer_is_uniform_silicon_at_substrate_concentration() {
    let w = Wafer2d::new(10, 20);
    assert!(w.material.iter().all(|&m| m == Material::Silicon));
    assert_eq!(w.material.len(), 10 * 20);
}

#[test]
fn grid3d_new_wafer_is_uniform_silicon_at_substrate_concentration() {
    let w = Wafer3d::new(6, 6, 10);
    assert!(w.material.iter().all(|&m| m == Material::Silicon));
    assert_eq!(w.material.len(), 6 * 6 * 10);
}

#[test]
fn etch_anisotropic_only_removes_masked_columns_straight_down() {
    let nx = 4;
    let ny = 4;
    let mut w = Wafer3d::new(nx, ny, 20);
    let mut mask = vec![false; nx * ny];
    mask[col_idx(2, 2, nx)] = true;
    let removed = w.etch_anisotropic(5, &mask);
    assert_eq!(removed, 5);

    for z in 0..5 {
        assert_eq!(w.material[w.at(2, 2, z)], Material::Void, "masked column should be etched at z={z}");
    }
    assert_ne!(w.material[w.at(2, 2, 5)], Material::Void, "should stop exactly at depth_voxels");
    for y in 0..ny {
        for x in 0..nx {
            if (x, y) != (2, 2) {
                assert_ne!(w.material[w.at(x, y, 0)], Material::Void, "unmasked column ({x},{y}) must be untouched");
            }
        }
    }
}

#[test]
fn surface_heightmap_reflects_oxide_growth() {
    let nx = 3;
    let ny = 3;
    let mut w = Wafer3d::new(nx, ny, 30);
    // Uniform oxidation, no mask: every column turns its top silicon into oxide.
    let rows = vec![4usize; nx * ny];
    w.consume_silicon(&rows);
    let heights = w.surface_heightmap();
    assert!(heights.iter().all(|h| h == &Some(0)));
    for y in 0..ny {
        for x in 0..nx {
            assert_eq!(w.material[w.at(x, y, 0)], Material::Oxide);
            assert_eq!(w.material[w.at(x, y, 3)], Material::Oxide);
            assert_eq!(w.material[w.at(x, y, 4)], Material::Silicon);
        }
    }
}

#[test]
fn heightmap_after_etch_sits_at_etch_depth() {
    let nx = 3;
    let ny = 2;
    let nz = 8;
    let mut w = Wafer3d::new(nx, ny, nz);
    let mut mask = vec![false; nx * ny];
    mask[col_idx(1, 1, nx)] = true;
    mask[col_idx(0, 0, nx)] = true;
    w.etch_anisotropic(3, &mask);
    let heights = w.surface_heightmap();
    for y in 0..ny {
        for x in 0..nx {
            let c = col_idx(x, y, nx);
            let expected = if mask[c] { Some(3) } else { Some(0) };
            assert_eq!(heights[c], expected, "column ({x},{y})");
        }
    }
    // Etching deeper than the grid empties the column completely.
    w.etch_anisotropic(100, &mask);
    let heights = w.surface_heightmap();
    assert_eq!(heights[col_idx(1, 1, nx)], None);
    assert_eq!(heights[col_idx(2, 1, nx)], Some(0));
}

#[test]
fn wafer3d_spin_photoresist_coats_top_layers() {
    let mut w = Wafer3d::new(2, 2, 4);
    w.spin_photoresist(2);
    for y in 0..2 {
        for x in 0..2 {
            assert_eq!(w.material[w.at(x, y, 0)], Material::Photoresist);
            assert_eq!(w.material[w.at(x, y, 1)], Material::Photoresist);
            assert_eq!(w.material[w.at(x, y, 2)], Material::Silicon);
        }
    }
}

#[test]
fn index_layouts_are_row_major() {
    assert_eq!(idx(3, 2, 5), 13);
    assert_eq!(col_idx(3, 2, 5), 13);
    assert_eq!(attofab_core::grid3d::idx(1, 2, 3, 4, 5), 3 * 20 + 2 * 4 + 1);
    let w = Wafer2d::new(5, 4);
    assert_eq!(w.at(3, 2), 13);
    let w3 = Wafer3d::new(4, 5, 6);
    assert_eq!(w3.at(1, 2, 3), 69);
}

#[test]
fn masked_consume_silicon_only_changes_open_columns() {
    let mut w = Wafer2d::new(5, 6);
    let mask = [false, false, true, false, false];
    let rows: Vec<usize> = (0..5).map(|x| if mask_allows(Some(&mask), x) { 2 } else { 0 }).collect();
    w.consume_silicon(&rows);
    for x in 0..5 {
        for y in 0..6 {
            let expected = if x == 2 && y < 2 { Material::Oxide } else { Material::Silicon };
            assert_eq!(w.material[idx(x, y, 5)], expected, "({x},{y})");
        }
    }
    assert!(mask_allows(None, 3));
    assert!(!mask_allows(Some(&mask), 0));
}

#[test]
fn consume_silicon_skips_material_that_is_not_silicon() {
    let mut w = Wafer2d::new(1, 5);
    w.material[0] = Material::Photoresist;
    w.material[2] = Material::Oxide;
    w.consume_silicon(&[2]);
    assert_eq!(
        w.material,
        vec![Material::Photoresist, Material::Oxide, Material::Oxide, Material::Oxide, Material::Silicon]
    );
}
