use attofab_core::etch::{deposit, etch_anisotropic, etch_isotropic, is_etchable};
use attofab_core::grid2d::{idx, Wafer2d};
use attofab_core::materials::Material;

/// A wafer with a single open (void) column at x = nx/2, two rows deep,
/// flanked by solid silicon everywhere else - a developed resist window.
fn wafer_with_open_window(nx: usize, ny: usize) -> Wafer2d {
    let mut w = Wafer2d::new(nx, ny);
    let open_x = nx / 2;
    for y in 0..2 {
        w.material[idx(open_x, y, nx)] = Material::Void;
    }
    w
}

#[test]
fn anisotropic_etch_has_no_lateral_spread() {
    let nx = 7;
    let ny = 10;
    let mut w = wafer_with_open_window(nx, ny);
    let open_x = nx / 2;

    etch_anisotropic(&mut w, 3);

    for y in 0..5 {
        assert_eq!(w.material[idx(open_x, y, nx)], Material::Void, "open column row {y} should be etched");
    }
    for &x in &[open_x - 1, open_x + 1] {
        for y in 0..5 {
            assert_ne!(
                w.material[idx(x, y, nx)],
                Material::Void,
                "anisotropic etch must not remove neighbor column {x} row {y}"
            );
        }
    }
}

#[test]
fn isotropic_etch_undercuts_neighboring_columns() {
    let nx = 7;
    let ny = 10;
    let mut w = wafer_with_open_window(nx, ny);
    let open_x = nx / 2;

    etch_isotropic(&mut w, 3);

    let left_removed = w.material[idx(open_x - 1, 0, nx)] == Material::Void;
    let right_removed = w.material[idx(open_x + 1, 0, nx)] == Material::Void;
    assert!(left_removed || right_removed, "isotropic etch should undercut at least one neighbor");
}

#[test]
fn deposit_fills_void_above_existing_surface_without_gaps() {
    let mut w = Wafer2d::new(3, 6);
    for x in 0..3 {
        for y in 0..3 {
            w.material[idx(x, y, w.nx)] = Material::Void;
        }
    }
    deposit(&mut w, Material::Metal, 2);

    for x in 0..3 {
        assert_eq!(w.material[idx(x, 1, w.nx)], Material::Metal);
        assert_eq!(w.material[idx(x, 2, w.nx)], Material::Metal);
        assert_eq!(w.material[idx(x, 0, w.nx)], Material::Void);
    }
}

#[test]
fn anisotropic_etch_reports_removed_voxels_and_stops_at_depth() {
    let nx = 5;
    let ny = 8;
    let mut w = wafer_with_open_window(nx, ny);
    let removed = etch_anisotropic(&mut w, 4);
    assert_eq!(removed, 4);
    let open_x = nx / 2;
    for y in 0..6 {
        assert_eq!(w.material[idx(open_x, y, nx)], Material::Void);
    }
    assert_eq!(w.material[idx(open_x, 6, nx)], Material::Silicon);
}

#[test]
fn anisotropic_etch_never_touches_a_column_closed_at_the_top() {
    let nx = 3;
    let ny = 6;
    let mut w = Wafer2d::new(nx, ny);
    // Column 1 is open below a solid cap at row 0: the etchant cannot reach it.
    for y in 1..4 {
        w.material[idx(1, y, nx)] = Material::Void;
    }
    let before = w.material.clone();
    let removed = etch_anisotropic(&mut w, 5);
    assert_eq!(removed, 0);
    assert_eq!(w.material, before);
}

#[test]
fn anisotropic_etch_stops_at_unetchable_material() {
    let nx = 1;
    let ny = 5;
    let mut w = Wafer2d::new(nx, ny);
    w.material[idx(0, 0, nx)] = Material::Void;
    w.material[idx(0, 2, nx)] = Material::Metal;
    let removed = etch_anisotropic(&mut w, 4);
    assert_eq!(removed, 1);
    assert_eq!(w.material[idx(0, 1, nx)], Material::Void);
    assert_eq!(w.material[idx(0, 2, nx)], Material::Metal);
    assert_eq!(w.material[idx(0, 3, nx)], Material::Silicon);
}

#[test]
fn isotropic_etch_grows_a_diamond_from_one_void_voxel() {
    let nx = 5;
    let ny = 5;
    let mut w = Wafer2d::new(nx, ny);
    w.material[idx(2, 2, nx)] = Material::Void;
    let removed = etch_isotropic(&mut w, 1);
    assert_eq!(removed, 4);
    for (x, y) in [(1, 2), (3, 2), (2, 1), (2, 3)] {
        assert_eq!(w.material[idx(x, y, nx)], Material::Void);
    }
    assert_eq!(w.material[idx(1, 1, nx)], Material::Silicon);
    let removed = etch_isotropic(&mut w, 1);
    assert_eq!(removed, 8);
    assert_eq!(w.material[idx(1, 1, nx)], Material::Void);
    assert_eq!(w.material[idx(0, 0, nx)], Material::Silicon);
}

#[test]
fn isotropic_etch_spares_resist_and_metal() {
    let nx = 3;
    let ny = 1;
    let mut w = Wafer2d::new(nx, ny);
    w.material[0] = Material::Void;
    w.material[1] = Material::Photoresist;
    let removed = etch_isotropic(&mut w, 3);
    assert_eq!(removed, 0);
    assert_eq!(w.material[1], Material::Photoresist);
    assert_eq!(w.material[2], Material::Silicon);
}

#[test]
fn deposit_counts_filled_voxels_and_skips_empty_columns() {
    let nx = 3;
    let ny = 4;
    let mut w = Wafer2d::new(nx, ny);
    // Column 0: surface at row 3. Column 1: all void. Column 2: surface at row 1.
    for y in 0..3 {
        w.material[idx(0, y, nx)] = Material::Void;
    }
    for y in 0..4 {
        w.material[idx(1, y, nx)] = Material::Void;
    }
    w.material[idx(2, 0, nx)] = Material::Void;
    let added = deposit(&mut w, Material::Oxide, 2);
    assert_eq!(added, 3);
    assert_eq!(w.material[idx(0, 0, nx)], Material::Void);
    assert_eq!(w.material[idx(0, 1, nx)], Material::Oxide);
    assert_eq!(w.material[idx(0, 2, nx)], Material::Oxide);
    for y in 0..4 {
        assert_eq!(w.material[idx(1, y, nx)], Material::Void);
    }
    assert_eq!(w.material[idx(2, 0, nx)], Material::Oxide);
    assert_eq!(w.material[idx(2, 1, nx)], Material::Silicon);
}

#[test]
fn only_silicon_and_oxide_are_etchable() {
    assert!(is_etchable(Material::Silicon));
    assert!(is_etchable(Material::Oxide));
    assert!(!is_etchable(Material::Metal));
    assert!(!is_etchable(Material::Photoresist));
    assert!(!is_etchable(Material::PhotoresistExposed));
    assert!(!is_etchable(Material::Void));
}
