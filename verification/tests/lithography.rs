use attofab_core::grid2d::{idx, Wafer2d};
use attofab_core::lithography::{develop, expose};
use attofab_core::materials::Material;

#[test]
fn expose_only_flips_photoresist_in_open_columns() {
    let mut w = Wafer2d::new(4, 5);
    w.spin_photoresist(3);
    let mask = [true, false, true, false];
    let open = expose(&mut w, &mask);
    assert_eq!(open, 2);

    for x in 0..4 {
        for y in 0..3 {
            let i = idx(x, y, w.nx);
            let expected = if mask[x] { Material::PhotoresistExposed } else { Material::Photoresist };
            assert_eq!(w.material[i], expected, "column {x} row {y} mismatch");
        }
    }
}

#[test]
fn develop_converts_exposed_resist_to_void_and_leaves_rest() {
    let mut w = Wafer2d::new(4, 5);
    w.spin_photoresist(3);
    let mask = [true, false, true, false];
    expose(&mut w, &mask);
    let removed = develop(&mut w);
    assert_eq!(removed, 6);

    for x in 0..4 {
        for y in 0..3 {
            let i = idx(x, y, w.nx);
            let expected = if mask[x] { Material::Void } else { Material::Photoresist };
            assert_eq!(w.material[i], expected, "column {x} row {y} mismatch after develop");
        }
    }
}

#[test]
fn developing_twice_removes_nothing_more() {
    let mut w = Wafer2d::new(2, 3);
    w.spin_photoresist(2);
    expose(&mut w, &[true, true]);
    assert_eq!(develop(&mut w), 4);
    let after_first = w.material.clone();
    assert_eq!(develop(&mut w), 0);
    assert_eq!(w.material, after_first);
}

#[test]
fn spin_photoresist_thicker_than_grid_coats_every_row() {
    let mut w = Wafer2d::new(2, 3);
    w.spin_photoresist(10);
    assert!(w.material.iter().all(|&m| m == Material::Photoresist));
}

#[test]
fn expose_leaves_non_resist_material_alone() {
    let mut w = Wafer2d::new(2, 2);
    w.spin_photoresist(1);
    expose(&mut w, &[true, true]);
    assert_eq!(w.material[idx(0, 0, 2)], Material::PhotoresistExposed);
    assert_eq!(w.material[idx(0, 1, 2)], Material::Silicon);
    assert_eq!(w.material[idx(1, 1, 2)], Material::Silicon);
}
