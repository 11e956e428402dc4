//! Optical lithography, simplified to a binary mask threshold.
//!
//! Mask geometry is projected straight down onto the wafer surface: under
//! an open mask column every photoresist voxel is exposed; developing then
//! strips the exposed (soluble) resist, opening a window down to whatever
//! material sits beneath it.
use vstd::prelude::*;
use crate::grid2d::{
    count_of, count_true, from_cells, grid_at, idx, lemma_cell_in_bounds, lemma_count_of_absent,
    lemma_count_of_prefix, spin_photoresist_spec,
    lemma_from_cells, lemma_grid_ext, lemma_grid_update, Wafer2d,
};
use crate::materials::Material;

verus! {

/// The grid after exposing it through `mask_open` (one entry per column).
pub open spec fn expose_spec(m: Seq<Material>, nx: int, ny: int, mask_open: Seq<bool>) -> Seq<
    Material,
> {
    from_cells(
        nx,
        ny,
        |x: int, y: int|
            if mask_open[x] && grid_at(m, nx, x, y) == Material::Photoresist {
                Material::PhotoresistExposed
            } else {
                grid_at(m, nx, x, y)
            },
    )
}

/// The grid after developing: exposed resist becomes void, nothing else changes.
pub open spec fn develop_spec(m: Seq<Material>) -> Seq<Material> {
    m.map_values(
        |v: Material|
            if v == Material::PhotoresistExposed {
                Material::Void
            } else {
                v
            },
    )
}

/// Expose photoresist under open mask columns: every `Photoresist` voxel in
/// an exposed column becomes `PhotoresistExposed`. `mask_open` has one
/// entry per column; `true` = light passes through. Returns the number of
/// open columns.
pub fn expose(wafer: &mut Wafer2d, mask_open: &[bool]) -> (open_columns: usize)
    requires
        old(wafer).wf(),
        mask_open@.len() == old(wafer).nx,
    ensures
        final(wafer).wf(),
        final(wafer).nx == old(wafer).nx,
        final(wafer).ny == old(wafer).ny,
        final(wafer).material@ == expose_spec(
            old(wafer).material@,
            old(wafer).nx as int,
            old(wafer).ny as int,
            mask_open@,
        ),
        open_columns == count_true(mask_open@),
{
    let ghost m0 = wafer.material@;
    let nx = wafer.nx;
    let ny = wafer.ny;
    let ghost target = expose_spec(m0, nx as int, ny as int, mask_open@);
    proof {
        lemma_from_cells(
            nx as int,
            ny as int,
            |x: int, y: int|
                if mask_open@[x] && grid_at(m0, nx as int, x, y) == Material::Photoresist {
                    Material::PhotoresistExposed
                } else {
                    grid_at(m0, nx as int, x, y)
                },
        );
    }
    let mut open_columns: usize = 0;
    for x in 0..nx
        invariant
            nx == wafer.nx,
            ny == wafer.ny,
            mask_open@.len() == nx,
            wafer.material@.len() == nx * ny,
            nx * ny <= usize::MAX,
            target.len() == nx * ny,
            open_columns == count_true(mask_open@.subrange(0, x as int)),
            open_columns <= x,
            forall|cx: int, cy: int|
                0 <= cx < nx && 0 <= cy < ny ==> #[trigger] grid_at(target, nx as int, cx, cy) == (
                if mask_open@[cx] && grid_at(m0, nx as int, cx, cy) == Material::Photoresist {
                    Material::PhotoresistExposed
                } else {
                    grid_at(m0, nx as int, cx, cy)
                }),
            forall|cx: int, cy: int|
                0 <= cx < nx && 0 <= cy < ny ==> #[trigger] grid_at(
                    wafer.material@,
                    nx as int,
                    cx,
                    cy,
                ) == if cx < x {
                    grid_at(target, nx as int, cx, cy)
                } else {
                    grid_at(m0, nx as int, cx, cy)
                },
    {
        proof {
            assert(mask_open@.subrange(0, x + 1).drop_last() =~= mask_open@.subrange(0, x as int));
        }
        if mask_open[x] {
            open_columns += 1;
            for y in 0..ny
                invariant
                    nx == wafer.nx,
                    ny == wafer.ny,
                    0 <= x < nx,
                    mask_open@.len() == nx,
                    mask_open@[x as int],
                    wafer.material@.len() == nx * ny,
                    nx * ny <= usize::MAX,
                    forall|cx: int, cy: int|
                        0 <= cx < nx && 0 <= cy < ny ==> #[trigger] grid_at(
                            target,
                            nx as int,
                            cx,
                            cy,
                        ) == (if mask_open@[cx] && grid_at(m0, nx as int, cx, cy)
                            == Material::Photoresist {
                            Material::PhotoresistExposed
                        } else {
                            grid_at(m0, nx as int, cx, cy)
                        }),
                    forall|cx: int, cy: int|
                        0 <= cx < nx && 0 <= cy < ny ==> #[trigger] grid_at(
                            wafer.material@,
                            nx as int,
                            cx,
                            cy,
                        ) == if cx < x || (cx == x && cy < y) {
                            grid_at(target, nx as int, cx, cy)
                        } else {
                            grid_at(m0, nx as int, cx, cy)
                        },
            {
                proof {
                    lemma_cell_in_bounds(nx as int, ny as int, x as int, y as int);
                    lemma_grid_update(
                        wafer.material@,
                        nx as int,
                        ny as int,
                        x as int,
                        y as int,
                        Material::PhotoresistExposed,
                    );
                    assert(grid_at(wafer.material@, nx as int, x as int, y as int) == grid_at(
                        m0,
                        nx as int,
                        x as int,
                        y as int,
                    ));
                }
                let i = idx(x, y, nx);
                if wafer.material[i] == Material::Photoresist {
                    wafer.material.set(i, Material::PhotoresistExposed);
                }
            }
        } else {
            proof {
                assert forall|cx: int, cy: int|
                    0 <= cx < nx && 0 <= cy < ny implies #[trigger] grid_at(
                    wafer.material@,
                    nx as int,
                    cx,
                    cy,
                ) == if cx < x + 1 {
                    grid_at(target, nx as int, cx, cy)
                } else {
                    grid_at(m0, nx as int, cx, cy)
                } by {
                    if cx == x {
                        assert(grid_at(target, nx as int, cx, cy) == grid_at(m0, nx as int, cx, cy));
                    }
                }
            }
        }
    }
    proof {
        assert(mask_open@.subrange(0, nx as int) =~= mask_open@);
        lemma_grid_ext(wafer.material@, target, nx as int, ny as int);
    }
    open_columns
}

/// Develop: strip exposed (soluble) photoresist, opening a window down to
/// whatever material sits beneath it. Returns how many voxels were removed.
pub fn develop(wafer: &mut Wafer2d) -> (removed: usize)
    ensures
        final(wafer).wf() == old(wafer).wf(),
        final(wafer).nx == old(wafer).nx,
        final(wafer).ny == old(wafer).ny,
        final(wafer).material@ == develop_spec(old(wafer).material@),
        removed == count_of(old(wafer).material@, Material::PhotoresistExposed),
{
    let ghost m0 = wafer.material@;
    let n = wafer.material.len();
    let mut removed: usize = 0;
    for i in 0..n
        invariant
            n == m0.len(),
            wafer.material@.len() == n,
            wafer.nx == old(wafer).nx,
            wafer.ny == old(wafer).ny,
            m0 == old(wafer).material@,
            removed == count_of(m0.subrange(0, i as int), Material::PhotoresistExposed),
            removed <= i,
            forall|j: int|
                0 <= j < n ==> #[trigger] wafer.material@[j] == if j < i {
                    develop_spec(m0)[j]
                } else {
                    m0[j]
                },
    {
        proof {
            lemma_count_of_prefix(m0, Material::PhotoresistExposed, i as int);
        }
        if wafer.material[i] == Material::PhotoresistExposed {
            wafer.material.set(i, Material::Void);
            removed += 1;
        }
    }
    proof {
        assert(m0.subrange(0, n as int) =~= m0);
        assert(wafer.material@ =~= develop_spec(m0));
    }
    removed
}


/// Developing strips all exposed resist, so developing again changes nothing.
pub proof fn law_develop_clears_exposed_resist(m: Seq<Material>)
    ensures
        count_of(develop_spec(m), Material::PhotoresistExposed) == 0,
        develop_spec(develop_spec(m)) == develop_spec(m),
{
    lemma_count_of_absent(develop_spec(m), Material::PhotoresistExposed);
    assert(develop_spec(develop_spec(m)) =~= develop_spec(m));
}


/// Spin-coating, exposing and developing opens the resist exactly under
/// the open mask columns: afterwards the top `thickness` rows are void in
/// open columns and still photoresist in closed ones, and the material
/// below is untouched (given that it held no exposed resist).
pub proof fn law_spin_expose_develop_opens_windows(
    m: Seq<Material>,
    nx: nat,
    ny: nat,
    thickness: nat,
    mask_open: Seq<bool>,
    x: int,
    y: int,
)
    requires
        m.len() == nx * ny,
        mask_open.len() == nx,
        0 <= x < nx,
        0 <= y < ny,
        grid_at(m, nx as int, x, y) != Material::PhotoresistExposed,
    ensures
        grid_at(
            develop_spec(
                expose_spec(
                    spin_photoresist_spec(m, nx as int, ny as int, thickness as int),
                    nx as int,
                    ny as int,
                    mask_open,
                ),
            ),
            nx as int,
            x,
            y,
        ) == if y < thickness {
            if mask_open[x] {
                Material::Void
            } else {
                Material::Photoresist
            }
        } else if mask_open[x] && grid_at(m, nx as int, x, y) == Material::Photoresist {
            Material::Void
        } else {
            grid_at(m, nx as int, x, y)
        },
{
    let s = spin_photoresist_spec(m, nx as int, ny as int, thickness as int);
    lemma_from_cells(
        nx as int,
        ny as int,
        |cx: int, cy: int|
            if cy < thickness {
                Material::Photoresist
            } else {
                grid_at(m, nx as int, cx, cy)
            },
    );
    let e = expose_spec(s, nx as int, ny as int, mask_open);
    lemma_from_cells(
        nx as int,
        ny as int,
        |cx: int, cy: int|
            if mask_open[cx] && grid_at(s, nx as int, cx, cy) == Material::Photoresist {
                Material::PhotoresistExposed
            } else {
                grid_at(s, nx as int, cx, cy)
            },
    );
    lemma_cell_in_bounds(nx as int, ny as int, x, y);
    let sv = grid_at(s, nx as int, x, y);
    let ev = grid_at(e, nx as int, x, y);
    assert(grid_at(develop_spec(e), nx as int, x, y) == if ev == Material::PhotoresistExposed {
        Material::Void
    } else {
        ev
    });
}

} // verus!
