//! Etch and deposition, as cellular-automaton front propagation on the 2D grid.
//!
//! * Anisotropic etch: material is removed strictly downward, one voxel per
//!   step, in columns that already have an open path from the surface; no
//!   undercut.
//! * Isotropic etch: every etchable voxel with a void 4-neighbour is removed
//!   each step (computed from a snapshot, so removals within a step do not
//!   cascade); this erodes sideways under a mask edge (undercut).
//! * Deposition: the geometric inverse of etch, filling the void directly
//!   above the existing surface of every column.
use vstd::prelude::*;
use crate::grid2d::{
    count_of, first_solid_from, from_cells, grid_at, idx, lemma_cell_in_bounds,
    lemma_count_of_bound, lemma_count_of_update, lemma_first_solid_at, lemma_first_solid_from,
    lemma_from_cells, lemma_grid_ext, lemma_grid_update, lemma_solid_above_monotone,
    lemma_surface_same_column, solid_above, surface_row, Wafer2d,
};
use crate::materials::Material;

verus! {

/// Etchable materials: silicon and oxide.
pub open spec fn etchable(m: Material) -> bool {
    m == Material::Silicon || m == Material::Oxide
}

/// Whether the etchant attacks this material.
pub fn is_etchable(m: Material) -> (b: bool)
    ensures
        b == etchable(m),
{
    matches!(m, Material::Silicon | Material::Oxide)
}

// ---------------------------------------------------------------------------
// Anisotropic etch
/// One anisotropic step at cell `(x, y)`: the front voxel of a column is
/// removed when it lies below the top row (so the voxel above it is open)
/// and is etchable.
pub open spec fn aniso_cell(m: Seq<Material>, nx: int, ny: int, x: int, y: int) -> Material {
    if y == surface_row(m, nx, ny, x) && y > 0 && etchable(grid_at(m, nx, x, y)) {
        Material::Void
    } else {
        grid_at(m, nx, x, y)
    }
}

/// One anisotropic etch step over the whole grid.
pub open spec fn aniso_step(m: Seq<Material>, nx: int, ny: int) -> Seq<Material> {
    from_cells(nx, ny, |x: int, y: int| aniso_cell(m, nx, ny, x, y))
}

/// `k` anisotropic etch steps.
pub open spec fn aniso_iter(m: Seq<Material>, nx: int, ny: int, k: nat) -> Seq<Material>
    decreases k,
{
    if k == 0 {
        m
    } else {
        aniso_step(aniso_iter(m, nx, ny, (k - 1) as nat), nx, ny)
    }
}

pub proof fn lemma_aniso_step_cells(m: Seq<Material>, nx: int, ny: int)
    requires
        0 <= nx,
        0 <= ny,
    ensures
        aniso_step(m, nx, ny).len() == nx * ny,
        forall|x: int, y: int|
            0 <= x < nx && 0 <= y < ny ==> #[trigger] grid_at(aniso_step(m, nx, ny), nx, x, y)
                == aniso_cell(m, nx, ny, x, y),
{
    lemma_from_cells(nx, ny, |x: int, y: int| aniso_cell(m, nx, ny, x, y));
}

/// Anisotropic (directional, "straight down") etch. Only columns with an
/// existing open path from the surface (e.g. a developed resist window)
/// advance; each step removes exactly one more voxel straight down that
/// column's current front. Returns the number of voxels removed.
pub fn etch_anisotropic(wafer: &mut Wafer2d, depth_voxels: usize) -> (removed: usize)
    requires
        old(wafer).wf(),
    ensures
        final(wafer).wf(),
        final(wafer).nx == old(wafer).nx,
        final(wafer).ny == old(wafer).ny,
        final(wafer).material@ == aniso_iter(
            old(wafer).material@,
            old(wafer).nx as int,
            old(wafer).ny as int,
            depth_voxels as nat,
        ),
        removed == count_of(final(wafer).material@, Material::Void) - count_of(
            old(wafer).material@,
            Material::Void,
        ),
{
    let nx = wafer.nx;
    let ny = wafer.ny;
    let ghost m0 = wafer.material@;
    let mut removed: usize = 0;
    for step in 0..depth_voxels
        invariant
            nx == wafer.nx,
            ny == wafer.ny,
            nx * ny <= usize::MAX,
            wafer.material@.len() == nx * ny,
            wafer.material@ == aniso_iter(m0, nx as int, ny as int, step as nat),
            removed == count_of(wafer.material@, Material::Void) - count_of(m0, Material::Void),
    {
        let ghost prev = wafer.material@;
        proof {
            lemma_aniso_step_cells(prev, nx as int, ny as int);
        }
        for x in 0..nx
            invariant
                nx == wafer.nx,
                ny == wafer.ny,
                nx * ny <= usize::MAX,
                wafer.material@.len() == nx * ny,
                prev.len() == nx * ny,
                aniso_step(prev, nx as int, ny as int).len() == nx * ny,
                forall|cx: int, cy: int|
                    0 <= cx < nx && 0 <= cy < ny ==> #[trigger] grid_at(
                        aniso_step(prev, nx as int, ny as int),
                        nx as int,
                        cx,
                        cy,
                    ) == aniso_cell(prev, nx as int, ny as int, cx, cy),
                forall|cx: int, cy: int|
                    0 <= cx < nx && 0 <= cy < ny ==> #[trigger] grid_at(
                        wafer.material@,
                        nx as int,
                        cx,
                        cy,
                    ) == if cx < x {
                        aniso_cell(prev, nx as int, ny as int, cx, cy)
                    } else {
                        grid_at(prev, nx as int, cx, cy)
                    },
                removed == count_of(wafer.material@, Material::Void) - count_of(
                    m0,
                    Material::Void,
                ),
        {
            let mut y: usize = 0;
            while y < ny && wafer.get(x, y) == Material::Void
                invariant
                    nx == wafer.nx,
                    ny == wafer.ny,
                    0 <= x < nx,
                    y <= ny,
                    nx * ny <= usize::MAX,
                    wafer.material@.len() == nx * ny,
                    forall|cy: int|
                        0 <= cy < y ==> #[trigger] grid_at(prev, nx as int, x as int, cy)
                            == Material::Void,
                    forall|cx: int, cy: int|
                        0 <= cx < nx && 0 <= cy < ny ==> #[trigger] grid_at(
                            wafer.material@,
                            nx as int,
                            cx,
                            cy,
                        ) == if cx < x {
                            aniso_cell(prev, nx as int, ny as int, cx, cy)
                        } else {
                            grid_at(prev, nx as int, cx, cy)
                        },
                decreases ny - y,
            {
                proof {
                    assert(grid_at(wafer.material@, nx as int, x as int, y as int) == grid_at(
                        prev,
                        nx as int,
                        x as int,
                        y as int,
                    ));
                }
                y += 1;
            }
            proof {
                if y < ny {
                    lemma_cell_in_bounds(nx as int, ny as int, x as int, y as int);
                    assert(grid_at(wafer.material@, nx as int, x as int, y as int) == grid_at(
                        prev,
                        nx as int,
                        x as int,
                        y as int,
                    ));
                }
                lemma_first_solid_at(prev, nx as int, ny as int, x as int, 0, y as int);
            }
            let ghost before = wafer.material@;
            if y < ny {
                proof {
                    lemma_cell_in_bounds(nx as int, ny as int, x as int, y as int);
                    if y > 0 {
                        lemma_cell_in_bounds(nx as int, ny as int, x as int, (y - 1) as int);
                    }
                }
                let i = idx(x, y, nx);
                let above_is_open = y > 0 && wafer.material[idx(x, y - 1, nx)] == Material::Void;
                if above_is_open && is_etchable(wafer.material[i]) {
                    proof {
                        lemma_grid_update(
                            wafer.material@,
                            nx as int,
                            ny as int,
                            x as int,
                            y as int,
                            Material::Void,
                        );
                        lemma_count_of_update(wafer.material@, i as int, Material::Void, Material::Void);
                        lemma_count_of_bound(wafer.material@.update(i as int, Material::Void), Material::Void);
                    }
                    wafer.material.set(i, Material::Void);
                    removed += 1;
                }
            }
            proof {
                assert forall|cx: int, cy: int|
                    0 <= cx < nx && 0 <= cy < ny implies #[trigger] grid_at(
                    wafer.material@,
                    nx as int,
                    cx,
                    cy,
                ) == if cx < x + 1 {
                    aniso_cell(prev, nx as int, ny as int, cx, cy)
                } else {
                    grid_at(prev, nx as int, cx, cy)
                } by {
                    if cx == x && y < ny && y > 0 {
                        assert(grid_at(before, nx as int, x as int, (y - 1) as int) == grid_at(
                            prev,
                            nx as int,
                            x as int,
                            (y - 1) as int,
                        ));
                    }
                }
            }
        }
        proof {
            lemma_grid_ext(wafer.material@, aniso_step(prev, nx as int, ny as int), nx as int, ny as int);
        }
    }
    removed
}

// ---------------------------------------------------------------------------
// Isotropic etch
/// Whether cell `(x, y)` has a void 4-neighbour inside the grid.
pub open spec fn has_void_neighbor(m: Seq<Material>, nx: int, ny: int, x: int, y: int) -> bool {
    ||| (x > 0 && grid_at(m, nx, x - 1, y) == Material::Void)
    ||| (x + 1 < nx && grid_at(m, nx, x + 1, y) == Material::Void)
    ||| (y > 0 && grid_at(m, nx, x, y - 1) == Material::Void)
    ||| (y + 1 < ny && grid_at(m, nx, x, y + 1) == Material::Void)
}

/// One isotropic step at cell `(x, y)`: an etchable voxel touching void is removed.
pub open spec fn iso_cell(m: Seq<Material>, nx: int, ny: int, x: int, y: int) -> Material {
    if etchable(grid_at(m, nx, x, y)) && has_void_neighbor(m, nx, ny, x, y) {
        Material::Void
    } else {
        grid_at(m, nx, x, y)
    }
}

/// One isotropic etch step over the whole grid.
pub open spec fn iso_step(m: Seq<Material>, nx: int, ny: int) -> Seq<Material> {
    from_cells(nx, ny, |x: int, y: int| iso_cell(m, nx, ny, x, y))
}

/// `k` isotropic etch steps.
pub open spec fn iso_iter(m: Seq<Material>, nx: int, ny: int, k: nat) -> Seq<Material>
    decreases k,
{
    if k == 0 {
        m
    } else {
        iso_step(iso_iter(m, nx, ny, (k - 1) as nat), nx, ny)
    }
}

pub proof fn lemma_iso_step_cells(m: Seq<Material>, nx: int, ny: int)
    requires
        0 <= nx,
        0 <= ny,
    ensures
        iso_step(m, nx, ny).len() == nx * ny,
        forall|x: int, y: int|
            0 <= x < nx && 0 <= y < ny ==> #[trigger] grid_at(iso_step(m, nx, ny), nx, x, y)
                == iso_cell(m, nx, ny, x, y),
{
    lemma_from_cells(nx, ny, |x: int, y: int| iso_cell(m, nx, ny, x, y));
}

/// The snapshot cell at flat index `i` is removed by an isotropic step.
pub open spec fn iso_removable(m: Seq<Material>, nx: int, ny: int, i: int) -> bool {
    etchable(m[i]) && has_void_neighbor(m, nx, ny, i % nx, i / nx)
}

/// Isotropic (uniform chemical) etch. Each step, every etchable voxel with
/// at least one void 4-neighbour is removed simultaneously (computed from
/// a snapshot). Returns the number of voxels removed.
pub fn etch_isotropic(wafer: &mut Wafer2d, iterations: usize) -> (removed: usize)
    requires
        old(wafer).wf(),
    ensures
        final(wafer).wf(),
        final(wafer).nx == old(wafer).nx,
        final(wafer).ny == old(wafer).ny,
        final(wafer).material@ == iso_iter(
            old(wafer).material@,
            old(wafer).nx as int,
            old(wafer).ny as int,
            iterations as nat,
        ),
        removed == count_of(final(wafer).material@, Material::Void) - count_of(
            old(wafer).material@,
            Material::Void,
        ),
{
    let nx = wafer.nx;
    let ny = wafer.ny;
    let ghost m0 = wafer.material@;
    let mut removed: usize = 0;
    for step in 0..iterations
        invariant
            nx == wafer.nx,
            ny == wafer.ny,
            nx * ny <= usize::MAX,
            wafer.material@.len() == nx * ny,
            wafer.material@ == iso_iter(m0, nx as int, ny as int, step as nat),
            removed == count_of(wafer.material@, Material::Void) - count_of(m0, Material::Void),
    {
        let snapshot = wafer.material.clone();
        proof {
            assert(snapshot@ =~= wafer.material@);
        }
        let ghost snap = snapshot@;
        let mut to_remove: Vec<usize> = Vec::new();
        assert(0 * nx == 0);
        for y in 0..ny
            invariant
                nx == wafer.nx,
                ny == wafer.ny,
                nx * ny <= usize::MAX,
                snapshot@ == snap,
                snap.len() == nx * ny,
                to_remove@.len() <= y * nx,
                forall|a: int, b: int|
                    0 <= a < b < to_remove@.len() ==> #[trigger] to_remove@[a]
                        < #[trigger] to_remove@[b],
                forall|a: int|
                    0 <= a < to_remove@.len() ==> #[trigger] to_remove@[a] < y * nx
                        && iso_removable(snap, nx as int, ny as int, to_remove@[a] as int),
                forall|j: int|
                    0 <= j < y * nx && iso_removable(snap, nx as int, ny as int, j)
                        ==> #[trigger] to_remove@.contains(j as usize),
        {
            proof {
                assert(y * nx + nx <= nx * ny) by (nonlinear_arith)
                    requires
                        y < ny,
                ;
            }
            for x in 0..nx
                invariant
                    nx == wafer.nx,
                    ny == wafer.ny,
                    0 <= y < ny,
                    nx * ny <= usize::MAX,
                    y * nx + nx <= nx * ny,
                    snapshot@ == snap,
                    snap.len() == nx * ny,
                    to_remove@.len() <= y * nx + x,
                    forall|a: int, b: int|
                        0 <= a < b < to_remove@.len() ==> #[trigger] to_remove@[a]
                            < #[trigger] to_remove@[b],
                    forall|a: int|
                        0 <= a < to_remove@.len() ==> #[trigger] to_remove@[a] < y * nx + x
                            && iso_removable(snap, nx as int, ny as int, to_remove@[a] as int),
                    forall|j: int|
                        0 <= j < y * nx + x && iso_removable(snap, nx as int, ny as int, j)
                            ==> #[trigger] to_remove@.contains(j as usize),
            {
                proof {
                    lemma_cell_in_bounds(nx as int, ny as int, x as int, y as int);
                    vstd::arithmetic::div_mod::lemma_fundamental_div_mod_converse(
                        y * nx + x,
                        nx as int,
                        y as int,
                        x as int,
                    );
                    if x > 0 {
                        lemma_cell_in_bounds(nx as int, ny as int, (x - 1) as int, y as int);
                    }
                    if x + 1 < nx {
                        lemma_cell_in_bounds(nx as int, ny as int, (x + 1) as int, y as int);
                    }
                    if y > 0 {
                        lemma_cell_in_bounds(nx as int, ny as int, x as int, (y - 1) as int);
                    }
                    if y + 1 < ny {
                        lemma_cell_in_bounds(nx as int, ny as int, x as int, (y + 1) as int);
                    }
                }
                let i = idx(x, y, nx);
                if is_etchable(snapshot[i]) {
                    let left = x > 0 && snapshot[idx(x - 1, y, nx)] == Material::Void;
                    let right = x + 1 < nx && snapshot[idx(x + 1, y, nx)] == Material::Void;
                    let up = y > 0 && snapshot[idx(x, y - 1, nx)] == Material::Void;
                    let down = y + 1 < ny && snapshot[idx(x, y + 1, nx)] == Material::Void;
                    if left || right || up || down {
                        let ghost tr = to_remove@;
                        to_remove.push(i);
                        proof {
                            assert forall|j: int|
                                0 <= j < y * nx + x + 1 && iso_removable(
                                    snap,
                                    nx as int,
                                    ny as int,
                                    j,
                                ) implies #[trigger] to_remove@.contains(j as usize) by {
                                if j < y * nx + x {
                                    assert(tr.contains(j as usize));
                                    let k = choose|k: int| 0 <= k < tr.len() && #[trigger] tr[k] == j as usize;
                                    assert(to_remove@[k] == j as usize);
                                } else {
                                    assert(to_remove@[tr.len() as int] == j as usize);
                                }
                            }
                        }
                    }
                }
                proof {
                    assert forall|j: int|
                        0 <= j < y * nx + x + 1 && iso_removable(snap, nx as int, ny as int, j)
                            implies #[trigger] to_remove@.contains(j as usize) by {
                        if j == y * nx + x {
                            assert(iso_removable(snap, nx as int, ny as int, i as int));
                        }
                    }
                }
            }
            proof {
                assert((y + 1) * nx == y * nx + nx) by (nonlinear_arith);
            }
        }
        proof {
            assert(ny * nx == nx * ny) by (nonlinear_arith);
        }

        // Remove every marked voxel.
        let ghost marked = to_remove@;
        let n_remove = to_remove.len();
        for k in 0..n_remove
            invariant
                nx == wafer.nx,
                ny == wafer.ny,
                nx * ny <= usize::MAX,
                n_remove == marked.len(),
                to_remove@ == marked,
                snap.len() == nx * ny,
                wafer.material@.len() == nx * ny,
                forall|a: int, b: int|
                    0 <= a < b < marked.len() ==> #[trigger] marked[a] < #[trigger] marked[b],
                forall|a: int|
                    0 <= a < marked.len() ==> #[trigger] marked[a] < nx * ny && iso_removable(
                        snap,
                        nx as int,
                        ny as int,
                        marked[a] as int,
                    ),
                forall|j: int|
                    0 <= j < nx * ny ==> #[trigger] wafer.material@[j] == if marked.subrange(
                        0,
                        k as int,
                    ).contains(j as usize) {
                        Material::Void
                    } else {
                        snap[j]
                    },
                count_of(wafer.material@, Material::Void) == count_of(snap, Material::Void) + k,
        {
            let i = to_remove[k];
            proof {
                assert(!marked.subrange(0, k as int).contains(i)) by {
                    if marked.subrange(0, k as int).contains(i) {
                        let a = choose|a: int|
                            0 <= a < k && #[trigger] marked.subrange(0, k as int)[a] == i;
                        assert(marked[a] < marked[k as int]);
                    }
                }
                assert(wafer.material@[i as int] == snap[i as int]);
                lemma_count_of_update(wafer.material@, i as int, Material::Void, Material::Void);
                lemma_count_of_bound(wafer.material@.update(i as int, Material::Void), Material::Void);
            }
            wafer.material.set(i, Material::Void);
            proof {
                assert forall|j: int| 0 <= j < nx * ny implies #[trigger] wafer.material@[j] == if marked.subrange(
                    0,
                    k + 1,
                ).contains(j as usize) {
                    Material::Void
                } else {
                    snap[j]
                } by {
                    if marked.subrange(0, k + 1).contains(j as usize) && j != i {
                        let a = choose|a: int|
                            0 <= a < k + 1 && #[trigger] marked.subrange(0, k + 1)[a] == j as usize;
                        assert(marked.subrange(0, k as int)[a] == j as usize);
                    }
                    if j == i {
                        assert(marked.subrange(0, k + 1)[k as int] == i);
                    }
                    if marked.subrange(0, k as int).contains(j as usize) {
                        let a = choose|a: int|
                            0 <= a < k && #[trigger] marked.subrange(0, k as int)[a] == j as usize;
                        assert(marked.subrange(0, k + 1)[a] == j as usize);
                    }
                }
            }
        }
        proof {
            lemma_count_of_bound(wafer.material@, Material::Void);
        }
        removed += n_remove;
        proof {
            lemma_iso_step_cells(snap, nx as int, ny as int);
            assert(marked.subrange(0, n_remove as int) =~= marked);
            assert forall|x: int, y: int| 0 <= x < nx && 0 <= y < ny implies #[trigger] grid_at(
                wafer.material@,
                nx as int,
                x,
                y,
            ) == grid_at(iso_step(snap, nx as int, ny as int), nx as int, x, y) by {
                lemma_cell_in_bounds(nx as int, ny as int, x, y);
                vstd::arithmetic::div_mod::lemma_fundamental_div_mod_converse(
                    y * nx + x,
                    nx as int,
                    y,
                    x,
                );
                let j = y * nx + x;
                if marked.contains(j as usize) {
                    let a = choose|a: int| 0 <= a < marked.len() && #[trigger] marked[a] == j as usize;
                    assert(iso_removable(snap, nx as int, ny as int, marked[a] as int));
                }
            }
            lemma_grid_ext(wafer.material@, iso_step(snap, nx as int, ny as int), nx as int, ny as int);
        }
    }
    removed
}


// ---------------------------------------------------------------------------
// Deposition
/// Deposition at cell `(x, y)`: the `thickness` rows directly above the
/// surface of a non-empty column (as many as fit below the top) take `mat`.
pub open spec fn deposit_cell(
    m: Seq<Material>,
    nx: int,
    ny: int,
    thickness: int,
    mat: Material,
    x: int,
    y: int,
) -> Material {
    let s = surface_row(m, nx, ny, x);
    if s < ny && s - thickness <= y < s {
        mat
    } else {
        grid_at(m, nx, x, y)
    }
}

/// The grid after depositing `thickness` voxels of `mat`.
pub open spec fn deposit_spec(m: Seq<Material>, nx: int, ny: int, thickness: int, mat: Material) -> Seq<
    Material,
> {
    from_cells(nx, ny, |x: int, y: int| deposit_cell(m, nx, ny, thickness, mat, x, y))
}

/// How many voxels deposition fills in column `x`.
pub open spec fn deposit_column_fill(m: Seq<Material>, nx: int, ny: int, thickness: int, x: int) -> int {
    let s = surface_row(m, nx, ny, x);
    if s < ny {
        if s < thickness {
            s
        } else {
            thickness
        }
    } else {
        0
    }
}

/// How many voxels deposition fills in the columns before `x`.
pub open spec fn deposit_fill_before(m: Seq<Material>, nx: int, ny: int, thickness: int, x: int) -> int
    decreases x,
{
    if x <= 0 {
        0
    } else {
        deposit_fill_before(m, nx, ny, thickness, x - 1) + deposit_column_fill(
            m,
            nx,
            ny,
            thickness,
            x - 1,
        )
    }
}

proof fn lemma_deposit_fill_bound(m: Seq<Material>, nx: int, ny: int, thickness: int, x: int)
    requires
        0 <= x,
        0 <= ny,
        0 <= thickness,
    ensures
        0 <= deposit_fill_before(m, nx, ny, thickness, x) <= x * ny,
    decreases x,
{
    if x > 0 {
        lemma_deposit_fill_bound(m, nx, ny, thickness, x - 1);
        lemma_first_solid_from(m, nx, ny, x - 1, 0);
        assert((x - 1) * ny + ny == x * ny) by (nonlinear_arith);
    }
}

pub proof fn lemma_deposit_cells(m: Seq<Material>, nx: int, ny: int, thickness: int, mat: Material)
    requires
        0 <= nx,
        0 <= ny,
    ensures
        deposit_spec(m, nx, ny, thickness, mat).len() == nx * ny,
        forall|x: int, y: int|
            0 <= x < nx && 0 <= y < ny ==> #[trigger] grid_at(
                deposit_spec(m, nx, ny, thickness, mat),
                nx,
                x,
                y,
            ) == deposit_cell(m, nx, ny, thickness, mat, x, y),
{
    lemma_from_cells(nx, ny, |x: int, y: int| deposit_cell(m, nx, ny, thickness, mat, x, y));
}

/// Deposition (CVD/PVD), the geometric inverse of etch: blanket-fills the
/// topmost `thickness_voxels` of void space above the existing surface in
/// every column with `material`. Columns that are void all the way down
/// are left alone. Returns the number of voxels filled.
pub fn deposit(wafer: &mut Wafer2d, material: Material, thickness_voxels: usize) -> (added: usize)
    requires
        old(wafer).wf(),
    ensures
        final(wafer).wf(),
        final(wafer).nx == old(wafer).nx,
        final(wafer).ny == old(wafer).ny,
        final(wafer).material@ == deposit_spec(
            old(wafer).material@,
            old(wafer).nx as int,
            old(wafer).ny as int,
            thickness_voxels as int,
            material,
        ),
        added == deposit_fill_before(
            old(wafer).material@,
            old(wafer).nx as int,
            old(wafer).ny as int,
            thickness_voxels as int,
            old(wafer).nx as int,
        ),
{
    let nx = wafer.nx;
    let ny = wafer.ny;
    let ghost m0 = wafer.material@;
    let ghost t = thickness_voxels as int;
    let mut added: usize = 0;
    proof {
        lemma_deposit_cells(m0, nx as int, ny as int, t, material);
    }
    for x in 0..nx
        invariant
            nx == wafer.nx,
            ny == wafer.ny,
            nx * ny <= usize::MAX,
            m0.len() == nx * ny,
            wafer.material@.len() == nx * ny,
            t == thickness_voxels,
            forall|cx: int, cy: int|
                0 <= cx < nx && 0 <= cy < ny ==> #[trigger] grid_at(
                    deposit_spec(m0, nx as int, ny as int, t, material),
                    nx as int,
                    cx,
                    cy,
                ) == deposit_cell(m0, nx as int, ny as int, t, material, cx, cy),
            forall|cx: int, cy: int|
                0 <= cx < nx && 0 <= cy < ny ==> #[trigger] grid_at(
                    wafer.material@,
                    nx as int,
                    cx,
                    cy,
                ) == if cx < x {
                    deposit_cell(m0, nx as int, ny as int, t, material, cx, cy)
                } else {
                    grid_at(m0, nx as int, cx, cy)
                },
            added == deposit_fill_before(m0, nx as int, ny as int, t, x as int),
    {
        // Find the current surface (topmost non-void row) of this column.
        let mut y: usize = 0;
        while y < ny && wafer.get(x, y) == Material::Void
            invariant
                nx == wafer.nx,
                ny == wafer.ny,
                0 <= x < nx,
                y <= ny,
                nx * ny <= usize::MAX,
                wafer.material@.len() == nx * ny,
                forall|cy: int|
                    0 <= cy < y ==> #[trigger] grid_at(m0, nx as int, x as int, cy) == Material::Void,
                forall|cx: int, cy: int|
                    0 <= cx < nx && 0 <= cy < ny ==> #[trigger] grid_at(
                        wafer.material@,
                        nx as int,
                        cx,
                        cy,
                    ) == if cx < x {
                        deposit_cell(m0, nx as int, ny as int, t, material, cx, cy)
                    } else {
                        grid_at(m0, nx as int, cx, cy)
                    },
            decreases ny - y,
        {
            proof {
                assert(grid_at(wafer.material@, nx as int, x as int, y as int) == grid_at(
                    m0,
                    nx as int,
                    x as int,
                    y as int,
                ));
            }
            y += 1;
        }
        proof {
            if y < ny {
                assert(grid_at(wafer.material@, nx as int, x as int, y as int) == grid_at(
                    m0,
                    nx as int,
                    x as int,
                    y as int,
                ));
            }
            lemma_first_solid_at(m0, nx as int, ny as int, x as int, 0, y as int);
            lemma_deposit_fill_bound(m0, nx as int, ny as int, t, x + 1);
            assert((x + 1) * ny <= nx * ny) by (nonlinear_arith)
                requires
                    x + 1 <= nx,
                    0 <= ny,
            ;
        }
        let surface_row: Option<usize> = if y < ny {
            Some(y)
        } else {
            None
        };
        if let Some(surface_row) = surface_row {
            // Fill upward from just above the surface, thickness_voxels deep.
            let mut filled: usize = 0;
            let mut y: usize = surface_row;
            let mut blocked = false;
            while filled < thickness_voxels && y > 0 && !blocked
                invariant
                    nx == wafer.nx,
                    ny == wafer.ny,
                    0 <= x < nx,
                    surface_row < ny,
                    surface_row == self::surface_row(m0, nx as int, ny as int, x as int),
                    y + filled == surface_row,
                    filled <= thickness_voxels,
                    !blocked,
                    nx * ny <= usize::MAX,
                    wafer.material@.len() == nx * ny,
                    t == thickness_voxels,
                    added == deposit_fill_before(m0, nx as int, ny as int, t, x as int) + filled,
                    deposit_fill_before(m0, nx as int, ny as int, t, x as int)
                        + deposit_column_fill(m0, nx as int, ny as int, t, x as int) <= nx * ny,
                    forall|cy: int|
                        0 <= cy < surface_row ==> #[trigger] grid_at(m0, nx as int, x as int, cy)
                            == Material::Void,
                    forall|cx: int, cy: int|
                        0 <= cx < nx && 0 <= cy < ny ==> #[trigger] grid_at(
                            wafer.material@,
                            nx as int,
                            cx,
                            cy,
                        ) == if cx < x {
                            deposit_cell(m0, nx as int, ny as int, t, material, cx, cy)
                        } else if cx == x && y <= cy < surface_row {
                            material
                        } else {
                            grid_at(m0, nx as int, cx, cy)
                        },
                decreases y,
            {
                y -= 1;
                proof {
                    lemma_cell_in_bounds(nx as int, ny as int, x as int, y as int);
                    lemma_grid_update(wafer.material@, nx as int, ny as int, x as int, y as int, material);
                    assert(grid_at(wafer.material@, nx as int, x as int, y as int) == Material::Void);
                }
                let i = idx(x, y, nx);
                if wafer.material[i] == Material::Void {
                    wafer.material.set(i, material);
                    filled += 1;
                    added += 1;
                } else {
                    blocked = true;
                }
            }
        } else {
        }
        proof {
            lemma_first_solid_from(m0, nx as int, ny as int, x as int, 0);
            assert forall|cx: int, cy: int|
                0 <= cx < nx && 0 <= cy < ny implies #[trigger] grid_at(
                wafer.material@,
                nx as int,
                cx,
                cy,
            ) == if cx < x + 1 {
                deposit_cell(m0, nx as int, ny as int, t, material, cx, cy)
            } else {
                grid_at(m0, nx as int, cx, cy)
            } by {
            }
        }
    }
    proof {
        lemma_grid_ext(
            wafer.material@,
            deposit_spec(m0, nx as int, ny as int, t, material),
            nx as int,
            ny as int,
        );
    }
    added
}


// ---------------------------------------------------------------------------
// Laws
/// `m1` is `m0` with some silicon or oxide voxels etched away to void.
pub open spec fn only_etched(m0: Seq<Material>, m1: Seq<Material>, nx: int, ny: int) -> bool {
    &&& m1.len() == m0.len()
    &&& forall|x: int, y: int|
        0 <= x < nx && 0 <= y < ny ==> #[trigger] grid_at(m1, nx, x, y) == grid_at(m0, nx, x, y) || (
        grid_at(m1, nx, x, y) == Material::Void && etchable(grid_at(m0, nx, x, y)))
}

/// `m1` equals `m0` on column `x`.
pub open spec fn same_column(m0: Seq<Material>, m1: Seq<Material>, nx: int, ny: int, x: int) -> bool {
    forall|y: int| 0 <= y < ny ==> #[trigger] grid_at(m1, nx, x, y) == grid_at(m0, nx, x, y)
}

/// Anisotropic etch only ever removes material, and only silicon or
/// oxide: after any number of steps every voxel either keeps its material
/// or was etchable and is now void.
pub proof fn law_aniso_etch_only_removes_etchable(m: Seq<Material>, nx: nat, ny: nat, k: nat)
    requires
        m.len() == nx * ny,
    ensures
        only_etched(m, aniso_iter(m, nx as int, ny as int, k), nx as int, ny as int),
    decreases k,
{
    if k > 0 {
        law_aniso_etch_only_removes_etchable(m, nx, ny, (k - 1) as nat);
        let prev = aniso_iter(m, nx as int, ny as int, (k - 1) as nat);
        lemma_aniso_step_cells(prev, nx as int, ny as int);
    }
}

/// Anisotropic etch has no lateral spread: what happens to a column
/// depends on that column alone, so two grids that agree on a column
/// still agree on it after any number of etch steps.
pub proof fn law_aniso_etch_column_local(
    m1: Seq<Material>,
    m2: Seq<Material>,
    nx: nat,
    ny: nat,
    k: nat,
    x: int,
)
    requires
        m1.len() == nx * ny,
        m2.len() == nx * ny,
        0 <= x < nx,
        same_column(m1, m2, nx as int, ny as int, x),
    ensures
        same_column(
            aniso_iter(m1, nx as int, ny as int, k),
            aniso_iter(m2, nx as int, ny as int, k),
            nx as int,
            ny as int,
            x,
        ),
    decreases k,
{
    if k > 0 {
        law_aniso_etch_column_local(m1, m2, nx, ny, (k - 1) as nat, x);
        let p1 = aniso_iter(m1, nx as int, ny as int, (k - 1) as nat);
        let p2 = aniso_iter(m2, nx as int, ny as int, (k - 1) as nat);
        lemma_aniso_step_cells(p1, nx as int, ny as int);
        lemma_aniso_step_cells(p2, nx as int, ny as int);
        lemma_surface_same_column(p2, p1, nx as int, ny as int, x);
    }
}

/// A column whose top voxel is solid (protected by an unopened mask) is
/// never reached by anisotropic etch.
pub proof fn law_aniso_etch_spares_closed_columns(m: Seq<Material>, nx: nat, ny: nat, k: nat, x: int)
    requires
        m.len() == nx * ny,
        0 <= x < nx,
        0 < ny,
        grid_at(m, nx as int, x, 0) != Material::Void,
    ensures
        same_column(m, aniso_iter(m, nx as int, ny as int, k), nx as int, ny as int, x),
    decreases k,
{
    if k > 0 {
        law_aniso_etch_spares_closed_columns(m, nx, ny, (k - 1) as nat, x);
        let prev = aniso_iter(m, nx as int, ny as int, (k - 1) as nat);
        lemma_aniso_step_cells(prev, nx as int, ny as int);
        assert(grid_at(prev, nx as int, x, 0) != Material::Void);
        assert(surface_row(prev, nx as int, ny as int, x) == 0);
    }
}

/// Isotropic etch only ever removes material, and only silicon or oxide.
pub proof fn law_iso_etch_only_removes_etchable(m: Seq<Material>, nx: nat, ny: nat, k: nat)
    requires
        m.len() == nx * ny,
    ensures
        only_etched(m, iso_iter(m, nx as int, ny as int, k), nx as int, ny as int),
    decreases k,
{
    if k > 0 {
        law_iso_etch_only_removes_etchable(m, nx, ny, (k - 1) as nat);
        let prev = iso_iter(m, nx as int, ny as int, (k - 1) as nat);
        lemma_iso_step_cells(prev, nx as int, ny as int);
    }
}

/// An isotropic step removes a voxel only where the etchant touches it:
/// every voxel it removes had a void neighbour.
pub proof fn law_iso_step_removes_only_exposed(m: Seq<Material>, nx: nat, ny: nat, x: int, y: int)
    requires
        m.len() == nx * ny,
        0 <= x < nx,
        0 <= y < ny,
        grid_at(m, nx as int, x, y) != Material::Void,
        grid_at(iso_step(m, nx as int, ny as int), nx as int, x, y) == Material::Void,
    ensures
        has_void_neighbor(m, nx as int, ny as int, x, y),
        etchable(grid_at(m, nx as int, x, y)),
{
    lemma_iso_step_cells(m, nx as int, ny as int);
}

/// Deposition only fills void: every voxel either keeps its material or
/// was void and now holds the deposited material.
pub proof fn law_deposit_only_fills_void(
    m: Seq<Material>,
    nx: nat,
    ny: nat,
    thickness: int,
    mat: Material,
    x: int,
    y: int,
)
    requires
        m.len() == nx * ny,
        0 <= x < nx,
        0 <= y < ny,
    ensures
        ({
            let r = grid_at(deposit_spec(m, nx as int, ny as int, thickness, mat), nx as int, x, y);
            r == grid_at(m, nx as int, x, y) || (grid_at(m, nx as int, x, y) == Material::Void
                && r == mat)
        }),
{
    lemma_deposit_cells(m, nx as int, ny as int, thickness, mat);
    lemma_first_solid_from(m, nx as int, ny as int, x, 0);
}


/// Every non-void voxel above row `y` in column `x` is etchable.
pub open spec fn etchable_above(m: Seq<Material>, nx: int, x: int, y: int) -> bool {
    forall|yy: int|
        0 <= yy < y && #[trigger] grid_at(m, nx, x, yy) != Material::Void ==> etchable(
            grid_at(m, nx, x, yy),
        )
}

/// Cell `(x, y)` after `k` anisotropic etch steps, in closed form: in a
/// column open at the top (row 0 void), list the non-void voxels top-down;
/// the first `k` of them are removed, as long as they are all silicon or
/// oxide (the etch stops at the first other material). Every other voxel,
/// and every voxel of a column closed at the top, keeps its material.
pub open spec fn aniso_closed_cell(m: Seq<Material>, nx: int, k: int, x: int, y: int) -> Material {
    if grid_at(m, nx, x, 0) == Material::Void && etchable(grid_at(m, nx, x, y)) && solid_above(
        m,
        nx,
        x,
        y,
    ) < k && etchable_above(m, nx, x, y) {
        Material::Void
    } else {
        grid_at(m, nx, x, y)
    }
}

/// Below a count of `j` solid voxels above row `y`, some solid voxel above
/// `y` has exactly `j` solid voxels above it.
proof fn lemma_solid_above_witness(m: Seq<Material>, nx: int, x: int, y: int, j: int)
    requires
        0 <= j < solid_above(m, nx, x, y),
        0 <= y,
    ensures
        exists|yy: int|
            0 <= yy < y && grid_at(m, nx, x, yy) != Material::Void && #[trigger] solid_above(
                m,
                nx,
                x,
                yy,
            ) == j,
    decreases y,
{
    if y > 0 {
        if j < solid_above(m, nx, x, y - 1) {
            lemma_solid_above_witness(m, nx, x, y - 1, j);
            let yy = choose|yy: int|
                0 <= yy < y - 1 && grid_at(m, nx, x, yy) != Material::Void && #[trigger] solid_above(
                    m,
                    nx,
                    x,
                    yy,
                ) == j;
            assert(0 <= yy < y && grid_at(m, nx, x, yy) != Material::Void && solid_above(m, nx, x, yy) == j);
        } else {
            assert(solid_above(m, nx, x, y - 1) == j);
        }
    }
}

/// One anisotropic step takes column `x` from the closed form at `k` to
/// the closed form at `k + 1`.
proof fn lemma_aniso_column_step(
    m: Seq<Material>,
    p: Seq<Material>,
    nx: int,
    ny: int,
    k: int,
    x: int,
)
    requires
        0 <= x < nx,
        0 < ny,
        0 <= k,
        forall|y: int| 0 <= y < ny ==> #[trigger] grid_at(p, nx, x, y) == aniso_closed_cell(m, nx, k, x, y),
    ensures
        forall|y: int|
            0 <= y < ny ==> #[trigger] aniso_cell(p, nx, ny, x, y) == aniso_closed_cell(
                m,
                nx,
                k + 1,
                x,
                y,
            ),
{
    let s = surface_row(p, nx, ny, x);
    lemma_first_solid_from(p, nx, ny, x, 0);
    assert(grid_at(p, nx, x, 0) == aniso_closed_cell(m, nx, k, x, 0));
    if grid_at(m, nx, x, 0) != Material::Void {
        assert(s == 0);
        assert forall|y: int| 0 <= y < ny implies #[trigger] aniso_cell(p, nx, ny, x, y) == aniso_closed_cell(
            m,
            nx,
            k + 1,
            x,
            y,
        ) by {
            assert(grid_at(p, nx, x, y) == aniso_closed_cell(m, nx, k, x, y));
        }
    } else {
        assert forall|y: int| 0 <= y < ny implies #[trigger] aniso_cell(p, nx, ny, x, y) == aniso_closed_cell(
            m,
            nx,
            k + 1,
            x,
            y,
        ) by {
            let my = grid_at(m, nx, x, y);
            assert(grid_at(p, nx, x, y) == aniso_closed_cell(m, nx, k, x, y));
            if my != Material::Void && etchable(my) && etchable_above(m, nx, x, y) && solid_above(
                m,
                nx,
                x,
                y,
            ) == k {
                // This voxel is the front after k steps.
                if s < y {
                    let ms = grid_at(m, nx, x, s);
                    assert(grid_at(p, nx, x, s) == aniso_closed_cell(m, nx, k, x, s));
                    assert(ms != Material::Void);
                    assert(etchable(ms));
                    lemma_solid_above_monotone(m, nx, x, s + 1, y);
                    assert(etchable_above(m, nx, x, s));
                    assert(false);
                } else if s > y {
                    assert(grid_at(p, nx, x, y) == Material::Void);
                    assert(false);
                }
            } else if my != Material::Void && etchable(my) && etchable_above(m, nx, x, y) && solid_above(
                m,
                nx,
                x,
                y,
            ) > k && y == s {
                // Then some solid voxel above has exactly k solid voxels above it,
                // and it is still there.
                lemma_solid_above_witness(m, nx, x, y, k);
                let yy = choose|yy: int|
                    0 <= yy < y && grid_at(m, nx, x, yy) != Material::Void && #[trigger] solid_above(
                        m,
                        nx,
                        x,
                        yy,
                    ) == k;
                assert(grid_at(p, nx, x, yy) == aniso_closed_cell(m, nx, k, x, yy));
                assert(grid_at(p, nx, x, yy) == Material::Void);
                assert(etchable(grid_at(m, nx, x, yy)));
                assert(false);
            } else if y == s && y > 0 && etchable(grid_at(p, nx, x, y)) {
                // The front is removed now: it must meet the closed form's conditions.
                assert(grid_at(p, nx, x, y) == my);
                assert forall|yy: int|
                    0 <= yy < y && #[trigger] grid_at(m, nx, x, yy) != Material::Void implies etchable(
                    grid_at(m, nx, x, yy),
                ) by {
                    assert(grid_at(p, nx, x, yy) == aniso_closed_cell(m, nx, k, x, yy));
                }
                if solid_above(m, nx, x, y) > k {
                    lemma_solid_above_witness(m, nx, x, y, k);
                    let yy = choose|yy: int|
                        0 <= yy < y && grid_at(m, nx, x, yy) != Material::Void
                            && #[trigger] solid_above(m, nx, x, yy) == k;
                    assert(grid_at(p, nx, x, yy) == aniso_closed_cell(m, nx, k, x, yy));
                    assert(false);
                }
            }
        }
    }
}

/// The anisotropic etch in closed form: after `k` steps, a column open at
/// the top has lost the first `k` of its non-void voxels (top-down), up to
/// the first voxel that is neither silicon nor oxide; every other voxel,
/// and every column closed at the top, is unchanged.
pub proof fn law_aniso_etch_closed_form(m: Seq<Material>, nx: nat, ny: nat, k: nat)
    requires
        m.len() == nx * ny,
    ensures
        aniso_iter(m, nx as int, ny as int, k).len() == nx * ny,
        forall|x: int, y: int|
            0 <= x < nx && 0 <= y < ny ==> #[trigger] grid_at(
                aniso_iter(m, nx as int, ny as int, k),
                nx as int,
                x,
                y,
            ) == aniso_closed_cell(m, nx as int, k as int, x, y),
    decreases k,
{
    if k == 0 {
        assert forall|x: int, y: int| 0 <= x < nx && 0 <= y < ny implies #[trigger] grid_at(
            aniso_iter(m, nx as int, ny as int, k),
            nx as int,
            x,
            y,
        ) == aniso_closed_cell(m, nx as int, k as int, x, y) by {
        }
    } else {
        law_aniso_etch_closed_form(m, nx, ny, (k - 1) as nat);
        let p = aniso_iter(m, nx as int, ny as int, (k - 1) as nat);
        lemma_aniso_step_cells(p, nx as int, ny as int);
        assert forall|x: int, y: int| 0 <= x < nx && 0 <= y < ny implies #[trigger] grid_at(
            aniso_iter(m, nx as int, ny as int, k),
            nx as int,
            x,
            y,
        ) == aniso_closed_cell(m, nx as int, k as int, x, y) by {
            lemma_aniso_column_step(m, p, nx as int, ny as int, k - 1, x);
        }
    }
}


/// An isotropic step removes every silicon or oxide voxel that touches
/// void on any of its four sides: wet etch attacks oxide as well as
/// silicon, in every direction.
pub proof fn law_iso_step_removes_every_exposed_voxel(m: Seq<Material>, nx: nat, ny: nat, x: int, y: int)
    requires
        m.len() == nx * ny,
        0 <= x < nx,
        0 <= y < ny,
        grid_at(m, nx as int, x, y) == Material::Silicon || grid_at(m, nx as int, x, y)
            == Material::Oxide,
        (x > 0 && grid_at(m, nx as int, x - 1, y) == Material::Void) || (x + 1 < nx && grid_at(
            m,
            nx as int,
            x + 1,
            y,
        ) == Material::Void) || (y > 0 && grid_at(m, nx as int, x, y - 1) == Material::Void) || (y
            + 1 < ny && grid_at(m, nx as int, x, y + 1) == Material::Void),
    ensures
        grid_at(iso_step(m, nx as int, ny as int), nx as int, x, y) == Material::Void,
{
    lemma_iso_step_cells(m, nx as int, ny as int);
}

/// An isotropic step never changes a voxel that is not silicon or oxide.
pub proof fn law_iso_step_spares_other_materials(m: Seq<Material>, nx: nat, ny: nat, x: int, y: int)
    requires
        m.len() == nx * ny,
        0 <= x < nx,
        0 <= y < ny,
        grid_at(m, nx as int, x, y) != Material::Silicon,
        grid_at(m, nx as int, x, y) != Material::Oxide,
    ensures
        grid_at(iso_step(m, nx as int, ny as int), nx as int, x, y) == grid_at(m, nx as int, x, y),
{
    lemma_iso_step_cells(m, nx as int, ny as int);
}


/// The etchant attacks exactly silicon and oxide.
pub proof fn law_etchable_is_silicon_or_oxide(m: Material)
    ensures
        etchable(m) <==> (m == Material::Silicon || m == Material::Oxide),
{
}

} // verus!
