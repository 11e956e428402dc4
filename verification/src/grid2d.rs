//! Wafer2d: the voxel material grid of a 2D wafer cross-section.
//!
//! A dense, row-major flattened grid: `idx(x, y) = y * nx + x`. `x` runs
//! laterally across the wafer (columns), `y` runs with depth (0 = surface,
//! increasing = deeper into bulk silicon).
//!
//! The same row-major layout, read with a "row width" of `nx * ny` and a
//! "row" index `z`, is the layout of the 3D grid, so the layout lemmas
//! here are stated for a generic width `w`.
use vstd::prelude::*;
use vstd::arithmetic::div_mod::lemma_fundamental_div_mod_converse;
use crate::materials::Material;

verus! {

/// The material at column `x`, row `y` of a row-major grid of width `w`.
pub open spec fn grid_at(m: Seq<Material>, w: int, x: int, y: int) -> Material {
    m[y * w + x]
}

/// The row-major grid of width `w` and height `h` whose cell `(x, y)` is `f(x, y)`.
pub open spec fn from_cells(w: int, h: int, f: spec_fn(int, int) -> Material) -> Seq<Material> {
    Seq::new((w * h) as nat, |i: int| f(i % w, i / w))
}

/// Cell `(x, y)` of a grid of width `w` and height `h` lies inside the grid.
pub proof fn lemma_cell_in_bounds(w: int, h: int, x: int, y: int)
    requires
        0 <= x < w,
        0 <= y < h,
    ensures
        0 <= y * w + x < w * h,
        y * w + x <= y * w + (w - 1),
{
    assert(0 <= y * w) by (nonlinear_arith)
        requires
            0 <= y,
            0 <= w,
    ;
    assert(y * w + x < w * h) by (nonlinear_arith)
        requires
            0 <= x < w,
            0 <= y < h,
    ;
}

/// The flat index of cell `(x, y)` determines the cell.
pub proof fn lemma_cell_index_injective(w: int, x1: int, y1: int, x2: int, y2: int)
    requires
        0 <= x1 < w,
        0 <= x2 < w,
        0 <= y1,
        0 <= y2,
        y1 * w + x1 == y2 * w + x2,
    ensures
        x1 == x2,
        y1 == y2,
{
    lemma_fundamental_div_mod_converse(y1 * w + x1, w, y1, x1);
    lemma_fundamental_div_mod_converse(y2 * w + x2, w, y2, x2);
}

/// Reading cell `(x, y)` back from a grid built cell by cell.
pub proof fn lemma_from_cells(w: int, h: int, f: spec_fn(int, int) -> Material)
    requires
        0 <= w,
        0 <= h,
    ensures
        from_cells(w, h, f).len() == w * h,
        forall|x: int, y: int|
            0 <= x < w && 0 <= y < h ==> #[trigger] grid_at(from_cells(w, h, f), w, x, y) == f(
                x,
                y,
            ),
{
    assert(0 <= w * h) by (nonlinear_arith)
        requires
            0 <= w,
            0 <= h,
    ;
    assert forall|x: int, y: int| 0 <= x < w && 0 <= y < h implies #[trigger] grid_at(
        from_cells(w, h, f),
        w,
        x,
        y,
    ) == f(x, y) by {
        lemma_cell_in_bounds(w, h, x, y);
        lemma_fundamental_div_mod_converse(y * w + x, w, y, x);
    }
}

/// Two grids of the same shape are equal when they agree on every cell.
pub proof fn lemma_grid_ext(m1: Seq<Material>, m2: Seq<Material>, w: int, h: int)
    requires
        0 <= w,
        0 <= h,
        m1.len() == w * h,
        m2.len() == w * h,
        forall|x: int, y: int|
            0 <= x < w && 0 <= y < h ==> #[trigger] grid_at(m1, w, x, y) == grid_at(m2, w, x, y),
    ensures
        m1 == m2,
{
    if w == 0 {
        assert(m1.len() == 0);
        assert(m1 =~= m2);
        return;
    }
    assert forall|i: int| 0 <= i < m1.len() implies m1[i] == m2[i] by {
        let x = i % w;
        let y = i / w;
        assert(i == y * w + x) by {
            vstd::arithmetic::div_mod::lemma_fundamental_div_mod(i, w);
            vstd::arithmetic::mul::lemma_mul_is_commutative(w, y);
        }
        assert(0 <= x < w) by {
            vstd::arithmetic::div_mod::lemma_mod_bound(i, w);
        }
        assert(0 <= y < h) by {
            vstd::arithmetic::div_mod::lemma_div_pos_is_pos(i, w);
            if y >= h {
                assert(y * w >= h * w) by (nonlinear_arith)
                    requires
                        y >= h,
                        w > 0,
                ;
                vstd::arithmetic::mul::lemma_mul_is_commutative(w, h);
            }
        }
        assert(grid_at(m1, w, x, y) == grid_at(m2, w, x, y));
    }
    assert(m1 =~= m2);
}

/// Writing one cell of a grid leaves every other cell as it was.
pub proof fn lemma_grid_update(m: Seq<Material>, w: int, h: int, x0: int, y0: int, v: Material)
    requires
        0 <= x0 < w,
        0 <= y0 < h,
        m.len() == w * h,
    ensures
        m.update(y0 * w + x0, v).len() == m.len(),
        forall|x: int, y: int|
            0 <= x < w && 0 <= y < h ==> #[trigger] grid_at(m.update(y0 * w + x0, v), w, x, y) == (
            if x == x0 && y == y0 {
                v
            } else {
                grid_at(m, w, x, y)
            }),
{
    lemma_cell_in_bounds(w, h, x0, y0);
    assert forall|x: int, y: int| 0 <= x < w && 0 <= y < h implies #[trigger] grid_at(
        m.update(y0 * w + x0, v),
        w,
        x,
        y,
    ) == (if x == x0 && y == y0 {
        v
    } else {
        grid_at(m, w, x, y)
    }) by {
        lemma_cell_in_bounds(w, h, x, y);
        if y * w + x == y0 * w + x0 {
            lemma_cell_index_injective(w, x, y, x0, y0);
        }
    }
}

/// The first row at or below `y` in column `x` that is not void (`ny` if there is none).
pub open spec fn first_solid_from(m: Seq<Material>, nx: int, ny: int, x: int, y: int) -> int
    decreases ny - y,
{
    if y >= ny {
        ny
    } else if grid_at(m, nx, x, y) != Material::Void {
        y
    } else {
        first_solid_from(m, nx, ny, x, y + 1)
    }
}

/// The surface row of column `x`: its topmost non-void row, or `ny` when the
/// column is void all the way down.
pub open spec fn surface_row(m: Seq<Material>, nx: int, ny: int, x: int) -> int {
    first_solid_from(m, nx, ny, x, 0)
}

/// What `first_solid_from` finds: void rows, then a solid row or the bottom.
pub proof fn lemma_first_solid_from(m: Seq<Material>, nx: int, ny: int, x: int, y0: int)
    requires
        0 <= y0 <= ny,
    ensures
        y0 <= first_solid_from(m, nx, ny, x, y0) <= ny,
        forall|y: int|
            y0 <= y < first_solid_from(m, nx, ny, x, y0) ==> #[trigger] grid_at(m, nx, x, y)
                == Material::Void,
        first_solid_from(m, nx, ny, x, y0) < ny ==> grid_at(
            m,
            nx,
            x,
            first_solid_from(m, nx, ny, x, y0),
        ) != Material::Void,
    decreases ny - y0,
{
    if y0 < ny && grid_at(m, nx, x, y0) == Material::Void {
        lemma_first_solid_from(m, nx, ny, x, y0 + 1);
    }
}

/// A run of void rows ending at a solid row (or the bottom) determines the surface.
pub proof fn lemma_first_solid_at(m: Seq<Material>, nx: int, ny: int, x: int, y0: int, y1: int)
    requires
        0 <= y0 <= y1 <= ny,
        forall|y: int| y0 <= y < y1 ==> #[trigger] grid_at(m, nx, x, y) == Material::Void,
        y1 == ny || grid_at(m, nx, x, y1) != Material::Void,
    ensures
        first_solid_from(m, nx, ny, x, y0) == y1,
    decreases y1 - y0,
{
    if y0 < y1 {
        lemma_first_solid_at(m, nx, ny, x, y0 + 1, y1);
    }
}

/// Two grids that agree on column `x` have the same surface there.
pub proof fn lemma_surface_same_column(
    m1: Seq<Material>,
    m2: Seq<Material>,
    nx: int,
    ny: int,
    x: int,
)
    requires
        0 <= ny,
        forall|y: int| 0 <= y < ny ==> #[trigger] grid_at(m1, nx, x, y) == grid_at(m2, nx, x, y),
    ensures
        surface_row(m1, nx, ny, x) == surface_row(m2, nx, ny, x),
{
    lemma_first_solid_from(m1, nx, ny, x, 0);
    let s = surface_row(m1, nx, ny, x);
    assert forall|y: int| 0 <= y < s implies #[trigger] grid_at(m2, nx, x, y) == Material::Void by {
        assert(grid_at(m1, nx, x, y) == Material::Void);
    }
    lemma_first_solid_at(m2, nx, ny, x, 0, s);
}

/// How many cells of `s` hold `mat`.
pub open spec fn count_of(s: Seq<Material>, mat: Material) -> nat
    decreases s.len(),
{
    if s.len() == 0 {
        0
    } else {
        count_of(s.drop_last(), mat) + if s.last() == mat {
            1nat
        } else {
            0nat
        }
    }
}

/// A count never exceeds the number of cells.
pub proof fn lemma_count_of_bound(s: Seq<Material>, mat: Material)
    ensures
        count_of(s, mat) <= s.len(),
    decreases s.len(),
{
    if s.len() > 0 {
        lemma_count_of_bound(s.drop_last(), mat);
    }
}

/// Extending a prefix by one cell adds that cell to the count.
pub proof fn lemma_count_of_prefix(s: Seq<Material>, mat: Material, i: int)
    requires
        0 <= i < s.len(),
    ensures
        count_of(s.subrange(0, i + 1), mat) == count_of(s.subrange(0, i), mat) + if s[i] == mat {
            1nat
        } else {
            0nat
        },
{
    assert(s.subrange(0, i + 1).drop_last() =~= s.subrange(0, i));
}

/// Writing one cell changes a count by at most that cell.
pub proof fn lemma_count_of_update(s: Seq<Material>, i: int, v: Material, mat: Material)
    requires
        0 <= i < s.len(),
    ensures
        count_of(s.update(i, v), mat) + (if s[i] == mat {
            1int
        } else {
            0int
        }) == count_of(s, mat) + (if v == mat {
            1int
        } else {
            0int
        }),
    decreases s.len(),
{
    if i == s.len() - 1 {
        assert(s.update(i, v).drop_last() =~= s.drop_last());
    } else {
        assert(s.update(i, v).drop_last() =~= s.drop_last().update(i, v));
        lemma_count_of_update(s.drop_last(), i, v, mat);
    }
}

/// A material that occurs nowhere is counted zero times.
pub proof fn lemma_count_of_absent(s: Seq<Material>, mat: Material)
    requires
        forall|i: int| 0 <= i < s.len() ==> s[i] != mat,
    ensures
        count_of(s, mat) == 0,
    decreases s.len(),
{
    if s.len() > 0 {
        lemma_count_of_absent(s.drop_last(), mat);
    }
}

/// How many entries of `s` are `true`.
pub open spec fn count_true(s: Seq<bool>) -> nat
    decreases s.len(),
{
    if s.len() == 0 {
        0
    } else {
        count_true(s.drop_last()) + if s.last() {
            1nat
        } else {
            0nat
        }
    }
}

/// How many non-void voxels column `c` holds above depth `z`.
pub open spec fn solid_above(m: Seq<Material>, w: int, c: int, z: int) -> nat
    decreases z,
{
    if z <= 0 {
        0
    } else {
        solid_above(m, w, c, z - 1) + if grid_at(m, w, c, z - 1) != Material::Void {
            1nat
        } else {
            0nat
        }
    }
}

/// More depth never means fewer solid voxels above.
pub proof fn lemma_solid_above_monotone(m: Seq<Material>, w: int, c: int, z1: int, z2: int)
    requires
        0 <= z1 <= z2,
    ensures
        solid_above(m, w, c, z1) <= solid_above(m, w, c, z2),
    decreases z2 - z1,
{
    if z1 < z2 {
        lemma_solid_above_monotone(m, w, c, z1, z2 - 1);
    }
}

/// How many silicon voxels column `c` holds above row `z` (grid width `w`).
pub open spec fn silicon_above(m: Seq<Material>, w: int, c: int, z: int) -> nat
    decreases z,
{
    if z <= 0 {
        0
    } else {
        silicon_above(m, w, c, z - 1) + if grid_at(m, w, c, z - 1) == Material::Silicon {
            1nat
        } else {
            0nat
        }
    }
}

/// More depth never means fewer silicon voxels above.
pub proof fn lemma_silicon_above_monotone(m: Seq<Material>, w: int, c: int, z1: int, z2: int)
    requires
        0 <= z1 <= z2,
    ensures
        silicon_above(m, w, c, z1) <= silicon_above(m, w, c, z2),
    decreases z2 - z1,
{
    if z1 < z2 {
        lemma_silicon_above_monotone(m, w, c, z1, z2 - 1);
    }
}

/// Oxidation at column `c`, row `z`: the topmost `rows[c]` silicon voxels
/// of each column become oxide (the silicon consumed by the grown oxide).
pub open spec fn consume_cell(m: Seq<Material>, w: int, rows: Seq<usize>, c: int, z: int) -> Material {
    if grid_at(m, w, c, z) == Material::Silicon && silicon_above(m, w, c, z) < rows[c] {
        Material::Oxide
    } else {
        grid_at(m, w, c, z)
    }
}

/// The grid (of width `w` and height `h`) after every column `c` has
/// turned its topmost `rows[c]` silicon voxels into oxide.
pub open spec fn consume_silicon_spec(m: Seq<Material>, w: int, h: int, rows: Seq<usize>) -> Seq<
    Material,
> {
    from_cells(w, h, |c: int, z: int| consume_cell(m, w, rows, c, z))
}

/// Oxidation only turns silicon into oxide, and a column asked to give up
/// no silicon (a masked column) is left exactly as it was.
pub proof fn law_consume_silicon_only_oxidizes(
    m: Seq<Material>,
    w: nat,
    h: nat,
    rows: Seq<usize>,
    c: int,
    z: int,
)
    requires
        m.len() == w * h,
        rows.len() == w,
        0 <= c < w,
        0 <= z < h,
    ensures
        ({
            let r = grid_at(consume_silicon_spec(m, w as int, h as int, rows), w as int, c, z);
            &&& r == grid_at(m, w as int, c, z) || (grid_at(m, w as int, c, z) == Material::Silicon
                && r == Material::Oxide)
            &&& rows[c] == 0 ==> r == grid_at(m, w as int, c, z)
        }),
{
    lemma_from_cells(w as int, h as int, |cc: int, zz: int| consume_cell(m, w as int, rows, cc, zz));
}

/// Whether an optional column mask lets column `c` through (no mask lets
/// every column through).
pub open spec fn column_open(mask: Option<Seq<bool>>, c: int) -> bool {
    match mask {
        Some(m) => m[c],
        None => true,
    }
}

/// Whether an optional mask (`true` = process this column) lets column
/// `c` through.
pub fn mask_allows(mask: Option<&[bool]>, c: usize) -> (allowed: bool)
    requires
        mask matches Some(m) ==> c < m@.len(),
    ensures
        allowed == column_open(
            match mask {
                Some(m) => Some(m@),
                None => None,
            },
            c as int,
        ),
{
    match mask {
        Some(m) => m[c],
        None => true,
    }
}

/// Flat index of cell `(x, y)` in a row-major grid of width `nx`.
pub fn idx(x: usize, y: usize, nx: usize) -> (i: usize)
    requires
        y * nx + x <= usize::MAX,
    ensures
        i == y * nx + x,
{
    y * nx + x
}

/// The voxel material grid of a 2D wafer cross-section.
pub struct Wafer2d {
    pub nx: usize,
    pub ny: usize,
    /// Length `nx * ny`, row-major (`y * nx + x`).
    pub material: Vec<Material>,
}

/// The grid after spinning `thickness` rows of photoresist onto it.
pub open spec fn spin_photoresist_spec(m: Seq<Material>, nx: int, ny: int, thickness: int) -> Seq<
    Material,
> {
    from_cells(
        nx,
        ny,
        |x: int, y: int|
            if y < thickness {
                Material::Photoresist
            } else {
                grid_at(m, nx, x, y)
            },
    )
}

impl Wafer2d {
    /// The grid has one material entry per cell.
    pub open spec fn wf(&self) -> bool {
        &&& self.material@.len() == self.nx * self.ny
        &&& self.nx * self.ny <= usize::MAX
    }

    /// The material at cell `(x, y)`.
    pub open spec fn cell(&self, x: int, y: int) -> Material {
        grid_at(self.material@, self.nx as int, x, y)
    }

    /// A fresh `nx` by `ny` cross-section of bare silicon.
    pub fn new(nx: usize, ny: usize) -> (w: Self)
        requires
            nx * ny <= usize::MAX,
        ensures
            w.wf(),
            w.nx == nx,
            w.ny == ny,
            forall|i: int| 0 <= i < w.material@.len() ==> w.material@[i] == Material::Silicon,
    {
        let n = nx * ny;
        let mut material: Vec<Material> = Vec::new();
        let mut i: usize = 0;
        while i < n
            invariant
                i <= n,
                n == nx * ny,
                material@.len() == i,
                forall|j: int| 0 <= j < i ==> material@[j] == Material::Silicon,
            decreases n - i,
        {
            material.push(Material::Silicon);
            i += 1;
        }
        Wafer2d { nx, ny, material }
    }

    /// Flat index of cell `(x, y)` of this grid.
    pub fn at(&self, x: usize, y: usize) -> (i: usize)
        requires
            y * self.nx + x <= usize::MAX,
        ensures
            i == y * self.nx + x,
    {
        idx(x, y, self.nx)
    }

    /// The material at cell `(x, y)`.
    pub fn get(&self, x: usize, y: usize) -> (m: Material)
        requires
            self.wf(),
            x < self.nx,
            y < self.ny,
        ensures
            m == self.cell(x as int, y as int),
    {
        proof {
            lemma_cell_in_bounds(self.nx as int, self.ny as int, x as int, y as int);
        }
        self.material[idx(x, y, self.nx)]
    }

    /// Thermal oxidation's effect on the grid: in every column `x`, the
    /// topmost `rows_to_convert[x]` silicon voxels become oxide (the
    /// silicon consumed by the oxide grown there; 0 for a masked column).
    pub fn consume_silicon(&mut self, rows_to_convert: &[usize])
        requires
            old(self).wf(),
            rows_to_convert@.len() == old(self).nx,
        ensures
            final(self).wf(),
            final(self).nx == old(self).nx,
            final(self).ny == old(self).ny,
            final(self).material@ == consume_silicon_spec(
                old(self).material@,
                old(self).nx as int,
                old(self).ny as int,
                rows_to_convert@,
            ),
    {
        let ghost m0 = self.material@;
        let nx = self.nx;
        let ny = self.ny;
        let ghost rows = rows_to_convert@;
        let ghost target = consume_silicon_spec(m0, nx as int, ny as int, rows);
        proof {
            lemma_from_cells(nx as int, ny as int, |c: int, z: int| consume_cell(m0, nx as int, rows, c, z));
        }
        for x in 0..nx
            invariant
                nx == self.nx,
                ny == self.ny,
                rows == rows_to_convert@,
                rows.len() == nx,
                self.material@.len() == nx * ny,
                nx * ny <= usize::MAX,
                target.len() == nx * ny,
                forall|c: int, z: int|
                    0 <= c < nx && 0 <= z < ny ==> #[trigger] grid_at(target, nx as int, c, z)
                        == consume_cell(m0, nx as int, rows, c, z),
                forall|c: int, z: int|
                    0 <= c < nx && 0 <= z < ny ==> #[trigger] grid_at(self.material@, nx as int, c, z)
                        == if c < x {
                        consume_cell(m0, nx as int, rows, c, z)
                    } else {
                        grid_at(m0, nx as int, c, z)
                    },
        {
            let limit = rows_to_convert[x];
            let mut converted: usize = 0;
            let mut y: usize = 0;
            while y < ny && converted < limit
                invariant
                    nx == self.nx,
                    ny == self.ny,
                    0 <= x < nx,
                    rows == rows_to_convert@,
                    rows.len() == nx,
                    limit == rows[x as int],
                    y <= ny,
                    converted <= limit,
                    converted == silicon_above(m0, nx as int, x as int, y as int),
                    self.material@.len() == nx * ny,
                    nx * ny <= usize::MAX,
                    forall|c: int, z: int|
                        0 <= c < nx && 0 <= z < ny ==> #[trigger] grid_at(
                            self.material@,
                            nx as int,
                            c,
                            z,
                        ) == if c < x || (c == x && z < y) {
                            consume_cell(m0, nx as int, rows, c, z)
                        } else {
                            grid_at(m0, nx as int, c, z)
                        },
                decreases ny - y,
            {
                proof {
                    lemma_cell_in_bounds(nx as int, ny as int, x as int, y as int);
                    lemma_grid_update(self.material@, nx as int, ny as int, x as int, y as int, Material::Oxide);
                }
                let i = self.at(x, y);
                assert(grid_at(self.material@, nx as int, x as int, y as int) == grid_at(
                    m0,
                    nx as int,
                    x as int,
                    y as int,
                ));
                if self.material[i] == Material::Silicon {
                    self.material.set(i, Material::Oxide);
                    converted += 1;
                }
                y += 1;
            }
            proof {
                assert forall|c: int, z: int|
                    0 <= c < nx && 0 <= z < ny implies #[trigger] grid_at(
                    self.material@,
                    nx as int,
                    c,
                    z,
                ) == if c < x + 1 {
                    consume_cell(m0, nx as int, rows, c, z)
                } else {
                    grid_at(m0, nx as int, c, z)
                } by {
                    if c == x && z >= y {
                        lemma_silicon_above_monotone(m0, nx as int, x as int, y as int, z);
                    }
                }
            }
        }
        proof {
            lemma_grid_ext(self.material@, target, nx as int, ny as int);
        }
    }

    /// Deposit a blanket layer of photoresist over the top
    /// `thickness_voxels` rows of every column (all rows when the grid is
    /// shallower than that).
    pub fn spin_photoresist(&mut self, thickness_voxels: usize)
        requires
            old(self).wf(),
        ensures
            final(self).wf(),
            final(self).nx == old(self).nx,
            final(self).ny == old(self).ny,
            final(self).material@ == spin_photoresist_spec(
                old(self).material@,
                old(self).nx as int,
                old(self).ny as int,
                thickness_voxels as int,
            ),
    {
        let ghost m0 = self.material@;
        let nx = self.nx;
        let ny = self.ny;
        let rows = if thickness_voxels < ny {
            thickness_voxels
        } else {
            ny
        };
        let ghost target = spin_photoresist_spec(m0, nx as int, ny as int, thickness_voxels as int);
        proof {
            lemma_from_cells(
                nx as int,
                ny as int,
                |x: int, y: int|
                    if y < thickness_voxels {
                        Material::Photoresist
                    } else {
                        grid_at(m0, nx as int, x, y)
                    },
            );
        }
        for x in 0..nx
            invariant
                nx == self.nx,
                ny == self.ny,
                rows <= ny,
                rows == thickness_voxels || rows == ny,
                rows <= thickness_voxels,
                self.material@.len() == nx * ny,
                nx * ny <= usize::MAX,
                target.len() == nx * ny,
                forall|cx: int, cy: int|
                    0 <= cx < nx && 0 <= cy < ny ==> #[trigger] grid_at(target, nx as int, cx, cy)
                        == (if cy < thickness_voxels {
                        Material::Photoresist
                    } else {
                        grid_at(m0, nx as int, cx, cy)
                    }),
                forall|cx: int, cy: int|
                    0 <= cx < nx && 0 <= cy < ny ==> #[trigger] grid_at(
                        self.material@,
                        nx as int,
                        cx,
                        cy,
                    ) == if cx < x {
                        grid_at(target, nx as int, cx, cy)
                    } else {
                        grid_at(m0, nx as int, cx, cy)
                    },
        {
            for row in 0..rows
                invariant
                    nx == self.nx,
                    ny == self.ny,
                    0 <= x < nx,
                    rows <= ny,
                    rows == thickness_voxels || rows == ny,
                    rows <= thickness_voxels,
                    self.material@.len() == nx * ny,
                    nx * ny <= usize::MAX,
                    forall|cx: int, cy: int|
                        0 <= cx < nx && 0 <= cy < ny ==> #[trigger] grid_at(
                            target,
                            nx as int,
                            cx,
                            cy,
                        ) == (if cy < thickness_voxels {
                            Material::Photoresist
                        } else {
                            grid_at(m0, nx as int, cx, cy)
                        }),
                    forall|cx: int, cy: int|
                        0 <= cx < nx && 0 <= cy < ny ==> #[trigger] grid_at(
                            self.material@,
                            nx as int,
                            cx,
                            cy,
                        ) == if cx < x || (cx == x && cy < row) {
                            grid_at(target, nx as int, cx, cy)
                        } else {
                            grid_at(m0, nx as int, cx, cy)
                        },
            {
                proof {
                    lemma_cell_in_bounds(nx as int, ny as int, x as int, row as int);
                    lemma_grid_update(
                        self.material@,
                        nx as int,
                        ny as int,
                        x as int,
                        row as int,
                        Material::Photoresist,
                    );
                }
                let i = self.at(x, row);
                self.material.set(i, Material::Photoresist);
            }
        }
        proof {
            lemma_grid_ext(self.material@, target, nx as int, ny as int);
        }
    }
}


// ---------------------------------------------------------------------------
// Laws
/// A column with no silicon above row `z` has no silicon counted above it.
proof fn lemma_silicon_above_none(m: Seq<Material>, w: int, c: int, z: int)
    requires
        0 <= z,
        forall|zz: int| 0 <= zz < z ==> #[trigger] grid_at(m, w, c, zz) != Material::Silicon,
    ensures
        silicon_above(m, w, c, z) == 0,
    decreases z,
{
    if z > 0 {
        lemma_silicon_above_none(m, w, c, z - 1);
        assert(grid_at(m, w, c, z - 1) != Material::Silicon);
    }
}

/// Oxidation reaches the topmost silicon of a column whatever lies above
/// it: when column `c` gives up at least one row, its first silicon voxel
/// from the top (below any void, resist or oxide) becomes oxide.
pub proof fn law_consume_oxidizes_topmost_silicon(
    m: Seq<Material>,
    w: nat,
    h: nat,
    rows: Seq<usize>,
    c: int,
    z: int,
)
    requires
        m.len() == w * h,
        rows.len() == w,
        0 <= c < w,
        0 <= z < h,
        rows[c] > 0,
        grid_at(m, w as int, c, z) == Material::Silicon,
        forall|zz: int| 0 <= zz < z ==> #[trigger] grid_at(m, w as int, c, zz) != Material::Silicon,
    ensures
        grid_at(consume_silicon_spec(m, w as int, h as int, rows), w as int, c, z) == Material::Oxide,
{
    lemma_from_cells(w as int, h as int, |cc: int, zz: int| consume_cell(m, w as int, rows, cc, zz));
    lemma_silicon_above_none(m, w as int, c, z);
}

/// After a first oxidation, the silicon counted above a voxel is what was
/// counted before, less the rows that oxidation took (never below zero).
proof fn lemma_silicon_above_after_consume(
    m: Seq<Material>,
    e: Seq<Material>,
    w: int,
    h: int,
    rows: Seq<usize>,
    c: int,
    z: int,
)
    requires
        0 <= z <= h,
        forall|zz: int| 0 <= zz < h ==> #[trigger] grid_at(e, w, c, zz) == consume_cell(m, w, rows, c, zz),
    ensures
        silicon_above(e, w, c, z) == if silicon_above(m, w, c, z) >= rows[c] {
            silicon_above(m, w, c, z) - rows[c]
        } else {
            0
        },
    decreases z,
{
    if z > 0 {
        lemma_silicon_above_after_consume(m, e, w, h, rows, c, z - 1);
        assert(grid_at(e, w, c, z - 1) == consume_cell(m, w, rows, c, z - 1));
    }
}

/// Oxidizing twice is oxidizing once by the sum: taking `r1[c]` and then
/// `r2[c]` silicon rows from every column gives the same grid as taking
/// `r1[c] + r2[c]` at once (each oxidation takes the topmost silicon that
/// is left, whatever non-silicon lies above it).
pub proof fn law_consume_silicon_rows_add(
    m: Seq<Material>,
    w: nat,
    h: nat,
    r1: Seq<usize>,
    r2: Seq<usize>,
)
    requires
        m.len() == w * h,
        r1.len() == w,
        r2.len() == w,
        forall|c: int| 0 <= c < w ==> #[trigger] r1[c] + r2[c] <= usize::MAX,
    ensures
        consume_silicon_spec(consume_silicon_spec(m, w as int, h as int, r1), w as int, h as int, r2)
            == consume_silicon_spec(
            m,
            w as int,
            h as int,
            Seq::new(w, |c: int| (r1[c] + r2[c]) as usize),
        ),
{
    let rs = Seq::new(w, |c: int| (r1[c] + r2[c]) as usize);
    let e1 = consume_silicon_spec(m, w as int, h as int, r1);
    let e2 = consume_silicon_spec(e1, w as int, h as int, r2);
    let t = consume_silicon_spec(m, w as int, h as int, rs);
    lemma_from_cells(w as int, h as int, |cc: int, zz: int| consume_cell(m, w as int, r1, cc, zz));
    lemma_from_cells(w as int, h as int, |cc: int, zz: int| consume_cell(e1, w as int, r2, cc, zz));
    lemma_from_cells(w as int, h as int, |cc: int, zz: int| consume_cell(m, w as int, rs, cc, zz));
    assert forall|c: int, z: int| 0 <= c < w && 0 <= z < h implies #[trigger] grid_at(
        e2,
        w as int,
        c,
        z,
    ) == grid_at(t, w as int, c, z) by {
        assert forall|zz: int| 0 <= zz < h implies #[trigger] grid_at(e1, w as int, c, zz)
            == consume_cell(m, w as int, r1, c, zz) by {}
        lemma_silicon_above_after_consume(m, e1, w as int, h as int, r1, c, z);
        assert(rs[c] == r1[c] + r2[c]);
    }
    lemma_grid_ext(e2, t, w as int, h as int);
}

/// Spinning resist coats the top `thickness` rows of every column with
/// photoresist whatever they held before, and leaves deeper rows alone.
pub proof fn law_spin_photoresist_coats_top_rows(
    m: Seq<Material>,
    nx: nat,
    ny: nat,
    thickness: nat,
    x: int,
    y: int,
)
    requires
        m.len() == nx * ny,
        0 <= x < nx,
        0 <= y < ny,
    ensures
        y < thickness ==> grid_at(
            spin_photoresist_spec(m, nx as int, ny as int, thickness as int),
            nx as int,
            x,
            y,
        ) == Material::Photoresist,
        y >= thickness ==> grid_at(
            spin_photoresist_spec(m, nx as int, ny as int, thickness as int),
            nx as int,
            x,
            y,
        ) == grid_at(m, nx as int, x, y),
{
    lemma_from_cells(
        nx as int,
        ny as int,
        |cx: int, cy: int|
            if cy < thickness {
                Material::Photoresist
            } else {
                grid_at(m, nx as int, cx, cy)
            },
    );
}

} // verus!
