//! Wafer3d: the voxel material grid of a dense 3D wafer mesh.
//!
//! Row-major flattened grid: `idx(x, y, z) = z*nx*ny + y*nx + x`. `x`/`y`
//! are lateral (the layout mask plane), `z` is depth (0 = surface,
//! increasing = deeper into bulk silicon).
//!
//! Read as a 2D grid, this is a grid of width `nx * ny` whose columns are
//! the lateral positions `c = y * nx + x` (`col_idx`) and whose rows are the
//! depths `z`; the contracts below are stated in that reading, with
//! `grid_at(m, nx * ny, c, z)` the material at column `c`, depth `z`.
use vstd::prelude::*;
use crate::grid2d::{
    consume_cell, consume_silicon_spec, count_of, first_solid_from, from_cells, grid_at,
    lemma_cell_in_bounds, lemma_first_solid_at, lemma_first_solid_from,
    lemma_count_of_bound, lemma_count_of_update, lemma_from_cells, lemma_grid_ext,
    lemma_grid_update, lemma_silicon_above_monotone, lemma_solid_above_monotone, silicon_above,
    solid_above,
};
use crate::materials::Material;

verus! {

/// Flat index of voxel `(x, y, z)` in an `nx` by `ny` by `nz` grid.
pub fn idx(x: usize, y: usize, z: usize, nx: usize, ny: usize) -> (i: usize)
    requires
        nx * ny <= usize::MAX,
        z * (nx * ny) + (y * nx + x) <= usize::MAX,
    ensures
        i == z * (nx * ny) + (y * nx + x),
{
    proof {
        assert(0 <= z * (nx * ny)) by (nonlinear_arith);
        assert(0 <= nx * ny) by (nonlinear_arith);
        assert(0 <= y * nx) by (nonlinear_arith);
        if z > 0 {
            assert(nx * ny <= z * (nx * ny)) by (nonlinear_arith)
                requires
                    z > 0,
            ;
        }
    }
    let plane = nx * ny;
    z * plane + (y * nx + x)
}

/// Flat index of lateral column `(x, y)`.
pub fn col_idx(x: usize, y: usize, nx: usize) -> (c: usize)
    requires
        y * nx + x <= usize::MAX,
    ensures
        c == y * nx + x,
{
    y * nx + x
}

/// The voxel material grid of a 3D wafer mesh.
pub struct Wafer3d {
    pub nx: usize,
    pub ny: usize,
    pub nz: usize,
    /// Length `nx * ny * nz`, row-major (`z * nx * ny + y * nx + x`).
    pub material: Vec<Material>,
}

/// The grid after spinning `thickness` layers of photoresist onto it.
pub open spec fn spin_photoresist3_spec(m: Seq<Material>, w: int, nz: int, thickness: int) -> Seq<
    Material,
> {
    from_cells(
        w,
        nz,
        |c: int, z: int|
            if z < thickness {
                Material::Photoresist
            } else {
                grid_at(m, w, c, z)
            },
    )
}

/// Anisotropic 3D etch at column `c`, depth `z`: in a mask-open column the
/// first `depth` non-void voxels from the top are removed.
pub open spec fn etch3_cell(
    m: Seq<Material>,
    w: int,
    depth: int,
    mask: Seq<bool>,
    c: int,
    z: int,
) -> Material {
    if mask[c] && grid_at(m, w, c, z) != Material::Void && solid_above(m, w, c, z) < depth {
        Material::Void
    } else {
        grid_at(m, w, c, z)
    }
}

/// The grid after an anisotropic 3D etch of `depth` voxels through `mask`.
pub open spec fn etch3_spec(m: Seq<Material>, w: int, nz: int, depth: int, mask: Seq<bool>) -> Seq<
    Material,
> {
    from_cells(w, nz, |c: int, z: int| etch3_cell(m, w, depth, mask, c, z))
}

/// The surface height of column `c`: the depth of its topmost non-void
/// voxel, or `None` when the column is void all the way down.
pub open spec fn surface_height(m: Seq<Material>, w: int, nz: int, c: int) -> Option<int> {
    let z = first_solid_from(m, w, nz, c, 0);
    if z < nz {
        Some(z)
    } else {
        None
    }
}

/// The lateral columns are `c = y * nx + x`, all below `nx * ny`.
proof fn lemma_column_bounds(nx: int, ny: int, nz: int, x: int, y: int, z: int)
    requires
        0 <= x < nx,
        0 <= y < ny,
        0 <= z < nz,
    ensures
        0 <= y * nx + x < nx * ny,
        0 <= z * (nx * ny) + (y * nx + x) < (nx * ny) * nz,
        nx * ny <= (nx * ny) * nz,
{
    lemma_cell_in_bounds(nx, ny, x, y);
    assert(nx * ny <= (nx * ny) * nz) by (nonlinear_arith)
        requires
            nz > 0,
            nx * ny >= 0,
    ;
    lemma_cell_in_bounds(nx * ny, nz, y * nx + x, z);
}

impl Wafer3d {
    /// The grid has one material entry per voxel.
    pub open spec fn wf(&self) -> bool {
        &&& self.material@.len() == (self.nx * self.ny) * self.nz
        &&& (self.nx * self.ny) * self.nz <= usize::MAX
        &&& self.nx * self.ny <= usize::MAX
    }

    /// The material at voxel `(x, y, z)`.
    pub open spec fn cell(&self, x: int, y: int, z: int) -> Material {
        grid_at(self.material@, self.nx * self.ny, y * self.nx + x, z)
    }

    /// A fresh `nx` by `ny` by `nz` block of bare silicon.
    pub fn new(nx: usize, ny: usize, nz: usize) -> (w: Self)
        requires
            (nx * ny) * nz <= usize::MAX,
            nx * ny <= usize::MAX,
        ensures
            w.wf(),
            w.nx == nx,
            w.ny == ny,
            w.nz == nz,
            forall|i: int| 0 <= i < w.material@.len() ==> w.material@[i] == Material::Silicon,
    {
        proof {
            assert(0 <= nx * ny) by (nonlinear_arith);
            if nz > 0 {
                assert(nx * ny <= (nx * ny) * nz) by (nonlinear_arith)
                    requires
                        nz > 0,
                ;
            }
        }
        let n = if nz == 0 {
            0
        } else {
            nx * ny * nz
        };
        proof {
            if nz == 0 {
                assert((nx * ny) * nz == 0) by (nonlinear_arith)
                    requires
                        nz == 0,
                ;
            }
        }
        let mut material: Vec<Material> = Vec::new();
        let mut i: usize = 0;
        while i < n
            invariant
                i <= n,
                n == (nx * ny) * nz,
                material@.len() == i,
                forall|j: int| 0 <= j < i ==> material@[j] == Material::Silicon,
            decreases n - i,
        {
            material.push(Material::Silicon);
            i += 1;
        }
        Wafer3d { nx, ny, nz, material }
    }

    /// Flat index of voxel `(x, y, z)` of this grid.
    pub fn at(&self, x: usize, y: usize, z: usize) -> (i: usize)
        requires
            self.nx * self.ny <= usize::MAX,
            z * (self.nx * self.ny) + (y * self.nx + x) <= usize::MAX,
        ensures
            i == z * (self.nx * self.ny) + (y * self.nx + x),
    {
        idx(x, y, z, self.nx, self.ny)
    }

    /// The material at voxel `(x, y, z)`.
    pub fn get(&self, x: usize, y: usize, z: usize) -> (m: Material)
        requires
            self.wf(),
            x < self.nx,
            y < self.ny,
            z < self.nz,
        ensures
            m == self.cell(x as int, y as int, z as int),
    {
        proof {
            lemma_column_bounds(
                self.nx as int,
                self.ny as int,
                self.nz as int,
                x as int,
                y as int,
                z as int,
            );
        }
        self.material[self.at(x, y, z)]
    }

    /// Blanket-coat photoresist across the top `thickness_voxels` of every
    /// lateral column.
    pub fn spin_photoresist(&mut self, thickness_voxels: usize)
        requires
            old(self).wf(),
        ensures
            final(self).wf(),
            final(self).nx == old(self).nx,
            final(self).ny == old(self).ny,
            final(self).nz == old(self).nz,
            final(self).material@ == spin_photoresist3_spec(
                old(self).material@,
                old(self).nx * old(self).ny,
                old(self).nz as int,
                thickness_voxels as int,
            ),
    {
        let ghost m0 = self.material@;
        let nx = self.nx;
        let ny = self.ny;
        let nz = self.nz;
        let ghost w = nx * ny;
        let layers = if thickness_voxels < nz {
            thickness_voxels
        } else {
            nz
        };
        let ghost target = spin_photoresist3_spec(m0, w, nz as int, thickness_voxels as int);
        proof {
            assert(0 <= w) by (nonlinear_arith)
                requires
                    w == nx * ny,
            ;
            lemma_from_cells(
                w,
                nz as int,
                |c: int, z: int|
                    if z < thickness_voxels {
                        Material::Photoresist
                    } else {
                        grid_at(m0, w, c, z)
                    },
            );
        }
        assert(0 * nx == 0);
        for y in 0..ny
            invariant
                nx == self.nx,
                ny == self.ny,
                nz == self.nz,
                w == nx * ny,
                0 <= w,
                layers <= nz,
                layers <= thickness_voxels,
                layers == thickness_voxels || layers == nz,
                self.material@.len() == w * nz,
                w * nz <= usize::MAX,
                target.len() == w * nz,
                forall|c: int, z: int|
                    0 <= c < w && 0 <= z < nz ==> #[trigger] grid_at(target, w, c, z) == (if z
                        < thickness_voxels {
                        Material::Photoresist
                    } else {
                        grid_at(m0, w, c, z)
                    }),
                forall|c: int, z: int|
                    0 <= c < w && 0 <= z < nz ==> #[trigger] grid_at(self.material@, w, c, z) == if c
                        < y * nx {
                        grid_at(target, w, c, z)
                    } else {
                        grid_at(m0, w, c, z)
                    },
        {
            for x in 0..nx
                invariant
                    nx == self.nx,
                    ny == self.ny,
                    nz == self.nz,
                    w == nx * ny,
                    0 <= w,
                    0 <= y < ny,
                    layers <= nz,
                    layers <= thickness_voxels,
                    layers == thickness_voxels || layers == nz,
                    self.material@.len() == w * nz,
                    w * nz <= usize::MAX,
                    forall|c: int, z: int|
                        0 <= c < w && 0 <= z < nz ==> #[trigger] grid_at(target, w, c, z) == (if z
                            < thickness_voxels {
                            Material::Photoresist
                        } else {
                            grid_at(m0, w, c, z)
                        }),
                    forall|c: int, z: int|
                        0 <= c < w && 0 <= z < nz ==> #[trigger] grid_at(self.material@, w, c, z)
                            == if c < y * nx + x {
                            grid_at(target, w, c, z)
                        } else {
                            grid_at(m0, w, c, z)
                        },
            {
                proof {
                    lemma_cell_in_bounds(nx as int, ny as int, x as int, y as int);
                }
                for z in 0..layers
                    invariant
                        nx == self.nx,
                        ny == self.ny,
                        nz == self.nz,
                        w == nx * ny,
                        0 <= w,
                        0 <= y < ny,
                        0 <= x < nx,
                        0 <= y * nx + x < w,
                        layers <= nz,
                        layers <= thickness_voxels,
                        self.material@.len() == w * nz,
                        w * nz <= usize::MAX,
                        forall|c: int, z: int|
                            0 <= c < w && 0 <= z < nz ==> #[trigger] grid_at(target, w, c, z) == (
                            if z < thickness_voxels {
                                Material::Photoresist
                            } else {
                                grid_at(m0, w, c, z)
                            }),
                        forall|c: int, zz: int|
                            0 <= c < w && 0 <= zz < nz ==> #[trigger] grid_at(
                                self.material@,
                                w,
                                c,
                                zz,
                            ) == if c < y * nx + x || (c == y * nx + x && zz < z) {
                                grid_at(target, w, c, zz)
                            } else {
                                grid_at(m0, w, c, zz)
                            },
                {
                    proof {
                        lemma_column_bounds(
                            nx as int,
                            ny as int,
                            nz as int,
                            x as int,
                            y as int,
                            z as int,
                        );
                        lemma_grid_update(
                            self.material@,
                            w,
                            nz as int,
                            y * nx + x,
                            z as int,
                            Material::Photoresist,
                        );
                    }
                    let i = self.at(x, y, z);
                    self.material.set(i, Material::Photoresist);
                }
            }
            proof {
                assert(y * nx + nx == (y + 1) * nx) by (nonlinear_arith);
            }
        }
        proof {
            assert(ny * nx == w) by (nonlinear_arith)
                requires
                    w == nx * ny,
            ;
            lemma_grid_ext(self.material@, target, w, nz as int);
        }
    }

    /// Anisotropic (directional, "straight down") etch: removes up to
    /// `depth_voxels` of solid material from the surface downward in each
    /// mask-open lateral column (`mask` has one entry per column, indexed
    /// by `col_idx`), with no lateral spread. Returns the number of voxels
    /// removed.
    pub fn etch_anisotropic(&mut self, depth_voxels: usize, mask: &[bool]) -> (removed: usize)
        requires
            old(self).wf(),
            mask@.len() >= old(self).nx * old(self).ny,
        ensures
            final(self).wf(),
            final(self).nx == old(self).nx,
            final(self).ny == old(self).ny,
            final(self).nz == old(self).nz,
            final(self).material@ == etch3_spec(
                old(self).material@,
                old(self).nx * old(self).ny,
                old(self).nz as int,
                depth_voxels as int,
                mask@,
            ),
            removed == count_of(final(self).material@, Material::Void) - count_of(
                old(self).material@,
                Material::Void,
            ),
    {
        let ghost m0 = self.material@;
        let nx = self.nx;
        let ny = self.ny;
        let nz = self.nz;
        let ghost w = nx * ny;
        let ghost target = etch3_spec(m0, w, nz as int, depth_voxels as int, mask@);
        proof {
            assert(0 <= w) by (nonlinear_arith)
                requires
                    w == nx * ny,
            ;
            lemma_from_cells(
                w,
                nz as int,
                |c: int, z: int| etch3_cell(m0, w, depth_voxels as int, mask@, c, z),
            );
        }
        let mut removed: usize = 0;
        assert(0 * nx == 0);
        for y in 0..ny
            invariant
                nx == self.nx,
                ny == self.ny,
                nz == self.nz,
                w == nx * ny,
                0 <= w,
                mask@.len() >= w,
                self.material@.len() == w * nz,
                m0.len() == w * nz,
                w * nz <= usize::MAX,
                w <= usize::MAX,
                target.len() == w * nz,
                forall|c: int, z: int|
                    0 <= c < w && 0 <= z < nz ==> #[trigger] grid_at(target, w, c, z) == etch3_cell(
                        m0,
                        w,
                        depth_voxels as int,
                        mask@,
                        c,
                        z,
                    ),
                forall|c: int, z: int|
                    0 <= c < w && 0 <= z < nz ==> #[trigger] grid_at(self.material@, w, c, z) == if c
                        < y * nx {
                        etch3_cell(m0, w, depth_voxels as int, mask@, c, z)
                    } else {
                        grid_at(m0, w, c, z)
                    },
                removed == count_of(self.material@, Material::Void) - count_of(m0, Material::Void),
        {
            for x in 0..nx
                invariant
                    nx == self.nx,
                    ny == self.ny,
                    nz == self.nz,
                    w == nx * ny,
                    0 <= w,
                    0 <= y < ny,
                    mask@.len() >= w,
                    self.material@.len() == w * nz,
                    m0.len() == w * nz,
                    w * nz <= usize::MAX,
                    w <= usize::MAX,
                    forall|c: int, z: int|
                        0 <= c < w && 0 <= z < nz ==> #[trigger] grid_at(self.material@, w, c, z)
                            == if c < y * nx + x {
                            etch3_cell(m0, w, depth_voxels as int, mask@, c, z)
                        } else {
                            grid_at(m0, w, c, z)
                        },
                    removed == count_of(self.material@, Material::Void) - count_of(
                        m0,
                        Material::Void,
                    ),
            {
                proof {
                    lemma_cell_in_bounds(nx as int, ny as int, x as int, y as int);
                }
                let col = col_idx(x, y, nx);
                let ghost c = col as int;
                if mask[col] {
                    let mut cut: usize = 0;
                    let mut z: usize = 0;
                    while z < nz && cut < depth_voxels
                        invariant
                            nx == self.nx,
                            ny == self.ny,
                            nz == self.nz,
                            w == nx * ny,
                            0 <= w,
                            0 <= y < ny,
                            0 <= x < nx,
                            c == y * nx + x,
                            0 <= c < w,
                            mask@.len() >= w,
                            mask@[c],
                            z <= nz,
                            cut <= depth_voxels,
                            cut == solid_above(m0, w, c, z as int),
                            self.material@.len() == w * nz,
                            m0.len() == w * nz,
                            w * nz <= usize::MAX,
                            forall|cc: int, zz: int|
                                0 <= cc < w && 0 <= zz < nz ==> #[trigger] grid_at(
                                    self.material@,
                                    w,
                                    cc,
                                    zz,
                                ) == if cc < c || (cc == c && zz < z) {
                                    etch3_cell(m0, w, depth_voxels as int, mask@, cc, zz)
                                } else {
                                    grid_at(m0, w, cc, zz)
                                },
                            removed == count_of(self.material@, Material::Void) - count_of(
                                m0,
                                Material::Void,
                            ),
                        decreases nz - z,
                    {
                        proof {
                            lemma_column_bounds(
                                nx as int,
                                ny as int,
                                nz as int,
                                x as int,
                                y as int,
                                z as int,
                            );
                        }
                        let i = self.at(x, y, z);
                        assert(grid_at(self.material@, w, c, z as int) == grid_at(m0, w, c, z as int));
                        if self.material[i] != Material::Void {
                            proof {
                                lemma_grid_update(
                                    self.material@,
                                    w,
                                    nz as int,
                                    c,
                                    z as int,
                                    Material::Void,
                                );
                                lemma_count_of_update(
                                    self.material@,
                                    i as int,
                                    Material::Void,
                                    Material::Void,
                                );
                                lemma_count_of_bound(
                                    self.material@.update(i as int, Material::Void),
                                    Material::Void,
                                );
                            }
                            self.material.set(i, Material::Void);
                            cut += 1;
                            removed += 1;
                        }
                        z += 1;
                    }
                    proof {
                        assert forall|cc: int, zz: int|
                            0 <= cc < w && 0 <= zz < nz implies #[trigger] grid_at(
                            self.material@,
                            w,
                            cc,
                            zz,
                        ) == if cc < c + 1 {
                            etch3_cell(m0, w, depth_voxels as int, mask@, cc, zz)
                        } else {
                            grid_at(m0, w, cc, zz)
                        } by {
                            if cc == c && zz >= z {
                                lemma_solid_above_monotone(m0, w, c, z as int, zz);
                            }
                        }
                    }
                }
            }
            proof {
                assert(y * nx + nx == (y + 1) * nx) by (nonlinear_arith);
            }
        }
        proof {
            assert(ny * nx == w) by (nonlinear_arith)
                requires
                    w == nx * ny,
            ;
            lemma_grid_ext(self.material@, target, w, nz as int);
        }
        removed
    }

    /// Depth (in voxels from the top, z = 0) of the topmost non-void
    /// material in each lateral column, indexed by `col_idx`: the
    /// "surface" a heightfield renderer extrudes. `None` for columns that
    /// are void all the way down.
    pub fn surface_heightmap(&self) -> (heights: Vec<Option<usize>>)
        requires
            self.wf(),
        ensures
            heights@.len() == self.nx * self.ny,
            forall|c: int|
                0 <= c < self.nx * self.ny ==> {
                    &&& (#[trigger] heights@[c] is None <==> surface_height(
                        self.material@,
                        self.nx * self.ny,
                        self.nz as int,
                        c,
                    ) is None)
                    &&& (heights@[c] matches Some(z) ==> surface_height(
                        self.material@,
                        self.nx * self.ny,
                        self.nz as int,
                        c,
                    ) == Some(z as int))
                },
    {
        let nx = self.nx;
        let ny = self.ny;
        let nz = self.nz;
        let ghost w = nx * ny;
        let ghost m = self.material@;
        let mut heights: Vec<Option<usize>> = Vec::new();
        assert(0 * nx == 0);
        for y in 0..ny
            invariant
                nx == self.nx,
                ny == self.ny,
                nz == self.nz,
                w == nx * ny,
                m == self.material@,
                self.wf(),
                heights@.len() == y * nx,
                forall|c: int|
                    0 <= c < y * nx ==> {
                        &&& (#[trigger] heights@[c] is None <==> surface_height(m, w, nz as int, c) is None)
                        &&& (heights@[c] matches Some(z) ==> surface_height(m, w, nz as int, c) == Some(
                            z as int,
                        ))
                    },
        {
            for x in 0..nx
                invariant
                    nx == self.nx,
                    ny == self.ny,
                    nz == self.nz,
                    w == nx * ny,
                    m == self.material@,
                    self.wf(),
                    0 <= y < ny,
                    heights@.len() == y * nx + x,
                    forall|c: int|
                        0 <= c < y * nx + x ==> {
                            &&& (#[trigger] heights@[c] is None <==> surface_height(m, w, nz as int, c)
                                is None)
                            &&& (heights@[c] matches Some(z) ==> surface_height(m, w, nz as int, c)
                                == Some(z as int))
                        },
            {
                let ghost c = y * nx + x;
                let mut z: usize = 0;
                while z < nz && self.get(x, y, z) == Material::Void
                    invariant
                        nx == self.nx,
                        ny == self.ny,
                        nz == self.nz,
                        w == nx * ny,
                        m == self.material@,
                        self.wf(),
                        0 <= y < ny,
                        0 <= x < nx,
                        c == y * nx + x,
                        z <= nz,
                        forall|zz: int| 0 <= zz < z ==> #[trigger] grid_at(m, w, c, zz) == Material::Void,
                    decreases nz - z,
                {
                    z += 1;
                }
                proof {
                    lemma_first_solid_at(m, w, nz as int, c, 0, z as int);
                }
                if z < nz {
                    heights.push(Some(z));
                } else {
                    heights.push(None);
                }
            }
            proof {
                assert(y * nx + nx == (y + 1) * nx) by (nonlinear_arith);
            }
        }
        proof {
            assert(ny * nx == w) by (nonlinear_arith)
                requires
                    w == nx * ny,
            ;
        }
        heights
    }

    /// Thermal oxidation's effect on the grid: in every lateral column `c`
    /// (indexed by `col_idx`), the topmost `rows_to_convert[c]` silicon
    /// voxels become oxide (0 for a masked column).
    pub fn consume_silicon(&mut self, rows_to_convert: &[usize])
        requires
            old(self).wf(),
            rows_to_convert@.len() == old(self).nx * old(self).ny,
        ensures
            final(self).wf(),
            final(self).nx == old(self).nx,
            final(self).ny == old(self).ny,
            final(self).nz == old(self).nz,
            final(self).material@ == consume_silicon_spec(
                old(self).material@,
                old(self).nx * old(self).ny,
                old(self).nz as int,
                rows_to_convert@,
            ),
    {
        let ghost m0 = self.material@;
        let nx = self.nx;
        let ny = self.ny;
        let nz = self.nz;
        let ghost w = nx * ny;
        let ghost rows = rows_to_convert@;
        let ghost target = consume_silicon_spec(m0, w, nz as int, rows);
        proof {
            assert(0 <= w) by (nonlinear_arith)
                requires
                    w == nx * ny,
            ;
            lemma_from_cells(w, nz as int, |c: int, z: int| consume_cell(m0, w, rows, c, z));
        }
        assert(0 * nx == 0);
        for y in 0..ny
            invariant
                nx == self.nx,
                ny == self.ny,
                nz == self.nz,
                w == nx * ny,
                0 <= w,
                w <= usize::MAX,
                rows == rows_to_convert@,
                rows.len() == w,
                self.material@.len() == w * nz,
                m0.len() == w * nz,
                w * nz <= usize::MAX,
                target.len() == w * nz,
                forall|c: int, z: int|
                    0 <= c < w && 0 <= z < nz ==> #[trigger] grid_at(target, w, c, z) == consume_cell(
                        m0,
                        w,
                        rows,
                        c,
                        z,
                    ),
                forall|c: int, z: int|
                    0 <= c < w && 0 <= z < nz ==> #[trigger] grid_at(self.material@, w, c, z) == if c
                        < y * nx {
                        consume_cell(m0, w, rows, c, z)
                    } else {
                        grid_at(m0, w, c, z)
                    },
        {
            for x in 0..nx
                invariant
                    nx == self.nx,
                    ny == self.ny,
                    nz == self.nz,
                    w == nx * ny,
                    0 <= w,
                    w <= usize::MAX,
                    0 <= y < ny,
                    rows == rows_to_convert@,
                    rows.len() == w,
                    self.material@.len() == w * nz,
                    m0.len() == w * nz,
                    w * nz <= usize::MAX,
                    forall|c: int, z: int|
                        0 <= c < w && 0 <= z < nz ==> #[trigger] grid_at(self.material@, w, c, z)
                            == if c < y * nx + x {
                            consume_cell(m0, w, rows, c, z)
                        } else {
                            grid_at(m0, w, c, z)
                        },
            {
                proof {
                    lemma_cell_in_bounds(nx as int, ny as int, x as int, y as int);
                }
                let ci = col_idx(x, y, nx);
                let ghost c = ci as int;
                let limit = rows_to_convert[ci];
                let mut converted: usize = 0;
                let mut z: usize = 0;
                while z < nz && converted < limit
                    invariant
                        nx == self.nx,
                        ny == self.ny,
                        nz == self.nz,
                        w == nx * ny,
                        0 <= w,
                        0 <= y < ny,
                        0 <= x < nx,
                        c == y * nx + x,
                        0 <= c < w,
                        rows == rows_to_convert@,
                        rows.len() == w,
                        limit == rows[c],
                        z <= nz,
                        converted <= limit,
                        converted == silicon_above(m0, w, c, z as int),
                        self.material@.len() == w * nz,
                        m0.len() == w * nz,
                        w * nz <= usize::MAX,
                        forall|cc: int, zz: int|
                            0 <= cc < w && 0 <= zz < nz ==> #[trigger] grid_at(
                                self.material@,
                                w,
                                cc,
                                zz,
                            ) == if cc < c || (cc == c && zz < z) {
                                consume_cell(m0, w, rows, cc, zz)
                            } else {
                                grid_at(m0, w, cc, zz)
                            },
                    decreases nz - z,
                {
                    proof {
                        lemma_column_bounds(
                            nx as int,
                            ny as int,
                            nz as int,
                            x as int,
                            y as int,
                            z as int,
                        );
                        lemma_grid_update(self.material@, w, nz as int, c, z as int, Material::Oxide);
                    }
                    let i = self.at(x, y, z);
                    assert(grid_at(self.material@, w, c, z as int) == grid_at(m0, w, c, z as int));
                    if self.material[i] == Material::Silicon {
                        self.material.set(i, Material::Oxide);
                        converted += 1;
                    }
                    z += 1;
                }
                proof {
                    assert forall|cc: int, zz: int|
                        0 <= cc < w && 0 <= zz < nz implies #[trigger] grid_at(
                        self.material@,
                        w,
                        cc,
                        zz,
                    ) == if cc < c + 1 {
                        consume_cell(m0, w, rows, cc, zz)
                    } else {
                        grid_at(m0, w, cc, zz)
                    } by {
                        if cc == c && zz >= z {
                            lemma_silicon_above_monotone(m0, w, c, z as int, zz);
                        }
                    }
                }
            }
            proof {
                assert(y * nx + nx == (y + 1) * nx) by (nonlinear_arith);
            }
        }
        proof {
            assert(ny * nx == w) by (nonlinear_arith)
                requires
                    w == nx * ny,
            ;
            lemma_grid_ext(self.material@, target, w, nz as int);
        }
    }
}


// ---------------------------------------------------------------------------
// Laws
/// A column that is solid all the way down has `z` solid voxels above depth `z`.
proof fn lemma_solid_above_full_column(m: Seq<Material>, w: int, nz: int, c: int, z: int)
    requires
        0 <= z <= nz,
        forall|zz: int| 0 <= zz < nz ==> #[trigger] grid_at(m, w, c, zz) != Material::Void,
    ensures
        solid_above(m, w, c, z) == z,
    decreases z,
{
    if z > 0 {
        lemma_solid_above_full_column(m, w, nz, c, z - 1);
        assert(grid_at(m, w, c, z - 1) != Material::Void);
    }
}

/// Etching a mask-open column of solid material `depth` voxels deep (less
/// than the grid depth) leaves its surface exactly `depth` voxels down.
pub proof fn law_etch_sets_surface_depth(
    m: Seq<Material>,
    w: nat,
    nz: nat,
    depth: nat,
    mask: Seq<bool>,
    c: int,
)
    requires
        m.len() == w * nz,
        0 <= c < w,
        mask.len() >= w,
        mask[c],
        depth < nz,
        forall|z: int| 0 <= z < nz ==> #[trigger] grid_at(m, w as int, c, z) != Material::Void,
    ensures
        surface_height(etch3_spec(m, w as int, nz as int, depth as int, mask), w as int, nz as int, c)
            == Some(depth as int),
{
    let e = etch3_spec(m, w as int, nz as int, depth as int, mask);
    lemma_from_cells(w as int, nz as int, |cc: int, z: int| etch3_cell(m, w as int, depth as int, mask, cc, z));
    assert forall|z: int| 0 <= z < depth implies #[trigger] grid_at(e, w as int, c, z) == Material::Void by {
        lemma_solid_above_full_column(m, w as int, nz as int, c, z);
    }
    lemma_solid_above_full_column(m, w as int, nz as int, c, depth as int);
    lemma_first_solid_at(e, w as int, nz as int, c, 0, depth as int);
}

/// Anisotropic etch leaves a mask-closed column untouched.
pub proof fn law_etch_spares_closed_columns(
    m: Seq<Material>,
    w: nat,
    nz: nat,
    depth: nat,
    mask: Seq<bool>,
    c: int,
)
    requires
        m.len() == w * nz,
        0 <= c < w,
        mask.len() >= w,
        !mask[c],
    ensures
        forall|z: int|
            0 <= z < nz ==> #[trigger] grid_at(
                etch3_spec(m, w as int, nz as int, depth as int, mask),
                w as int,
                c,
                z,
            ) == grid_at(m, w as int, c, z),
{
    lemma_from_cells(w as int, nz as int, |cc: int, z: int| etch3_cell(m, w as int, depth as int, mask, cc, z));
}

/// Oxidation does not move the surface: turning silicon into oxide leaves
/// every column's surface height as it was.
pub proof fn law_oxidation_keeps_surface(m: Seq<Material>, w: nat, nz: nat, rows: Seq<usize>, c: int)
    requires
        m.len() == w * nz,
        0 <= c < w,
        rows.len() == w,
    ensures
        surface_height(consume_silicon_spec(m, w as int, nz as int, rows), w as int, nz as int, c)
            == surface_height(m, w as int, nz as int, c),
{
    let o = consume_silicon_spec(m, w as int, nz as int, rows);
    lemma_from_cells(w as int, nz as int, |cc: int, z: int| consume_cell(m, w as int, rows, cc, z));
    lemma_first_solid_from(m, w as int, nz as int, c, 0);
    let s = first_solid_from(m, w as int, nz as int, c, 0);
    assert forall|z: int| 0 <= z < s implies #[trigger] grid_at(o, w as int, c, z) == Material::Void by {
        assert(grid_at(m, w as int, c, z) == Material::Void);
    }
    lemma_first_solid_at(o, w as int, nz as int, c, 0, s);
}


/// A column with only void above depth `z` has no solid voxel counted above it.
proof fn lemma_solid_above_none(m: Seq<Material>, w: int, c: int, z: int)
    requires
        0 <= z,
        forall|zz: int| 0 <= zz < z ==> #[trigger] grid_at(m, w, c, zz) == Material::Void,
    ensures
        solid_above(m, w, c, z) == 0,
    decreases z,
{
    if z > 0 {
        lemma_solid_above_none(m, w, c, z - 1);
        assert(grid_at(m, w, c, z - 1) == Material::Void);
    }
}

/// The etch counts its depth from the surface, not from the top of the
/// grid: in a mask-open column, a positive depth removes the topmost
/// non-void voxel, however deep it lies.
pub proof fn law_etch_removes_surface_voxel(
    m: Seq<Material>,
    w: nat,
    nz: nat,
    depth: nat,
    mask: Seq<bool>,
    c: int,
    z: int,
)
    requires
        m.len() == w * nz,
        0 <= c < w,
        0 <= z < nz,
        mask.len() >= w,
        mask[c],
        depth > 0,
        grid_at(m, w as int, c, z) != Material::Void,
        forall|zz: int| 0 <= zz < z ==> #[trigger] grid_at(m, w as int, c, zz) == Material::Void,
    ensures
        grid_at(etch3_spec(m, w as int, nz as int, depth as int, mask), w as int, c, z)
            == Material::Void,
{
    lemma_from_cells(w as int, nz as int, |cc: int, zz: int| etch3_cell(m, w as int, depth as int, mask, cc, zz));
    lemma_solid_above_none(m, w as int, c, z);
}

/// After etching a mask-open column `depth` voxels deep, its surface is the
/// voxel that had exactly `depth` non-void voxels above it: the etch removes
/// the first `depth` non-void voxels counted from the top, whatever void lies
/// between them.
pub proof fn law_etch_surface_after(
    m: Seq<Material>,
    w: nat,
    nz: nat,
    depth: nat,
    mask: Seq<bool>,
    c: int,
    z: int,
)
    requires
        m.len() == w * nz,
        0 <= c < w,
        0 <= z < nz,
        mask.len() >= w,
        mask[c],
        grid_at(m, w as int, c, z) != Material::Void,
        solid_above(m, w as int, c, z) == depth,
    ensures
        surface_height(etch3_spec(m, w as int, nz as int, depth as int, mask), w as int, nz as int, c)
            == Some(z),
{
    let e = etch3_spec(m, w as int, nz as int, depth as int, mask);
    lemma_from_cells(w as int, nz as int, |cc: int, zz: int| etch3_cell(m, w as int, depth as int, mask, cc, zz));
    assert forall|zz: int| 0 <= zz < z implies #[trigger] grid_at(e, w as int, c, zz) == Material::Void by {
        if grid_at(m, w as int, c, zz) != Material::Void {
            lemma_solid_above_monotone(m, w as int, c, zz + 1, z);
        }
    }
    lemma_first_solid_at(e, w as int, nz as int, c, 0, z);
}

/// After a first etch, the solid voxels counted above a voxel of a mask-open
/// column are those counted before, less the ones that etch removed.
proof fn lemma_solid_above_after_etch(
    m: Seq<Material>,
    e: Seq<Material>,
    w: int,
    nz: int,
    a: int,
    mask: Seq<bool>,
    c: int,
    z: int,
)
    requires
        0 <= z <= nz,
        0 <= a,
        mask[c],
        forall|zz: int| 0 <= zz < nz ==> #[trigger] grid_at(e, w, c, zz) == etch3_cell(m, w, a, mask, c, zz),
    ensures
        solid_above(e, w, c, z) == if solid_above(m, w, c, z) >= a {
            solid_above(m, w, c, z) - a
        } else {
            0
        },
    decreases z,
{
    if z > 0 {
        lemma_solid_above_after_etch(m, e, w, nz, a, mask, c, z - 1);
        assert(grid_at(e, w, c, z - 1) == etch3_cell(m, w, a, mask, c, z - 1));
    }
}

/// Etching twice is etching once by the sum: `a` voxels deep and then `b`
/// voxels deep through the same mask gives the same grid as `a + b` deep.
pub proof fn law_etch_depths_add(
    m: Seq<Material>,
    w: nat,
    nz: nat,
    a: nat,
    b: nat,
    mask: Seq<bool>,
)
    requires
        m.len() == w * nz,
        mask.len() >= w,
    ensures
        etch3_spec(etch3_spec(m, w as int, nz as int, a as int, mask), w as int, nz as int, b as int, mask)
            == etch3_spec(m, w as int, nz as int, (a + b) as int, mask),
{
    let e1 = etch3_spec(m, w as int, nz as int, a as int, mask);
    let e2 = etch3_spec(e1, w as int, nz as int, b as int, mask);
    let t = etch3_spec(m, w as int, nz as int, (a + b) as int, mask);
    lemma_from_cells(w as int, nz as int, |cc: int, zz: int| etch3_cell(m, w as int, a as int, mask, cc, zz));
    lemma_from_cells(w as int, nz as int, |cc: int, zz: int| etch3_cell(e1, w as int, b as int, mask, cc, zz));
    lemma_from_cells(w as int, nz as int, |cc: int, zz: int| etch3_cell(m, w as int, (a + b) as int, mask, cc, zz));
    assert forall|c: int, z: int| 0 <= c < w && 0 <= z < nz implies #[trigger] grid_at(
        e2,
        w as int,
        c,
        z,
    ) == grid_at(t, w as int, c, z) by {
        if mask[c] {
            assert forall|zz: int| 0 <= zz < nz implies #[trigger] grid_at(e1, w as int, c, zz)
                == etch3_cell(m, w as int, a as int, mask, c, zz) by {}
            lemma_solid_above_after_etch(m, e1, w as int, nz as int, a as int, mask, c, z);
        }
    }
    lemma_grid_ext(e2, t, w as int, nz as int);
}

/// Spinning resist coats the top `thickness` layers of every column with
/// photoresist whatever they held before, and leaves deeper layers alone.
pub proof fn law_spin_photoresist3_coats_top_layers(
    m: Seq<Material>,
    w: nat,
    nz: nat,
    thickness: nat,
    c: int,
    z: int,
)
    requires
        m.len() == w * nz,
        0 <= c < w,
        0 <= z < nz,
    ensures
        z < thickness ==> grid_at(
            spin_photoresist3_spec(m, w as int, nz as int, thickness as int),
            w as int,
            c,
            z,
        ) == Material::Photoresist,
        z >= thickness ==> grid_at(
            spin_photoresist3_spec(m, w as int, nz as int, thickness as int),
            w as int,
            c,
            z,
        ) == grid_at(m, w as int, c, z),
{
    lemma_from_cells(
        w as int,
        nz as int,
        |cc: int, zz: int|
            if zz < thickness {
                Material::Photoresist
            } else {
                grid_at(m, w as int, cc, zz)
            },
    );
}

} // verus!
