//! The kernels of the pipeline, the grid each is dispatched on, and the fixed order of a run.

use vstd::prelude::*;
use crate::bindings::{BindGroup, Resource};
use crate::geometry::{Dimensions, BLOCK_SIDE, WORKGROUP_SIDE};

verus! {

/// The compute kernels, named after their entry points.
#[derive(Clone, Copy, Debug, PartialEq, Eq, Structural)]
pub enum Stage {
    /// Seeds the forest from the input raster.
    Init,
    /// Points every foreground pixel directly at its root.
    Compress,
    /// Unites the trees of neighboring foreground pixels.
    Merge,
    /// Broadcasts each block's resolved label to the pixels of the block.
    FinalLabeling,
    /// Writes a color for every label into the output raster.
    LabelToRgba,
}

impl Stage {
    /// Side of the square of pixels that one invocation of the kernel owns.
    pub open spec fn pixels_per_invocation(self) -> int {
        match self {
            Stage::LabelToRgba => 1,
            _ => BLOCK_SIDE as int,
        }
    }

    /// Side of the square of pixels that one workgroup of the kernel owns.
    pub open spec fn pixels_per_workgroup(self) -> int {
        self.pixels_per_invocation() * WORKGROUP_SIDE
    }

    /// The resource set that the kernel runs with.  Final labeling has none of its own:
    /// it runs with the merge set, which carries the extent it needs.
    pub open spec fn bind_group_of(self) -> BindGroup {
        match self {
            Stage::Init => BindGroup::Init,
            Stage::Compress => BindGroup::Compress,
            Stage::Merge => BindGroup::Merge,
            Stage::FinalLabeling => BindGroup::Merge,
            Stage::LabelToRgba => BindGroup::LabelToRgba,
        }
    }

    /// Whether the kernel reads `resource`.
    pub open spec fn reads(self, resource: Resource) -> bool {
        match self {
            Stage::Init => resource == Resource::InputTexture,
            _ => resource == Resource::LabelForest || resource == Resource::DimensionsUniform,
        }
    }

    /// Whether the kernel writes `resource`.
    pub open spec fn writes(self, resource: Resource) -> bool {
        match self {
            Stage::Init => resource == Resource::LabelForest || resource == Resource::BlockInfo,
            Stage::LabelToRgba => resource == Resource::OutputTexture,
            _ => resource == Resource::LabelForest,
        }
    }

    /// The kernel's entry point in the shader source.
    pub open spec fn entry_point_name(self) -> Seq<char> {
        match self {
            Stage::Init => "init_labeling"@,
            Stage::Compress => "compress"@,
            Stage::Merge => "merge"@,
            Stage::FinalLabeling => "final_labeling"@,
            Stage::LabelToRgba => "label_to_rgba"@,
        }
    }

    /// Side of the square of pixels that one invocation of the kernel owns.
    pub fn invocation_side(self) -> (side: u32)
        ensures
            side == self.pixels_per_invocation(),
    {
        match self {
            Stage::LabelToRgba => 1,
            _ => BLOCK_SIDE,
        }
    }

    /// Side of the square of pixels that one workgroup of the kernel owns.
    pub fn workgroup_side(self) -> (side: u32)
        ensures
            side == self.pixels_per_workgroup(),
            side > 0,
    {
        self.invocation_side() * WORKGROUP_SIDE
    }

    /// The resource set that the kernel runs with.
    pub fn bind_group(self) -> (group: BindGroup)
        ensures
            group == self.bind_group_of(),
    {
        match self {
            Stage::Init => BindGroup::Init,
            Stage::Compress => BindGroup::Compress,
            Stage::Merge => BindGroup::Merge,
            Stage::FinalLabeling => BindGroup::Merge,
            Stage::LabelToRgba => BindGroup::LabelToRgba,
        }
    }

    /// The kernel's entry point in the shader source.
    pub fn entry_point(self) -> (name: &'static str)
        ensures
            name@ == self.entry_point_name(),
    {
        match self {
            Stage::Init => "init_labeling",
            Stage::Compress => "compress",
            Stage::Merge => "merge",
            Stage::FinalLabeling => "final_labeling",
            Stage::LabelToRgba => "label_to_rgba",
        }
    }
}

/// Every kernel finds what it reads and what it writes in the resource set it runs with.
/// Final labeling finds the label forest and the extent in the merge set.
pub proof fn lemma_bind_group_suffices(stage: Stage, resource: Resource)
    ensures
        stage.reads(resource) ==> stage.bind_group_of().grants_read(resource),
        stage.writes(resource) ==> stage.bind_group_of().grants_write(resource),
{
    let layout = stage.bind_group_of().layout();
    if stage.reads(resource) {
        let i: int = if resource == Resource::DimensionsUniform {
            layout.len() - 1
        } else {
            0
        };
        assert(layout[i].resource == resource);
    }
    if stage.writes(resource) {
        let i: int = if stage == Stage::Init {
            if resource == Resource::LabelForest {
                1
            } else {
                2
            }
        } else if stage == Stage::LabelToRgba {
            1
        } else {
            0
        };
        assert(layout[i].resource == resource);
    }
}

/// The least number of pieces of size `d` that together hold `n`.
pub open spec fn ceil_div(n: int, d: int) -> int {
    (n + d - 1) / d
}

/// `ceil_div(n, d)` is the one count `q` with `(q - 1) * d < n <= q * d`.
pub proof fn lemma_ceil_div_bounds(n: int, d: int)
    requires
        0 <= n,
        0 < d,
    ensures
        0 <= ceil_div(n, d),
        n <= ceil_div(n, d) * d,
        (ceil_div(n, d) - 1) * d < n || (n == 0 && ceil_div(n, d) == 0),
{
    let m = n + d - 1;
    vstd::arithmetic::div_mod::lemma_fundamental_div_mod(m, d);
    vstd::arithmetic::div_mod::lemma_mod_bound(m, d);
    vstd::arithmetic::div_mod::lemma_div_pos_is_pos(m, d);
    assert(d * (m / d) == (m / d) * d) by (nonlinear_arith);
    assert((m / d - 1) * d == (m / d) * d - d) by (nonlinear_arith);
    if n == 0 {
        vstd::arithmetic::div_mod::lemma_basic_div(m, d);
    }
}

/// Ceiling division on machine words.
pub fn div_ceil(n: u32, d: u32) -> (q: u32)
    requires
        d > 0,
    ensures
        q == ceil_div(n as int, d as int),
{
    let whole: u32 = n / d;
    let rest: u32 = n % d;
    proof {
        let ni = n as int;
        let di = d as int;
        vstd::arithmetic::div_mod::lemma_fundamental_div_mod(ni, di);
        assert(di * (ni / di) == (ni / di) * di) by (nonlinear_arith);
        if rest == 0 {
            vstd::arithmetic::div_mod::lemma_fundamental_div_mod_converse(
                ni + di - 1,
                di,
                ni / di,
                di - 1,
            );
        } else {
            assert((ni / di + 1) * di == (ni / di) * di + di) by (nonlinear_arith);
            vstd::arithmetic::div_mod::lemma_fundamental_div_mod_converse(
                ni + di - 1,
                di,
                ni / di + 1,
                rest - 1,
            );
            assert((ni / di) * di <= ni);
            assert(ni / di + 1 <= u32::MAX) by (nonlinear_arith)
                requires
                    (ni / di) * di + rest == ni,
                    rest >= 1,
                    rest < di,
                    ni <= u32::MAX,
                    ni / di >= 0,
            ;
        }
    }
    if rest != 0 {
        whole + 1
    } else {
        whole
    }
}

/// One recorded dispatch: which kernel, with which resources, on how many workgroups.
#[derive(Clone, Copy, Debug, PartialEq, Eq, Structural)]
pub struct Dispatch {
    pub stage: Stage,
    pub bind_group: BindGroup,
    pub groups_x: u32,
    pub groups_y: u32,
    pub groups_z: u32,
}

impl Dispatch {
    /// The dispatch that runs `stage` over an image of extent `dims`.
    pub open spec fn planned(stage: Stage, dims: Dimensions) -> Dispatch {
        Dispatch {
            stage,
            bind_group: stage.bind_group_of(),
            groups_x: ceil_div(dims.columns as int, stage.pixels_per_workgroup()) as u32,
            groups_y: ceil_div(dims.rows as int, stage.pixels_per_workgroup()) as u32,
            groups_z: 1,
        }
    }

    /// Invocations along the horizontal axis.
    pub open spec fn invocations_x(self) -> int {
        self.groups_x * WORKGROUP_SIDE
    }

    /// Invocations along the vertical axis.
    pub open spec fn invocations_y(self) -> int {
        self.groups_y * WORKGROUP_SIDE
    }

    /// Whether invocation `(ix, iy)` exists in this dispatch and owns pixel `(x, y)`.
    pub open spec fn invocation_owns(self, ix: int, iy: int, x: int, y: int) -> bool {
        let side = self.stage.pixels_per_invocation();
        &&& 0 <= ix < self.invocations_x()
        &&& 0 <= iy < self.invocations_y()
        &&& ix * side <= x < (ix + 1) * side
        &&& iy * side <= y < (iy + 1) * side
    }

    /// Invocations along the horizontal axis.
    pub fn across(&self) -> (count: u64)
        ensures
            count == self.invocations_x(),
    {
        assert(self.groups_x * WORKGROUP_SIDE <= 8 * 0xffff_ffff) by (nonlinear_arith)
            requires
                self.groups_x <= 0xffff_ffff,
                WORKGROUP_SIDE == 8,
        ;
        self.groups_x as u64 * WORKGROUP_SIDE as u64
    }

    /// Invocations along the vertical axis.
    pub fn down(&self) -> (count: u64)
        ensures
            count == self.invocations_y(),
    {
        assert(self.groups_y * WORKGROUP_SIDE <= 8 * 0xffff_ffff) by (nonlinear_arith)
            requires
                self.groups_y <= 0xffff_ffff,
                WORKGROUP_SIDE == 8,
        ;
        self.groups_y as u64 * WORKGROUP_SIDE as u64
    }

    /// Plans the dispatch of `stage` over an image of extent `dims`.
    pub fn for_stage(stage: Stage, dims: &Dimensions) -> (dispatch: Dispatch)
        ensures
            dispatch == Dispatch::planned(stage, *dims),
    {
        let side: u32 = stage.workgroup_side();
        Dispatch {
            stage,
            bind_group: stage.bind_group(),
            groups_x: div_ceil(dims.columns, side),
            groups_y: div_ceil(dims.rows, side),
            groups_z: 1,
        }
    }
}

/// The dispatches of one run, in the order in which they must execute.
pub open spec fn pipeline_order(dims: Dimensions) -> Seq<Dispatch> {
    seq![
        Dispatch::planned(Stage::Init, dims),
        Dispatch::planned(Stage::Compress, dims),
        Dispatch::planned(Stage::Merge, dims),
        Dispatch::planned(Stage::Compress, dims),
        Dispatch::planned(Stage::FinalLabeling, dims),
        Dispatch::planned(Stage::LabelToRgba, dims),
    ]
}

/// The planned workgroup counts fit a machine word and are the ceiling quotients themselves.
pub proof fn lemma_planned_groups(stage: Stage, dims: Dimensions)
    ensures
        Dispatch::planned(stage, dims).groups_x == ceil_div(
            dims.columns as int,
            stage.pixels_per_workgroup(),
        ),
        Dispatch::planned(stage, dims).groups_y == ceil_div(
            dims.rows as int,
            stage.pixels_per_workgroup(),
        ),
{
    let side = stage.pixels_per_workgroup();
    lemma_ceil_div_bounds(dims.columns as int, side);
    lemma_ceil_div_bounds(dims.rows as int, side);
    let gx = ceil_div(dims.columns as int, side);
    let gy = ceil_div(dims.rows as int, side);
    assert(gx <= dims.columns) by (nonlinear_arith)
        requires
            (gx - 1) * side < dims.columns || gx == 0,
            side >= 1,
            gx >= 0,
    ;
    assert(gy <= dims.rows) by (nonlinear_arith)
        requires
            (gy - 1) * side < dims.rows || gy == 0,
            side >= 1,
            gy >= 0,
    ;
}

/// Whatever the extent, also one that is no multiple of the workgroup's side, the planned
/// grid gives every pixel of the image to exactly one invocation.
pub proof fn lemma_every_pixel_owned_once(stage: Stage, dims: Dimensions, x: int, y: int)
    requires
        dims.contains(x, y),
    ensures
        Dispatch::planned(stage, dims).invocation_owns(
            x / stage.pixels_per_invocation(),
            y / stage.pixels_per_invocation(),
            x,
            y,
        ),
        forall|ix: int, iy: int| #[trigger]
            Dispatch::planned(stage, dims).invocation_owns(ix, iy, x, y) ==> ix == x
                / stage.pixels_per_invocation() && iy == y / stage.pixels_per_invocation(),
{
    let d = Dispatch::planned(stage, dims);
    let side = stage.pixels_per_invocation();
    let tile = stage.pixels_per_workgroup();
    lemma_planned_groups(stage, dims);
    lemma_ceil_div_bounds(dims.columns as int, tile);
    lemma_ceil_div_bounds(dims.rows as int, tile);
    lemma_owner_along_axis(x, side, d.groups_x as int, dims.columns as int);
    lemma_owner_along_axis(y, side, d.groups_y as int, dims.rows as int);
    assert forall|ix: int, iy: int| #[trigger] d.invocation_owns(ix, iy, x, y) implies ix == x
        / side && iy == y / side by {
        lemma_owner_unique(x, side, ix);
        lemma_owner_unique(y, side, iy);
    }
}

/// No workgroup of the planned grid lies wholly outside the image.
pub proof fn lemma_grid_is_tight(stage: Stage, dims: Dimensions)
    ensures
        dims.columns > 0 ==> (Dispatch::planned(stage, dims).groups_x - 1)
            * stage.pixels_per_workgroup() < dims.columns,
        dims.rows > 0 ==> (Dispatch::planned(stage, dims).groups_y - 1)
            * stage.pixels_per_workgroup() < dims.rows,
        dims.columns == 0 ==> Dispatch::planned(stage, dims).groups_x == 0,
        dims.rows == 0 ==> Dispatch::planned(stage, dims).groups_y == 0,
{
    let tile = stage.pixels_per_workgroup();
    lemma_planned_groups(stage, dims);
    lemma_ceil_div_bounds(dims.columns as int, tile);
    lemma_ceil_div_bounds(dims.rows as int, tile);
}

proof fn lemma_owner_along_axis(x: int, side: int, groups: int, extent: int)
    requires
        0 <= x < extent,
        side == 1 || side == 2,
        extent <= groups * (side * WORKGROUP_SIDE),
    ensures
        0 <= x / side < groups * WORKGROUP_SIDE,
        (x / side) * side <= x < (x / side + 1) * side,
{
    vstd::arithmetic::div_mod::lemma_fundamental_div_mod(x, side);
    vstd::arithmetic::div_mod::lemma_mod_bound(x, side);
    let q = x / side;
    assert(side * q == q * side) by (nonlinear_arith);
    assert((q + 1) * side == q * side + side) by (nonlinear_arith);
    assert(groups * (side * 8) == (groups * 8) * side) by (nonlinear_arith);
    assert(q < groups * 8) by (nonlinear_arith)
        requires
            q * side <= x,
            x < (groups * 8) * side,
            side > 0,
    ;
    assert(0 <= q) by (nonlinear_arith)
        requires
            x < (q + 1) * side,
            0 <= x,
            side > 0,
    ;
}

proof fn lemma_owner_unique(x: int, side: int, ix: int)
    requires
        side > 0,
        ix * side <= x < (ix + 1) * side,
    ensures
        ix == x / side,
{
    assert((ix + 1) * side == ix * side + side) by (nonlinear_arith);
    vstd::arithmetic::div_mod::lemma_fundamental_div_mod_converse(x, side, ix, x - ix * side);
}

} // verus!
