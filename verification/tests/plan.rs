use bke_ccl::bindings::{Access, BindGroup, Binding, Resource};
use bke_ccl::dispatch::{div_ceil, Dispatch, Stage};
use bke_ccl::geometry::Dimensions;
use bke_ccl::invocation::{owned_pixels, pixel_index};
use bke_ccl::neighborhood::touching_pixels;

#[test]
fn storage_is_four_bytes_per_pixel() {
    assert_eq!(Dimensions::new(16, 16).num_bytes_storage(), Some(1024));
    assert_eq!(Dimensions::new(3, 5).num_pixels(), 15);
    assert_eq!(Dimensions::new(0, 9).num_bytes_storage(), Some(0));
    assert_eq!(Dimensions::new(u32::MAX, 1).num_bytes_storage(), Some(17179869180));
}

#[test]
fn storage_size_overflow_is_reported() {
    assert_eq!(Dimensions::new(1 << 31, 1 << 31).num_bytes_storage(), None);
    assert_eq!(Dimensions::new(u32::MAX, u32::MAX).num_bytes_storage(), None);
    // The largest extent whose buffer size still fits.
    assert_eq!(
        Dimensions::new(1 << 31, (1 << 31) - 1).num_bytes_storage(),
        Some(18446744065119617024)
    );
}

#[test]
fn ceiling_division() {
    assert_eq!(div_ceil(0, 16), 0);
    assert_eq!(div_ceil(1, 16), 1);
    assert_eq!(div_ceil(16, 16), 1);
    assert_eq!(div_ceil(17, 16), 2);
    assert_eq!(div_ceil(u32::MAX, 1), u32::MAX);
    assert_eq!(div_ceil(u32::MAX, 16), 268435456);
}

#[test]
fn forest_passes_take_one_invocation_per_block() {
    let dims = Dimensions::new(33, 16);
    for stage in [Stage::Init, Stage::Compress, Stage::Merge, Stage::FinalLabeling] {
        let dispatch = Dispatch::for_stage(stage, &dims);
        assert_eq!((dispatch.groups_x, dispatch.groups_y, dispatch.groups_z), (3, 1, 1));
        assert_eq!(dispatch.stage, stage);
        assert_eq!(stage.invocation_side(), 2);
        assert_eq!(stage.workgroup_side(), 16);
    }
}

#[test]
fn visualization_takes_one_invocation_per_pixel() {
    let dispatch = Dispatch::for_stage(Stage::LabelToRgba, &Dimensions::new(33, 16));
    assert_eq!((dispatch.groups_x, dispatch.groups_y, dispatch.groups_z), (5, 2, 1));
    assert_eq!(Stage::LabelToRgba.invocation_side(), 1);
    assert_eq!(Stage::LabelToRgba.workgroup_side(), 8);
}

#[test]
fn grid_covers_extents_that_are_no_multiple_of_the_workgroup() {
    for columns in 0u32..70 {
        for stage in [Stage::Init, Stage::LabelToRgba] {
            let dispatch = Dispatch::for_stage(stage, &Dimensions::new(columns, 1));
            let covered = dispatch.groups_x * stage.workgroup_side();
            assert!(covered >= columns);
            assert!(covered < columns + stage.workgroup_side());
        }
    }
}

#[test]
fn final_labeling_runs_with_the_merge_resources() {
    assert_eq!(Stage::Init.bind_group(), BindGroup::Init);
    assert_eq!(Stage::Compress.bind_group(), BindGroup::Compress);
    assert_eq!(Stage::Merge.bind_group(), BindGroup::Merge);
    assert_eq!(Stage::FinalLabeling.bind_group(), BindGroup::Merge);
    assert_eq!(Stage::LabelToRgba.bind_group(), BindGroup::LabelToRgba);
    let dispatch = Dispatch::for_stage(Stage::FinalLabeling, &Dimensions::new(4, 4));
    assert_eq!(dispatch.bind_group, BindGroup::Merge);
}

#[test]
fn entry_points() {
    assert_eq!(Stage::Init.entry_point(), "init_labeling");
    assert_eq!(Stage::Compress.entry_point(), "compress");
    assert_eq!(Stage::Merge.entry_point(), "merge");
    assert_eq!(Stage::FinalLabeling.entry_point(), "final_labeling");
    assert_eq!(Stage::LabelToRgba.entry_point(), "label_to_rgba");
}

#[test]
fn bind_group_layouts() {
    let entry = |binding, resource, access| Binding { binding, resource, access };
    assert_eq!(
        BindGroup::Init.entries(),
        vec![
            entry(0, Resource::InputTexture, Access::ReadOnly),
            entry(1, Resource::LabelForest, Access::ReadWrite),
            entry(2, Resource::BlockInfo, Access::ReadWrite),
        ]
    );
    assert_eq!(
        BindGroup::Compress.entries(),
        vec![
            entry(0, Resource::LabelForest, Access::ReadWrite),
            entry(1, Resource::DimensionsUniform, Access::Uniform),
        ]
    );
    assert_eq!(
        BindGroup::Merge.entries(),
        vec![
            entry(0, Resource::LabelForest, Access::ReadWrite),
            entry(1, Resource::BlockInfo, Access::ReadOnly),
            entry(2, Resource::DimensionsUniform, Access::Uniform),
        ]
    );
    assert_eq!(
        BindGroup::LabelToRgba.entries(),
        vec![
            entry(0, Resource::LabelForest, Access::ReadOnly),
            entry(1, Resource::OutputTexture, Access::WriteOnly),
            entry(2, Resource::DimensionsUniform, Access::Uniform),
        ]
    );
}

#[test]
fn pixel_indices_are_row_major() {
    let dims = Dimensions::new(5, 3);
    assert_eq!(pixel_index(&dims, 0, 0), 0);
    assert_eq!(pixel_index(&dims, 4, 0), 4);
    assert_eq!(pixel_index(&dims, 0, 1), 5);
    assert_eq!(pixel_index(&dims, 4, 2), 14);
}

#[test]
fn blocks_at_the_border_own_fewer_pixels() {
    let dims = Dimensions::new(5, 3);
    assert_eq!(owned_pixels(&dims, Stage::Merge, 0, 0), vec![0, 1, 5, 6]);
    assert_eq!(owned_pixels(&dims, Stage::Merge, 2, 0), vec![4, 9]);
    assert_eq!(owned_pixels(&dims, Stage::Merge, 1, 1), vec![12, 13]);
    assert_eq!(owned_pixels(&dims, Stage::Merge, 2, 1), vec![14]);
    assert_eq!(owned_pixels(&dims, Stage::Merge, 3, 0), Vec::<usize>::new());
    assert_eq!(owned_pixels(&dims, Stage::Merge, 0, 2), Vec::<usize>::new());
    assert_eq!(owned_pixels(&dims, Stage::LabelToRgba, 4, 2), vec![14]);
    assert_eq!(owned_pixels(&dims, Stage::LabelToRgba, 5, 2), Vec::<usize>::new());
    assert_eq!(owned_pixels(&dims, Stage::Merge, u64::MAX, 0), Vec::<usize>::new());
}

#[test]
fn every_pixel_is_owned_by_one_invocation() {
    let dims = Dimensions::new(19, 7);
    for stage in [Stage::Merge, Stage::LabelToRgba] {
        let dispatch = Dispatch::for_stage(stage, &dims);
        let mut owners = vec![0u32; 19 * 7];
        for iy in 0..dispatch.groups_y as u64 * 8 {
            for ix in 0..dispatch.groups_x as u64 * 8 {
                for p in owned_pixels(&dims, stage, ix, iy) {
                    owners[p] += 1;
                }
            }
        }
        assert_eq!(owners, vec![1u32; 19 * 7]);
    }
}

#[test]
fn touching_pixels_stay_inside_the_image() {
    let dims = Dimensions::new(4, 3);
    assert_eq!(touching_pixels(&dims, 0), vec![0, 1, 4, 5]);
    assert_eq!(touching_pixels(&dims, 5), vec![0, 1, 2, 4, 5, 6, 8, 9, 10]);
    assert_eq!(touching_pixels(&dims, 3), vec![2, 3, 6, 7]);
    assert_eq!(touching_pixels(&dims, 11), vec![6, 7, 10, 11]);
    assert_eq!(touching_pixels(&Dimensions::new(1, 1), 0), vec![0]);
    assert_eq!(touching_pixels(&Dimensions::new(3, 1), 1), vec![0, 1, 2]);
}
