use bke_ccl::compress::{compress, compress_invocation};
use bke_ccl::final_labeling::{final_labeling, final_labeling_invocation};
use bke_ccl::forest::find_root;
use bke_ccl::dispatch::{Dispatch, Stage};
use bke_ccl::geometry::Dimensions;
use bke_ccl::init::{block_seed, init_labeling, init_labeling_invocation, least_touching};
use bke_ccl::label_to_rgba::{label_color, label_to_rgba, label_to_rgba_invocation, Rgba};
use bke_ccl::merge::{merge, merge_invocation, unite, unite_behind};
use bke_ccl::texture::Texture;

fn mask(width: u32, height: u32, rows: &[&str]) -> Texture {
    let mut texels = Vec::new();
    for row in rows {
        for cell in row.bytes() {
            texels.extend_from_slice(&[if cell == b'#' { 1 } else { 0 }, 0, 0, 0]);
        }
    }
    Texture { width, height, texels }
}

#[test]
fn texture_tells_foreground_by_the_first_channel() {
    let texture = Texture { width: 2, height: 1, texels: vec![0, 9, 9, 9, 3, 0, 0, 0] };
    assert!(texture.is_well_formed());
    assert!(!texture.is_foreground(0));
    assert!(texture.is_foreground(1));
    assert_eq!(texture.extent(), Dimensions { columns: 2, rows: 1 });
    let broken = Texture { width: 2, height: 1, texels: vec![0; 7] };
    assert!(!broken.is_well_formed());
}

#[test]
fn find_root_follows_the_chain() {
    // 0 <- 1 <- 2 <- 4, 3 alone, 5 unlabeled.
    let slots = vec![1, 1, 2, 4, 3, 0];
    assert_eq!(find_root(&slots, 0), 0);
    assert_eq!(find_root(&slots, 2), 0);
    assert_eq!(find_root(&slots, 4), 0);
    assert_eq!(find_root(&slots, 3), 3);
}

#[test]
fn compress_points_every_pixel_at_its_root() {
    let dims = Dimensions::new(3, 2);
    let mut slots = vec![1, 1, 2, 4, 3, 0];
    compress(&mut slots, &dims);
    assert_eq!(slots, vec![1, 1, 1, 4, 1, 0]);
}

#[test]
fn compress_twice_is_compress_once() {
    let dims = Dimensions::new(4, 3);
    let mut slots = vec![1, 1, 2, 3, 0, 6, 6, 4, 9, 9, 0, 8];
    compress(&mut slots, &dims);
    let once = slots.clone();
    assert_eq!(once, vec![1, 1, 1, 1, 0, 6, 6, 1, 9, 9, 0, 1]);
    compress(&mut slots, &dims);
    assert_eq!(slots, once);
}

#[test]
fn compress_invocation_touches_only_its_block() {
    let dims = Dimensions::new(4, 2);
    // A chain 0 <- 1 <- 2 <- 3 in the top row, 4 <- 5 <- 6 <- 7 in the bottom row.
    let mut slots = vec![1, 1, 2, 3, 5, 5, 6, 7];
    compress_invocation(&mut slots, &dims, 1, 0);
    assert_eq!(slots, vec![1, 1, 1, 1, 5, 5, 5, 5]);
    let mut other = vec![1, 1, 2, 3, 5, 5, 6, 7];
    compress_invocation(&mut other, &dims, 0, 0);
    assert_eq!(other, vec![1, 1, 2, 3, 5, 5, 6, 7]);
    compress_invocation(&mut other, &dims, 2, 0);
    assert_eq!(other, vec![1, 1, 2, 3, 5, 5, 6, 7]);
}

#[test]
fn unite_hangs_the_larger_root_under_the_smaller() {
    let mut slots = vec![1, 1, 3, 3, 0];
    unite(&mut slots, 3, 1);
    assert_eq!(slots, vec![1, 1, 1, 3, 0]);
    let mut same = vec![1, 1, 3, 3, 0];
    unite(&mut same, 1, 3);
    assert_eq!(same, vec![1, 1, 1, 3, 0]);
    let mut joined = vec![1, 1, 1, 3, 0];
    unite(&mut joined, 3, 0);
    assert_eq!(joined, vec![1, 1, 1, 3, 0]);
}

#[test]
fn unite_behind_looks_left_and_up() {
    // Pixel 4 sits in the middle of a three by three image in which every pixel is its
    // own root: it joins the four pixels before it and none of those after it.
    let dims = Dimensions::new(3, 3);
    let mut slots: Vec<u32> = (1..=9).collect();
    unite_behind(&mut slots, &dims, 4);
    assert_eq!(slots, vec![1, 1, 1, 1, 1, 6, 7, 8, 9]);
    let mut corner: Vec<u32> = (1..=9).collect();
    unite_behind(&mut corner, &dims, 0);
    assert_eq!(corner, (1..=9).collect::<Vec<u32>>());
    let mut sparse = vec![0, 2, 0, 0, 5, 0, 0, 0, 0];
    unite_behind(&mut sparse, &dims, 4);
    assert_eq!(sparse, vec![0, 2, 0, 0, 2, 0, 0, 0, 0]);
}

#[test]
fn merge_unites_neighbors_across_blocks() {
    // Four pixels in a row over two blocks, each block seeded on its own.
    let dims = Dimensions::new(4, 1);
    let mut slots = vec![1, 1, 3, 3];
    merge(&mut slots, &dims);
    assert_eq!(slots, vec![1, 1, 1, 3]);
    compress(&mut slots, &dims);
    assert_eq!(slots, vec![1, 1, 1, 1]);
}

#[test]
fn merge_leaves_separate_trees_apart() {
    let dims = Dimensions::new(5, 1);
    let mut slots = vec![1, 1, 0, 4, 4];
    merge(&mut slots, &dims);
    assert_eq!(slots, vec![1, 1, 0, 4, 4]);
}

#[test]
fn merge_invocation_looks_only_behind_its_block() {
    let dims = Dimensions::new(6, 1);
    let mut slots = vec![1, 1, 3, 3, 5, 5];
    merge_invocation(&mut slots, &dims, 1, 0);
    assert_eq!(slots, vec![1, 1, 1, 3, 5, 5]);
    merge_invocation(&mut slots, &dims, 0, 0);
    assert_eq!(slots, vec![1, 1, 1, 3, 5, 5]);
    merge_invocation(&mut slots, &dims, 2, 0);
    assert_eq!(slots, vec![1, 1, 1, 3, 1, 5]);
}

#[test]
fn merge_joins_through_a_corner() {
    // Pixel 3 (row 1, column 0) touches pixel 1 (row 0, column 1) only by a corner.
    let dims = Dimensions::new(3, 2);
    let mut slots = vec![0, 2, 0, 4, 0, 0];
    merge(&mut slots, &dims);
    assert_eq!(slots, vec![0, 2, 0, 2, 0, 0]);
}

#[test]
fn init_seeds_each_block_with_the_least_pixel_it_reaches() {
    let texture = mask(4, 2, &["##..", ".###"]);
    let mut labels = vec![0u32; 8];
    let mut info = vec![0u32; 8];
    init_labeling(&texture, &mut labels, &mut info);
    // The right block holds pixels 6 and 7 and touches pixels 1 and 5 of the left block.
    assert_eq!(labels, vec![1, 1, 0, 0, 0, 1, 2, 2]);
    assert_eq!(info, vec![11, 0, 12, 0, 0, 0, 0, 0]);
}

#[test]
fn init_reaches_into_the_row_above_and_to_the_right() {
    // Pixel 2 lies in the block to the right of the block of pixel 5 and before it.
    let texture = mask(4, 2, &["..#.", ".#.."]);
    let mut labels = vec![0u32; 8];
    let mut info = vec![0u32; 8];
    init_labeling(&texture, &mut labels, &mut info);
    assert_eq!(labels, vec![0, 0, 3, 0, 0, 3, 0, 0]);
    assert_eq!(info, vec![8, 0, 1, 0, 0, 0, 0, 0]);
}

#[test]
fn init_leaves_background_slots_as_they_were() {
    let texture = mask(2, 2, &["#.", ".."]);
    let mut labels = vec![40, 41, 42, 43];
    let mut info = vec![7, 7, 7, 7];
    init_labeling(&texture, &mut labels, &mut info);
    assert_eq!(labels, vec![1, 41, 42, 43]);
    assert_eq!(info, vec![1, 7, 7, 7]);
}

#[test]
fn init_invocation_writes_one_block() {
    let texture = mask(4, 2, &["#..#", "#..#"]);
    let mut labels = vec![0u32; 8];
    let mut info = vec![0u32; 8];
    init_labeling_invocation(&texture, &mut labels, &mut info, 1, 0);
    assert_eq!(labels, vec![0, 0, 0, 4, 0, 0, 0, 4]);
    assert_eq!(info, vec![0, 0, 10, 0, 0, 0, 0, 0]);
    init_labeling_invocation(&texture, &mut labels, &mut info, 2, 0);
    init_labeling_invocation(&texture, &mut labels, &mut info, 0, 1);
    assert_eq!(labels, vec![0, 0, 0, 4, 0, 0, 0, 4]);
    assert_eq!(info, vec![0, 0, 10, 0, 0, 0, 0, 0]);
}

#[test]
fn least_touching_is_the_first_foreground_pixel_around() {
    let texture = mask(3, 3, &["..#", ".#.", "#.#"]);
    assert_eq!(least_touching(&texture, 4), 2);
    assert_eq!(least_touching(&texture, 2), 2);
    assert_eq!(least_touching(&texture, 6), 4);
    assert_eq!(least_touching(&texture, 8), 4);
    let alone = mask(3, 3, &["...", "...", "..#"]);
    assert_eq!(least_touching(&alone, 8), 8);
}

#[test]
fn block_seed_is_none_without_foreground() {
    let texture = mask(4, 2, &["##..", "...."]);
    assert_eq!(block_seed(&texture, 0, 0), Some(0));
    assert_eq!(block_seed(&texture, 1, 0), None);
    assert_eq!(block_seed(&texture, 9, 9), None);
    let touching = mask(4, 2, &[".#..", "..#."]);
    assert_eq!(block_seed(&touching, 1, 0), Some(1));
    assert_eq!(block_seed(&touching, 0, 0), Some(1));
}

#[test]
fn final_labeling_broadcasts_the_first_label_of_the_block() {
    let dims = Dimensions::new(4, 2);
    let mut slots = vec![0, 9, 3, 0, 5, 6, 0, 8];
    final_labeling(&mut slots, &dims);
    assert_eq!(slots, vec![0, 9, 3, 0, 9, 9, 0, 3]);
}

#[test]
fn final_labeling_invocation_writes_one_block() {
    let dims = Dimensions::new(4, 2);
    let mut slots = vec![0, 9, 3, 0, 5, 6, 0, 8];
    final_labeling_invocation(&mut slots, &dims, 1, 0);
    assert_eq!(slots, vec![0, 9, 3, 0, 5, 6, 0, 3]);
    final_labeling_invocation(&mut slots, &dims, 4, 0);
    assert_eq!(slots, vec![0, 9, 3, 0, 5, 6, 0, 3]);
}

#[test]
fn colors_are_the_high_bytes_of_the_hash() {
    assert_eq!(label_color(0), Rgba { red: 0, green: 0, blue: 0, alpha: 255 });
    // 1 * 2654435761 = 0x9E3779B1
    assert_eq!(label_color(1), Rgba { red: 0x9e, green: 0x37, blue: 0x79, alpha: 255 });
    // 2 * 2654435761 mod 2^32 = 0x3C6EF362
    assert_eq!(label_color(2), Rgba { red: 0x3c, green: 0x6e, blue: 0xf3, alpha: 255 });
    // 4294967295 * 2654435761 mod 2^32 = 0x61C8864F
    assert_eq!(label_color(u32::MAX), Rgba { red: 0x61, green: 0xc8, blue: 0x86, alpha: 255 });
}

#[test]
fn label_to_rgba_writes_every_texel() {
    let labels = vec![1, 0, 2];
    let mut output = Texture { width: 3, height: 1, texels: vec![17; 12] };
    label_to_rgba(&labels, &mut output);
    assert_eq!(
        output.texels,
        vec![0x9e, 0x37, 0x79, 255, 0, 0, 0, 255, 0x3c, 0x6e, 0xf3, 255]
    );
    assert_eq!((output.width, output.height), (3, 1));
}

#[test]
fn label_to_rgba_invocation_writes_one_texel() {
    let labels = vec![1, 0, 2];
    let mut output = Texture { width: 3, height: 1, texels: vec![17; 12] };
    label_to_rgba_invocation(&labels, &mut output, 2, 0);
    assert_eq!(output.texels, vec![17, 17, 17, 17, 17, 17, 17, 17, 0x3c, 0x6e, 0xf3, 255]);
    label_to_rgba_invocation(&labels, &mut output, 3, 0);
    label_to_rgba_invocation(&labels, &mut output, 0, 1);
    assert_eq!(output.texels, vec![17, 17, 17, 17, 17, 17, 17, 17, 0x3c, 0x6e, 0xf3, 255]);
}

fn seeded(texture: &Texture) -> Vec<u32> {
    let pixels = texture.width as usize * texture.height as usize;
    let mut labels = vec![0u32; pixels];
    let mut info = vec![0u32; pixels];
    init_labeling(texture, &mut labels, &mut info);
    labels
}

#[test]
fn merge_invocations_may_run_in_any_order() {
    let texture = mask(
        7,
        6,
        &["#.#.#.#", "#.#.#.#", "#.#.#.#", "#.#.#.#", "#.#.#.#", "#######"],
    );
    let dims = texture.extent();
    let mut in_order = seeded(&texture);
    compress(&mut in_order, &dims);
    let mut reversed = in_order.clone();
    let mut twice = in_order.clone();

    merge(&mut in_order, &dims);
    compress(&mut in_order, &dims);

    let grid = Dispatch::for_stage(Stage::Merge, &dims);
    for iy in (0..grid.down()).rev() {
        for ix in (0..grid.across()).rev() {
            merge_invocation(&mut reversed, &dims, ix, iy);
        }
    }
    compress(&mut reversed, &dims);
    assert_eq!(reversed, in_order);

    for ix in 0..grid.across() {
        for iy in 0..grid.down() {
            merge_invocation(&mut twice, &dims, ix, iy);
            merge_invocation(&mut twice, &dims, ix, iy);
        }
    }
    compress(&mut twice, &dims);
    assert_eq!(twice, in_order);
    for (p, slot) in in_order.iter().enumerate() {
        assert_eq!(*slot, if texture.is_foreground(p) { 1 } else { 0 });
    }
}

#[test]
fn compress_invocations_may_run_in_any_order() {
    let dims = Dimensions::new(4, 3);
    let start: Vec<u32> = vec![1, 1, 2, 3, 0, 6, 6, 4, 9, 9, 0, 8];
    let mut in_order = start.clone();
    compress(&mut in_order, &dims);
    let mut reversed = start.clone();
    let grid = Dispatch::for_stage(Stage::Compress, &dims);
    assert_eq!((grid.across(), grid.down()), (8, 8));
    for iy in (0..grid.down()).rev() {
        for ix in (0..grid.across()).rev() {
            compress_invocation(&mut reversed, &dims, ix, iy);
        }
    }
    assert_eq!(reversed, in_order);
}

#[test]
fn seeding_yields_a_forest_that_points_downward() {
    let texture = mask(6, 4, &["##..##", ".####.", "#....#", "######"]);
    let labels = seeded(&texture);
    for (p, slot) in labels.iter().enumerate() {
        if texture.is_foreground(p) {
            assert!(*slot >= 1 && *slot as usize <= p + 1);
            assert!(labels[*slot as usize - 1] != 0);
        } else {
            assert_eq!(*slot, 0);
        }
    }
}
