use bke_ccl::dispatch::{Dispatch, Stage};
use bke_ccl::geometry::Dimensions;
use bke_ccl::error::PipelineError;
use bke_ccl::pipeline::{pipeline_dispatches, CCLState};
use bke_ccl::texture::Texture;

fn raster(width: u32, height: u32, rows: &[&str]) -> Texture {
    let mut texels = Vec::new();
    assert_eq!(rows.len(), height as usize);
    for row in rows {
        assert_eq!(row.len(), width as usize);
        for cell in row.bytes() {
            let value = if cell == b'#' { 200u8 } else { 0u8 };
            texels.push(value);
            texels.push(7);
            texels.push(9);
            texels.push(255);
        }
    }
    Texture { width, height, texels }
}

fn label(texture: Texture) -> Vec<u32> {
    let state = CCLState::new(texture).expect("the raster is well formed");
    let mut encoder = Vec::new();
    state.compute(&mut encoder).labels
}

/// Labels by plain flood fill, visiting pixels in ascending order so that the first
/// pixel of a component is its least.
fn flood_fill(width: usize, height: usize, foreground: &[bool]) -> Vec<u32> {
    let mut labels = vec![0u32; width * height];
    for start in 0..width * height {
        if !foreground[start] || labels[start] != 0 {
            continue;
        }
        let mark = start as u32 + 1;
        let mut stack = vec![start];
        labels[start] = mark;
        while let Some(p) = stack.pop() {
            let (x, y) = ((p % width) as i64, (p / width) as i64);
            for dy in -1i64..=1 {
                for dx in -1i64..=1 {
                    let (nx, ny) = (x + dx, y + dy);
                    if nx < 0 || ny < 0 || nx >= width as i64 || ny >= height as i64 {
                        continue;
                    }
                    let q = ny as usize * width + nx as usize;
                    if foreground[q] && labels[q] == 0 {
                        labels[q] = mark;
                        stack.push(q);
                    }
                }
            }
        }
    }
    labels
}

fn scattered(width: u32, height: u32, seed: u64, density: u64) -> (Texture, Vec<bool>) {
    let mut state = seed;
    let mut texels = Vec::new();
    let mut foreground = Vec::new();
    for _ in 0..(width as usize * height as usize) {
        state = state.wrapping_mul(6364136223846793005).wrapping_add(1442695040888963407);
        let set = (state >> 33) % 100 < density;
        foreground.push(set);
        texels.extend_from_slice(&[if set { 1 } else { 0 }, 0, 0, 0]);
    }
    (Texture { width, height, texels }, foreground)
}

#[test]
fn spaced_pixels_are_their_own_components() {
    let mut texels = Vec::new();
    for y in 0..16u32 {
        for x in 0..16u32 {
            let set = x % 2 == 0 && y % 2 == 0;
            texels.extend_from_slice(&[if set { 255 } else { 0 }, 0, 0, 255]);
        }
    }
    let labels = label(Texture { width: 16, height: 16, texels });
    let expected: [u32; 256] = [
        1, 0, 3, 0, 5, 0, 7, 0, 9, 0, 11, 0, 13, 0, 15, 0, 0, 0, 0, 0, 0, 0, 0, 0, 0, 0, 0,
        0, 0, 0, 0, 0, 33, 0, 35, 0, 37, 0, 39, 0, 41, 0, 43, 0, 45, 0, 47, 0, 0, 0, 0, 0,
        0, 0, 0, 0, 0, 0, 0, 0, 0, 0, 0, 0, 65, 0, 67, 0, 69, 0, 71, 0, 73, 0, 75, 0, 77,
        0, 79, 0, 0, 0, 0, 0, 0, 0, 0, 0, 0, 0, 0, 0, 0, 0, 0, 0, 97, 0, 99, 0, 101, 0,
        103, 0, 105, 0, 107, 0, 109, 0, 111, 0, 0, 0, 0, 0, 0, 0, 0, 0, 0, 0, 0, 0, 0, 0,
        0, 0, 129, 0, 131, 0, 133, 0, 135, 0, 137, 0, 139, 0, 141, 0, 143, 0, 0, 0, 0, 0,
        0, 0, 0, 0, 0, 0, 0, 0, 0, 0, 0, 0, 161, 0, 163, 0, 165, 0, 167, 0, 169, 0, 171, 0,
        173, 0, 175, 0, 0, 0, 0, 0, 0, 0, 0, 0, 0, 0, 0, 0, 0, 0, 0, 0, 193, 0, 195, 0,
        197, 0, 199, 0, 201, 0, 203, 0, 205, 0, 207, 0, 0, 0, 0, 0, 0, 0, 0, 0, 0, 0, 0, 0,
        0, 0, 0, 0, 225, 0, 227, 0, 229, 0, 231, 0, 233, 0, 235, 0, 237, 0, 239, 0, 0, 0,
        0, 0, 0, 0, 0, 0, 0, 0, 0, 0, 0, 0, 0, 0,
    ];
    assert_eq!(labels, expected);
}

#[test]
fn diagonal_neighbors_share_a_label() {
    let labels = label(raster(4, 4, &["#...", ".#..", "..#.", "...#"]));
    assert_eq!(labels, vec![1, 0, 0, 0, 0, 1, 0, 0, 0, 0, 1, 0, 0, 0, 0, 1]);
}

#[test]
fn anti_diagonal_takes_the_label_of_its_top_pixel() {
    let labels = label(raster(4, 4, &["...#", "..#.", ".#..", "#..."]));
    assert_eq!(labels, vec![0, 0, 0, 4, 0, 0, 4, 0, 0, 4, 0, 0, 4, 0, 0, 0]);
}

#[test]
fn separate_components_get_distinct_labels() {
    let labels = label(raster(5, 3, &["##.##", "##.##", "....."]));
    assert_eq!(labels, vec![1, 1, 0, 4, 4, 1, 1, 0, 4, 4, 0, 0, 0, 0, 0]);
    assert_ne!(labels[0], labels[3]);
}

#[test]
fn arms_that_meet_late_are_united() {
    // Two arms that look separate from above and join only in the last row: the union
    // pass has to pull the right arm under the root of the left one.
    let labels = label(raster(5, 5, &["#...#", "#...#", "#...#", "#...#", "#####"]));
    let expected = vec![
        1, 0, 0, 0, 1, 1, 0, 0, 0, 1, 1, 0, 0, 0, 1, 1, 0, 0, 0, 1, 1, 1, 1, 1, 1,
    ];
    assert_eq!(labels, expected);
}

#[test]
fn spiral_is_one_component() {
    let rows = ["#######", "......#", "#####.#", "#...#.#", "#.###.#", "#.....#", "#######"];
    let labels = label(raster(7, 7, &rows));
    for (p, cell) in rows.concat().bytes().enumerate() {
        assert_eq!(labels[p], if cell == b'#' { 1 } else { 0 }, "pixel {}", p);
    }
}

#[test]
fn label_is_one_more_than_the_least_index_of_the_component() {
    // The component's least pixel sits at index 6, in the bottom right of its block.
    let labels = label(raster(5, 4, &[".....", ".#...", "..##.", "....."]));
    assert_eq!(labels, vec![0, 0, 0, 0, 0, 0, 7, 0, 0, 0, 0, 0, 7, 7, 0, 0, 0, 0, 0, 0]);
}

#[test]
fn pixel_zero_is_told_from_background() {
    let labels = label(raster(2, 1, &["#."]));
    assert_eq!(labels, vec![1, 0]);
}

#[test]
fn background_keeps_the_sentinel() {
    let labels = label(raster(3, 3, &["...", "...", "..."]));
    assert_eq!(labels, vec![0; 9]);
}

#[test]
fn odd_extents_are_covered_to_the_last_pixel() {
    let labels = label(raster(3, 3, &["..#", "...", "#.#"]));
    assert_eq!(labels, vec![0, 0, 3, 0, 0, 0, 7, 0, 9]);
    let wide = label(raster(17, 1, &["................#"]));
    assert_eq!(wide[16], 17);
    let mut column = vec!["."; 16];
    column.push("#");
    let tall = label(raster(1, 17, &column));
    assert_eq!(tall[16], 17);
}

#[test]
fn empty_image_has_no_labels() {
    let labels = label(Texture { width: 0, height: 0, texels: vec![] });
    assert_eq!(labels, Vec::<u32>::new());
    let flat = label(Texture { width: 5, height: 0, texels: vec![] });
    assert_eq!(flat, Vec::<u32>::new());
}

#[test]
fn only_the_first_channel_decides_foreground() {
    let texels = vec![0, 255, 255, 255, 1, 0, 0, 0];
    let labels = label(Texture { width: 2, height: 1, texels });
    assert_eq!(labels, vec![0, 2]);
}

#[test]
fn agrees_with_flood_fill_on_scattered_images() {
    let cases: [(u32, u32, u64, u64); 8] = [
        (7, 5, 1, 50),
        (16, 16, 2, 45),
        (17, 9, 3, 55),
        (9, 17, 4, 40),
        (33, 31, 5, 50),
        (40, 24, 6, 62),
        (1, 29, 7, 70),
        (29, 1, 8, 70),
    ];
    for (width, height, seed, density) in cases {
        let (texture, foreground) = scattered(width, height, seed, density);
        let expected = flood_fill(width as usize, height as usize, &foreground);
        assert_eq!(label(texture), expected, "{}x{} seed {}", width, height, seed);
    }
}

#[test]
fn connected_pixels_share_labels_and_separate_ones_do_not() {
    let (texture, foreground) = scattered(12, 10, 99, 48);
    let reference = flood_fill(12, 10, &foreground);
    let labels = label(texture);
    for p in 0..120 {
        for q in 0..120 {
            if foreground[p] && foreground[q] {
                assert_eq!(labels[p] == labels[q], reference[p] == reference[q]);
            }
        }
    }
}

#[test]
fn two_runs_over_one_image_agree() {
    let (texture, _) = scattered(20, 20, 1234, 50);
    let first = label(texture.clone());
    let second = label(texture);
    assert_eq!(first, second);
}

#[test]
fn compute_records_the_six_dispatches_in_order() {
    let (texture, _) = scattered(40, 20, 5, 50);
    let state = CCLState::new(texture).unwrap();
    let dims = state.dimensions();
    assert_eq!(dims, Dimensions { columns: 40, rows: 20 });
    assert_eq!(state.storage_bytes(), 3200);
    let earlier = Dispatch::for_stage(Stage::Merge, &dims);
    let mut encoder = vec![earlier];
    let _ = state.compute(&mut encoder);
    let stages: Vec<Stage> = encoder.iter().map(|d| d.stage).collect();
    assert_eq!(
        stages,
        vec![
            Stage::Merge,
            Stage::Init,
            Stage::Compress,
            Stage::Merge,
            Stage::Compress,
            Stage::FinalLabeling,
            Stage::LabelToRgba,
        ]
    );
    assert_eq!(encoder[1..].to_vec(), pipeline_dispatches(&dims));
    assert_eq!((encoder[1].groups_x, encoder[1].groups_y, encoder[1].groups_z), (3, 2, 1));
    assert_eq!((encoder[6].groups_x, encoder[6].groups_y, encoder[6].groups_z), (5, 3, 1));
}

#[test]
fn visualization_overwrites_the_bound_raster() {
    let state = CCLState::new(raster(2, 1, &["#."])).unwrap();
    let mut encoder = Vec::new();
    let out = state.compute(&mut encoder);
    assert_eq!(out.labels, vec![1, 0]);
    assert_eq!(out.visualization.width, 2);
    assert_eq!(out.visualization.height, 1);
    assert_eq!(out.visualization.texels, vec![0x9e, 0x37, 0x79, 255, 0, 0, 0, 255]);
}

#[test]
fn new_rejects_a_buffer_size_beyond_64_bits() {
    let texture = Texture { width: 1 << 31, height: 1 << 31, texels: vec![] };
    assert_eq!(CCLState::new(texture).err(), Some(PipelineError::BufferTooLarge));
    let largest = Texture { width: u32::MAX, height: u32::MAX, texels: vec![] };
    assert_eq!(CCLState::new(largest).err(), Some(PipelineError::BufferTooLarge));
}

#[test]
fn new_rejects_more_pixels_than_a_slot_can_point_at() {
    let texture = Texture { width: 1 << 16, height: 1 << 16, texels: vec![] };
    assert_eq!(CCLState::new(texture).err(), Some(PipelineError::TooManyPixels));
}

#[test]
fn new_rejects_a_raster_of_the_wrong_length() {
    let short = Texture { width: 2, height: 2, texels: vec![0; 15] };
    assert_eq!(CCLState::new(short).err(), Some(PipelineError::TexelCount));
    let long = Texture { width: 2, height: 2, texels: vec![0; 20] };
    assert_eq!(CCLState::new(long).err(), Some(PipelineError::TexelCount));
    let exact = Texture { width: 2, height: 2, texels: vec![0; 16] };
    assert!(CCLState::new(exact).is_ok());
}
