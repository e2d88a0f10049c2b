//! The orchestrator: it owns the buffers of one labeling run and drives the six passes
//! in their fixed order.

use vstd::prelude::*;
use crate::compress::compress;
use crate::connectivity::{adjacent, is_component_root, is_label_of, is_labeling};
use crate::dispatch::{Dispatch, Stage, pipeline_order};
use crate::error::PipelineError;
use crate::final_labeling::{final_labeling, lemma_resolved_keeps_block_labels};
use crate::forest::{
    compressed, is_flat, is_forest, is_labeled, labeled, lemma_compressed_keeps_roots,
    lemma_connected_to_root, lemma_root_is_root, root, slot_flat, slot_within_component,
    within_components,
};
use crate::geometry::Dimensions;
use crate::init::{
    init_labeling, is_seeding, lemma_seeding_is_forest, seeded_so_far, slot_seeded,
};
use crate::label_to_rgba::{label_to_rgba, visualization};
use crate::merge::{merge, neighbors_joined, same_tree};
use crate::texture::Texture;

verus! {

/// Flattening keeps every pointer inside its component.
pub proof fn lemma_compressed_within_components(dims: Dimensions, slots: Seq<u32>)
    requires
        is_forest(slots),
        within_components(dims, slots),
    ensures
        within_components(dims, compressed(slots)),
{
    lemma_compressed_keeps_roots(slots);
    let flat = compressed(slots);
    assert forall|i: int| 0 <= i < flat.len() implies #[trigger] slot_within_component(
        dims,
        flat,
        i,
    ) by {
        if slots[i] != 0 {
            lemma_connected_to_root(dims, slots, i);
            lemma_root_is_root(slots, i);
        }
    }
}

/// Flattening keeps neighbors joined.
pub proof fn lemma_compressed_keeps_joined(dims: Dimensions, slots: Seq<u32>)
    requires
        is_forest(slots),
        neighbors_joined(dims, slots),
    ensures
        neighbors_joined(dims, compressed(slots)),
{
    lemma_compressed_keeps_roots(slots);
    let flat = compressed(slots);
    assert forall|p: int, q: int|
        #![trigger adjacent(dims, p, q)]
        is_labeled(flat, p) && is_labeled(flat, q) && adjacent(dims, p, q) implies same_tree(
        flat,
        p,
        q,
    ) by {
        assert(labeled(flat)[p] == labeled(slots)[p]);
        assert(labeled(flat)[q] == labeled(slots)[q]);
        assert(same_tree(slots, p, q));
        assert(root(flat, p) == root(slots, p));
        assert(root(flat, q) == root(slots, q));
    }
}

/// A flat forest whose pointers stay inside components and whose neighbors are joined
/// is the labeling of the image that its labeled pixels make up.
pub proof fn lemma_resolved_is_labeling(dims: Dimensions, slots: Seq<u32>)
    requires
        is_forest(slots),
        is_flat(slots),
        within_components(dims, slots),
        neighbors_joined(dims, slots),
    ensures
        is_labeling(dims, labeled(slots), slots),
{
    crate::merge::lemma_roots_are_least(dims, slots);
    let fg = labeled(slots);
    assert forall|p: int| 0 <= p < slots.len() implies is_label_of(
        dims,
        fg,
        p,
        #[trigger] slots[p],
    ) by {
        assert(slot_flat(slots, p));
        if slots[p] != 0 {
            assert(is_component_root(dims, fg, p, root(slots, p)));
        }
    }
}

/// What a run hands back: the label buffer, and the raster with the visualization.
#[derive(Debug)]
pub struct Labeling {
    /// One label per pixel, row by row: zero on the background, and on the foreground
    /// one more than the least flat index of the pixel's component.
    pub labels: Vec<u32>,
    /// The color of every label, in the raster that was bound as input.
    pub visualization: Texture,
}

/// The resources of one labeling run over one image: the extent, the raster, and the
/// label forest buffer and the block info buffer, both cleared.
#[derive(Debug)]
pub struct CCLState {
    dims: Dimensions,
    texture: Texture,
    labels: Vec<u32>,
    info: Vec<u32>,
}

/// Whether every slot of the buffer holds zero.
pub open spec fn is_cleared(buffer: Seq<u32>) -> bool {
    forall|i: int| 0 <= i < buffer.len() ==> #[trigger] buffer[i] == 0
}

/// Whether an image of extent `dims` can be labeled: the size of its buffers fits 64
/// bits and each of its pixels can be pointed at from a 32-bit slot.
pub open spec fn extent_fits(dims: Dimensions) -> bool {
    dims.pixel_count() <= u32::MAX
}

/// A buffer of `n` cleared slots.
fn cleared_buffer(n: usize) -> (buffer: Vec<u32>)
    ensures
        buffer.len() == n,
        is_cleared(buffer@),
{
    let mut buffer: Vec<u32> = Vec::new();
    let mut i: usize = 0;
    while i < n
        invariant
            i <= n,
            buffer.len() == i,
            is_cleared(buffer@),
        decreases n - i,
    {
        buffer.push(0);
        i = i + 1;
    }
    buffer
}

impl CCLState {
    #[verifier::type_invariant]
    spec fn ready(&self) -> bool {
        &&& self.dims == self.texture.dims()
        &&& self.texture.well_formed()
        &&& extent_fits(self.texture.dims())
        &&& self.labels.len() == self.texture.dims().pixel_count()
        &&& self.info.len() == self.texture.dims().pixel_count()
        &&& is_cleared(self.labels@)
        &&& is_cleared(self.info@)
    }

    /// The raster that the run will label.
    pub closed spec fn image(&self) -> Texture {
        self.texture
    }

    /// The extent that every pass is told.
    pub closed spec fn extent(&self) -> Dimensions {
        self.dims
    }

    /// The label forest buffer.
    pub closed spec fn label_forest(&self) -> Seq<u32> {
        self.labels@
    }

    /// The block info buffer.
    pub closed spec fn block_info(&self) -> Seq<u32> {
        self.info@
    }

    /// Takes the raster to label, notes its extent, and allocates the label forest buffer
    /// and the block info buffer, one cleared slot per pixel each.
    ///
    /// Fails with `BufferTooLarge` when four bytes per pixel do not fit 64 bits, else with
    /// `TooManyPixels` when the image has more pixels than a slot can point at, else with
    /// `TexelCount` when the raster does not hold four bytes per pixel.
    pub fn new(texture: Texture) -> (result: Result<CCLState, PipelineError>)
        ensures
            result is Ok <==> extent_fits(texture.dims()) && texture.well_formed(),
            result is Ok ==> {
                &&& result->Ok_0.image() == texture
                &&& result->Ok_0.extent() == texture.dims()
                &&& result->Ok_0.label_forest().len() == texture.dims().pixel_count()
                &&& result->Ok_0.block_info().len() == texture.dims().pixel_count()
                &&& is_cleared(result->Ok_0.label_forest())
                &&& is_cleared(result->Ok_0.block_info())
            },
            result is Err ==> result->Err_0 == (if texture.dims().pixel_count() * 4 > u64::MAX {
                PipelineError::BufferTooLarge
            } else if !extent_fits(texture.dims()) {
                PipelineError::TooManyPixels
            } else {
                PipelineError::TexelCount
            }),
    {
        let dims: Dimensions = texture.extent();
        if dims.num_bytes_storage().is_none() {
            return Err(PipelineError::BufferTooLarge);
        }
        let pixels: u64 = dims.num_pixels();
        if pixels > u32::MAX as u64 {
            return Err(PipelineError::TooManyPixels);
        }
        if !texture.is_well_formed() {
            return Err(PipelineError::TexelCount);
        }
        let labels: Vec<u32> = cleared_buffer(pixels as usize);
        let info: Vec<u32> = cleared_buffer(pixels as usize);
        Ok(CCLState { dims, texture, labels, info })
    }

    /// The extent of the image.
    pub fn dimensions(&self) -> (dims: Dimensions)
        ensures
            dims == self.extent(),
            dims == self.image().dims(),
    {
        proof {
            use_type_invariant(self);
        }
        self.dims
    }

    /// The size in bytes of the label forest buffer, and of the block info buffer.
    pub fn storage_bytes(&self) -> (bytes: u64)
        ensures
            bytes == 4 * self.image().dims().pixel_count(),
    {
        proof {
            use_type_invariant(self);
        }
        4 * self.dims.num_pixels()
    }

    /// Records the six dispatches of a run in `encoder`, in the order in which they must
    /// execute, and executes them on the host: seeding, flattening, union, flattening
    /// again, broadcast, visualization.
    ///
    /// The label buffer that comes back is the labeling of the image: background pixels
    /// hold zero; a foreground pixel holds one more than the least flat index of its
    /// component, so two foreground pixels hold the same label exactly when a path of
    /// neighboring foreground pixels joins them.  The visualization overwrites the raster
    /// that was bound as input.
    pub fn compute(self, encoder: &mut Vec<Dispatch>) -> (out: Labeling)
        ensures
            final(encoder)@ == old(encoder)@ + pipeline_order(self.image().dims()),
            is_labeling(self.image().dims(), self.image().foreground(), out.labels@),
            out.visualization.width == self.image().width,
            out.visualization.height == self.image().height,
            out.visualization.texels@ == visualization(out.labels@),
    {
        proof {
            use_type_invariant(&self);
        }
        let ghost fg = self.texture.foreground();
        let ghost before = encoder@;
        let CCLState { dims, texture, mut labels, mut info } = self;

        encoder.push(Dispatch::for_stage(Stage::Init, &dims));
        let ghost cleared = labels@;
        init_labeling(&texture, &mut labels, &mut info);
        proof {
            assert forall|p: int| 0 <= p < labels.len() implies #[trigger] slot_seeded(
                dims,
                fg,
                labels@,
                p,
            ) && (!fg[p] ==> labels@[p] == 0) by {
                assert(seeded_so_far(dims, fg, cleared, labels@, true, p));
            }
            assert(is_seeding(dims, fg, labels@));
            lemma_seeding_is_forest(dims, fg, labels@);
        }
        let ghost seeded = labels@;

        encoder.push(Dispatch::for_stage(Stage::Compress, &dims));
        compress(&mut labels, &dims);
        proof {
            lemma_compressed_keeps_roots(seeded);
            lemma_compressed_within_components(dims, seeded);
        }

        encoder.push(Dispatch::for_stage(Stage::Merge, &dims));
        merge(&mut labels, &dims);
        let ghost merged = labels@;

        encoder.push(Dispatch::for_stage(Stage::Compress, &dims));
        compress(&mut labels, &dims);
        proof {
            lemma_compressed_keeps_roots(merged);
            lemma_compressed_within_components(dims, merged);
            lemma_compressed_keeps_joined(dims, merged);
        }
        let ghost resolved = labels@;

        encoder.push(Dispatch::for_stage(Stage::FinalLabeling, &dims));
        final_labeling(&mut labels, &dims);
        proof {
            lemma_resolved_keeps_block_labels(dims, resolved);
            lemma_resolved_is_labeling(dims, resolved);
        }

        encoder.push(Dispatch::for_stage(Stage::LabelToRgba, &dims));
        let mut visualization: Texture = texture;
        label_to_rgba(&labels, &mut visualization);
        assert(encoder@ =~= before + pipeline_order(dims));
        Labeling { labels, visualization }
    }
}

/// The dispatches of one run over an image of extent `dims`, in execution order.
pub fn pipeline_dispatches(dims: &Dimensions) -> (dispatches: Vec<Dispatch>)
    ensures
        dispatches@ == pipeline_order(*dims),
{
    let mut dispatches: Vec<Dispatch> = Vec::new();
    dispatches.push(Dispatch::for_stage(Stage::Init, dims));
    dispatches.push(Dispatch::for_stage(Stage::Compress, dims));
    dispatches.push(Dispatch::for_stage(Stage::Merge, dims));
    dispatches.push(Dispatch::for_stage(Stage::Compress, dims));
    dispatches.push(Dispatch::for_stage(Stage::FinalLabeling, dims));
    dispatches.push(Dispatch::for_stage(Stage::LabelToRgba, dims));
    assert(dispatches@ =~= pipeline_order(*dims));
    dispatches
}

} // verus!
