//! The resources of a labeling run and the order in which each kernel sees them.

use vstd::prelude::*;

verus! {

/// A device resource that a kernel can be handed.
#[derive(Clone, Copy, Debug, PartialEq, Eq, Structural)]
pub enum Resource {
    /// The raster to label, one texel per pixel.
    InputTexture,
    /// One 32-bit slot per pixel: parent pointers while the forest is built, labels after.
    LabelForest,
    /// One 32-bit slot per pixel of scratch space for block connectivity.
    BlockInfo,
    /// The image extent as a uniform record.
    DimensionsUniform,
    /// The raster that receives the visualization.
    OutputTexture,
}

/// How a kernel may touch a bound resource.
#[derive(Clone, Copy, Debug, PartialEq, Eq, Structural)]
pub enum Access {
    ReadOnly,
    ReadWrite,
    WriteOnly,
    Uniform,
}

/// One entry of a bind group: the binding number, what is bound there, and how it is used.
#[derive(Clone, Copy, Debug, PartialEq, Eq, Structural)]
pub struct Binding {
    pub binding: u32,
    pub resource: Resource,
    pub access: Access,
}

/// The four resource sets that the pipeline creates.
#[derive(Clone, Copy, Debug, PartialEq, Eq, Structural)]
pub enum BindGroup {
    Init,
    Compress,
    Merge,
    LabelToRgba,
}

/// Size in bytes of the uniform record that carries the extent: two words and two of padding.
pub const UNIFORM_BYTES: u64 = 16;

impl BindGroup {
    /// The entries of the group, in binding order.
    pub open spec fn layout(self) -> Seq<Binding> {
        match self {
            BindGroup::Init => seq![
                Binding { binding: 0, resource: Resource::InputTexture, access: Access::ReadOnly },
                Binding { binding: 1, resource: Resource::LabelForest, access: Access::ReadWrite },
                Binding { binding: 2, resource: Resource::BlockInfo, access: Access::ReadWrite },
            ],
            BindGroup::Compress => seq![
                Binding { binding: 0, resource: Resource::LabelForest, access: Access::ReadWrite },
                Binding {
                    binding: 1,
                    resource: Resource::DimensionsUniform,
                    access: Access::Uniform,
                },
            ],
            BindGroup::Merge => seq![
                Binding { binding: 0, resource: Resource::LabelForest, access: Access::ReadWrite },
                Binding { binding: 1, resource: Resource::BlockInfo, access: Access::ReadOnly },
                Binding {
                    binding: 2,
                    resource: Resource::DimensionsUniform,
                    access: Access::Uniform,
                },
            ],
            BindGroup::LabelToRgba => seq![
                Binding { binding: 0, resource: Resource::LabelForest, access: Access::ReadOnly },
                Binding {
                    binding: 1,
                    resource: Resource::OutputTexture,
                    access: Access::WriteOnly,
                },
                Binding {
                    binding: 2,
                    resource: Resource::DimensionsUniform,
                    access: Access::Uniform,
                },
            ],
        }
    }

    /// Whether the group lets a kernel read `resource`.
    pub open spec fn grants_read(self, resource: Resource) -> bool {
        exists|i: int|
            0 <= i < self.layout().len() && (#[trigger] self.layout()[i]).resource == resource
                && self.layout()[i].access != Access::WriteOnly
    }

    /// Whether the group lets a kernel write `resource`.
    pub open spec fn grants_write(self, resource: Resource) -> bool {
        exists|i: int|
            0 <= i < self.layout().len() && (#[trigger] self.layout()[i]).resource == resource
                && (self.layout()[i].access == Access::ReadWrite || self.layout()[i].access
                == Access::WriteOnly)
    }

    /// Builds the entries of the group.
    pub fn entries(self) -> (entries: Vec<Binding>)
        ensures
            entries@ == self.layout(),
    {
        let mut entries: Vec<Binding> = Vec::new();
        match self {
            BindGroup::Init => {
                entries.push(bound(0, Resource::InputTexture, Access::ReadOnly));
                entries.push(bound(1, Resource::LabelForest, Access::ReadWrite));
                entries.push(bound(2, Resource::BlockInfo, Access::ReadWrite));
            },
            BindGroup::Compress => {
                entries.push(bound(0, Resource::LabelForest, Access::ReadWrite));
                entries.push(bound(1, Resource::DimensionsUniform, Access::Uniform));
            },
            BindGroup::Merge => {
                entries.push(bound(0, Resource::LabelForest, Access::ReadWrite));
                entries.push(bound(1, Resource::BlockInfo, Access::ReadOnly));
                entries.push(bound(2, Resource::DimensionsUniform, Access::Uniform));
            },
            BindGroup::LabelToRgba => {
                entries.push(bound(0, Resource::LabelForest, Access::ReadOnly));
                entries.push(bound(1, Resource::OutputTexture, Access::WriteOnly));
                entries.push(bound(2, Resource::DimensionsUniform, Access::Uniform));
            },
        }
        assert(entries@ =~= self.layout());
        entries
    }
}

fn bound(binding: u32, resource: Resource, access: Access) -> (entry: Binding)
    ensures
        entry == (Binding { binding, resource, access }),
{
    Binding { binding, resource, access }
}

/// In every group the binding numbers count up from zero, so no two entries collide.
pub proof fn lemma_bindings_are_positions(group: BindGroup, i: int)
    requires
        0 <= i < group.layout().len(),
    ensures
        group.layout()[i].binding == i,
{
}

} // verus!
