//! The domain model: a building is an ordered list of roots and a flat,
//! root-grouped list of blocks.
//!
//! Every quantity the codec reads is a plain value.  World transforms and the
//! other free-form reals travel as the bit patterns of their 32-bit words and
//! are never interpreted here; block rotations are stored already packed to
//! fixed-point sixteenths, block positions already quantized against the
//! owning root's bounding box, and enable states as the bytes the wire
//! carries.  The caller performs those real-number conversions before
//! constructing a building and after decoding one.
use vstd::prelude::*;

verus! {

/// A rigid-body grouping of blocks with a world placement.
///
/// `bounds_center` and `bounds_size` describe the axis-aligned box that block
/// positions are quantized against (versions past the baseline); they hold
/// the bit patterns of the box's 32-bit words per axis.
#[derive(Debug)]
pub struct Root {
    pub position: [u32; 3],
    pub rotation: [u32; 3],
    pub bounds_center: [u32; 3],
    pub bounds_size: [u32; 3],
}

/// One typed element of a building.
#[derive(Debug)]
pub struct Block {
    /// World position, one 32-bit word per axis (baseline-version layout).
    pub position: [u32; 3],
    /// Position quantized against the owning root's box (later layouts).
    pub position_in_bounds: [i16; 3],
    /// Rotation in packed fixed-point degrees, one word per axis.
    pub rotation: [u16; 3],
    /// Block-type identifier.
    pub id: u8,
    /// Index of the owning root.
    pub root: u16,
    /// Optional display name.
    pub name: Option<String>,
    /// Authored enable value, as the byte the wire carries.
    pub enable_state: u8,
    /// Live enable value, as the byte the wire carries.
    pub enable_state_current: u8,
    /// Whether the live enable value counts whole units above one.
    pub overdriven: bool,
    /// Indices of connected blocks; entries naming no block are dropped at
    /// encode time.
    pub connections: Vec<u16>,
    /// Index of a mechanically attached block, if any.
    pub load: Option<u16>,
    /// Color channels; stored packed to sixteen bits past the baseline
    /// version.
    pub color: Option<[u8; 3]>,
    /// Optional per-block settings.
    pub metadata: Option<Metadata>,
}

/// Per-block editable settings.
#[derive(Debug)]
pub struct Metadata {
    pub toggles: Vec<bool>,
    /// Numeric parameters, as 32-bit word bit patterns.
    pub values: Vec<u32>,
    /// Weak reference groups: each group lists block indices.
    pub fields: Vec<Vec<u16>>,
    pub dropdowns: Vec<i32>,
    /// Four-channel colors, as 32-bit word bit patterns.
    pub colors: Vec<[u32; 4]>,
    pub gradients: Vec<Gradient>,
    /// Three-component vectors, as raw 32-bit words (baseline layout and
    /// ordinary block types).
    pub vectors: Vec<[u32; 3]>,
    /// The same vectors range-quantized (custom block types, versions past
    /// the baseline).
    pub vectors_packed: PackedVectors,
    pub type_settings: TypeSettings,
}

/// Vector components packed as unsigned fractions of a signed-byte range.
#[derive(Debug)]
pub struct PackedVectors {
    pub lo: i8,
    pub hi: i8,
    pub data: Vec<[u16; 3]>,
}

/// Gradient curves: color keys against color times, alpha keys against
/// alpha times; the two curves are keyed independently.
#[derive(Debug)]
pub struct Gradient {
    pub color_keys: Vec<[u32; 4]>,
    pub color_time_keys: Vec<u32>,
    pub alpha_keys: Vec<u32>,
    pub alpha_time_keys: Vec<u32>,
}

/// Settings that only certain block types carry.
#[derive(Debug)]
pub enum TypeSettings {
    /// No advanced settings.
    Empty,
    /// The math block's expression and its connection-to-slot assignment.
    MathBlock { function: String, incoming_connections_order: Vec<u8>, slots: Vec<u8> },
}

/// An assembled structure.
#[derive(Debug)]
pub struct Building {
    pub roots: Vec<Root>,
    pub blocks: Vec<Block>,
}

// ---------------------------------------------------------------------------
// Mathematical views
// ---------------------------------------------------------------------------

#[verifier::ext_equal]
pub ghost struct RootV {
    pub position: (u32, u32, u32),
    pub rotation: (u32, u32, u32),
    pub bounds_center: (u32, u32, u32),
    pub bounds_size: (u32, u32, u32),
}

#[verifier::ext_equal]
pub ghost struct BlockV {
    pub position: (u32, u32, u32),
    pub position_in_bounds: (i16, i16, i16),
    pub rotation: (u16, u16, u16),
    pub id: u8,
    pub root: u16,
    pub name: Option<Seq<char>>,
    pub enable_state: u8,
    pub enable_state_current: u8,
    pub overdriven: bool,
    pub connections: Seq<u16>,
    pub load: Option<u16>,
    pub color: Option<(u8, u8, u8)>,
    pub metadata: Option<MetadataV>,
}

#[verifier::ext_equal]
pub ghost struct MetadataV {
    pub toggles: Seq<bool>,
    pub values: Seq<u32>,
    pub fields: Seq<Seq<u16>>,
    pub dropdowns: Seq<i32>,
    pub colors: Seq<(u32, u32, u32, u32)>,
    pub gradients: Seq<GradientV>,
    pub vectors: Seq<(u32, u32, u32)>,
    pub vectors_packed: PackedVectorsV,
    pub type_settings: TypeSettingsV,
}

#[verifier::ext_equal]
pub ghost struct PackedVectorsV {
    pub lo: i8,
    pub hi: i8,
    pub data: Seq<(u16, u16, u16)>,
}

#[verifier::ext_equal]
pub ghost struct GradientV {
    pub color_keys: Seq<(u32, u32, u32, u32)>,
    pub color_time_keys: Seq<u32>,
    pub alpha_keys: Seq<u32>,
    pub alpha_time_keys: Seq<u32>,
}

#[verifier::ext_equal]
pub ghost enum TypeSettingsV {
    Empty,
    MathBlock { function: Seq<char>, incoming_connections_order: Seq<u8>, slots: Seq<u8> },
}

#[verifier::ext_equal]
pub ghost struct BuildingV {
    pub roots: Seq<RootV>,
    pub blocks: Seq<BlockV>,
}

pub open spec fn triple_u32(a: [u32; 3]) -> (u32, u32, u32) {
    (a[0], a[1], a[2])
}

pub open spec fn triple_i16(a: [i16; 3]) -> (i16, i16, i16) {
    (a[0], a[1], a[2])
}

pub open spec fn triple_u16(a: [u16; 3]) -> (u16, u16, u16) {
    (a[0], a[1], a[2])
}

pub open spec fn quad_u32(a: [u32; 4]) -> (u32, u32, u32, u32) {
    (a[0], a[1], a[2], a[3])
}

impl View for Root {
    type V = RootV;

    open spec fn view(&self) -> RootV {
        RootV {
            position: triple_u32(self.position),
            rotation: triple_u32(self.rotation),
            bounds_center: triple_u32(self.bounds_center),
            bounds_size: triple_u32(self.bounds_size),
        }
    }
}

impl View for Gradient {
    type V = GradientV;

    open spec fn view(&self) -> GradientV {
        GradientV {
            color_keys: self.color_keys@.map_values(|a: [u32; 4]| quad_u32(a)),
            color_time_keys: self.color_time_keys@,
            alpha_keys: self.alpha_keys@,
            alpha_time_keys: self.alpha_time_keys@,
        }
    }
}

impl View for PackedVectors {
    type V = PackedVectorsV;

    open spec fn view(&self) -> PackedVectorsV {
        PackedVectorsV {
            lo: self.lo,
            hi: self.hi,
            data: self.data@.map_values(|a: [u16; 3]| triple_u16(a)),
        }
    }
}

impl View for TypeSettings {
    type V = TypeSettingsV;

    open spec fn view(&self) -> TypeSettingsV {
        match self {
            TypeSettings::Empty => TypeSettingsV::Empty,
            TypeSettings::MathBlock { function, incoming_connections_order, slots } => {
                TypeSettingsV::MathBlock {
                    function: function@,
                    incoming_connections_order: incoming_connections_order@,
                    slots: slots@,
                }
            },
        }
    }
}

impl View for Metadata {
    type V = MetadataV;

    open spec fn view(&self) -> MetadataV {
        MetadataV {
            toggles: self.toggles@,
            values: self.values@,
            fields: self.fields@.map_values(|g: Vec<u16>| g@),
            dropdowns: self.dropdowns@,
            colors: self.colors@.map_values(|a: [u32; 4]| quad_u32(a)),
            gradients: self.gradients@.map_values(|g: Gradient| g@),
            vectors: self.vectors@.map_values(|a: [u32; 3]| triple_u32(a)),
            vectors_packed: self.vectors_packed@,
            type_settings: self.type_settings@,
        }
    }
}

impl View for Block {
    type V = BlockV;

    open spec fn view(&self) -> BlockV {
        BlockV {
            position: triple_u32(self.position),
            position_in_bounds: triple_i16(self.position_in_bounds),
            rotation: triple_u16(self.rotation),
            id: self.id,
            root: self.root,
            name: match self.name {
                Some(n) => Some(n@),
                None => None,
            },
            enable_state: self.enable_state,
            enable_state_current: self.enable_state_current,
            overdriven: self.overdriven,
            connections: self.connections@,
            load: self.load,
            color: match self.color {
                Some(c) => Some((c[0], c[1], c[2])),
                None => None,
            },
            metadata: match self.metadata {
                Some(m) => Some(m@),
                None => None,
            },
        }
    }
}

impl View for Building {
    type V = BuildingV;

    open spec fn view(&self) -> BuildingV {
        BuildingV {
            roots: self.roots@.map_values(|r: Root| r@),
            blocks: self.blocks@.map_values(|b: Block| b@),
        }
    }
}

// ---------------------------------------------------------------------------
// Well-formedness
// ---------------------------------------------------------------------------

/// Blocks are grouped contiguously by owning root, in root order, and every
/// block names a root that exists.  The grouping is load-bearing wire-format
/// state: later layouts store only the groups' boundaries.
pub open spec fn grouped(b: BuildingV) -> bool {
    &&& forall|i: int| 0 <= i < b.blocks.len() ==> (#[trigger] b.blocks[i].root) < b.roots.len()
    &&& forall|i: int, j: int|
        0 <= i <= j < b.blocks.len() ==> #[trigger] b.blocks[i].root <= #[trigger] b.blocks[j].root
}

/// The number of blocks owned by roots `0 .. r + 1`: the partition boundary
/// that the wire stores per root.
pub open spec fn blocks_through(b: BuildingV, r: int) -> int {
    b.blocks.filter(|blk: BlockV| blk.root <= r).len() as int
}

impl Building {
    /// Returns the number of roots and the number of blocks.
    pub fn count_roots_and_blocks(&self) -> (r: [usize; 2])
        ensures
            r[0] == self@.roots.len(),
            r[1] == self@.blocks.len(),
    {
        [self.roots.len(), self.blocks.len()]
    }
}

} // verus!
