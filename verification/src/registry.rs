//! Block registry.
//!
//! The single source of truth for what each [`BlockId`] *is*: its name, whether
//! it is solid, the light it gives, and which texture-array layer each of its
//! six faces uses.
//!
//! ## Stable ids
//!
//! Saved worlds store the numeric ids, so they never change. New blocks take
//! higher ids. Air is always 0.
//!
//! ## Face order
//!
//! `0:+X (east) 1:-X (west) 2:+Y (top) 3:-Y (bottom) 4:+Z (south) 5:-Z (north)`,
//! as in meshing.

use crate::block::BlockId;
use vstd::prelude::*;

verus! {

pub const POS_X: usize = 0;

pub const NEG_X: usize = 1;

pub const POS_Y: usize = 2;

pub const NEG_Y: usize = 3;

pub const POS_Z: usize = 4;

pub const NEG_Z: usize = 5;

/// Definition of one block type.
#[derive(Debug, Clone, Copy)]
pub struct BlockType {
    /// Human-readable name.
    pub name: &'static str,
    /// Whether this block occludes neighbour faces and can be targeted.
    pub solid: bool,
    /// Texture-array layer index for each of the six faces.
    pub faces: [u32; 6],
    /// Flat colour, in hundredths per channel.
    pub color: [u32; 3],
    /// Light the block gives, 0 for most.
    pub emission: u8,
}

/// What a block type is, apart from its representation.
#[verifier::ext_equal]
pub struct Kind {
    pub name: Seq<char>,
    pub solid: bool,
    pub faces: Seq<u32>,
    pub color: Seq<u32>,
    pub emission: u8,
}

impl View for BlockType {
    type V = Kind;

    open spec fn view(&self) -> Kind {
        Kind {
            name: self.name@,
            solid: self.solid,
            faces: self.faces@,
            color: self.color@,
            emission: self.emission,
        }
    }
}

/// A solid kind with layer `top` on the top face, `bottom` on the bottom one
/// and `side` on the others.
pub open spec fn solid_kind(
    name: Seq<char>,
    top: u32,
    side: u32,
    bottom: u32,
    color: Seq<u32>,
    emission: u8,
) -> Kind {
    Kind {
        name,
        solid: true,
        faces: seq![side, side, top, bottom, side, side],
        color,
        emission,
    }
}

/// The empty kind.
pub open spec fn air_kind() -> Kind {
    Kind {
        name: "air"@,
        solid: false,
        faces: seq![0u32, 0, 0, 0, 0, 0],
        color: seq![0u32, 0, 0],
        emission: 0,
    }
}

/// The starter set, by id.
pub open spec fn default_kind(id: int) -> Kind {
    if id == 1 {
        solid_kind("stone"@, L_STONE, L_STONE, L_STONE, seq![55u32, 55, 58], 0)
    } else if id == 2 {
        solid_kind("dirt"@, L_DIRT, L_DIRT, L_DIRT, seq![55u32, 40, 27], 0)
    } else if id == 3 {
        solid_kind("grass"@, L_GRASS_TOP, L_GRASS_SIDE, L_DIRT, seq![33u32, 62, 28], 0)
    } else if id == 4 {
        solid_kind("sand"@, L_SAND, L_SAND, L_SAND, seq![82u32, 76, 55], 0)
    } else if id == 5 {
        solid_kind("cobblestone"@, L_COBBLE, L_COBBLE, L_COBBLE, seq![50u32, 50, 52], 0)
    } else if id == 6 {
        solid_kind("planks"@, L_PLANKS, L_PLANKS, L_PLANKS, seq![62u32, 46, 28], 0)
    } else if id == 7 {
        solid_kind("lamp"@, L_PLANKS, L_PLANKS, L_PLANKS, seq![95u32, 85, 60], LAMP_EMISSION)
    } else {
        air_kind()
    }
}

impl BlockType {
    /// A block with the same texture layer on all six faces.
    fn uniform(name: &'static str, layer: u32, color: [u32; 3]) -> (r: Self)
        ensures
            r@ == solid_kind(name@, layer, layer, layer, color@, 0),
    {
        Self::tsb(name, layer, layer, layer, color)
    }

    /// A block with distinct top / side / bottom layers.
    fn tsb(name: &'static str, top: u32, side: u32, bottom: u32, color: [u32; 3]) -> (r: Self)
        ensures
            r@ == solid_kind(name@, top, side, bottom, color@, 0),
    {
        let r = BlockType {
            name,
            solid: true,
            faces: [side, side, top, bottom, side, side],
            color,
            emission: 0,
        };
        assert(r@ =~= solid_kind(name@, top, side, bottom, color@, 0));
        r
    }

    fn air() -> (r: Self)
        ensures
            r@ == air_kind(),
    {
        let r = BlockType {
            name: "air",
            solid: false,
            faces: [0, 0, 0, 0, 0, 0],
            color: [0, 0, 0],
            emission: 0,
        };
        assert(r@ =~= air_kind());
        r
    }

    fn lamp() -> (r: Self)
        ensures
            r@ == default_kind(7),
    {
        let r = BlockType {
            name: "lamp",
            solid: true,
            faces: [L_PLANKS, L_PLANKS, L_PLANKS, L_PLANKS, L_PLANKS, L_PLANKS],
            color: [95, 85, 60],
            emission: LAMP_EMISSION,
        };
        assert(r@ =~= default_kind(7));
        r
    }
}

/// Light a lamp gives.
pub const LAMP_EMISSION: u8 = 14;

#[verifier::allow_in_spec]
pub fn stone() -> BlockId
    returns
        BlockId(1u16),
{
    BlockId(1)
}

#[verifier::allow_in_spec]
pub fn dirt() -> BlockId
    returns
        BlockId(2u16),
{
    BlockId(2)
}

#[verifier::allow_in_spec]
pub fn grass() -> BlockId
    returns
        BlockId(3u16),
{
    BlockId(3)
}

#[verifier::allow_in_spec]
pub fn sand() -> BlockId
    returns
        BlockId(4u16),
{
    BlockId(4)
}

#[verifier::allow_in_spec]
pub fn cobblestone() -> BlockId
    returns
        BlockId(5u16),
{
    BlockId(5)
}

#[verifier::allow_in_spec]
pub fn planks() -> BlockId
    returns
        BlockId(6u16),
{
    BlockId(6)
}

/// A solid block that gives light.
#[verifier::allow_in_spec]
pub fn lamp() -> BlockId
    returns
        BlockId(7u16),
{
    BlockId(7)
}

pub const L_STONE: u32 = 0;

pub const L_DIRT: u32 = 1;

pub const L_GRASS_TOP: u32 = 2;

pub const L_GRASS_SIDE: u32 = 3;

pub const L_SAND: u32 = 4;

pub const L_COBBLE: u32 = 5;

pub const L_PLANKS: u32 = 6;

/// Number of texture-array layers the default registry references.
pub const DEFAULT_LAYER_COUNT: u32 = 7;

/// The registry of all known block types, indexed by `BlockId`.
pub struct BlockRegistry {
    types: Vec<BlockType>,
}

impl BlockRegistry {
    #[verifier::type_invariant]
    spec fn inv(self) -> bool {
        1 <= self.types.len() <= 65536
    }

    /// How many kinds there are; their ids are the numbers below it.
    pub closed spec fn count(self) -> int {
        self.types.len() as int
    }

    /// The kind of a block. Unknown ids read as the first kind, air.
    pub closed spec fn kind(self, id: BlockId) -> Kind {
        if (id.0 as int) < self.types.len() {
            self.types[id.0 as int]@
        } else {
            self.types[0]@
        }
    }

    /// A block occludes.
    pub open spec fn solid(self, id: BlockId) -> bool {
        self.kind(id).solid
    }

    /// A block's light.
    pub open spec fn emits(self, id: BlockId) -> u8 {
        self.kind(id).emission
    }

    /// The default starter registry. Indices are dense and match the ids.
    pub fn default_set() -> (r: Self)
        ensures
            r.count() == 8,
            forall|id: BlockId| #[trigger] r.kind(id) == default_kind(id.0 as int),
    {
        let types: Vec<BlockType> = vec![
            BlockType::air(),
            BlockType::uniform("stone", L_STONE, [55, 55, 58]),
            BlockType::uniform("dirt", L_DIRT, [55, 40, 27]),
            BlockType::tsb("grass", L_GRASS_TOP, L_GRASS_SIDE, L_DIRT, [33, 62, 28]),
            BlockType::uniform("sand", L_SAND, [82, 76, 55]),
            BlockType::uniform("cobblestone", L_COBBLE, [50, 50, 52]),
            BlockType::uniform("planks", L_PLANKS, [62, 46, 28]),
            BlockType::lamp(),
        ];
        let r = BlockRegistry { types };
        proof {
            assert(types[1]@ =~= default_kind(1));
            assert(types[2]@ =~= default_kind(2));
            assert(types[3]@ =~= default_kind(3));
            assert(types[4]@ =~= default_kind(4));
            assert(types[5]@ =~= default_kind(5));
            assert(types[6]@ =~= default_kind(6));
        }
        r
    }

    /// Look up a block type. Unknown ids resolve to air, so a saved world
    /// naming a removed id reads as empty there.
    #[inline]
    pub fn get(&self, id: BlockId) -> (r: &BlockType)
        ensures
            r@ == self.kind(id),
    {
        proof {
            use_type_invariant(self);
        }
        let i: usize = id.0 as usize;
        if i < self.types.len() {
            &self.types[i]
        } else {
            &self.types[0]
        }
    }

    /// Whether a block occludes / is targetable. Air is not solid.
    #[inline]
    pub fn is_solid(&self, id: BlockId) -> (r: bool)
        ensures
            r == self.solid(id),
    {
        self.get(id).solid
    }

    /// Light the block gives.
    #[inline]
    pub fn emission(&self, id: BlockId) -> (r: u8)
        ensures
            r == self.emits(id),
    {
        self.get(id).emission
    }

    /// Texture-array layer for a given face.
    #[inline]
    pub fn face_layer(&self, id: BlockId, face_index: usize) -> (r: u32)
        requires
            face_index < 6,
        ensures
            r == self.kind(id).faces[face_index as int],
    {
        self.get(id).faces[face_index]
    }

    /// Flat colour of a block, in hundredths per channel.
    #[inline]
    pub fn color(&self, id: BlockId) -> (r: [u32; 3])
        ensures
            r@ == self.kind(id).color,
    {
        self.get(id).color
    }

    /// A block the player can pick for placing: solid, and no light source.
    pub open spec fn can_place(self, id: BlockId) -> bool {
        self.solid(id) && self.emits(id) == 0
    }

    /// All placeable block ids, for block selection, in ascending order.
    pub fn placeable(&self) -> (r: Vec<BlockId>)
        ensures
            r@ == Seq::new(self.count() as nat, |i: int| BlockId(i as u16)).filter(
                |id: BlockId| self.can_place(id),
            ),
            forall|id: BlockId| #[trigger]
                r@.contains(id) <==> id.0 < self.count() && self.can_place(id),
            r.len() <= 65536,
    {
        proof {
            use_type_invariant(self);
        }
        let ghost ids = Seq::new(self.count() as nat, |i: int| BlockId(i as u16));
        let ghost pick = |id: BlockId| self.can_place(id);
        proof {
            ids.lemma_filter_len(pick);
        }
        let mut out: Vec<BlockId> = Vec::new();
        let mut i: usize = 0;
        assert(ids.take(0).filter(pick) =~= Seq::<BlockId>::empty()) by {
            reveal(Seq::filter);
        }
        while i < self.types.len()
            invariant
                i <= self.types.len() <= 65536,
                ids == Seq::new(self.count() as nat, |i: int| BlockId(i as u16)),
                pick == (|id: BlockId| self.can_place(id)),
                out@ == ids.take(i as int).filter(pick),
            decreases self.types.len() - i,
        {
            let id = BlockId(i as u16);
            proof {
                reveal(Seq::filter);
                assert(ids.take(i + 1).drop_last() =~= ids.take(i as int));
                assert(ids.take(i + 1).last() == id);
            }
            if self.is_solid(id) && self.emission(id) == 0 {
                out.push(id);
            }
            i += 1;
        }
        assert(ids.take(i as int) =~= ids);
        assert forall|id: BlockId| #[trigger] out@.contains(id) <==> id.0 < self.count()
            && self.can_place(id) by {
            if out@.contains(id) {
                ids.lemma_filter_contains_rev(pick, id);
                let k = choose|k: int| 0 <= k < out.len() && out@[k] == id;
                ids.lemma_filter_pred(pick, k);
            }
            if id.0 < self.count() && self.can_place(id) {
                assert(ids[id.0 as int] == id);
                ids.lemma_filter_contains(pick, id.0 as int);
            }
        }
        out
    }

    pub fn len(&self) -> (r: usize)
        ensures
            r == self.count(),
    {
        self.types.len()
    }

    pub fn is_empty(&self) -> (r: bool)
        ensures
            r == (self.count() == 0),
    {
        self.types.len() == 0
    }
}

impl Default for BlockRegistry {
    fn default() -> (r: Self)
        ensures
            r.count() == 8,
            forall|id: BlockId| #[trigger] r.kind(id) == default_kind(id.0 as int),
    {
        Self::default_set()
    }
}

/// A kind shows its top layer on the top face, its bottom layer on the bottom one
/// and its side layer on the four others.
pub proof fn lemma_faces_of_kind(
    name: Seq<char>,
    top: u32,
    side: u32,
    bottom: u32,
    color: Seq<u32>,
    emission: u8,
)
    ensures
        ({
            let k = solid_kind(name, top, side, bottom, color, emission);
            &&& k.faces.len() == 6
            &&& k.faces[POS_Y as int] == top && k.faces[2] == top
            &&& k.faces[NEG_Y as int] == bottom && k.faces[3] == bottom
            &&& k.faces[POS_X as int] == side && k.faces[NEG_X as int] == side
            &&& k.faces[POS_Z as int] == side && k.faces[NEG_Z as int] == side
            &&& k.solid && k.name == name && k.color == color && k.emission == emission
        }),
{
}

/// Of the starter set, everything but air is solid and only the lamp glows. Ids
/// that are not in it are air. Every layer that is shown exists, grass shows grass
/// on top, dirt below and its own side, and every other kind looks the same all
/// round.
pub proof fn lemma_starter_set(id: int, face: int)
    requires
        0 <= face < 6,
    ensures
        ({
            let k = default_kind(id);
            &&& k.solid <==> 1 <= id <= 7
            &&& k.emission > 0 <==> id == 7
            &&& k.emission == 0 || k.emission == 14
            &&& k.faces.len() == 6 && k.color.len() == 3
            &&& k.faces[face] < DEFAULT_LAYER_COUNT
            &&& id != 3 ==> k.faces[face] == k.faces[0]
            &&& k.color[0] <= 100 && k.color[1] <= 100 && k.color[2] <= 100
        }),
        seq![L_STONE, L_DIRT, L_GRASS_TOP, L_GRASS_SIDE, L_SAND, L_COBBLE, L_PLANKS]
            == seq![0u32, 1, 2, 3, 4, 5, 6],
        DEFAULT_LAYER_COUNT == 7,
        default_kind(3).faces[2] == L_GRASS_TOP,
        default_kind(3).faces[3] == default_kind(2).faces[face],
        face != 2 && face != 3 ==> default_kind(3).faces[face] == L_GRASS_SIDE,
        default_kind(1).faces[0] == L_STONE && default_kind(2).faces[0] == L_DIRT,
        default_kind(4).faces[0] == L_SAND && default_kind(5).faces[0] == L_COBBLE,
        default_kind(6).faces[0] == L_PLANKS && default_kind(7).faces[0] == default_kind(6).faces[0],
        default_kind(1).name == "stone"@ && default_kind(2).name == "dirt"@,
        default_kind(3).name == "grass"@ && default_kind(4).name == "sand"@,
        default_kind(5).name == "cobblestone"@ && default_kind(6).name == "planks"@,
        default_kind(7).name == "lamp"@ && default_kind(0).name == "air"@,
        default_kind(1).color == seq![55u32, 55, 58] && default_kind(2).color == seq![55u32, 40, 27],
        default_kind(3).color == seq![33u32, 62, 28] && default_kind(4).color == seq![82u32, 76, 55],
        default_kind(5).color == seq![50u32, 50, 52] && default_kind(6).color == seq![62u32, 46, 28],
        default_kind(7).color == seq![95u32, 85, 60],
{
}

/// A block can be picked for placing iff it is solid and gives no light: air and
/// lamps cannot.
pub proof fn lemma_what_can_be_placed(registry: BlockRegistry, id: BlockId)
    ensures
        registry.can_place(id) <==> registry.kind(id).solid && registry.kind(id).emission == 0,
        registry.solid(id) == registry.kind(id).solid,
        registry.emits(id) == registry.kind(id).emission,
{
}

} // verus!
