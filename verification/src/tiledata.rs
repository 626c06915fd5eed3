//! The tile catalog: per-graphic flag bitsets for land tiles and flag/height
//! pairs for static tiles, decoded from the `tiledata` asset.

use vstd::prelude::*;
use crate::mulreader::{le_u32, mul_read_u32, mul_read_u64, mul_read_u8};

verus! {

pub const FLAG_BACKGROUND: u32 = 0x0000_0001;
pub const FLAG_WEAPON: u32 = 0x0000_0002;
pub const FLAG_TRANSPARENT: u32 = 0x0000_0004;
pub const FLAG_TRANSLUCENT: u32 = 0x0000_0008;
pub const FLAG_WALL: u32 = 0x0000_0010;
pub const FLAG_DAMAGING: u32 = 0x0000_0020;
pub const FLAG_IMPASSABLE: u32 = 0x0000_0040;
pub const FLAG_WET: u32 = 0x0000_0080;
pub const FLAG_UNKNOWN1: u32 = 0x0000_0100;
pub const FLAG_SURFACE: u32 = 0x0000_0200;
pub const FLAG_BRIDGE: u32 = 0x0000_0400;
pub const FLAG_GENERIC: u32 = 0x0000_0800;
pub const FLAG_WINDOW: u32 = 0x0000_1000;
pub const FLAG_NO_SHOOT: u32 = 0x0000_2000;
pub const FLAG_PREFIX_A: u32 = 0x0000_4000;
pub const FLAG_PREFIX_AN: u32 = 0x0000_8000;
pub const FLAG_INTERNAL: u32 = 0x0001_0000;
pub const FLAG_FOLIAGE: u32 = 0x0002_0000;
pub const FLAG_PARTIAL_HUE: u32 = 0x0004_0000;
pub const FLAG_UNKNOWN2: u32 = 0x0008_0000;
pub const FLAG_MAP: u32 = 0x0010_0000;
pub const FLAG_CONTAINER: u32 = 0x0020_0000;
pub const FLAG_WEARABLE: u32 = 0x0040_0000;
pub const FLAG_LIGHT_SOURCE: u32 = 0x0080_0000;
pub const FLAG_ANIMATED: u32 = 0x0100_0000;
pub const FLAG_HOVER_OVER: u32 = 0x0200_0000;
pub const FLAG_NO_DIAGONAL: u32 = 0x0400_0000;
pub const FLAG_ARMOR: u32 = 0x0800_0000;
pub const FLAG_ROOF: u32 = 0x1000_0000;
pub const FLAG_DOOR: u32 = 0x2000_0000;
pub const FLAG_STAIR_BACK: u32 = 0x4000_0000;
pub const FLAG_STAIR_RIGHT: u32 = 0x8000_0000;

/// The per-tile flag bits of the catalog, one variant per bit.
#[derive(Copy, Clone, PartialEq, Eq, Structural, Debug)]
pub enum MulTileFlags {
    Background,
    Weapon,
    Transparent,
    Translucent,
    Wall,
    Damaging,
    Impassable,
    Wet,
    Unknown1,
    Surface,
    Bridge,
    Generic,
    Window,
    NoShoot,
    PrefixA,
    PrefixAn,
    Internal,
    Foliage,
    PartialHue,
    Unknown2,
    MapItem,
    Container,
    Wearable,
    LightSource,
    Animated,
    HoverOver,
    NoDiagonal,
    Armor,
    Roof,
    Door,
    StairBack,
    StairRight,
}

impl MulTileFlags {
    /// The bit this flag occupies in a catalog entry's bitset.
    pub open spec fn bit_spec(self) -> u32 {
        match self {
            MulTileFlags::Background => FLAG_BACKGROUND,
            MulTileFlags::Weapon => FLAG_WEAPON,
            MulTileFlags::Transparent => FLAG_TRANSPARENT,
            MulTileFlags::Translucent => FLAG_TRANSLUCENT,
            MulTileFlags::Wall => FLAG_WALL,
            MulTileFlags::Damaging => FLAG_DAMAGING,
            MulTileFlags::Impassable => FLAG_IMPASSABLE,
            MulTileFlags::Wet => FLAG_WET,
            MulTileFlags::Unknown1 => FLAG_UNKNOWN1,
            MulTileFlags::Surface => FLAG_SURFACE,
            MulTileFlags::Bridge => FLAG_BRIDGE,
            MulTileFlags::Generic => FLAG_GENERIC,
            MulTileFlags::Window => FLAG_WINDOW,
            MulTileFlags::NoShoot => FLAG_NO_SHOOT,
            MulTileFlags::PrefixA => FLAG_PREFIX_A,
            MulTileFlags::PrefixAn => FLAG_PREFIX_AN,
            MulTileFlags::Internal => FLAG_INTERNAL,
            MulTileFlags::Foliage => FLAG_FOLIAGE,
            MulTileFlags::PartialHue => FLAG_PARTIAL_HUE,
            MulTileFlags::Unknown2 => FLAG_UNKNOWN2,
            MulTileFlags::MapItem => FLAG_MAP,
            MulTileFlags::Container => FLAG_CONTAINER,
            MulTileFlags::Wearable => FLAG_WEARABLE,
            MulTileFlags::LightSource => FLAG_LIGHT_SOURCE,
            MulTileFlags::Animated => FLAG_ANIMATED,
            MulTileFlags::HoverOver => FLAG_HOVER_OVER,
            MulTileFlags::NoDiagonal => FLAG_NO_DIAGONAL,
            MulTileFlags::Armor => FLAG_ARMOR,
            MulTileFlags::Roof => FLAG_ROOF,
            MulTileFlags::Door => FLAG_DOOR,
            MulTileFlags::StairBack => FLAG_STAIR_BACK,
            MulTileFlags::StairRight => FLAG_STAIR_RIGHT,
        }
    }

    #[verifier::when_used_as_spec(bit_spec)]
    pub fn bit(self) -> (r: u32)
        ensures
            r == self.bit_spec(),
    {
        match self {
            MulTileFlags::Background => FLAG_BACKGROUND,
            MulTileFlags::Weapon => FLAG_WEAPON,
            MulTileFlags::Transparent => FLAG_TRANSPARENT,
            MulTileFlags::Translucent => FLAG_TRANSLUCENT,
            MulTileFlags::Wall => FLAG_WALL,
            MulTileFlags::Damaging => FLAG_DAMAGING,
            MulTileFlags::Impassable => FLAG_IMPASSABLE,
            MulTileFlags::Wet => FLAG_WET,
            MulTileFlags::Unknown1 => FLAG_UNKNOWN1,
            MulTileFlags::Surface => FLAG_SURFACE,
            MulTileFlags::Bridge => FLAG_BRIDGE,
            MulTileFlags::Generic => FLAG_GENERIC,
            MulTileFlags::Window => FLAG_WINDOW,
            MulTileFlags::NoShoot => FLAG_NO_SHOOT,
            MulTileFlags::PrefixA => FLAG_PREFIX_A,
            MulTileFlags::PrefixAn => FLAG_PREFIX_AN,
            MulTileFlags::Internal => FLAG_INTERNAL,
            MulTileFlags::Foliage => FLAG_FOLIAGE,
            MulTileFlags::PartialHue => FLAG_PARTIAL_HUE,
            MulTileFlags::Unknown2 => FLAG_UNKNOWN2,
            MulTileFlags::MapItem => FLAG_MAP,
            MulTileFlags::Container => FLAG_CONTAINER,
            MulTileFlags::Wearable => FLAG_WEARABLE,
            MulTileFlags::LightSource => FLAG_LIGHT_SOURCE,
            MulTileFlags::Animated => FLAG_ANIMATED,
            MulTileFlags::HoverOver => FLAG_HOVER_OVER,
            MulTileFlags::NoDiagonal => FLAG_NO_DIAGONAL,
            MulTileFlags::Armor => FLAG_ARMOR,
            MulTileFlags::Roof => FLAG_ROOF,
            MulTileFlags::Door => FLAG_DOOR,
            MulTileFlags::StairBack => FLAG_STAIR_BACK,
            MulTileFlags::StairRight => FLAG_STAIR_RIGHT,
        }
    }
}

/// Catalog entry for a land graphic.
#[derive(Copy, Clone, PartialEq, Eq, Structural, Debug)]
pub struct LandTileData {
    pub flags: u32,
}

/// Catalog entry for a static graphic.
#[derive(Copy, Clone, PartialEq, Eq, Structural, Debug)]
pub struct StaticTileData {
    pub flags: u32,
    pub height: u8,
}

/// The tile catalog: flag bitsets for every land graphic and flag/height
/// pairs for every static graphic.
pub struct TileData {
    pub land_tiles: Vec<LandTileData>,
    pub static_tiles: Vec<StaticTileData>,
}

impl TileData {
    pub fn get_land_tile(&self, land_tile: u16) -> (r: &LandTileData)
        requires
            (land_tile as int) < self.land_tiles@.len(),
        ensures
            r == self.land_tiles@[land_tile as int],
    {
        &self.land_tiles[land_tile as usize]
    }

    pub fn get_static_tile(&self, static_tile: u16) -> (r: &StaticTileData)
        requires
            (static_tile as int) < self.static_tiles@.len(),
        ensures
            r == self.static_tiles@[static_tile as int],
    {
        &self.static_tiles[static_tile as usize]
    }
}

/// Number of 4-byte group headers among catalog entries `0..=i` in the
/// classic land layout: one before every 32nd entry.
pub open spec fn land_hdrs_classic(i: int) -> int {
    i / 32 + 1
}

/// The same count in the newer layout: the first header comes before the
/// second entry, later ones before every 32nd.
pub open spec fn land_hdrs_new(i: int) -> int {
    (if i >= 1 {
        1int
    } else {
        0
    }) + (if i >= 32 {
        i / 32
    } else {
        0
    })
}

/// The byte offset of land entry `i`.
pub open spec fn land_entry_off(v7090: bool, i: int) -> int {
    if v7090 {
        30 * i + 4 * land_hdrs_new(i)
    } else {
        26 * i + 4 * land_hdrs_classic(i)
    }
}

/// The size in bytes of the whole land half of the catalog.
pub open spec fn land_section_bytes(v7090: bool) -> int {
    if v7090 {
        493568
    } else {
        428032
    }
}

/// The byte offset of static entry `j`, after the land half.
pub open spec fn static_entry_off(v7090: bool, j: int) -> int {
    land_section_bytes(v7090) + (if v7090 {
        41 * j
    } else {
        37 * j
    }) + 4 * (j / 32 + 1)
}

/// The newer layout is selected by the exact byte size of the asset.
pub open spec fn tiledata_is_new(len: int) -> bool {
    len == 3_188_736
}

/// Stepping an integer division by one.
proof fn lemma_div32_step(i: int)
    requires
        i >= 0,
    ensures
        (i + 1) / 32 == i / 32 + (if (i + 1) % 32 == 0 {
            1int
        } else {
            0
        }),
{
    vstd::arithmetic::div_mod::lemma_fundamental_div_mod(i, 32);
    vstd::arithmetic::div_mod::lemma_mod_bound(i, 32);
    if i % 32 == 31 {
        vstd::arithmetic::div_mod::lemma_fundamental_div_mod_converse_div(i + 1, 32, i / 32 + 1, 0);
        vstd::arithmetic::div_mod::lemma_fundamental_div_mod_converse_mod(i + 1, 32, i / 32 + 1, 0);
    } else {
        vstd::arithmetic::div_mod::lemma_fundamental_div_mod_converse_div(
            i + 1,
            32,
            i / 32,
            i % 32 + 1,
        );
        vstd::arithmetic::div_mod::lemma_fundamental_div_mod_converse_mod(
            i + 1,
            32,
            i / 32,
            i % 32 + 1,
        );
    }
}

impl TileData {
    /// Decodes the catalog: 16384 land entries and then groups of 32
    /// static entries, in whichever of the two layouts the byte size
    /// selects. Fails exactly when the buffer cannot hold the land half.
    #[verifier::rlimit(100)]
    pub fn read(data: &[u8]) -> (r: Option<TileData>)
        ensures
            r.is_some() <==> data@.len() >= land_section_bytes(tiledata_is_new(data@.len() as int)),
            r matches Some(td) ==> {
                let v = tiledata_is_new(data@.len() as int);
                let gs: int = if v {
                    1316
                } else {
                    1188
                };
                let fs: int = if v {
                    8
                } else {
                    4
                };
                &&& td.land_tiles@.len() == 16384
                &&& forall|i: int|
                    0 <= i < 16384 ==> (#[trigger] td.land_tiles@[i]).flags == le_u32(
                        data@,
                        land_entry_off(v, i),
                    )
                &&& td.static_tiles@.len() == 32 * ((data@.len() - land_section_bytes(v)) / gs)
                &&& forall|j: int|
                    0 <= j < td.static_tiles@.len() ==> #[trigger] td.static_tiles@[j]
                        == (StaticTileData {
                        flags: le_u32(data@, static_entry_off(v, j)),
                        height: data@[static_entry_off(v, j) + fs + 12],
                    })
            },
    {
        let n: usize = data.len();
        let v7090: bool = n == 3_188_736;
        let land_bytes: usize = if v7090 {
            493568
        } else {
            428032
        };
        if n < land_bytes {
            return None;
        }
        let rec: usize = if v7090 {
            30
        } else {
            26
        };
        let mut land_tiles: Vec<LandTileData> = Vec::new();
        let mut pos: usize = 0;
        let mut i: usize = 0;
        while i < 16384
            invariant
                i <= 16384,
                n == data@.len(),
                n >= land_bytes,
                land_bytes == land_section_bytes(v7090),
                v7090 == tiledata_is_new(n as int),
                rec == (if v7090 {
                    30int
                } else {
                    26
                }),
                land_tiles@.len() == i,
                pos == (rec as int) * i + 4 * (if i == 0 {
                    0int
                } else if v7090 {
                    land_hdrs_new(i - 1)
                } else {
                    land_hdrs_classic(i - 1)
                }),
                forall|k: int|
                    0 <= k < i ==> (#[trigger] land_tiles@[k]).flags == le_u32(
                        data@,
                        land_entry_off(v7090, k),
                    ),
            decreases 16384 - i,
        {
            proof {
                if i > 0 {
                    lemma_div32_step(i - 1);
                }
                assert((rec as int) * i + 4 * (i / 32 + 1) + rec as int <= (rec as int) * 16384 + 4
                    * 513) by (nonlinear_arith)
                    requires
                        (0 <= i) && (i < 16384) && (rec == 26 || rec == 30) && (i / 32 <= 511) && (0
                            <= i / 32),
                ;
                assert(i / 32 <= 511) by (nonlinear_arith)
                    requires
                        0 <= i < 16384,
                ;
            }
            let header: bool = if v7090 {
                i == 1 || (i > 0 && i % 32 == 0)
            } else {
                i % 32 == 0
            };
            if header {
                pos = pos + 4;
            }
            let flags: u32 = mul_read_u32(data, pos);
            land_tiles.push(LandTileData { flags });
            pos = pos + rec;
            i = i + 1;
        }
        let group: usize = if v7090 {
            1316
        } else {
            1188
        };
        let srec: usize = if v7090 {
            41
        } else {
            37
        };
        let fsz: usize = if v7090 {
            8
        } else {
            4
        };
        let groups: usize = (n - pos) / group;
        let total: usize = groups * 32;
        let mut static_tiles: Vec<StaticTileData> = Vec::new();
        let ghost base = pos as int;
        let mut j: usize = 0;
        while j < total
            invariant
                j <= total,
                n == data@.len(),
                base == land_section_bytes(v7090),
                v7090 == tiledata_is_new(n as int),
                group == (if v7090 {
                    1316int
                } else {
                    1188
                }),
                srec == (if v7090 {
                    41int
                } else {
                    37
                }),
                fsz == (if v7090 {
                    8int
                } else {
                    4
                }),
                group == 4 + 32 * srec,
                groups == (n - base) / (group as int),
                base + (groups as int) * (group as int) <= n,
                total == groups * 32,
                static_tiles@.len() == j,
                pos as int == base + (srec as int) * j + 4 * (if j == 0 {
                    0int
                } else {
                    (j - 1) / 32 + 1
                }),
                forall|k: int|
                    0 <= k < j ==> #[trigger] static_tiles@[k] == (StaticTileData {
                        flags: le_u32(data@, static_entry_off(v7090, k)),
                        height: data@[static_entry_off(v7090, k) + (fsz as int) + 12],
                    }),
            decreases total - j,
        {
            proof {
                if j > 0 {
                    lemma_div32_step(j - 1);
                }
                let ji = j as int;
                let gi = group as int;
                let si = srec as int;
                let gr = groups as int;
                vstd::arithmetic::div_mod::lemma_fundamental_div_mod(ji, 32);
                vstd::arithmetic::div_mod::lemma_mod_bound(ji, 32);
                assert(ji / 32 < gr) by (nonlinear_arith)
                    requires
                        (0 <= ji) && (ji < gr * 32) && (ji == 32 * (ji / 32) + ji % 32) && (0 <= ji
                            % 32 < 32),
                ;
                assert(base + si * ji + 4 * (ji / 32 + 1) + si <= base + gr * gi)
                    by (nonlinear_arith)
                    requires
                        (0 <= ji) && (ji == 32 * (ji / 32) + ji % 32) && (0 <= ji % 32 < 32) && (ji
                            / 32 <= gr - 1) && (gi == 4 + 32 * si) && (si == 41 || si == 37) && (0
                            <= base),
                ;
            }
            if j % 32 == 0 {
                pos = pos + 4;
            }
            let flags: u32 = mul_read_u32(data, pos);
            let height: u8 = mul_read_u8(data, pos + fsz + 12);
            static_tiles.push(StaticTileData { flags, height });
            pos = pos + srec;
            j = j + 1;
        }
        Some(TileData { land_tiles, static_tiles })
    }
}

} // verus!
