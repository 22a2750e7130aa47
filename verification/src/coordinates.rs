use vstd::prelude::*;
use vstd::arithmetic::power2::pow2;
use vstd::bits::lemma_u32_shl_is_mul;
use vstd::bits::lemma_u32_pow2_no_overflow;

verus! {

/// A cube-sphere avoids a singularity at either pole and gives the planet six
/// identical quadtree roots.
#[derive(Debug, Clone, Copy, PartialEq, Eq, Hash, Structural)]
pub enum CubeFace {
    PositiveX,
    NegativeX,
    PositiveY,
    NegativeY,
    PositiveZ,
    NegativeZ,
}

impl CubeFace {
    /// Position of the face in declaration order (the order tiles sort by).
    pub open spec fn rank(self) -> int {
        match self {
            CubeFace::PositiveX => 0,
            CubeFace::NegativeX => 1,
            CubeFace::PositiveY => 2,
            CubeFace::NegativeY => 3,
            CubeFace::PositiveZ => 4,
            CubeFace::NegativeZ => 5,
        }
    }

    pub fn ordinal(self) -> (r: u8)
        ensures
            r == self.rank(),
    {
        match self {
            CubeFace::PositiveX => 0,
            CubeFace::NegativeX => 1,
            CubeFace::PositiveY => 2,
            CubeFace::NegativeY => 3,
            CubeFace::PositiveZ => 4,
            CubeFace::NegativeZ => 5,
        }
    }
}

/// Stable address of a terrain tile. `x` and `y` are in `0..2^level`.
#[derive(Debug, Clone, Copy, PartialEq, Eq, Hash, Structural)]
pub struct TileId {
    pub face: CubeFace,
    pub level: u8,
    pub x: u32,
    pub y: u32,
}

/// Number of tiles along one edge of a face at `level`.
pub open spec fn face_width(level: nat) -> nat {
    pow2(level)
}

impl TileId {
    /// The address lies on its level's grid, and that grid fits `u32`.
    pub open spec fn is_valid(self) -> bool {
        &&& self.level < 32
        &&& self.x < face_width(self.level as nat)
        &&& self.y < face_width(self.level as nat)
    }

    pub open spec fn parent_of(self) -> Option<TileId> {
        if self.level > 0 {
            Some(TileId { face: self.face, level: (self.level - 1) as u8, x: self.x / 2, y: self.y / 2 })
        } else {
            None
        }
    }

    /// The four quadrants one level down, in row-major order.
    pub open spec fn children_of(self) -> Seq<TileId> {
        let level = (self.level + 1) as u8;
        let x = (self.x * 2) as u32;
        let y = (self.y * 2) as u32;
        seq![
            TileId { face: self.face, level, x, y },
            TileId { face: self.face, level, x: (x + 1) as u32, y },
            TileId { face: self.face, level, x, y: (y + 1) as u32 },
            TileId { face: self.face, level, x: (x + 1) as u32, y: (y + 1) as u32 },
        ]
    }

    /// Whether `children_of` stays inside the integer ranges of the fields.
    pub open spec fn children_fit(self) -> bool {
        self.level < 255 && self.x < 0x8000_0000 && self.y < 0x8000_0000
    }

    /// Ordering of tile addresses: by face, then level, then `x`, then `y`.
    pub open spec fn precedes(self, other: TileId) -> bool {
        ||| self.face.rank() < other.face.rank()
        ||| self.face.rank() == other.face.rank() && self.level < other.level
        ||| self.face.rank() == other.face.rank() && self.level == other.level && self.x < other.x
        ||| self.face.rank() == other.face.rank() && self.level == other.level && self.x == other.x
            && self.y < other.y
    }

    /// The root tile used by the single-face editor.
    pub fn root() -> (r: TileId)
        ensures
            r == (TileId { face: CubeFace::PositiveY, level: 0, x: 0, y: 0 }),
            r.is_valid(),
    {
        proof {
            vstd::arithmetic::power2::lemma2_to64();
        }
        TileId { face: CubeFace::PositiveY, level: 0, x: 0, y: 0 }
    }

    pub fn new(face: CubeFace, level: u8, x: u32, y: u32) -> (r: Option<TileId>)
        ensures
            r == (if (TileId { face, level, x, y }).is_valid() {
                Some(TileId { face, level, x, y })
            } else {
                None
            }),
    {
        if level >= 32 {
            return None;
        }
        let shift = level as u32;
        proof {
            lemma_u32_pow2_no_overflow(shift as nat);
            lemma_u32_shl_is_mul(1u32, shift);
        }
        let width: u32 = 1u32 << shift;
        if x < width && y < width {
            Some(TileId { face, level, x, y })
        } else {
            None
        }
    }

    pub fn width(self) -> (r: u32)
        requires
            self.level < 32,
        ensures
            r == face_width(self.level as nat),
    {
        let shift = self.level as u32;
        proof {
            lemma_u32_pow2_no_overflow(shift as nat);
            lemma_u32_shl_is_mul(1u32, shift);
        }
        1u32 << shift
    }

    pub fn parent(self) -> (r: Option<TileId>)
        ensures
            r == self.parent_of(),
    {
        if self.level > 0 {
            Some(TileId { face: self.face, level: self.level - 1, x: self.x / 2, y: self.y / 2 })
        } else {
            None
        }
    }

    pub fn children(self) -> (r: [TileId; 4])
        requires
            self.children_fit(),
        ensures
            r@ == self.children_of(),
    {
        let level = self.level + 1;
        let x = self.x * 2;
        let y = self.y * 2;
        let r = [
            TileId { face: self.face, level, x, y },
            TileId { face: self.face, level, x: x + 1, y },
            TileId { face: self.face, level, x, y: y + 1 },
            TileId { face: self.face, level, x: x + 1, y: y + 1 },
        ];
        assert(r@ =~= self.children_of());
        r
    }

    /// Executable form of `precedes`.
    pub fn is_before(&self, other: &TileId) -> (r: bool)
        ensures
            r == self.precedes(*other),
    {
        let a = self.face.ordinal();
        let b = other.face.ordinal();
        if a != b {
            a < b
        } else if self.level != other.level {
            self.level < other.level
        } else if self.x != other.x {
            self.x < other.x
        } else {
            self.y < other.y
        }
    }

    pub fn same(&self, other: &TileId) -> (r: bool)
        ensures
            r == (*self == *other),
    {
        self.face.ordinal() == other.face.ordinal() && self.level == other.level && self.x == other.x
            && self.y == other.y
    }
}

/// The tile order is total: of two different tiles exactly one comes first,
/// and no tile comes before itself.
pub proof fn lemma_precedes_total(a: TileId, b: TileId)
    ensures
        a.precedes(b) || b.precedes(a) || a == b,
        !(a.precedes(b) && b.precedes(a)),
        !a.precedes(a),
{
}

/// The tile order is transitive.
pub proof fn lemma_precedes_transitive(a: TileId, b: TileId, c: TileId)
    requires
        a.precedes(b),
        b.precedes(c),
    ensures
        a.precedes(c),
{
}

/// A tile is one of the four children of its parent.
pub proof fn lemma_parent_children_round_trip(tile: TileId)
    requires
        tile.is_valid(),
        tile.level > 0,
    ensures
        tile.parent_of() is Some,
        tile.parent_of().unwrap().is_valid(),
        tile.parent_of().unwrap().children_fit(),
        tile.parent_of().unwrap().children_of().contains(tile),
{
    let p = tile.parent_of().unwrap();
    vstd::arithmetic::power2::lemma_pow2_adds((tile.level - 1) as nat, 1);
    vstd::arithmetic::power2::lemma2_to64();
    vstd::arithmetic::power2::lemma_pow2_strictly_increases((tile.level - 1) as nat, 31);
    assert(pow2(1) == 2) by { vstd::arithmetic::power2::lemma2_to64(); }
    let c = p.children_of();
    let i: int = (tile.x % 2) + 2 * (tile.y % 2);
    assert(c[i] == tile);
}

/// Every child of a tile names that tile as its parent, and children of a valid
/// tile are valid.
pub proof fn lemma_children_parent_round_trip(tile: TileId, i: int)
    requires
        tile.is_valid(),
        tile.level < 31,
        0 <= i < 4,
    ensures
        tile.children_fit(),
        tile.children_of()[i].parent_of() == Some(tile),
        tile.children_of()[i].is_valid(),
{
    vstd::arithmetic::power2::lemma_pow2_adds(tile.level as nat, 1);
    vstd::arithmetic::power2::lemma2_to64();
    vstd::arithmetic::power2::lemma_pow2_strictly_increases(tile.level as nat, 31);
}

/// Marker for the capability that owns the planet's spatial reference.
pub struct PlanetPlugin;

/// The planet's size: radius in metres as the bit pattern of an `f64`, sea
/// level in metres as the bit pattern of an `f32`.
#[derive(Debug, Clone, Copy, PartialEq, Eq, Structural)]
pub struct PlanetSpec {
    pub radius_m: u64,
    pub sea_level_m: u32,
}

impl Default for PlanetSpec {
    /// A radius of 6 000 000 m and sea level at 0 m.
    fn default() -> (r: PlanetSpec)
        ensures
            r.radius_m == 0x4156_e360_0000_0000,
            r.sea_level_m == 0,
    {
        PlanetSpec { radius_m: 0x4156_e360_0000_0000, sea_level_m: 0 }
    }
}

/// A point on the planet: a cube face, the face coordinates `u` and `v` in
/// `[-1, 1]` as bit patterns of `f64` values, and the altitude in metres as
/// the bit pattern of an `f32`.
#[derive(Debug, Clone, Copy, PartialEq, Eq, Structural)]
pub struct SurfacePosition {
    pub face: CubeFace,
    pub u: u64,
    pub v: u64,
    pub altitude_m: u32,
}

} // verus!
