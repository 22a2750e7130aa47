//! Semantic layers: definitions with their region palettes, and packed
//! categorical masks painted per tile.
use vstd::prelude::*;
use crate::coordinates::TileId;
use crate::protocol::{LayerId, RegionCode};
use crate::text::{trim, trimmed};
use crate::history::{record_if_present, records, EditHistory, UndoAction};
use crate::edits::AtlasUndo;

verus! {

/// What a layer holds. The bounds of a scalar layer are the bit patterns of
/// their `f32` values.
#[derive(Debug, Clone, Copy, PartialEq, Eq, Structural)]
pub enum LayerKind {
    Categorical,
    Scalar { minimum: u32, maximum: u32 },
    BinaryMask,
    Derived,
}

/// One named, coloured region of a categorical layer.
#[derive(Debug, Clone)]
pub struct RegionDefinition {
    pub code: RegionCode,
    pub name: String,
    pub color_rgba: [u8; 4],
}

/// Bit pattern of the default layer opacity, `0.65_f32`.
pub const DEFAULT_OPACITY_BITS: u32 = 0x3F26_6666;

/// A layer and its palette. `opacity` is the bit pattern of an `f32` in
/// `0.0..=1.0`. The palette is keyed by region code: regions are kept in
/// strictly ascending code order.
#[derive(Debug)]
pub struct LayerDefinition {
    pub id: LayerId,
    pub name: String,
    pub kind: LayerKind,
    pub visible: bool,
    pub locked: bool,
    pub opacity: u32,
    pub regions: Vec<RegionDefinition>,
    pub next_region_code: u16,
}

pub open spec fn codes_ascending(s: Seq<RegionDefinition>) -> bool {
    forall|i: int, j: int| 0 <= i < j < s.len() ==> (#[trigger] s[i]).code.0 < (#[trigger] s[j]).code.0
}

/// Number of leading regions whose code is below `code`.
pub open spec fn code_pos(s: Seq<RegionDefinition>, code: u16) -> nat
    decreases s.len(),
{
    if s.len() > 0 && s[0].code.0 < code {
        1 + code_pos(s.drop_first(), code)
    } else {
        0
    }
}

/// The palette after storing `region` under its code, replacing any region
/// that had that code.
pub open spec fn with_region(s: Seq<RegionDefinition>, region: RegionDefinition) -> Seq<RegionDefinition> {
    let p = code_pos(s, region.code.0) as int;
    if p < s.len() && s[p].code == region.code {
        s.update(p, region)
    } else {
        s.insert(p, region)
    }
}

proof fn lemma_code_pos(s: Seq<RegionDefinition>, code: u16)
    requires
        codes_ascending(s),
    ensures
        code_pos(s, code) <= s.len(),
        forall|j: int| 0 <= j < code_pos(s, code) ==> (#[trigger] s[j]).code.0 < code,
        code_pos(s, code) < s.len() ==> s[code_pos(s, code) as int].code.0 >= code,
    decreases s.len(),
{
    if s.len() > 0 && s[0].code.0 < code {
        let t = s.drop_first();
        assert forall|a: int, b: int| 0 <= a < b < t.len() implies (#[trigger] t[a]).code.0 < (
        #[trigger] t[b]).code.0 by {
            assert(t[a] == s[a + 1] && t[b] == s[b + 1]);
        }
        lemma_code_pos(t, code);
        assert forall|j: int| 0 <= j < code_pos(s, code) implies (#[trigger] s[j]).code.0 < code by {
            if j > 0 {
                assert(s[j] == t[j - 1]);
            }
        }
        if code_pos(s, code) < s.len() {
            assert(s[code_pos(s, code) as int] == t[code_pos(t, code) as int]);
        }
    }
}

proof fn lemma_with_region_ascending(s: Seq<RegionDefinition>, region: RegionDefinition)
    requires
        codes_ascending(s),
    ensures
        codes_ascending(with_region(s, region)),
{
    lemma_code_pos(s, region.code.0);
    let p = code_pos(s, region.code.0) as int;
    let n = with_region(s, region);
    if p < s.len() && s[p].code == region.code {
        assert forall|i: int, j: int| 0 <= i < j < n.len() implies (#[trigger] n[i]).code.0 < (
        #[trigger] n[j]).code.0 by {
            assert(n[i].code == s[i].code && n[j].code == s[j].code);
        }
    } else {
        assert forall|i: int, j: int| 0 <= i < j < n.len() implies (#[trigger] n[i]).code.0 < (
        #[trigger] n[j]).code.0 by {
            if j < p {
                assert(n[i] == s[i] && n[j] == s[j]);
            } else if j == p {
                assert(n[i] == s[i]);
            } else if i == p {
                assert(n[j] == s[j - 1]);
                assert(s[p].code.0 <= s[j - 1].code.0);
            } else if i < p {
                assert(n[i] == s[i] && n[j] == s[j - 1]);
            } else {
                assert(n[i] == s[i - 1] && n[j] == s[j - 1]);
            }
        }
    }
}

/// A palette built from regions stored one after another under their codes,
/// as a map keyed by code stores them: a later region with a code already
/// present replaces the earlier one.
pub open spec fn palette_of(regions: Seq<RegionDefinition>) -> Seq<RegionDefinition>
    decreases regions.len(),
{
    if regions.len() == 0 {
        seq![]
    } else {
        with_region(palette_of(regions.drop_last()), regions.last())
    }
}

/// Stores `region` under its code in a palette kept in code order.
fn store_region(palette: &mut Vec<RegionDefinition>, region: RegionDefinition)
    requires
        codes_ascending(old(palette)@),
    ensures
        final(palette)@ == with_region(old(palette)@, region),
        codes_ascending(final(palette)@),
{
    proof {
        lemma_code_pos(palette@, region.code.0);
        lemma_with_region_ascending(palette@, region);
    }
    let code = region.code.0;
    let mut i: usize = 0;
    while i < palette.len() && palette[i].code.0 < code
        invariant
            i <= palette@.len(),
            codes_ascending(palette@),
            palette@ == old(palette)@,
            forall|j: int| 0 <= j < i ==> (#[trigger] palette@[j]).code.0 < code,
        decreases palette.len() - i,
    {
        i = i + 1;
    }
    proof {
        assert(i == code_pos(palette@, code)) by {
            let p = code_pos(palette@, code) as int;
            if i < p {
                assert(palette@[i as int].code.0 < code);
            } else if i > p {
                assert(palette@[p].code.0 < code);
            }
        }
    }
    if i < palette.len() && palette[i].code.0 == code {
        palette.set(i, region);
    } else {
        palette.insert(i, region);
    }
}

/// The palette of regions read in any order: each stored under its code in
/// turn, so the result is in code order and a repeated code keeps the last
/// region read.
pub fn palette_from_regions(regions: Vec<RegionDefinition>) -> (r: Vec<RegionDefinition>)
    ensures
        r@ == palette_of(regions@),
        codes_ascending(r@),
{
    let ghost all = regions@;
    let n = regions.len();
    let mut palette: Vec<RegionDefinition> = Vec::new();
    let mut i: usize = 0;
    for region in it: regions.into_iter()
        invariant
            it.seq() == all,
            all.len() == n,
            i == it.index(),
            palette@ == palette_of(all.take(i as int)),
            codes_ascending(palette@),
    {
        assert(all.take(i + 1).drop_last() =~= all.take(i as int));
        assert(all.take(i + 1).last() == region);
        store_region(&mut palette, region);
        i = i + 1;
    }
    assert(all.take(all.len() as int) =~= all);
    palette
}

impl LayerDefinition {
    /// Regions in strictly ascending code order.
    pub open spec fn wf(&self) -> bool {
        codes_ascending(self.regions@)
    }

    /// Whether the palette is in strictly ascending code order.
    pub fn palette_ordered(&self) -> (r: bool)
        ensures
            r == self.wf(),
    {
        let mut i: usize = 1;
        while i < self.regions.len()
            invariant
                1 <= i,
                i <= self.regions@.len() || self.regions@.len() == 0,
                forall|a: int, b: int| 0 <= a < b < i && b < self.regions@.len() ==> (#[trigger] self.regions@[a]).code.0
                    < (#[trigger] self.regions@[b]).code.0,
            decreases self.regions.len() - i,
        {
            if self.regions[i - 1].code.0 >= self.regions[i].code.0 {
                return false;
            }
            proof {
                assert forall|a: int, b: int| 0 <= a < b < i + 1 && b < self.regions@.len() implies (
                #[trigger] self.regions@[a]).code.0 < (#[trigger] self.regions@[b]).code.0 by {
                    if b == i && a < i - 1 {
                        assert(self.regions@[a].code.0 < self.regions@[i - 1].code.0);
                    }
                }
            }
            i = i + 1;
        }
        true
    }

    /// A visible, unlocked categorical layer with no regions and a fresh id.
    pub fn categorical(name: String) -> (r: LayerDefinition)
        ensures
            r.wf(),
            r.name@ == name@,
            r.kind == LayerKind::Categorical,
            r.visible,
            !r.locked,
            r.opacity == DEFAULT_OPACITY_BITS,
            r.regions@.len() == 0,
            r.next_region_code == 1,
            (r.id.0 >> 76u128) & 0xfu128 == 4,
            (r.id.0 >> 62u128) & 0x3u128 == 2,
    {
        LayerDefinition {
            id: LayerId::new(),
            name,
            kind: LayerKind::Categorical,
            visible: true,
            locked: false,
            opacity: DEFAULT_OPACITY_BITS,
            regions: Vec::new(),
            next_region_code: 1,
        }
    }

    /// Stores a region under the next code, moves the next code on, and
    /// returns the code used.
    pub fn add_region(&mut self, name: String, color_rgba: [u8; 4]) -> (code: RegionCode)
        requires
            old(self).wf(),
            old(self).next_region_code < u16::MAX,
        ensures
            final(self).wf(),
            code.0 == old(self).next_region_code,
            final(self).next_region_code == old(self).next_region_code + 1,
            final(self).regions@ == with_region(
                old(self).regions@,
                RegionDefinition { code, name, color_rgba },
            ),
            final(self).id == old(self).id,
            final(self).name == old(self).name,
            final(self).kind == old(self).kind,
            final(self).visible == old(self).visible,
            final(self).locked == old(self).locked,
            final(self).opacity == old(self).opacity,
    {
        let code = RegionCode(self.next_region_code);
        self.next_region_code = self.next_region_code + 1;
        let ghost region = RegionDefinition { code, name, color_rgba };
        proof {
            lemma_code_pos(self.regions@, code.0);
            lemma_with_region_ascending(self.regions@, region);
        }
        let mut i: usize = 0;
        while i < self.regions.len() && self.regions[i].code.0 < code.0
            invariant
                i <= self.regions@.len(),
                codes_ascending(self.regions@),
                self.regions@ == old(self).regions@,
                forall|j: int| 0 <= j < i ==> (#[trigger] self.regions@[j]).code.0 < code.0,
            decreases self.regions.len() - i,
        {
            i = i + 1;
        }
        proof {
            assert(i == code_pos(self.regions@, code.0)) by {
                let p = code_pos(self.regions@, code.0) as int;
                if i < p {
                    assert(self.regions@[i as int].code.0 < code.0);
                } else if i > p {
                    assert(self.regions@[p].code.0 < code.0);
                }
            }
        }
        if i < self.regions.len() && self.regions[i].code.0 == code.0 {
            self.regions.set(i, RegionDefinition { code, name, color_rgba });
        } else {
            self.regions.insert(i, RegionDefinition { code, name, color_rgba });
        }
        code
    }
}

/// The definition of `id`, searching from the most recently added.
pub open spec fn definition_of(s: Seq<LayerDefinition>, id: LayerId) -> Option<LayerDefinition>
    decreases s.len(),
{
    if s.len() == 0 {
        None
    } else if s.last().id == id {
        Some(s.last())
    } else {
        definition_of(s.drop_last(), id)
    }
}

pub open spec fn unique_ids(s: Seq<LayerDefinition>) -> bool {
    forall|i: int, j: int| 0 <= i < j < s.len() ==> (#[trigger] s[i]).id != (#[trigger] s[j]).id
}

/// In a sequence without repeated ids, the definition found is the one at
/// the index that carries the id.
pub proof fn lemma_definition_at(s: Seq<LayerDefinition>, i: int)
    requires
        unique_ids(s),
        0 <= i < s.len(),
    ensures
        definition_of(s, s[i].id) == Some(s[i]),
    decreases s.len(),
{
    if i != s.len() - 1 {
        assert(s[i].id != s.last().id);
        let t = s.drop_last();
        assert(t[i] == s[i]);
        lemma_definition_at(t, i);
    }
}

/// Without the id anywhere, there is no definition of it.
pub proof fn lemma_definition_absent(s: Seq<LayerDefinition>, id: LayerId)
    requires
        forall|i: int| 0 <= i < s.len() ==> (#[trigger] s[i]).id != id,
    ensures
        definition_of(s, id) is None,
    decreases s.len(),
{
    if s.len() > 0 {
        let t = s.drop_last();
        assert forall|i: int| 0 <= i < t.len() implies (#[trigger] t[i]).id != id by {
            assert(t[i] == s[i]);
        }
        lemma_definition_absent(t, id);
    }
}

/// Layer definitions by id, and the order layers are listed in.
pub struct LayerRegistry {
    pub ordering: Vec<LayerId>,
    pub definitions: Vec<LayerDefinition>,
}

impl LayerRegistry {
    /// No id twice, and every palette in code order.
    pub open spec fn wf(&self) -> bool {
        &&& unique_ids(self.definitions@)
        &&& forall|i: int| 0 <= i < self.definitions@.len() ==> (#[trigger] self.definitions@[i]).wf()
    }

    /// The definition of `id`, if the registry has one.
    pub open spec fn get(&self, id: LayerId) -> Option<LayerDefinition> {
        definition_of(self.definitions@, id)
    }

    pub fn new() -> (r: LayerRegistry)
        ensures
            r.wf(),
            r.ordering@.len() == 0,
            r.definitions@.len() == 0,
    {
        LayerRegistry { ordering: Vec::new(), definitions: Vec::new() }
    }

    /// Index of the definition of `id`.
    pub fn position(&self, id: LayerId) -> (r: Option<usize>)
        requires
            self.wf(),
        ensures
            match r {
                Some(i) => i < self.definitions@.len() && self.definitions@[i as int].id == id
                    && self.get(id) == Some(self.definitions@[i as int]),
                None => self.get(id) is None,
            },
    {
        let mut i: usize = 0;
        while i < self.definitions.len()
            invariant
                i <= self.definitions@.len(),
                unique_ids(self.definitions@),
                forall|j: int| 0 <= j < i ==> (#[trigger] self.definitions@[j]).id != id,
            decreases self.definitions.len() - i,
        {
            if self.definitions[i].id == id {
                proof {
                    lemma_definition_at(self.definitions@, i as int);
                }
                return Some(i);
            }
            i = i + 1;
        }
        proof {
            lemma_definition_absent(self.definitions@, id);
        }
        None
    }

    /// Lists the layer last and stores its definition, replacing any earlier
    /// definition with the same id.
    pub fn insert(&mut self, layer: LayerDefinition) -> (id: LayerId)
        requires
            old(self).wf(),
            layer.wf(),
        ensures
            final(self).wf(),
            id == layer.id,
            final(self).ordering@ == old(self).ordering@.push(id),
            final(self).get(id) == Some(layer),
            forall|other: LayerId| other != id ==> final(self).get(other) == old(self).get(other),
    {
        let id = layer.id;
        self.ordering.push(id);
        let ghost old_defs = self.definitions@;
        match self.position(id) {
            Some(i) => {
                self.definitions.set(i, layer);
                proof {
                    let n = self.definitions@;
                    assert forall|a: int, b: int| 0 <= a < b < n.len() implies (#[trigger] n[a]).id
                        != (#[trigger] n[b]).id by {
                        assert(old_defs[a].id != old_defs[b].id);
                    }
                    lemma_definition_at(n, i as int);
                    assert forall|other: LayerId| other != id implies definition_of(n, other)
                        == definition_of(old_defs, other) by {
                        if exists|k: int| 0 <= k < old_defs.len() && old_defs[k].id == other {
                            let k = choose|k: int| 0 <= k < old_defs.len() && old_defs[k].id == other;
                            lemma_definition_at(old_defs, k);
                            assert(k != i);
                            assert(n[k] == old_defs[k]);
                            lemma_definition_at(n, k);
                        } else {
                            lemma_definition_absent(old_defs, other);
                            assert forall|k: int| 0 <= k < n.len() implies (#[trigger] n[k]).id != other by {
                                if k != i {
                                    assert(n[k] == old_defs[k]);
                                }
                            }
                            lemma_definition_absent(n, other);
                        }
                    }
                }
            },
            None => {
                proof {
                    if exists|k: int| 0 <= k < old_defs.len() && old_defs[k].id == id {
                        let k = choose|k: int| 0 <= k < old_defs.len() && old_defs[k].id == id;
                        lemma_definition_at(old_defs, k);
                    }
                }
                self.definitions.push(layer);
                proof {
                    let n = self.definitions@;
                    assert forall|a: int, b: int| 0 <= a < b < n.len() implies (#[trigger] n[a]).id
                        != (#[trigger] n[b]).id by {
                        if b < old_defs.len() {
                            assert(old_defs[a].id != old_defs[b].id);
                        } else {
                            assert(n[a] == old_defs[a]);
                        }
                    }
                    assert(n.drop_last() =~= old_defs);
                }
            },
        }
        id
    }
}

/// Categorical cells of one tile, row-major, `edge_cells` to a side.
/// `revision` grows (wrapping) with every change of the cells.
#[derive(Debug, Clone)]
pub struct RegionTile {
    pub tile: TileId,
    pub edge_cells: u16,
    pub revision: u64,
    pub cells: Vec<RegionCode>,
}

/// Index of cell `(x, y)` in a row-major grid `edge` cells wide.
pub open spec fn cell_index(edge: u16, x: int, y: int) -> int {
    y * edge + x
}

proof fn lemma_cell_in_grid(edge: int, x: int, y: int)
    requires
        0 <= x < edge,
        0 <= y < edge,
    ensures
        0 <= y * edge + x < edge * edge,
{
    assert(y * edge + x < edge * edge) by (nonlinear_arith)
        requires
            0 <= x < edge,
            0 <= y < edge,
    ;
    assert(0 <= y * edge) by (nonlinear_arith)
        requires
            0 <= y,
            0 <= edge,
    ;
}

proof fn lemma_grid_fits(edge: u16)
    ensures
        edge * edge < 0x1_0000_0000,
{
    assert(edge * edge <= 0xffff * 0xffff) by (nonlinear_arith)
        requires
            0 <= edge <= 0xffff,
    ;
}

impl RegionTile {
    pub open spec fn wf(&self) -> bool {
        self.cells@.len() == self.edge_cells * self.edge_cells
    }

    /// A tile whose cells are all unassigned, at revision 0.
    pub fn empty(tile: TileId, edge_cells: u16) -> (r: RegionTile)
        ensures
            r.wf(),
            r.tile == tile,
            r.edge_cells == edge_cells,
            r.revision == 0,
            forall|i: int| 0 <= i < r.cells@.len() ==> r.cells@[i] == RegionCode(0),
    {
        proof {
            lemma_grid_fits(edge_cells);
        }
        let count: usize = edge_cells as usize * edge_cells as usize;
        let mut cells: Vec<RegionCode> = Vec::new();
        while cells.len() < count
            invariant
                cells@.len() <= count,
                forall|i: int| 0 <= i < cells@.len() ==> cells@[i] == RegionCode(0),
            decreases count - cells@.len(),
        {
            cells.push(RegionCode::unassigned());
        }
        RegionTile { tile, edge_cells, revision: 0, cells }
    }

    pub fn cells(&self) -> (r: &[RegionCode])
        ensures
            r@ == self.cells@,
    {
        self.cells.as_slice()
    }

    pub fn cell_count(&self) -> (r: usize)
        ensures
            r == self.cells@.len(),
    {
        self.cells.len()
    }

    /// Row-major index of cell `(x, y)`.
    pub fn index(&self, x: usize, y: usize) -> (r: usize)
        requires
            cell_index(self.edge_cells, x as int, y as int) <= usize::MAX,
        ensures
            r == cell_index(self.edge_cells, x as int, y as int),
    {
        proof {
            assert(0 <= y * self.edge_cells) by (nonlinear_arith);
        }
        y * self.edge_cells as usize + x
    }
}

/// The stroke of a region brush. The centre (in tile UV) and the radius (in
/// cells) are the bit patterns of their `f32` values; which cells the stroke
/// covers is worked out from them in floating point, outside the library.
#[derive(Debug, Clone, Copy)]
pub struct RegionBrushStamp {
    pub layer: LayerId,
    pub tile: TileId,
    pub region: RegionCode,
    pub center_uv: [u32; 2],
    pub radius_cells: u32,
    pub falloff: crate::brush::BrushFalloff,
}

/// One cell that a stroke or an undo changed.
#[derive(Debug, Clone, Copy, PartialEq, Eq, Structural)]
pub struct RegionChange {
    pub index: u32,
    pub before: RegionCode,
    pub after: RegionCode,
}

/// Every cell change of one stroke, in the order they were made.
#[derive(Debug, Clone)]
pub struct RegionPatch {
    pub layer: LayerId,
    pub tile: TileId,
    pub changes: Vec<RegionChange>,
}

/// Cells and changes after painting `region` over `covered`, in order; a cell
/// that already holds the region is left alone and records no change.
pub open spec fn painted(
    cells: Seq<RegionCode>,
    edge: u16,
    covered: Seq<(usize, usize)>,
    region: RegionCode,
) -> (Seq<RegionCode>, Seq<RegionChange>)
    decreases covered.len(),
{
    if covered.len() == 0 {
        (cells, Seq::empty())
    } else {
        let (c, ch) = painted(cells, edge, covered.drop_last(), region);
        let idx = cell_index(edge, covered.last().0 as int, covered.last().1 as int);
        if c[idx] != region {
            (
                c.update(idx, region),
                ch.push(RegionChange { index: idx as u32, before: c[idx], after: region }),
            )
        } else {
            (c, ch)
        }
    }
}

/// The last change of cell `n`, if any.
pub open spec fn change_at(changes: Seq<RegionChange>, n: int) -> Option<RegionChange>
    decreases changes.len(),
{
    if changes.len() == 0 {
        None
    } else if changes.last().index as int == n {
        Some(changes.last())
    } else {
        change_at(changes.drop_last(), n)
    }
}

/// Cells after writing each change in order: its `after` value going forward,
/// its `before` value going back.
pub open spec fn applied(cells: Seq<RegionCode>, changes: Seq<RegionChange>, forward: bool) -> Seq<RegionCode>
    decreases changes.len(),
{
    if changes.len() == 0 {
        cells
    } else {
        let last = changes.last();
        applied(cells, changes.drop_last(), forward).update(
            last.index as int,
            if forward {
                last.after
            } else {
                last.before
            },
        )
    }
}

pub open spec fn indices_below(changes: Seq<RegionChange>, n: nat) -> bool {
    forall|i: int| 0 <= i < changes.len() ==> (#[trigger] changes[i]).index < n
}

pub open spec fn covered_in_grid(covered: Seq<(usize, usize)>, edge: u16) -> bool {
    forall|i: int| 0 <= i < covered.len() ==> (#[trigger] covered[i]).0 < edge && covered[i].1 < edge
}

/// Each cell ends with the value of its last change, or keeps its own.
proof fn lemma_applied_at(cells: Seq<RegionCode>, changes: Seq<RegionChange>, forward: bool)
    requires
        indices_below(changes, cells.len()),
    ensures
        applied(cells, changes, forward).len() == cells.len(),
        forall|n: int|
            0 <= n < cells.len() ==> #[trigger] applied(cells, changes, forward)[n] == match change_at(
                changes,
                n,
            ) {
                Some(c) => if forward {
                    c.after
                } else {
                    c.before
                },
                None => cells[n],
            },
    decreases changes.len(),
{
    if changes.len() > 0 {
        let t = changes.drop_last();
        assert forall|i: int| 0 <= i < t.len() implies (#[trigger] t[i]).index < cells.len() by {
            assert(t[i] == changes[i]);
        }
        lemma_applied_at(cells, t, forward);
        assert(changes.last() == changes[changes.len() - 1]);
    }
}

/// What painting leaves: every cell holds the painted region where it last
/// changed and its old value elsewhere, and each change records the old value.
proof fn lemma_painted_cells(
    cells: Seq<RegionCode>,
    edge: u16,
    covered: Seq<(usize, usize)>,
    region: RegionCode,
)
    requires
        cells.len() == edge * edge,
        covered_in_grid(covered, edge),
    ensures
        painted(cells, edge, covered, region).0.len() == cells.len(),
        indices_below(painted(cells, edge, covered, region).1, cells.len()),
        forall|n: int|
            0 <= n < cells.len() ==> #[trigger] painted(cells, edge, covered, region).0[n] == match change_at(
                painted(cells, edge, covered, region).1,
                n,
            ) {
                Some(c) => c.after,
                None => cells[n],
            },
        forall|n: int|
            0 <= n < cells.len() ==> match #[trigger] change_at(painted(cells, edge, covered, region).1, n) {
                Some(c) => c.before == cells[n] && c.after == region,
                None => true,
            },
    decreases covered.len(),
{
    if covered.len() > 0 {
        let t = covered.drop_last();
        assert forall|i: int| 0 <= i < t.len() implies (#[trigger] t[i]).0 < edge && t[i].1 < edge by {
            assert(t[i] == covered[i]);
        }
        lemma_painted_cells(cells, edge, t, region);
        let (c, ch) = painted(cells, edge, t, region);
        let last = covered[covered.len() - 1];
        let idx = cell_index(edge, last.0 as int, last.1 as int);
        lemma_cell_in_grid(edge as int, last.0 as int, last.1 as int);
        lemma_grid_fits(edge);
        assert((idx as u32) as int == idx);
        let r = painted(cells, edge, covered, region);
        if c[idx] != region {
            let nc = RegionChange { index: idx as u32, before: c[idx], after: region };
            assert(r.1 == ch.push(nc));
            assert(r.1.drop_last() =~= ch);
            assert forall|i: int| 0 <= i < r.1.len() implies (#[trigger] r.1[i]).index < cells.len() by {
                if i < ch.len() {
                    assert(r.1[i] == ch[i]);
                }
            }
            assert forall|n: int| 0 <= n < cells.len() implies #[trigger] r.0[n] == match change_at(r.1, n) {
                Some(c) => c.after,
                None => cells[n],
            } by {
                if n != idx {
                    assert(change_at(r.1, n) == change_at(ch, n));
                }
            }
            assert forall|n: int| 0 <= n < cells.len() implies match #[trigger] change_at(r.1, n) {
                Some(c) => c.before == cells[n] && c.after == region,
                None => true,
            } by {
                if n != idx {
                    assert(change_at(r.1, n) == change_at(ch, n));
                } else {
                    assert(change_at(ch, n) is None);
                }
            }
        }
    }
}

/// A stroke's patch undoes it: applying the changes backwards to the painted
/// cells gives back the cells from before the stroke, and applying them
/// forwards to those cells gives the painted cells again.
pub proof fn lemma_paint_patch_round_trip(
    cells: Seq<RegionCode>,
    edge: u16,
    covered: Seq<(usize, usize)>,
    region: RegionCode,
)
    requires
        cells.len() == edge * edge,
        covered_in_grid(covered, edge),
    ensures
        applied(painted(cells, edge, covered, region).0, painted(cells, edge, covered, region).1, false)
            == cells,
        applied(cells, painted(cells, edge, covered, region).1, true) == painted(
            cells,
            edge,
            covered,
            region,
        ).0,
{
    let (c1, ch) = painted(cells, edge, covered, region);
    lemma_painted_cells(cells, edge, covered, region);
    lemma_applied_at(c1, ch, false);
    lemma_applied_at(cells, ch, true);
    assert forall|n: int| 0 <= n < cells.len() implies #[trigger] applied(c1, ch, false)[n] == cells[n] by {
        assert(c1[n] == match change_at(ch, n) {
            Some(c) => c.after,
            None => cells[n],
        });
        assert(match change_at(ch, n) {
            Some(c) => c.before == cells[n] && c.after == region,
            None => true,
        });
    }
    assert forall|n: int| 0 <= n < cells.len() implies #[trigger] applied(cells, ch, true)[n] == c1[n] by {
        assert(c1[n] == match change_at(ch, n) {
            Some(c) => c.after,
            None => cells[n],
        });
    }
    assert(applied(c1, ch, false) =~= cells);
    assert(applied(cells, ch, true) =~= c1);
}

/// The covered cells rise strictly in row-major order, as a brush walks its
/// square row by row.
pub open spec fn covered_ascending(covered: Seq<(usize, usize)>, edge: u16) -> bool {
    forall|i: int, j: int|
        0 <= i < j < covered.len() ==> cell_index(edge, (#[trigger] covered[i]).0 as int, covered[i].1 as int)
            < cell_index(edge, (#[trigger] covered[j]).0 as int, covered[j].1 as int)
}

/// Whether the covered cells of a grid `edge` cells wide rise strictly in
/// row-major order.
pub fn cells_ascending(covered: &Vec<(usize, usize)>, edge: u16) -> (r: bool)
    requires
        covered_in_grid(covered@, edge),
    ensures
        r == covered_ascending(covered@, edge),
{
    let ghost c = covered@;
    let mut k: usize = 1;
    if covered.len() == 0 {
        return true;
    }
    while k < covered.len()
        invariant
            1 <= k <= covered.len(),
            c == covered@,
            covered_in_grid(c, edge),
            forall|i: int, j: int|
                0 <= i < j < k ==> cell_index(edge, (#[trigger] c[i]).0 as int, c[i].1 as int) < cell_index(
                    edge,
                    (#[trigger] c[j]).0 as int,
                    c[j].1 as int,
                ),
        decreases covered.len() - k,
    {
        let (x0, y0) = covered[k - 1];
        let (x1, y1) = covered[k];
        proof {
            lemma_cell_in_grid(edge as int, x0 as int, y0 as int);
            lemma_cell_in_grid(edge as int, x1 as int, y1 as int);
            lemma_grid_fits(edge);
        }
        let a: u64 = y0 as u64 * edge as u64 + x0 as u64;
        let b: u64 = y1 as u64 * edge as u64 + x1 as u64;
        if a >= b {
            return false;
        }
        proof {
            assert forall|i: int, j: int| 0 <= i < j < k + 1 implies cell_index(
                edge,
                (#[trigger] c[i]).0 as int,
                c[i].1 as int,
            ) < cell_index(edge, (#[trigger] c[j]).0 as int, c[j].1 as int) by {
                if j == k && i < k - 1 {
                    assert(cell_index(edge, c[i].0 as int, c[i].1 as int) < cell_index(
                        edge,
                        c[k - 1].0 as int,
                        c[k - 1].1 as int,
                    ));
                }
            }
        }
        k = k + 1;
    }
    true
}

/// What the changes of a stroke record, by induction over the covered cells.
proof fn lemma_paint_changes(cells: Seq<RegionCode>, edge: u16, covered: Seq<(usize, usize)>, region: RegionCode)
    requires
        cells.len() == edge * edge,
        covered_in_grid(covered, edge),
    ensures
        painted(cells, edge, covered, region).0.len() == cells.len(),
        forall|k: int|
            0 <= k < covered.len() ==> painted(cells, edge, covered, region).0[cell_index(
                edge,
                (#[trigger] covered[k]).0 as int,
                covered[k].1 as int,
            )] == region,
        forall|i: int|
            0 <= i < painted(cells, edge, covered, region).1.len() ==> {
                let c = #[trigger] painted(cells, edge, covered, region).1[i];
                &&& c.after == region
                &&& c.before != region
                &&& c.before == cells[c.index as int]
                &&& 0 <= c.index < cells.len()
                &&& painted(cells, edge, covered, region).0[c.index as int] == region
                &&& exists|m: int|
                    0 <= m < covered.len() && c.index as int == cell_index(
                        edge,
                        (#[trigger] covered[m]).0 as int,
                        covered[m].1 as int,
                    )
            },
        forall|i: int, j: int|
            0 <= i < j < painted(cells, edge, covered, region).1.len() ==> (#[trigger] painted(
                cells,
                edge,
                covered,
                region,
            ).1[i]).index != (#[trigger] painted(cells, edge, covered, region).1[j]).index,
        covered_ascending(covered, edge) ==> forall|i: int, j: int|
            0 <= i < j < painted(cells, edge, covered, region).1.len() ==> (#[trigger] painted(
                cells,
                edge,
                covered,
                region,
            ).1[i]).index < (#[trigger] painted(cells, edge, covered, region).1[j]).index,
    decreases covered.len(),
{
    if covered.len() > 0 {
        let t = covered.drop_last();
        assert forall|i: int| 0 <= i < t.len() implies (#[trigger] t[i]).0 < edge && t[i].1 < edge by {
            assert(t[i] == covered[i]);
        }
        lemma_paint_changes(cells, edge, t, region);
        lemma_painted_cells(cells, edge, t, region);
        let (c, ch) = painted(cells, edge, t, region);
        let last = covered[covered.len() - 1];
        let idx = cell_index(edge, last.0 as int, last.1 as int);
        lemma_cell_in_grid(edge as int, last.0 as int, last.1 as int);
        lemma_grid_fits(edge);
        assert((idx as u32) as int == idx);
        let r = painted(cells, edge, covered, region);
        if covered_ascending(covered, edge) {
            assert forall|i: int, j: int| 0 <= i < j < t.len() implies cell_index(
                edge,
                (#[trigger] t[i]).0 as int,
                t[i].1 as int,
            ) < cell_index(edge, (#[trigger] t[j]).0 as int, t[j].1 as int) by {
                assert(t[i] == covered[i] && t[j] == covered[j]);
            }
        }
        if c[idx] != region {
            let nc = RegionChange { index: idx as u32, before: c[idx], after: region };
            assert(r.1 == ch.push(nc));
            assert(r.0 == c.update(idx, region));
            if change_at(ch, idx) is Some {
                assert(c[idx] == region);
            }
            assert(c[idx] == cells[idx]);
            assert forall|i: int| 0 <= i < r.1.len() implies {
                let c = #[trigger] r.1[i];
                &&& c.after == region
                &&& c.before != region
                &&& c.before == cells[c.index as int]
                &&& 0 <= c.index < cells.len()
                &&& r.0[c.index as int] == region
                &&& exists|m: int|
                    0 <= m < covered.len() && c.index as int == cell_index(
                        edge,
                        (#[trigger] covered[m]).0 as int,
                        covered[m].1 as int,
                    )
            } by {
                if i < ch.len() {
                    assert(r.1[i] == ch[i]);
                    let m = choose|m: int|
                        0 <= m < t.len() && ch[i].index as int == cell_index(
                            edge,
                            (#[trigger] t[m]).0 as int,
                            t[m].1 as int,
                        );
                    assert(t[m] == covered[m]);
                } else {
                    assert(r.1[i] == nc);
                    assert(covered[covered.len() - 1] == last);
                }
            }
            assert forall|i: int, j: int| 0 <= i < j < r.1.len() implies (#[trigger] r.1[i]).index != (
            #[trigger] r.1[j]).index by {
                assert(r.1[i] == ch[i]);
                if j < ch.len() {
                    assert(r.1[j] == ch[j]);
                } else {
                    assert(r.1[j] == nc);
                    assert(c[ch[i].index as int] == region);
                }
            }
            if covered_ascending(covered, edge) {
                assert forall|i: int, j: int| 0 <= i < j < r.1.len() implies (#[trigger] r.1[i]).index < (
                #[trigger] r.1[j]).index by {
                    assert(r.1[i] == ch[i]);
                    if j < ch.len() {
                        assert(r.1[j] == ch[j]);
                    } else {
                        assert(r.1[j] == nc);
                        let m = choose|m: int|
                            0 <= m < t.len() && ch[i].index as int == cell_index(
                                edge,
                                (#[trigger] t[m]).0 as int,
                                t[m].1 as int,
                            );
                        assert(t[m] == covered[m]);
                        assert(covered[covered.len() - 1] == last);
                    }
                }
            }
        } else {
            assert(r == (c, ch));
            assert forall|i: int| 0 <= i < r.1.len() implies {
                let c = #[trigger] r.1[i];
                exists|m: int|
                    0 <= m < covered.len() && c.index as int == cell_index(
                        edge,
                        (#[trigger] covered[m]).0 as int,
                        covered[m].1 as int,
                    )
            } by {
                let m = choose|m: int|
                    0 <= m < t.len() && ch[i].index as int == cell_index(
                        edge,
                        (#[trigger] t[m]).0 as int,
                        t[m].1 as int,
                    );
                assert(t[m] == covered[m]);
            }
        }
        assert forall|k: int| 0 <= k < covered.len() implies r.0[cell_index(
            edge,
            (#[trigger] covered[k]).0 as int,
            covered[k].1 as int,
        )] == region by {
            let i2 = cell_index(edge, covered[k].0 as int, covered[k].1 as int);
            lemma_cell_in_grid(edge as int, covered[k].0 as int, covered[k].1 as int);
            if k < t.len() {
                assert(covered[k] == t[k]);
                assert(c[cell_index(edge, t[k].0 as int, t[k].1 as int)] == region);
            } else {
                assert(covered[k] == last);
            }
            if c[idx] != region {
                assert(r.0 == c.update(idx, region));
            } else {
                assert(r.0 == c);
            }
        }
    }
}

/// Painting cells that all hold the region already changes nothing.
proof fn lemma_repaint(cells: Seq<RegionCode>, edge: u16, covered: Seq<(usize, usize)>, region: RegionCode)
    requires
        forall|k: int|
            0 <= k < covered.len() ==> cells[cell_index(
                edge,
                (#[trigger] covered[k]).0 as int,
                covered[k].1 as int,
            )] == region,
    ensures
        painted(cells, edge, covered, region) == (cells, Seq::<RegionChange>::empty()),
    decreases covered.len(),
{
    if covered.len() > 0 {
        let t = covered.drop_last();
        assert forall|k: int| 0 <= k < t.len() implies cells[cell_index(
            edge,
            (#[trigger] t[k]).0 as int,
            t[k].1 as int,
        )] == region by {
            assert(t[k] == covered[k]);
        }
        lemma_repaint(cells, edge, t, region);
        assert(covered.last() == covered[covered.len() - 1]);
    }
}

/// What one stroke does, cell by cell: every change turns a cell that did not
/// hold the region into it and records the cell's value from before the
/// stroke; no cell changes twice; cells without a change keep their value;
/// over cells listed row by row the changes come row by row too; and
/// repeating the stroke over the same cells changes nothing more.
pub proof fn lemma_paint_region_law(cells: Seq<RegionCode>, edge: u16, covered: Seq<(usize, usize)>, region: RegionCode)
    requires
        cells.len() == edge * edge,
        covered_in_grid(covered, edge),
    ensures
        forall|i: int|
            0 <= i < painted(cells, edge, covered, region).1.len() ==> {
                let c = #[trigger] painted(cells, edge, covered, region).1[i];
                &&& 0 <= c.index < cells.len()
                &&& c.before == cells[c.index as int]
                &&& c.before != region
                &&& c.after == region
                &&& painted(cells, edge, covered, region).0[c.index as int] == region
            },
        forall|n: int|
            0 <= n < cells.len() && change_at(painted(cells, edge, covered, region).1, n) is None
                ==> #[trigger] painted(cells, edge, covered, region).0[n] == cells[n],
        forall|i: int, j: int|
            0 <= i < j < painted(cells, edge, covered, region).1.len() ==> (#[trigger] painted(
                cells,
                edge,
                covered,
                region,
            ).1[i]).index != (#[trigger] painted(cells, edge, covered, region).1[j]).index,
        covered_ascending(covered, edge) ==> forall|i: int, j: int|
            0 <= i < j < painted(cells, edge, covered, region).1.len() ==> (#[trigger] painted(
                cells,
                edge,
                covered,
                region,
            ).1[i]).index < (#[trigger] painted(cells, edge, covered, region).1[j]).index,
        painted(painted(cells, edge, covered, region).0, edge, covered, region) == (
            painted(cells, edge, covered, region).0,
            Seq::<RegionChange>::empty(),
        ),
{
    lemma_paint_changes(cells, edge, covered, region);
    lemma_painted_cells(cells, edge, covered, region);
    lemma_repaint(painted(cells, edge, covered, region).0, edge, covered, region);
}

/// Revision after one more change, wrapping at `u64::MAX`.
pub open spec fn next_revision(revision: u64) -> u64 {
    if revision == u64::MAX {
        0
    } else {
        (revision + 1) as u64
    }
}

fn bump_revision(revision: u64) -> (r: u64)
    ensures
        r == next_revision(revision),
{
    revision.wrapping_add(1)
}

/// Paints `stamp.region` over the `covered` cells, in order, and returns
/// the changes made. The revision moves on when anything changed.
pub fn paint_region(tile: &mut RegionTile, stamp: RegionBrushStamp, covered: &Vec<(usize, usize)>) -> (patch: RegionPatch)
    requires
        old(tile).wf(),
        covered_in_grid(covered@, old(tile).edge_cells),
        covered_ascending(covered@, old(tile).edge_cells),
    ensures
        forall|i: int, j: int|
            0 <= i < j < patch.changes@.len() ==> (#[trigger] patch.changes@[i]).index < (
            #[trigger] patch.changes@[j]).index,
        final(tile).wf(),
        final(tile).tile == old(tile).tile,
        final(tile).edge_cells == old(tile).edge_cells,
        final(tile).cells@ == painted(old(tile).cells@, old(tile).edge_cells, covered@, stamp.region).0,
        patch.changes@ == painted(old(tile).cells@, old(tile).edge_cells, covered@, stamp.region).1,
        final(tile).revision == (if patch.changes@.len() == 0 {
            old(tile).revision
        } else {
            next_revision(old(tile).revision)
        }),
        patch.layer == stamp.layer,
        patch.tile == stamp.tile,
{
    let ghost cells0 = tile.cells@;
    let edge = tile.edge_cells;
    let mut changes: Vec<RegionChange> = Vec::new();
    let mut k: usize = 0;
    while k < covered.len()
        invariant
            k <= covered@.len(),
            covered_in_grid(covered@, edge),
            edge == old(tile).edge_cells,
            cells0 == old(tile).cells@,
            cells0.len() == edge * edge,
            tile.edge_cells == edge,
            tile.tile == old(tile).tile,
            tile.revision == old(tile).revision,
            tile.cells@ == painted(cells0, edge, covered@.take(k as int), stamp.region).0,
            changes@ == painted(cells0, edge, covered@.take(k as int), stamp.region).1,
        decreases covered.len() - k,
    {
        let ghost prefix = covered@.take(k as int);
        proof {
            assert forall|i: int| 0 <= i < prefix.len() implies (#[trigger] prefix[i]).0 < edge
                && prefix[i].1 < edge by {
                assert(prefix[i] == covered@[i]);
            }
            lemma_painted_cells(cells0, edge, prefix, stamp.region);
            assert(covered@.take(k + 1).drop_last() =~= prefix);
            assert(covered@.take(k + 1).last() == covered@[k as int]);
        }
        let (x, y) = covered[k];
        proof {
            lemma_cell_in_grid(edge as int, x as int, y as int);
            lemma_grid_fits(edge);
        }
        let index = tile.index(x, y);
        let before = tile.cells[index];
        if before != stamp.region {
            tile.cells.set(index, stamp.region);
            changes.push(RegionChange { index: index as u32, before, after: stamp.region });
        }
        k = k + 1;
    }
    proof {
        assert(covered@.take(covered@.len() as int) =~= covered@);
        lemma_painted_cells(cells0, edge, covered@, stamp.region);
        lemma_paint_region_law(cells0, edge, covered@, stamp.region);
    }
    if changes.len() > 0 {
        tile.revision = bump_revision(tile.revision);
    }
    RegionPatch { layer: stamp.layer, tile: stamp.tile, changes }
}

/// Writes a patch's changes into the tile, forward (`after`) or back
/// (`before`); the revision moves on when the patch has any change.
pub fn apply_region_patch(tile: &mut RegionTile, patch: &RegionPatch, forward: bool)
    requires
        indices_below(patch.changes@, old(tile).cells@.len()),
    ensures
        final(tile).cells@ == applied(old(tile).cells@, patch.changes@, forward),
        final(tile).revision == (if patch.changes@.len() == 0 {
            old(tile).revision
        } else {
            next_revision(old(tile).revision)
        }),
        final(tile).tile == old(tile).tile,
        final(tile).edge_cells == old(tile).edge_cells,
        old(tile).wf() ==> final(tile).wf(),
{
    let mut k: usize = 0;
    while k < patch.changes.len()
        invariant
            k <= patch.changes@.len(),
            indices_below(patch.changes@, old(tile).cells@.len()),
            tile.cells@ == applied(old(tile).cells@, patch.changes@.take(k as int), forward),
            tile.cells@.len() == old(tile).cells@.len(),
            tile.revision == old(tile).revision,
            tile.tile == old(tile).tile,
            tile.edge_cells == old(tile).edge_cells,
        decreases patch.changes.len() - k,
    {
        let change = patch.changes[k];
        proof {
            assert(patch.changes@.take(k + 1).drop_last() =~= patch.changes@.take(k as int));
            assert(patch.changes@.take(k + 1).last() == change);
        }
        let value = if forward {
            change.after
        } else {
            change.before
        };
        tile.cells.set(change.index as usize, value);
        k = k + 1;
    }
    proof {
        assert(patch.changes@.take(patch.changes@.len() as int) =~= patch.changes@);
    }
    if patch.changes.len() > 0 {
        tile.revision = bump_revision(tile.revision);
    }
}

/// The stored region tile of a layer and tile, searching from the most
/// recently added entry.
pub open spec fn region_tile_of(s: Seq<((LayerId, TileId), RegionTile)>, key: (LayerId, TileId)) -> Option<RegionTile>
    decreases s.len(),
{
    if s.len() == 0 {
        None
    } else if s.last().0 == key {
        Some(s.last().1)
    } else {
        region_tile_of(s.drop_last(), key)
    }
}

pub open spec fn unique_keys(s: Seq<((LayerId, TileId), RegionTile)>) -> bool {
    forall|i: int, j: int| 0 <= i < j < s.len() ==> (#[trigger] s[i]).0 != (#[trigger] s[j]).0
}

pub proof fn lemma_region_tile_at(s: Seq<((LayerId, TileId), RegionTile)>, i: int)
    requires
        unique_keys(s),
        0 <= i < s.len(),
    ensures
        region_tile_of(s, s[i].0) == Some(s[i].1),
    decreases s.len(),
{
    if i != s.len() - 1 {
        assert(s[i].0 != s.last().0);
        let t = s.drop_last();
        assert(t[i] == s[i]);
        lemma_region_tile_at(t, i);
    }
}

proof fn lemma_region_tile_absent(s: Seq<((LayerId, TileId), RegionTile)>, key: (LayerId, TileId))
    requires
        forall|i: int| 0 <= i < s.len() ==> (#[trigger] s[i]).0 != key,
    ensures
        region_tile_of(s, key) is None,
    decreases s.len(),
{
    if s.len() > 0 {
        let t = s.drop_last();
        assert forall|i: int| 0 <= i < t.len() implies (#[trigger] t[i]).0 != key by {
            assert(t[i] == s[i]);
        }
        lemma_region_tile_absent(t, key);
    }
}

/// Replacing the value of an entry changes what is found for its key only.
proof fn lemma_region_tile_update(s: Seq<((LayerId, TileId), RegionTile)>, i: int, value: RegionTile)
    requires
        unique_keys(s),
        0 <= i < s.len(),
    ensures
        unique_keys(s.update(i, (s[i].0, value))),
        region_tile_of(s.update(i, (s[i].0, value)), s[i].0) == Some(value),
        forall|key: (LayerId, TileId)|
            key != s[i].0 ==> #[trigger] region_tile_of(s.update(i, (s[i].0, value)), key)
                == region_tile_of(s, key),
{
    let n = s.update(i, (s[i].0, value));
    assert forall|a: int, b: int| 0 <= a < b < n.len() implies (#[trigger] n[a]).0 != (#[trigger] n[b]).0 by {
        assert(n[a].0 == s[a].0 && n[b].0 == s[b].0);
    }
    lemma_region_tile_at(n, i);
    assert forall|key: (LayerId, TileId)| key != s[i].0 implies #[trigger] region_tile_of(n, key)
        == region_tile_of(s, key) by {
        if exists|k: int| 0 <= k < s.len() && s[k].0 == key {
            let k = choose|k: int| 0 <= k < s.len() && s[k].0 == key;
            lemma_region_tile_at(s, k);
            assert(n[k] == s[k]);
            lemma_region_tile_at(n, k);
        } else {
            lemma_region_tile_absent(s, key);
            assert forall|k: int| 0 <= k < n.len() implies (#[trigger] n[k]).0 != key by {
                if k != i {
                    assert(n[k] == s[k]);
                }
            }
            lemma_region_tile_absent(n, key);
        }
    }
}

/// Categorical masks, one entry per layer and tile.
pub struct LayerStore {
    pub categorical_tiles: Vec<((LayerId, TileId), RegionTile)>,
}

/// Cells of a tile that has just been created.
pub open spec fn blank_cells(edge: u16) -> Seq<RegionCode> {
    Seq::new((edge * edge) as nat, |i: int| RegionCode(0))
}

impl LayerStore {
    /// No layer and tile twice, and every mask the size its edge says.
    pub open spec fn wf(&self) -> bool {
        &&& unique_keys(self.categorical_tiles@)
        &&& forall|i: int|
            0 <= i < self.categorical_tiles@.len() ==> (#[trigger] self.categorical_tiles@[i]).1.wf()
    }

    pub open spec fn tile_of(&self, layer: LayerId, tile: TileId) -> Option<RegionTile> {
        region_tile_of(self.categorical_tiles@, (layer, tile))
    }

    pub fn new() -> (r: LayerStore)
        ensures
            r.wf(),
            r.categorical_tiles@.len() == 0,
    {
        LayerStore { categorical_tiles: Vec::new() }
    }

    /// Index of the entry of `layer` and `tile`.
    pub fn position(&self, layer: LayerId, tile: TileId) -> (r: Option<usize>)
        requires
            self.wf(),
        ensures
            match r {
                Some(i) => i < self.categorical_tiles@.len() && self.categorical_tiles@[i as int].0 == (
                layer, tile) && self.tile_of(layer, tile) == Some(self.categorical_tiles@[i as int].1),
                None => self.tile_of(layer, tile) is None,
            },
    {
        let mut i: usize = 0;
        while i < self.categorical_tiles.len()
            invariant
                i <= self.categorical_tiles@.len(),
                unique_keys(self.categorical_tiles@),
                forall|j: int| 0 <= j < i ==> (#[trigger] self.categorical_tiles@[j]).0 != (layer, tile),
            decreases self.categorical_tiles.len() - i,
        {
            let key = self.categorical_tiles[i].0;
            if key.0 == layer && key.1 == tile {
                proof {
                    lemma_region_tile_at(self.categorical_tiles@, i as int);
                }
                return Some(i);
            }
            i = i + 1;
        }
        proof {
            lemma_region_tile_absent(self.categorical_tiles@, (layer, tile));
        }
        None
    }

    /// Edge of the mask that painting `layer` on `tile` works on: the stored
    /// one, or `edge_cells` for a mask not created yet.
    pub fn paint_edge(&self, layer: LayerId, tile: TileId, edge_cells: u16) -> (r: u16)
        requires
            self.wf(),
        ensures
            r == match self.tile_of(layer, tile) {
                Some(t) => t.edge_cells,
                None => edge_cells,
            },
    {
        match self.position(layer, tile) {
            Some(i) => self.categorical_tiles[i].1.edge_cells,
            None => edge_cells,
        }
    }

    /// The mask of `layer` on `tile`, created blank (`edge_cells` to a side)
    /// when there is none yet.
    pub fn ensure_region_tile(&mut self, layer: LayerId, tile: TileId, edge_cells: u16) -> (r: &mut RegionTile)
        requires
            old(self).wf(),
        ensures
            r.wf(),
            match old(self).tile_of(layer, tile) {
                Some(t) => *r == t,
                None => r.tile == tile && r.edge_cells == edge_cells && r.revision == 0 && r.cells@
                    == blank_cells(edge_cells),
            },
            final(self).tile_of(layer, tile) == Some(*final(r)),
            forall|l: LayerId, t: TileId|
                !(l == layer && t == tile) ==> #[trigger] final(self).tile_of(l, t) == old(self).tile_of(l, t),
            unique_keys(final(self).categorical_tiles@),
            final(r).wf() ==> final(self).wf(),
    {
        let i = match self.position(layer, tile) {
            Some(i) => i,
            None => {
                let blank = RegionTile::empty(tile, edge_cells);
                proof {
                    assert(blank.cells@ =~= blank_cells(edge_cells));
                    let s = self.categorical_tiles@;
                    if exists|k: int| 0 <= k < s.len() && s[k].0 == (layer, tile) {
                        let k = choose|k: int| 0 <= k < s.len() && s[k].0 == (layer, tile);
                        lemma_region_tile_at(s, k);
                    }
                }
                self.categorical_tiles.push(((layer, tile), blank));
                proof {
                    let n = self.categorical_tiles@;
                    let s = old(self).categorical_tiles@;
                    assert forall|a: int, b: int| 0 <= a < b < n.len() implies (#[trigger] n[a]).0
                        != (#[trigger] n[b]).0 by {
                        if b < s.len() {
                            assert(n[a] == s[a] && n[b] == s[b]);
                        } else {
                            assert(n[a] == s[a]);
                        }
                    }
                    assert(n.drop_last() =~= s);
                }
                self.categorical_tiles.len() - 1
            },
        };
        let ghost mid = self.categorical_tiles@;
        proof {
            assert forall|k: int| 0 <= k < mid.len() implies (#[trigger] mid[k]).1.wf() by {
                if k < old(self).categorical_tiles@.len() {
                    assert(mid[k] == old(self).categorical_tiles@[k]);
                }
            }
        }
        let r = &mut self.categorical_tiles[i].1;
        proof {
            lemma_region_tile_update(mid, i as int, *final(r));
            assert forall|l: LayerId, t: TileId| !(l == layer && t == tile) implies #[trigger] region_tile_of(
                mid.update(i as int, (mid[i as int].0, *final(r))),
                (l, t),
            ) == region_tile_of(old(self).categorical_tiles@, (l, t)) by {
                assert((l, t) != (layer, tile));
                if old(self).tile_of(layer, tile) is None {
                    assert(mid.drop_last() =~= old(self).categorical_tiles@);
                    assert(region_tile_of(mid, (l, t)) == region_tile_of(mid.drop_last(), (l, t)));
                }
            }
        }
        r
    }
}

/// Replacing a definition by one with the same id changes what is found for
/// that id only.
proof fn lemma_definition_update(s: Seq<LayerDefinition>, i: int, value: LayerDefinition)
    requires
        unique_ids(s),
        0 <= i < s.len(),
        value.id == s[i].id,
    ensures
        unique_ids(s.update(i, value)),
        definition_of(s.update(i, value), value.id) == Some(value),
        forall|id: LayerId| id != value.id ==> #[trigger] definition_of(s.update(i, value), id) == definition_of(s, id),
{
    let n = s.update(i, value);
    assert forall|a: int, b: int| 0 <= a < b < n.len() implies (#[trigger] n[a]).id != (#[trigger] n[b]).id by {
        assert(n[a].id == s[a].id && n[b].id == s[b].id);
    }
    lemma_definition_at(n, i);
    assert forall|id: LayerId| id != value.id implies #[trigger] definition_of(n, id) == definition_of(s, id) by {
        if exists|k: int| 0 <= k < s.len() && s[k].id == id {
            let k = choose|k: int| 0 <= k < s.len() && s[k].id == id;
            lemma_definition_at(s, k);
            assert(n[k] == s[k]);
            lemma_definition_at(n, k);
        } else {
            lemma_definition_absent(s, id);
            assert forall|k: int| 0 <= k < n.len() implies (#[trigger] n[k]).id != id by {
                if k != i {
                    assert(n[k] == s[k]);
                }
            }
            lemma_definition_absent(n, id);
        }
    }
}

impl LayerRegistry {
    /// The definition of `id`, open for change.
    fn definition_mut(&mut self, i: usize) -> (r: &mut LayerDefinition)
        requires
            old(self).wf(),
            i < old(self).definitions@.len(),
        ensures
            *r == old(self).definitions@[i as int],
            final(self).definitions@ == old(self).definitions@.update(i as int, *final(r)),
            final(self).ordering == old(self).ordering,
    {
        &mut self.definitions[i]
    }
}

/// Request to add a categorical layer.
#[derive(Debug, Clone)]
pub struct CreateLayer {
    pub name: String,
}

#[derive(Debug, Clone, Copy, PartialEq, Eq, Structural)]
pub struct LayerCreated {
    pub layer: LayerId,
}

/// Request to add a region to a layer's palette.
#[derive(Debug, Clone)]
pub struct CreateRegion {
    pub layer: LayerId,
    pub name: String,
    pub color_rgba: [u8; 4],
}

#[derive(Debug, Clone, Copy, PartialEq, Eq, Structural)]
pub struct RegionCreated {
    pub layer: LayerId,
    pub region: RegionCode,
}

#[derive(Debug, Clone, Copy, PartialEq, Eq, Structural)]
pub struct LayerDefinitionChanged {
    pub layer: LayerId,
}

/// Request to change how a layer is shown or edited; `None` leaves a setting
/// as it is. `opacity` is the bit pattern of an `f32`.
#[derive(Debug, Clone, Copy, PartialEq, Eq, Structural)]
pub struct ConfigureLayer {
    pub layer: LayerId,
    pub visible: Option<bool>,
    pub locked: Option<bool>,
    pub opacity: Option<u32>,
}

/// Request to paint one stroke. `edge_cells` belongs to the request so that
/// semantic layers stay independent of terrain storage.
#[derive(Debug, Clone, Copy)]
pub struct PaintRegion {
    pub stamp: RegionBrushStamp,
    pub edge_cells: u16,
}

#[derive(Debug, Clone, Copy, PartialEq, Eq, Structural)]
pub struct RegionChanged {
    pub layer: LayerId,
    pub tile: TileId,
    pub revision: u64,
}

/// Why a layer edit was refused.
#[derive(Debug, Clone, Copy, PartialEq, Eq, Structural)]
pub enum LayerEditError {
    MissingLayer(LayerId),
    LockedLayer(LayerId),
}

#[derive(Debug, Clone, Copy, PartialEq, Eq, Structural)]
pub struct LayerEditFailed(pub LayerEditError);

/// Owns layer definitions, palettes and packed categorical masks; it needs no
/// terrain, rendering, UI or feature storage.
pub struct LayerPlugin;

/// `f32::clamp(x, 0.0, 1.0)` on the bit pattern of `x`: a NaN stays as it
/// is, a value below zero becomes `0.0`, one above one becomes `1.0`, and
/// anything else (`-0.0` among them) is kept.
pub open spec fn unit_clamped(bits: u32) -> u32 {
    if bits & 0x7fff_ffff > 0x7f80_0000 {
        bits
    } else if bits > 0x8000_0000 {
        0
    } else if bits < 0x8000_0000 && bits > 0x3f80_0000 {
        0x3f80_0000
    } else {
        bits
    }
}

/// Opacity limited to `0.0..=1.0`, on `f32` bit patterns.
pub fn clamp_opacity(bits: u32) -> (r: u32)
    ensures
        r == unit_clamped(bits),
{
    if bits & 0x7fff_ffff > 0x7f80_0000 {
        bits
    } else if bits > 0x8000_0000 {
        0
    } else if bits < 0x8000_0000 && bits > 0x3f80_0000 {
        0x3f80_0000
    } else {
        bits
    }
}

/// Adds a categorical layer named by the trimmed request name and lists it
/// last.
pub fn create_layer(registry: &mut LayerRegistry, request: &CreateLayer) -> (r: LayerCreated)
    requires
        old(registry).wf(),
    ensures
        final(registry).wf(),
        final(registry).ordering@ == old(registry).ordering@.push(r.layer),
        final(registry).get(r.layer) matches Some(d) && d.id == r.layer && d.name@ == trim(request.name@)
            && d.kind == LayerKind::Categorical && d.visible && !d.locked && d.opacity
            == DEFAULT_OPACITY_BITS && d.regions@.len() == 0 && d.next_region_code == 1,
        forall|other: LayerId| other != r.layer ==> #[trigger] final(registry).get(other) == old(registry).get(other),
{
    let layer = LayerDefinition::categorical(trimmed(request.name.as_str()));
    let id = registry.insert(layer);
    LayerCreated { layer: id }
}

/// Adds a region, named by the trimmed request name, to an unlocked layer.
pub fn create_region(registry: &mut LayerRegistry, request: &CreateRegion) -> (r: Result<RegionCreated, LayerEditError>)
    requires
        old(registry).wf(),
        old(registry).get(request.layer) matches Some(d) ==> (!d.locked ==> d.next_region_code < u16::MAX),
    ensures
        final(registry).wf(),
        final(registry).ordering == old(registry).ordering,
        match old(registry).get(request.layer) {
            None => r == Err::<RegionCreated, LayerEditError>(LayerEditError::MissingLayer(request.layer))
                && final(registry).definitions == old(registry).definitions,
            Some(d) => if d.locked {
                r == Err::<RegionCreated, LayerEditError>(LayerEditError::LockedLayer(request.layer))
                    && final(registry).definitions == old(registry).definitions
            } else {
                &&& r == Ok::<RegionCreated, LayerEditError>(
                    RegionCreated { layer: request.layer, region: RegionCode(d.next_region_code) },
                )
                &&& final(registry).get(request.layer) matches Some(n) && n.regions@ == with_region(
                    d.regions@,
                    RegionDefinition {
                        code: RegionCode(d.next_region_code),
                        name: n.regions@[code_pos(d.regions@, d.next_region_code) as int].name,
                        color_rgba: request.color_rgba,
                    },
                ) && n.regions@[code_pos(d.regions@, d.next_region_code) as int].name@ == trim(
                    request.name@,
                ) && n.next_region_code == d.next_region_code + 1 && n.id == d.id && n.name == d.name
                    && n.kind == d.kind && n.visible == d.visible && n.locked == d.locked && n.opacity
                    == d.opacity
                &&& forall|other: LayerId|
                    other != request.layer ==> #[trigger] final(registry).get(other) == old(registry).get(other)
            },
        },
{
    let i = match registry.position(request.layer) {
        Some(i) => i,
        None => return Err(LayerEditError::MissingLayer(request.layer)),
    };
    if registry.definitions[i].locked {
        return Err(LayerEditError::LockedLayer(request.layer));
    }
    let ghost s = registry.definitions@;
    let name = trimmed(request.name.as_str());
    let ghost name_view = name@;
    let layer = registry.definition_mut(i);
    let region = layer.add_region(name, request.color_rgba);
    proof {
        assert(s[i as int].wf());
        lemma_code_pos(s[i as int].regions@, region.0);
        lemma_definition_update(s, i as int, *final(layer));
    }
    proof {
        let n = registry.definitions@;
        assert forall|k: int| 0 <= k < n.len() implies (#[trigger] n[k]).wf() by {
            if k != i {
                assert(n[k] == s[k]);
            }
        }
    }
    Ok(RegionCreated { layer: request.layer, region })
}

/// Applies the settings a request names to an existing layer; a locked layer
/// can still be configured. Opacity is clamped to `0.0..=1.0`.
pub fn configure_layer(registry: &mut LayerRegistry, request: &ConfigureLayer) -> (r: Result<LayerDefinitionChanged, LayerEditError>)
    requires
        old(registry).wf(),
    ensures
        final(registry).wf(),
        final(registry).ordering == old(registry).ordering,
        match old(registry).get(request.layer) {
            None => r == Err::<LayerDefinitionChanged, LayerEditError>(LayerEditError::MissingLayer(request.layer))
                && final(registry).definitions == old(registry).definitions,
            Some(d) => {
                &&& r == Ok::<LayerDefinitionChanged, LayerEditError>(LayerDefinitionChanged { layer: request.layer })
                &&& final(registry).get(request.layer) matches Some(n) && n.visible == (match request.visible {
                    Some(v) => v,
                    None => d.visible,
                }) && n.locked == (match request.locked {
                    Some(v) => v,
                    None => d.locked,
                }) && n.opacity == (match request.opacity {
                    Some(v) => unit_clamped(v),
                    None => d.opacity,
                }) && n.id == d.id && n.name == d.name && n.kind == d.kind && n.regions == d.regions
                    && n.next_region_code == d.next_region_code
                &&& forall|other: LayerId|
                    other != request.layer ==> #[trigger] final(registry).get(other) == old(registry).get(other)
            },
        },
{
    let i = match registry.position(request.layer) {
        Some(i) => i,
        None => return Err(LayerEditError::MissingLayer(request.layer)),
    };
    let ghost s = registry.definitions@;
    let layer = registry.definition_mut(i);
    if let Some(visible) = request.visible {
        layer.visible = visible;
    }
    if let Some(locked) = request.locked {
        layer.locked = locked;
    }
    if let Some(opacity) = request.opacity {
        layer.opacity = clamp_opacity(opacity);
    }
    proof {
        lemma_definition_update(s, i as int, *final(layer));
        let n = registry.definitions@;
        assert forall|k: int| 0 <= k < n.len() implies (#[trigger] n[k]).wf() by {
            if k != i {
                assert(n[k] == s[k]);
            }
        }
    }
    Ok(LayerDefinitionChanged { layer: request.layer })
}

/// Cells a stroke starts from: the stored mask, or a blank one.
pub open spec fn start_cells(store: LayerStore, layer: LayerId, tile: TileId, edge_cells: u16) -> Seq<RegionCode> {
    match store.tile_of(layer, tile) {
        Some(t) => t.cells@,
        None => blank_cells(edge_cells),
    }
}

pub open spec fn start_edge(store: LayerStore, layer: LayerId, tile: TileId, edge_cells: u16) -> u16 {
    match store.tile_of(layer, tile) {
        Some(t) => t.edge_cells,
        None => edge_cells,
    }
}

pub open spec fn start_revision(store: LayerStore, layer: LayerId, tile: TileId) -> u64 {
    match store.tile_of(layer, tile) {
        Some(t) => t.revision,
        None => 0,
    }
}

/// What painting one stroke did: `after` from `before`, answering `r`.
pub open spec fn stroke_painted(
    registry: LayerRegistry,
    before: LayerStore,
    after: LayerStore,
    request: PaintRegion,
    covered: Seq<(usize, usize)>,
    r: Result<Option<(RegionPatch, RegionChanged)>, LayerEditError>,
) -> bool {
    match registry.get(request.stamp.layer) {
        None => r == Err::<Option<(RegionPatch, RegionChanged)>, LayerEditError>(
            LayerEditError::MissingLayer(request.stamp.layer),
        ) && after == before,
        Some(d) => if d.locked {
            r == Err::<Option<(RegionPatch, RegionChanged)>, LayerEditError>(
                LayerEditError::LockedLayer(request.stamp.layer),
            ) && after == before
        } else {
            let layer = request.stamp.layer;
            let tile = request.stamp.tile;
            let c0 = start_cells(before, layer, tile, request.edge_cells);
            let edge = start_edge(before, layer, tile, request.edge_cells);
            let (c1, changes) = painted(c0, edge, covered, request.stamp.region);
            let rev = if changes.len() == 0 {
                start_revision(before, layer, tile)
            } else {
                next_revision(start_revision(before, layer, tile))
            };
            &&& after.tile_of(layer, tile) matches Some(t) && t.cells@ == c1 && t.edge_cells
                == edge && t.revision == rev
            &&& forall|l: LayerId, t: TileId|
                !(l == layer && t == tile) ==> #[trigger] after.tile_of(l, t) == before.tile_of(l, t)
            &&& match r {
                Ok(None) => changes.len() == 0,
                Ok(Some((patch, changed))) => changes.len() > 0 && patch.layer == layer && patch.tile
                    == tile && patch.changes@ == changes && changed == (RegionChanged {
                    layer,
                    tile,
                    revision: rev,
                }),
                Err(_) => false,
            }
        },
    }
}

/// Paints one stroke on an existing, unlocked layer. The mask is created
/// first when the tile has none, even if the stroke then changes nothing.
/// `covered` lists the cells the brush reaches, in painting order, as worked
/// out for the mask's edge (`LayerStore::paint_edge`). A stroke that changes
/// cells returns its patch, for the history, and the change to announce.
pub fn paint_region_request(
    registry: &LayerRegistry,
    layers: &mut LayerStore,
    request: &PaintRegion,
    covered: &Vec<(usize, usize)>,
) -> (r: Result<Option<(RegionPatch, RegionChanged)>, LayerEditError>)
    requires
        registry.wf(),
        old(layers).wf(),
        covered_in_grid(
            covered@,
            start_edge(*old(layers), request.stamp.layer, request.stamp.tile, request.edge_cells),
        ),
        covered_ascending(
            covered@,
            start_edge(*old(layers), request.stamp.layer, request.stamp.tile, request.edge_cells),
        ),
    ensures
        final(layers).wf(),
        stroke_painted(*registry, *old(layers), *final(layers), *request, covered@, r),
{
    let stamp = request.stamp;
    let i = match registry.position(stamp.layer) {
        Some(i) => i,
        None => return Err(LayerEditError::MissingLayer(stamp.layer)),
    };
    if registry.definitions[i].locked {
        return Err(LayerEditError::LockedLayer(stamp.layer));
    }
    let tile = layers.ensure_region_tile(stamp.layer, stamp.tile, request.edge_cells);
    proof {
        if old(layers).tile_of(stamp.layer, stamp.tile) is None {
            assert(tile.cells@ =~= blank_cells(request.edge_cells));
        }
    }
    let patch = paint_region(tile, stamp, covered);
    let revision = tile.revision;
    if patch.changes.len() == 0 {
        return Ok(None);
    }
    Ok(Some((patch, RegionChanged { layer: stamp.layer, tile: stamp.tile, revision })))
}

/// The answer a handler gives for a stroke that answered `inner`.
pub open spec fn stroke_announced(
    inner: Result<Option<(RegionPatch, RegionChanged)>, LayerEditError>,
) -> Result<Option<RegionChanged>, LayerEditError> {
    match inner {
        Err(e) => Err(e),
        Ok(None) => Ok(None),
        Ok(Some((_, changed))) => Ok(Some(changed)),
    }
}

/// Handles a paint request: the stroke is painted as `paint_region_request`
/// says, and when it changed cells its patch goes into the history (when
/// there is one) and the change is announced.
pub fn on_paint_region(
    registry: &LayerRegistry,
    layers: &mut LayerStore,
    history: &mut Option<EditHistory<AtlasUndo>>,
    request: &PaintRegion,
    covered: &Vec<(usize, usize)>,
) -> (r: Result<Option<RegionChanged>, LayerEditError>)
    requires
        registry.wf(),
        old(layers).wf(),
        covered_in_grid(
            covered@,
            start_edge(*old(layers), request.stamp.layer, request.stamp.tile, request.edge_cells),
        ),
        covered_ascending(
            covered@,
            start_edge(*old(layers), request.stamp.layer, request.stamp.tile, request.edge_cells),
        ),
    ensures
        final(layers).wf(),
        exists|inner: Result<Option<(RegionPatch, RegionChanged)>, LayerEditError>|
            #[trigger] stroke_painted(*registry, *old(layers), *final(layers), *request, covered@, inner) && r
                == stroke_announced(inner) && match inner {
                Ok(Some((patch, _))) => records(*old(history), *final(history), AtlasUndo::Region(RegionUndo(patch))),
                _ => *final(history) == *old(history),
            },
{
    let inner = paint_region_request(registry, layers, request, covered);
    let ghost answered = inner;
    match inner {
        Err(e) => Err(e),
        Ok(None) => Ok(None),
        Ok(Some((patch, changed))) => {
            record_if_present(history, AtlasUndo::Region(RegionUndo(patch)));
            assert(stroke_announced(answered) == Ok::<Option<RegionChanged>, LayerEditError>(Some(changed)));
            Ok(Some(changed))
        },
    }
}

/// The history entry of a stroke.
#[derive(Debug)]
pub struct RegionUndo(pub RegionPatch);

impl RegionUndo {
    /// Whether the patch fits the mask it belongs to, when that mask is there.
    pub open spec fn fits_mask(&self, layers: LayerStore) -> bool {
        layers.tile_of(self.0.layer, self.0.tile) matches Some(t) ==> indices_below(self.0.changes@, t.cells@.len())
    }

    /// Writes the patch into its mask, back when `forward` is false.
    pub fn apply_history_patch(&self, layers: &mut LayerStore, forward: bool) -> (r: Result<RegionChanged, String>)
        requires
            old(layers).wf(),
            self.fits_mask(*old(layers)),
        ensures
            final(layers).wf(),
            match old(layers).tile_of(self.0.layer, self.0.tile) {
                None => r is Err && *final(layers) == *old(layers),
                Some(t) => {
                    let rev = if self.0.changes@.len() == 0 {
                        t.revision
                    } else {
                        next_revision(t.revision)
                    };
                    &&& final(layers).tile_of(self.0.layer, self.0.tile) matches Some(n) && n.cells@
                        == applied(t.cells@, self.0.changes@, forward) && n.revision == rev && n.tile == t.tile
                        && n.edge_cells == t.edge_cells
                    &&& forall|l: LayerId, tt: TileId|
                        !(l == self.0.layer && tt == self.0.tile) ==> #[trigger] final(layers).tile_of(l, tt)
                            == old(layers).tile_of(l, tt)
                    &&& r == Ok::<RegionChanged, String>(
                        RegionChanged { layer: self.0.layer, tile: self.0.tile, revision: rev },
                    )
                },
            },
    {
        if layers.position(self.0.layer, self.0.tile).is_none() {
            return Err(String::from_str("region tile needed by history is not resident"));
        }
        let tile = layers.ensure_region_tile(self.0.layer, self.0.tile, 0);
        apply_region_patch(tile, &self.0, forward);
        let revision = tile.revision;
        Ok(RegionChanged { layer: self.0.layer, tile: self.0.tile, revision })
    }

    pub fn undo(&self, layers: &mut LayerStore) -> (r: Result<RegionChanged, String>)
        requires
            old(layers).wf(),
            self.fits_mask(*old(layers)),
        ensures
            final(layers).wf(),
            match old(layers).tile_of(self.0.layer, self.0.tile) {
                None => r is Err && *final(layers) == *old(layers),
                Some(t) => final(layers).tile_of(self.0.layer, self.0.tile) matches Some(n) && n.cells@
                    == applied(t.cells@, self.0.changes@, false) && r is Ok,
            },
    {
        self.apply_history_patch(layers, false)
    }

    pub fn redo(&self, layers: &mut LayerStore) -> (r: Result<RegionChanged, String>)
        requires
            old(layers).wf(),
            self.fits_mask(*old(layers)),
        ensures
            final(layers).wf(),
            match old(layers).tile_of(self.0.layer, self.0.tile) {
                None => r is Err && *final(layers) == *old(layers),
                Some(t) => final(layers).tile_of(self.0.layer, self.0.tile) matches Some(n) && n.cells@
                    == applied(t.cells@, self.0.changes@, true) && r is Ok,
            },
    {
        self.apply_history_patch(layers, true)
    }
}

impl RegionUndo {
    /// Writing the patch (back when `forward` is false) turned `before` into
    /// `after` with `result`: only its own mask changes, and a missing mask is
    /// an error that changes nothing.
    pub open spec fn written(&self, before: LayerStore, after: LayerStore, forward: bool, result: Result<(), String>) -> bool {
        &&& after.wf()
        &&& match before.tile_of(self.0.layer, self.0.tile) {
            None => result is Err && after == before,
            Some(t) => {
                let rev = if self.0.changes@.len() == 0 {
                    t.revision
                } else {
                    next_revision(t.revision)
                };
                &&& after.tile_of(self.0.layer, self.0.tile) matches Some(n) && n.cells@ == applied(
                    t.cells@,
                    self.0.changes@,
                    forward,
                ) && n.revision == rev && n.tile == t.tile && n.edge_cells == t.edge_cells
                &&& forall|l: LayerId, tt: TileId|
                    !(l == self.0.layer && tt == self.0.tile) ==> #[trigger] after.tile_of(l, tt)
                        == before.tile_of(l, tt)
                &&& result is Ok
            },
        }
    }
}

/// A stroke as history keeps it, run against the region masks.
impl UndoAction<LayerStore> for RegionUndo {
    open spec fn fits(&self, world: LayerStore) -> bool {
        world.wf() && self.fits_mask(world)
    }

    open spec fn undone(&self, before: LayerStore, after: LayerStore, result: Result<(), String>) -> bool {
        self.written(before, after, false, result)
    }

    open spec fn redone(&self, before: LayerStore, after: LayerStore, result: Result<(), String>) -> bool {
        self.written(before, after, true, result)
    }

    fn undo(&self, world: &mut LayerStore) -> (r: Result<(), String>) {
        match self.apply_history_patch(world, false) {
            Ok(_) => Ok(()),
            Err(e) => Err(e),
        }
    }

    fn redo(&self, world: &mut LayerStore) -> (r: Result<(), String>) {
        match self.apply_history_patch(world, true) {
            Ok(_) => Ok(()),
            Err(e) => Err(e),
        }
    }
}

impl Default for LayerRegistry {
    fn default() -> (r: LayerRegistry)
        ensures
            r.wf(),
            r.ordering@.len() == 0,
            r.definitions@.len() == 0,
    {
        LayerRegistry::new()
    }
}

impl Default for LayerStore {
    fn default() -> (r: LayerStore)
        ensures
            r.wf(),
            r.categorical_tiles@.len() == 0,
    {
        LayerStore::new()
    }
}

} // verus!
