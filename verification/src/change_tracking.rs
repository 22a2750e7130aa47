//! Which derived products of which tiles are stale after edits.
use vstd::prelude::*;
use crate::coordinates::TileId;

verus! {

/// A set of derived products, one bit each.
#[derive(Debug, Clone, Copy, PartialEq, Eq, Structural)]
pub struct DerivedProducts(pub u16);

impl DerivedProducts {
    pub const NORMALS: u16 = 1 << 0;
    pub const SLOPE: u16 = 1 << 1;
    pub const FLOW: u16 = 1 << 2;
    pub const EROSION: u16 = 1 << 3;
    pub const RIVERS: u16 = 1 << 4;
    pub const MOISTURE: u16 = 1 << 5;
    pub const BIOMES: u16 = 1 << 6;
    pub const REGION_BOUNDARIES: u16 = 1 << 7;
    pub const LABEL_LAYOUT: u16 = 1 << 8;

    pub fn empty() -> (r: DerivedProducts)
        ensures
            r.0 == 0,
    {
        DerivedProducts(0)
    }

    pub fn union(self, other: DerivedProducts) -> (r: DerivedProducts)
        ensures
            r.0 == self.0 | other.0,
    {
        DerivedProducts(self.0 | other.0)
    }

    /// Removes every product of `other`.
    pub fn remove(&mut self, other: DerivedProducts)
        ensures
            final(self).0 == old(self).0 & !other.0,
    {
        self.0 = self.0 & !other.0;
    }

    pub fn is_empty(self) -> (r: bool)
        ensures
            r == (self.0 == 0),
    {
        self.0 == 0
    }

    pub fn contains(self, other: DerivedProducts) -> (r: bool)
        ensures
            r == (self.0 & other.0 == other.0),
    {
        self.0 & other.0 == other.0
    }
}

/// Stale products per tile, in ascending tile order, each tile at most once.
pub struct DirtyTracker {
    pub tiles: Vec<(TileId, DerivedProducts)>,
    pub feature_labels: bool,
}

pub open spec fn sorted_entries(s: Seq<(TileId, DerivedProducts)>) -> bool {
    forall|i: int, j: int| 0 <= i < j < s.len() ==> (#[trigger] s[i]).0.precedes((#[trigger] s[j]).0)
}

/// Number of leading entries whose tile precedes `tile`.
pub open spec fn entry_pos(s: Seq<(TileId, DerivedProducts)>, tile: TileId) -> nat
    decreases s.len(),
{
    if s.len() > 0 && s[0].0.precedes(tile) {
        1 + entry_pos(s.drop_first(), tile)
    } else {
        0
    }
}

pub open spec fn has_entry(s: Seq<(TileId, DerivedProducts)>, tile: TileId) -> bool {
    entry_pos(s, tile) < s.len() && s[entry_pos(s, tile) as int].0 == tile
}

/// Stale products of a tile (none when it has no entry).
pub open spec fn stale(s: Seq<(TileId, DerivedProducts)>, tile: TileId) -> u16 {
    if has_entry(s, tile) {
        s[entry_pos(s, tile) as int].1.0
    } else {
        0
    }
}

/// Entries after marking `products` stale on `tile`.
pub open spec fn marked(s: Seq<(TileId, DerivedProducts)>, tile: TileId, products: u16) -> Seq<(TileId, DerivedProducts)> {
    let p = entry_pos(s, tile) as int;
    if has_entry(s, tile) {
        s.update(p, (tile, DerivedProducts(s[p].1.0 | products)))
    } else {
        s.insert(p, (tile, DerivedProducts(products)))
    }
}

/// Entries after clearing `products` on `tile`; a tile left with nothing stale
/// loses its entry.
pub open spec fn cleared(s: Seq<(TileId, DerivedProducts)>, tile: TileId, products: u16) -> Seq<(TileId, DerivedProducts)> {
    let p = entry_pos(s, tile) as int;
    if has_entry(s, tile) {
        let rest = s[p].1.0 & !products;
        if rest == 0 {
            s.remove(p)
        } else {
            s.update(p, (tile, DerivedProducts(rest)))
        }
    } else {
        s
    }
}

proof fn lemma_entry_pos(s: Seq<(TileId, DerivedProducts)>, tile: TileId, i: int)
    requires
        sorted_entries(s),
        0 <= i <= s.len(),
        forall|j: int| 0 <= j < i ==> (#[trigger] s[j]).0.precedes(tile),
        i == s.len() || !s[i].0.precedes(tile),
    ensures
        entry_pos(s, tile) == i,
    decreases i,
{
    if i > 0 {
        let t = s.drop_first();
        assert forall|a: int, b: int| 0 <= a < b < t.len() implies (#[trigger] t[a]).0.precedes(
            (#[trigger] t[b]).0,
        ) by {
            assert(t[a] == s[a + 1] && t[b] == s[b + 1]);
        }
        assert forall|j: int| 0 <= j < i - 1 implies (#[trigger] t[j]).0.precedes(tile) by {
            assert(t[j] == s[j + 1]);
        }
        if i < s.len() {
            assert(t[i - 1] == s[i]);
        }
        lemma_entry_pos(t, tile, i - 1);
    }
}

proof fn lemma_entry_pos_bounds(s: Seq<(TileId, DerivedProducts)>, tile: TileId)
    ensures
        entry_pos(s, tile) <= s.len(),
        forall|j: int| 0 <= j < entry_pos(s, tile) ==> (#[trigger] s[j]).0.precedes(tile),
        entry_pos(s, tile) < s.len() ==> !s[entry_pos(s, tile) as int].0.precedes(tile),
    decreases s.len(),
{
    if s.len() > 0 && s[0].0.precedes(tile) {
        let t = s.drop_first();
        lemma_entry_pos_bounds(t, tile);
        assert forall|j: int| 0 <= j < entry_pos(s, tile) implies (#[trigger] s[j]).0.precedes(tile) by {
            if j > 0 {
                assert(s[j] == t[j - 1]);
            }
        }
        if entry_pos(s, tile) < s.len() {
            assert(s[entry_pos(s, tile) as int] == t[entry_pos(t, tile) as int]);
        }
    }
}

/// Where a tile has an entry, it is the one that `stale` reads.
proof fn lemma_found(s: Seq<(TileId, DerivedProducts)>, tile: TileId, i: int)
    requires
        sorted_entries(s),
        0 <= i < s.len(),
        s[i].0 == tile,
    ensures
        entry_pos(s, tile) == i,
        has_entry(s, tile),
        stale(s, tile) == s[i].1.0,
{
    crate::coordinates::lemma_precedes_total(tile, tile);
    assert forall|j: int| 0 <= j < i implies (#[trigger] s[j]).0.precedes(tile) by {
        assert(s[j].0.precedes(s[i].0));
    }
    lemma_entry_pos(s, tile, i);
}

/// A tile with no entry has nothing stale.
proof fn lemma_absent(s: Seq<(TileId, DerivedProducts)>, tile: TileId)
    requires
        forall|i: int| 0 <= i < s.len() ==> (#[trigger] s[i]).0 != tile,
    ensures
        !has_entry(s, tile),
        stale(s, tile) == 0,
{
    if entry_pos(s, tile) < s.len() {
        assert(s[entry_pos(s, tile) as int].0 != tile);
    }
}

proof fn lemma_marked_sorted(s: Seq<(TileId, DerivedProducts)>, tile: TileId, products: u16)
    requires
        sorted_entries(s),
    ensures
        sorted_entries(marked(s, tile, products)),
{
    lemma_entry_pos_bounds(s, tile);
    let p = entry_pos(s, tile) as int;
    let n = marked(s, tile, products);
    if has_entry(s, tile) {
        assert forall|i: int, j: int| 0 <= i < j < n.len() implies (#[trigger] n[i]).0.precedes(
            (#[trigger] n[j]).0,
        ) by {
            assert(n[i].0 == s[i].0 && n[j].0 == s[j].0);
        }
    } else {
        if p < s.len() {
            crate::coordinates::lemma_precedes_total(s[p].0, tile);
        }
        assert forall|i: int, j: int| 0 <= i < j < n.len() implies (#[trigger] n[i]).0.precedes(
            (#[trigger] n[j]).0,
        ) by {
            if j < p {
                assert(n[i] == s[i] && n[j] == s[j]);
            } else if j == p {
                assert(n[i] == s[i]);
            } else if i == p {
                assert(n[j] == s[j - 1]);
                if j - 1 > p {
                    crate::coordinates::lemma_precedes_transitive(tile, s[p].0, s[j - 1].0);
                }
            } else if i < p {
                assert(n[i] == s[i] && n[j] == s[j - 1]);
            } else {
                assert(n[i] == s[i - 1] && n[j] == s[j - 1]);
            }
        }
    }
}

proof fn lemma_cleared_sorted(s: Seq<(TileId, DerivedProducts)>, tile: TileId, products: u16)
    requires
        sorted_entries(s),
    ensures
        sorted_entries(cleared(s, tile, products)),
{
    let p = entry_pos(s, tile) as int;
    let n = cleared(s, tile, products);
    if has_entry(s, tile) {
        if s[p].1.0 & !products == 0 {
            assert forall|i: int, j: int| 0 <= i < j < n.len() implies (#[trigger] n[i]).0.precedes(
                (#[trigger] n[j]).0,
            ) by {
                if j < p {
                    assert(n[i] == s[i] && n[j] == s[j]);
                } else if i < p {
                    assert(n[i] == s[i] && n[j] == s[j + 1]);
                } else {
                    assert(n[i] == s[i + 1] && n[j] == s[j + 1]);
                }
            }
        } else {
            assert forall|i: int, j: int| 0 <= i < j < n.len() implies (#[trigger] n[i]).0.precedes(
                (#[trigger] n[j]).0,
            ) by {
                assert(n[i].0 == s[i].0 && n[j].0 == s[j].0);
            }
        }
    }
}

impl DirtyTracker {
    pub open spec fn wf(&self) -> bool {
        sorted_entries(self.tiles@)
    }

    pub fn new() -> (r: DirtyTracker)
        ensures
            r.wf(),
            r.tiles@.len() == 0,
            !r.feature_labels,
    {
        DirtyTracker { tiles: Vec::new(), feature_labels: false }
    }

    fn position(&self, tile: &TileId) -> (r: usize)
        requires
            self.wf(),
        ensures
            r == entry_pos(self.tiles@, *tile),
            r <= self.tiles@.len(),
            forall|j: int| 0 <= j < r ==> (#[trigger] self.tiles@[j]).0.precedes(*tile),
            r < self.tiles@.len() ==> !self.tiles@[r as int].0.precedes(*tile),
    {
        let mut i: usize = 0;
        while i < self.tiles.len() && self.tiles[i].0.is_before(tile)
            invariant
                i <= self.tiles@.len(),
                sorted_entries(self.tiles@),
                forall|j: int| 0 <= j < i ==> (#[trigger] self.tiles@[j]).0.precedes(*tile),
            decreases self.tiles.len() - i,
        {
            i = i + 1;
        }
        proof {
            lemma_entry_pos(self.tiles@, *tile, i as int);
        }
        i
    }

    /// Marks `products` of `tile` stale.
    pub fn mark(&mut self, tile: TileId, products: DerivedProducts)
        requires
            old(self).wf(),
        ensures
            final(self).wf(),
            final(self).tiles@ == marked(old(self).tiles@, tile, products.0),
            final(self).feature_labels == old(self).feature_labels,
    {
        let p = self.position(&tile);
        proof {
            lemma_marked_sorted(self.tiles@, tile, products.0);
        }
        if p < self.tiles.len() && self.tiles[p].0.same(&tile) {
            let merged = self.tiles[p].1.union(products);
            self.tiles.set(p, (tile, merged));
        } else {
            self.tiles.insert(p, (tile, products));
        }
    }

    /// Clears `products` of `tile`; the tile is forgotten once nothing of it is
    /// stale.
    pub fn clear(&mut self, tile: TileId, products: DerivedProducts)
        requires
            old(self).wf(),
        ensures
            final(self).wf(),
            final(self).tiles@ == cleared(old(self).tiles@, tile, products.0),
            final(self).feature_labels == old(self).feature_labels,
    {
        let p = self.position(&tile);
        proof {
            lemma_cleared_sorted(self.tiles@, tile, products.0);
        }
        if p < self.tiles.len() && self.tiles[p].0.same(&tile) {
            let mut dirty = self.tiles[p].1;
            dirty.remove(products);
            if dirty.is_empty() {
                self.tiles.remove(p);
            } else {
                self.tiles.set(p, (tile, dirty));
            }
        }
    }
}

/// Marking adds `products` to what is stale on `tile` and leaves every other
/// tile as it was.
pub proof fn lemma_mark_stale(s: Seq<(TileId, DerivedProducts)>, tile: TileId, products: u16, other: TileId)
    requires
        sorted_entries(s),
    ensures
        stale(marked(s, tile, products), other) == (if other == tile {
            stale(s, tile) | products
        } else {
            stale(s, other)
        }),
{
    lemma_entry_pos_bounds(s, tile);
    lemma_marked_sorted(s, tile, products);
    let p = entry_pos(s, tile) as int;
    let n = marked(s, tile, products);
    if has_entry(s, tile) {
        lemma_found(n, tile, p);
        if other != tile {
            if exists|i: int| 0 <= i < s.len() && s[i].0 == other {
                let i = choose|i: int| 0 <= i < s.len() && s[i].0 == other;
                lemma_found(s, other, i);
                lemma_found(n, other, i);
            } else {
                lemma_absent(s, other);
                assert forall|i: int| 0 <= i < n.len() implies (#[trigger] n[i]).0 != other by {
                    if i != p {
                        assert(n[i] == s[i]);
                    }
                }
                lemma_absent(n, other);
            }
        }
    } else {
        lemma_found(n, tile, p);
        assert(0u16 | products == products) by (bit_vector);
        if other == tile {
            assert forall|i: int| 0 <= i < s.len() implies (#[trigger] s[i]).0 != tile by {
                if s[i].0 == tile {
                    lemma_found(s, tile, i);
                }
            }
            lemma_absent(s, tile);
        } else if exists|i: int| 0 <= i < s.len() && s[i].0 == other {
            let i = choose|i: int| 0 <= i < s.len() && s[i].0 == other;
            lemma_found(s, other, i);
            if i < p {
                assert(n[i] == s[i]);
                lemma_found(n, other, i);
            } else {
                assert(n[i + 1] == s[i]);
                lemma_found(n, other, i + 1);
            }
        } else {
            lemma_absent(s, other);
            assert forall|i: int| 0 <= i < n.len() implies (#[trigger] n[i]).0 != other by {
                if i < p {
                    assert(n[i] == s[i]);
                } else if i > p {
                    assert(n[i] == s[i - 1]);
                }
            }
            lemma_absent(n, other);
        }
    }
}

/// Clearing takes `products` out of what is stale on `tile` and leaves every
/// other tile as it was.
pub proof fn lemma_clear_stale(s: Seq<(TileId, DerivedProducts)>, tile: TileId, products: u16, other: TileId)
    requires
        sorted_entries(s),
    ensures
        stale(cleared(s, tile, products), other) == (if other == tile {
            stale(s, tile) & !products
        } else {
            stale(s, other)
        }),
{
    lemma_entry_pos_bounds(s, tile);
    lemma_cleared_sorted(s, tile, products);
    let p = entry_pos(s, tile) as int;
    let n = cleared(s, tile, products);
    if has_entry(s, tile) {
        let rest = s[p].1.0 & !products;
        if rest == 0 {
            if other == tile {
                assert forall|i: int| 0 <= i < n.len() implies (#[trigger] n[i]).0 != tile by {
                    if i < p {
                        assert(n[i] == s[i]);
                        crate::coordinates::lemma_precedes_total(tile, tile);
                    } else {
                        assert(n[i] == s[i + 1]);
                        assert(s[p].0.precedes(s[i + 1].0));
                        crate::coordinates::lemma_precedes_total(tile, tile);
                    }
                }
                lemma_absent(n, tile);
            } else if exists|i: int| 0 <= i < s.len() && s[i].0 == other {
                let i = choose|i: int| 0 <= i < s.len() && s[i].0 == other;
                lemma_found(s, other, i);
                if i < p {
                    assert(n[i] == s[i]);
                    lemma_found(n, other, i);
                } else {
                    assert(i != p);
                    assert(n[i - 1] == s[i]);
                    lemma_found(n, other, i - 1);
                }
            } else {
                lemma_absent(s, other);
                assert forall|i: int| 0 <= i < n.len() implies (#[trigger] n[i]).0 != other by {
                    if i < p {
                        assert(n[i] == s[i]);
                    } else {
                        assert(n[i] == s[i + 1]);
                    }
                }
                lemma_absent(n, other);
            }
        } else {
            lemma_found(n, tile, p);
            if other != tile {
                if exists|i: int| 0 <= i < s.len() && s[i].0 == other {
                    let i = choose|i: int| 0 <= i < s.len() && s[i].0 == other;
                    lemma_found(s, other, i);
                    lemma_found(n, other, i);
                } else {
                    lemma_absent(s, other);
                    assert forall|i: int| 0 <= i < n.len() implies (#[trigger] n[i]).0 != other by {
                        if i != p {
                            assert(n[i] == s[i]);
                        }
                    }
                    lemma_absent(n, other);
                }
            }
        }
    } else {
        assert(0u16 & !products == 0) by (bit_vector);
        if other == tile {
            assert forall|i: int| 0 <= i < s.len() implies (#[trigger] s[i]).0 != tile by {
                if s[i].0 == tile {
                    lemma_found(s, tile, i);
                }
            }
            lemma_absent(s, tile);
        }
    }
}

/// Marking products on a tile with nothing stale and then clearing the same
/// products leaves the tracker as it was.
pub proof fn lemma_mark_then_clear(s: Seq<(TileId, DerivedProducts)>, tile: TileId, products: u16)
    requires
        sorted_entries(s),
        !has_entry(s, tile),
    ensures
        cleared(marked(s, tile, products), tile, products) == s,
{
    lemma_entry_pos_bounds(s, tile);
    lemma_marked_sorted(s, tile, products);
    let p = entry_pos(s, tile) as int;
    let n = marked(s, tile, products);
    lemma_found(n, tile, p);
    assert(products & !products == 0) by (bit_vector);
    assert(n.remove(p) =~= s);
}

/// Products that go stale when a tile's heights change.
pub open spec fn height_products() -> u16 {
    DerivedProducts::NORMALS | DerivedProducts::SLOPE | DerivedProducts::FLOW
        | DerivedProducts::EROSION | DerivedProducts::RIVERS | DerivedProducts::MOISTURE
        | DerivedProducts::BIOMES
}

/// Products that go stale when a tile's regions change.
pub open spec fn region_products() -> u16 {
    DerivedProducts::REGION_BOUNDARIES | DerivedProducts::LABEL_LAYOUT
}

/// Reaction to changed heights on `tile`.
pub fn invalidate_from_height(dirty: &mut DirtyTracker, tile: TileId)
    requires
        old(dirty).wf(),
    ensures
        final(dirty).wf(),
        final(dirty).tiles@ == marked(old(dirty).tiles@, tile, height_products()),
        final(dirty).feature_labels == old(dirty).feature_labels,
{
    let products = DerivedProducts(
        DerivedProducts::NORMALS | DerivedProducts::SLOPE | DerivedProducts::FLOW
            | DerivedProducts::EROSION | DerivedProducts::RIVERS | DerivedProducts::MOISTURE
            | DerivedProducts::BIOMES,
    );
    dirty.mark(tile, products);
}

/// Reaction to changed regions on `tile`.
pub fn invalidate_from_regions(dirty: &mut DirtyTracker, tile: TileId)
    requires
        old(dirty).wf(),
    ensures
        final(dirty).wf(),
        final(dirty).tiles@ == marked(old(dirty).tiles@, tile, region_products()),
        final(dirty).feature_labels == old(dirty).feature_labels,
{
    let products = DerivedProducts(DerivedProducts::REGION_BOUNDARIES | DerivedProducts::LABEL_LAYOUT);
    dirty.mark(tile, products);
}

/// Reaction to a changed feature: labels must be laid out again.
pub fn invalidate_from_features(dirty: &mut DirtyTracker)
    ensures
        final(dirty).feature_labels,
        final(dirty).tiles@ == old(dirty).tiles@,
{
    dirty.feature_labels = true;
}

impl Default for DirtyTracker {
    fn default() -> (r: DirtyTracker)
        ensures
            r.wf(),
            r.tiles@.len() == 0,
            !r.feature_labels,
    {
        DirtyTracker::new()
    }
}

/// Reacts to change events by marking derived products stale; it owns no
/// terrain, layer or feature data.
pub struct ChangeTrackingPlugin;

} // verus!
