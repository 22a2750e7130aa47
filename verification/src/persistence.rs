//! The saved project: its records as plain values and the checks a loaded
//! project must pass before it replaces the live state. Reading, writing and
//! the JSON encoding happen outside the library.
use vstd::prelude::*;
use crate::coordinates::{PlanetSpec, SurfacePosition, TileId, lemma_precedes_total, lemma_precedes_transitive};
use crate::change_tracking::DirtyTracker;
use crate::history::EditHistory;
use crate::features::{
    FeatureGeometry, FeatureStore, MapFeature, feature_of, lemma_absent_feature, lemma_with_feature, with_feature,
};
use crate::layers::{LayerDefinition, LayerRegistry, LayerStore, RegionTile, unique_ids, lemma_region_tile_at};
use crate::protocol::{FeatureId, LayerId};
use crate::editor::{ActiveEditTile, LayerSelection, SelectedFeature};
use std::path::PathBuf;

verus! {

pub const PROJECT_SCHEMA_VERSION: u32 = 1;

/// A terrain tile as saved. Heights are bit patterns of `f32` values, row
/// major, `edge_samples` to a side.
#[derive(Debug)]
pub struct HeightTileRecord {
    pub id: TileId,
    pub edge_samples: u16,
    pub revision: u64,
    pub min_height_m: u32,
    pub max_height_m: u32,
    pub samples: Vec<u32>,
}

/// A categorical mask as saved, with the layer it belongs to.
#[derive(Debug)]
pub struct ProjectRegionTile {
    pub layer: LayerId,
    pub tile: RegionTile,
}

/// Everything a project file holds.
#[derive(Debug)]
pub struct ProjectSnapshot {
    pub schema_version: u32,
    pub planet: PlanetSpec,
    pub terrain_tiles: Vec<HeightTileRecord>,
    pub layers: Vec<LayerDefinition>,
    pub categorical_tiles: Vec<ProjectRegionTile>,
    pub features: Vec<MapFeature>,
}

/// Why a loaded project was refused.
#[derive(Debug, Clone, Copy, PartialEq, Eq, Structural)]
pub enum SnapshotError {
    UnsupportedSchema(u32),
    InvalidPlanetRadius,
    InconsistentTerrainTile,
    InvalidTerrainSamples(TileId),
    DuplicateLayer(LayerId),
    InconsistentCategoricalTile,
    DuplicateFeature(FeatureId),
    MissingFeatureLayer(FeatureId),
    InvalidFeaturePosition(FeatureId),
}

/// Whether the bit pattern is that of a finite `f32`.
pub open spec fn f32_finite(bits: u32) -> bool {
    bits & 0x7f80_0000 != 0x7f80_0000
}

/// Whether the bit pattern is that of an `f64` in `-1.0..=1.0`.
pub open spec fn f64_unit(bits: u64) -> bool {
    bits & 0x7fff_ffff_ffff_ffff <= 0x3ff0_0000_0000_0000
}

/// Whether the bit pattern is that of a finite `f64` above zero.
pub open spec fn f64_positive_finite(bits: u64) -> bool {
    0 < bits < 0x7ff0_0000_0000_0000
}

pub open spec fn position_valid(p: SurfacePosition) -> bool {
    f64_unit(p.u) && f64_unit(p.v) && f32_finite(p.altitude_m)
}

pub open spec fn geometry_valid(g: FeatureGeometry) -> bool {
    match g {
        FeatureGeometry::Point(p) => position_valid(p),
        FeatureGeometry::Path(points) => forall|k: int| 0 <= k < points@.len() ==> position_valid(#[trigger] points@[k]),
    }
}

/// The first error the checks of items `0..n` find, in item order.
pub open spec fn first_failure(n: int, check: spec_fn(int) -> Option<SnapshotError>) -> Option<SnapshotError>
    decreases n,
{
    if n <= 0 {
        None
    } else {
        match first_failure(n - 1, check) {
            Some(e) => Some(e),
            None => check(n - 1),
        }
    }
}

pub open spec fn terrain_check(tiles: Seq<HeightTileRecord>, i: int) -> Option<SnapshotError> {
    let t = tiles[i];
    if (exists|j: int| 0 <= j < i && #[trigger] tiles[j].id == t.id) || t.edge_samples < 2 {
        Some(SnapshotError::InconsistentTerrainTile)
    } else if t.samples@.len() != t.edge_samples * t.edge_samples || exists|k: int|
        0 <= k < t.samples@.len() && !f32_finite(#[trigger] t.samples@[k]) {
        Some(SnapshotError::InvalidTerrainSamples(t.id))
    } else {
        None
    }
}

pub open spec fn layer_check(layers: Seq<LayerDefinition>, i: int) -> Option<SnapshotError> {
    if exists|j: int| 0 <= j < i && #[trigger] layers[j].id == layers[i].id {
        Some(SnapshotError::DuplicateLayer(layers[i].id))
    } else {
        None
    }
}

pub open spec fn has_layer(layers: Seq<LayerDefinition>, id: LayerId) -> bool {
    exists|j: int| 0 <= j < layers.len() && #[trigger] layers[j].id == id
}

pub open spec fn categorical_check(
    records: Seq<ProjectRegionTile>,
    layers: Seq<LayerDefinition>,
    i: int,
) -> Option<SnapshotError> {
    let r = records[i];
    if !has_layer(layers, r.layer) || (exists|j: int|
        0 <= j < i && #[trigger] records[j].layer == r.layer && records[j].tile.tile == r.tile.tile)
        || r.tile.cells@.len() != r.tile.edge_cells * r.tile.edge_cells {
        Some(SnapshotError::InconsistentCategoricalTile)
    } else {
        None
    }
}

pub open spec fn feature_check(features: Seq<MapFeature>, layers: Seq<LayerDefinition>, i: int) -> Option<SnapshotError> {
    let f = features[i];
    if exists|j: int| 0 <= j < i && #[trigger] features[j].id == f.id {
        Some(SnapshotError::DuplicateFeature(f.id))
    } else if f.layer matches Some(l) && !has_layer(layers, l) {
        Some(SnapshotError::MissingFeatureLayer(f.id))
    } else if !geometry_valid(f.geometry) {
        Some(SnapshotError::InvalidFeaturePosition(f.id))
    } else {
        None
    }
}

pub open spec fn terrain_checks(tiles: Seq<HeightTileRecord>) -> spec_fn(int) -> Option<SnapshotError> {
    |i: int| terrain_check(tiles, i)
}

pub open spec fn layer_checks(layers: Seq<LayerDefinition>) -> spec_fn(int) -> Option<SnapshotError> {
    |i: int| layer_check(layers, i)
}

pub open spec fn categorical_checks(
    records: Seq<ProjectRegionTile>,
    layers: Seq<LayerDefinition>,
) -> spec_fn(int) -> Option<SnapshotError> {
    |i: int| categorical_check(records, layers, i)
}

pub open spec fn feature_checks(features: Seq<MapFeature>, layers: Seq<LayerDefinition>) -> spec_fn(int) -> Option<SnapshotError> {
    |i: int| feature_check(features, layers, i)
}

/// The reason a snapshot is refused, checking in order: the schema, the
/// planet, each terrain tile, each layer, each mask, each feature.
pub open spec fn snapshot_error(s: ProjectSnapshot) -> Option<SnapshotError> {
    let tiles = s.terrain_tiles@;
    let layers = s.layers@;
    let records = s.categorical_tiles@;
    let features = s.features@;
    if s.schema_version != PROJECT_SCHEMA_VERSION {
        Some(SnapshotError::UnsupportedSchema(s.schema_version))
    } else if !f64_positive_finite(s.planet.radius_m) {
        Some(SnapshotError::InvalidPlanetRadius)
    } else if first_failure(tiles.len() as int, terrain_checks(tiles)) is Some {
        first_failure(tiles.len() as int, terrain_checks(tiles))
    } else if first_failure(layers.len() as int, layer_checks(layers)) is Some {
        first_failure(layers.len() as int, layer_checks(layers))
    } else if first_failure(records.len() as int, categorical_checks(records, layers)) is Some {
        first_failure(records.len() as int, categorical_checks(records, layers))
    } else {
        first_failure(features.len() as int, feature_checks(features, layers))
    }
}

fn f32_is_finite(bits: u32) -> (r: bool)
    ensures
        r == f32_finite(bits),
{
    bits & 0x7f80_0000 != 0x7f80_0000
}

fn position_ok(p: &SurfacePosition) -> (r: bool)
    ensures
        r == position_valid(*p),
{
    p.u & 0x7fff_ffff_ffff_ffff <= 0x3ff0_0000_0000_0000 && p.v & 0x7fff_ffff_ffff_ffff
        <= 0x3ff0_0000_0000_0000 && f32_is_finite(p.altitude_m)
}

fn geometry_ok(g: &FeatureGeometry) -> (r: bool)
    ensures
        r == geometry_valid(*g),
{
    match g {
        FeatureGeometry::Point(p) => position_ok(p),
        FeatureGeometry::Path(points) => {
            let mut k: usize = 0;
            while k < points.len()
                invariant
                    k <= points@.len(),
                    forall|m: int| 0 <= m < k ==> position_valid(#[trigger] points@[m]),
                    geometry_valid(*g) == forall|m: int|
                        0 <= m < points@.len() ==> position_valid(#[trigger] points@[m]),
                decreases points.len() - k,
            {
                if !position_ok(&points[k]) {
                    assert(!position_valid(points@[k as int]));
                    return false;
                }
                k = k + 1;
            }
            true
        },
    }
}

fn terrain_tile_check(tiles: &Vec<HeightTileRecord>, i: usize) -> (r: Option<SnapshotError>)
    requires
        i < tiles@.len(),
    ensures
        r == terrain_check(tiles@, i as int),
{
    let t = &tiles[i];
    let mut j: usize = 0;
    while j < i
        invariant
            j <= i < tiles@.len(),
            *t == tiles@[i as int],
            forall|m: int| 0 <= m < j ==> tiles@[m].id != t.id,
        decreases i - j,
    {
        if tiles[j].id == t.id {
            return Some(SnapshotError::InconsistentTerrainTile);
        }
        j = j + 1;
    }
    if t.edge_samples < 2 {
        return Some(SnapshotError::InconsistentTerrainTile);
    }
    proof {
        assert(t.edge_samples * t.edge_samples <= 0xffff * 0xffff) by (nonlinear_arith)
            requires
                t.edge_samples <= 0xffff,
        ;
    }
    let expected: usize = t.edge_samples as usize * t.edge_samples as usize;
    if t.samples.len() != expected {
        return Some(SnapshotError::InvalidTerrainSamples(t.id));
    }
    let mut k: usize = 0;
    while k < t.samples.len()
        invariant
            k <= t.samples@.len(),
            forall|m: int| 0 <= m < k ==> f32_finite(#[trigger] t.samples@[m]),
            i < tiles@.len(),
            *t == tiles@[i as int],
            forall|m: int| 0 <= m < i ==> tiles@[m].id != t.id,
            t.edge_samples >= 2,
            t.samples@.len() == t.edge_samples * t.edge_samples,
        decreases t.samples.len() - k,
    {
        if !f32_is_finite(t.samples[k]) {
            assert(!f32_finite(t.samples@[k as int]));
            return Some(SnapshotError::InvalidTerrainSamples(t.id));
        }
        k = k + 1;
    }
    None
}

fn layer_entry_check(layers: &Vec<LayerDefinition>, i: usize) -> (r: Option<SnapshotError>)
    requires
        i < layers@.len(),
    ensures
        r == layer_check(layers@, i as int),
{
    let mut j: usize = 0;
    while j < i
        invariant
            j <= i < layers@.len(),
            forall|m: int| 0 <= m < j ==> layers@[m].id != layers@[i as int].id,
        decreases i - j,
    {
        if layers[j].id == layers[i].id {
            return Some(SnapshotError::DuplicateLayer(layers[i].id));
        }
        j = j + 1;
    }
    None
}

fn layer_listed(layers: &Vec<LayerDefinition>, id: LayerId) -> (r: bool)
    ensures
        r == has_layer(layers@, id),
{
    let mut j: usize = 0;
    while j < layers.len()
        invariant
            j <= layers@.len(),
            forall|m: int| 0 <= m < j ==> layers@[m].id != id,
        decreases layers.len() - j,
    {
        if layers[j].id == id {
            return true;
        }
        j = j + 1;
    }
    false
}

fn categorical_entry_check(records: &Vec<ProjectRegionTile>, layers: &Vec<LayerDefinition>, i: usize) -> (r: Option<SnapshotError>)
    requires
        i < records@.len(),
    ensures
        r == categorical_check(records@, layers@, i as int),
{
    let r = &records[i];
    if !layer_listed(layers, r.layer) {
        return Some(SnapshotError::InconsistentCategoricalTile);
    }
    let mut j: usize = 0;
    while j < i
        invariant
            j <= i < records@.len(),
            *r == records@[i as int],
            forall|m: int| 0 <= m < j ==> !(records@[m].layer == r.layer && records@[m].tile.tile == r.tile.tile),
        decreases i - j,
    {
        if records[j].layer == r.layer && records[j].tile.tile == r.tile.tile {
            return Some(SnapshotError::InconsistentCategoricalTile);
        }
        j = j + 1;
    }
    proof {
        assert(r.tile.edge_cells * r.tile.edge_cells <= 0xffff * 0xffff) by (nonlinear_arith)
            requires
                r.tile.edge_cells <= 0xffff,
        ;
    }
    if r.tile.cells.len() != r.tile.edge_cells as usize * r.tile.edge_cells as usize {
        return Some(SnapshotError::InconsistentCategoricalTile);
    }
    None
}

fn feature_entry_check(features: &Vec<MapFeature>, layers: &Vec<LayerDefinition>, i: usize) -> (r: Option<SnapshotError>)
    requires
        i < features@.len(),
    ensures
        r == feature_check(features@, layers@, i as int),
{
    let f = &features[i];
    let mut j: usize = 0;
    while j < i
        invariant
            j <= i < features@.len(),
            *f == features@[i as int],
            forall|m: int| 0 <= m < j ==> features@[m].id != f.id,
        decreases i - j,
    {
        if features[j].id == f.id {
            return Some(SnapshotError::DuplicateFeature(f.id));
        }
        j = j + 1;
    }
    if let Some(l) = f.layer {
        if !layer_listed(layers, l) {
            return Some(SnapshotError::MissingFeatureLayer(f.id));
        }
    }
    if !geometry_ok(&f.geometry) {
        return Some(SnapshotError::InvalidFeaturePosition(f.id));
    }
    None
}

/// Checks a loaded project before it replaces the live state.
pub fn validate_snapshot(snapshot: &ProjectSnapshot) -> (r: Result<(), SnapshotError>)
    ensures
        match snapshot_error(*snapshot) {
            Some(e) => r == Err::<(), SnapshotError>(e),
            None => r is Ok,
        },
{
    if snapshot.schema_version != PROJECT_SCHEMA_VERSION {
        return Err(SnapshotError::UnsupportedSchema(snapshot.schema_version));
    }
    if !(0 < snapshot.planet.radius_m && snapshot.planet.radius_m < 0x7ff0_0000_0000_0000) {
        return Err(SnapshotError::InvalidPlanetRadius);
    }
    let ghost tiles = snapshot.terrain_tiles@;
    let ghost tcheck = terrain_checks(tiles);
    let mut i: usize = 0;
    while i < snapshot.terrain_tiles.len()
        invariant
            i <= tiles.len(),
            tiles == snapshot.terrain_tiles@,
            tcheck == terrain_checks(tiles),
            first_failure(i as int, tcheck) is None,
            snapshot.schema_version == PROJECT_SCHEMA_VERSION,
            f64_positive_finite(snapshot.planet.radius_m),
        decreases snapshot.terrain_tiles.len() - i,
    {
        if let Some(e) = terrain_tile_check(&snapshot.terrain_tiles, i) {
            assert(first_failure(i + 1, tcheck) == Some(e));
            proof {
                lemma_first_failure_stays(i + 1, tiles.len() as int, tcheck);
            }
            return Err(e);
        }
        i = i + 1;
    }
    let ghost layers = snapshot.layers@;
    let ghost lcheck = layer_checks(layers);
    let mut i: usize = 0;
    while i < snapshot.layers.len()
        invariant
            i <= layers.len(),
            layers == snapshot.layers@,
            lcheck == layer_checks(layers),
            first_failure(i as int, lcheck) is None,
            snapshot.schema_version == PROJECT_SCHEMA_VERSION,
            f64_positive_finite(snapshot.planet.radius_m),
            first_failure(tiles.len() as int, tcheck) is None,
            tiles == snapshot.terrain_tiles@,
            tcheck == terrain_checks(tiles),
        decreases snapshot.layers.len() - i,
    {
        if let Some(e) = layer_entry_check(&snapshot.layers, i) {
            assert(first_failure(i + 1, lcheck) == Some(e));
            proof {
                lemma_first_failure_stays(i + 1, layers.len() as int, lcheck);
            }
            return Err(e);
        }
        i = i + 1;
    }
    let ghost records = snapshot.categorical_tiles@;
    let ghost ccheck = categorical_checks(records, layers);
    let mut i: usize = 0;
    while i < snapshot.categorical_tiles.len()
        invariant
            i <= records.len(),
            records == snapshot.categorical_tiles@,
            layers == snapshot.layers@,
            ccheck == categorical_checks(records, layers),
            first_failure(i as int, ccheck) is None,
            snapshot.schema_version == PROJECT_SCHEMA_VERSION,
            f64_positive_finite(snapshot.planet.radius_m),
            first_failure(layers.len() as int, lcheck) is None,
            first_failure(tiles.len() as int, tcheck) is None,
            lcheck == layer_checks(layers),
            tiles == snapshot.terrain_tiles@,
            tcheck == terrain_checks(tiles),
        decreases snapshot.categorical_tiles.len() - i,
    {
        if let Some(e) = categorical_entry_check(&snapshot.categorical_tiles, &snapshot.layers, i) {
            assert(first_failure(i + 1, ccheck) == Some(e));
            proof {
                lemma_first_failure_stays(i + 1, records.len() as int, ccheck);
            }
            return Err(e);
        }
        i = i + 1;
    }
    let ghost features = snapshot.features@;
    let ghost fcheck = feature_checks(features, layers);
    let mut i: usize = 0;
    while i < snapshot.features.len()
        invariant
            i <= features.len(),
            features == snapshot.features@,
            layers == snapshot.layers@,
            fcheck == feature_checks(features, layers),
            first_failure(i as int, fcheck) is None,
            snapshot.schema_version == PROJECT_SCHEMA_VERSION,
            f64_positive_finite(snapshot.planet.radius_m),
            first_failure(records.len() as int, ccheck) is None,
            first_failure(layers.len() as int, lcheck) is None,
            first_failure(tiles.len() as int, tcheck) is None,
            records == snapshot.categorical_tiles@,
            ccheck == categorical_checks(records, layers),
            lcheck == layer_checks(layers),
            tiles == snapshot.terrain_tiles@,
            tcheck == terrain_checks(tiles),
        decreases snapshot.features.len() - i,
    {
        if let Some(e) = feature_entry_check(&snapshot.features, &snapshot.layers, i) {
            assert(first_failure(i + 1, fcheck) == Some(e));
            proof {
                lemma_first_failure_stays(i + 1, features.len() as int, fcheck);
            }
            return Err(e);
        }
        i = i + 1;
    }
    Ok(())
}

/// Once an error is found, later items do not change it.
proof fn lemma_first_failure_stays(i: int, n: int, check: spec_fn(int) -> Option<SnapshotError>)
    requires
        0 <= i <= n,
        first_failure(i, check) is Some,
    ensures
        first_failure(n, check) == first_failure(i, check),
    decreases n - i,
{
    if i < n {
        lemma_first_failure_stays(i, n - 1, check);
    }
}

/// The registry of checked layers: listed in file order, each under its id.
pub fn registry_from_layers(layers: Vec<LayerDefinition>) -> (r: LayerRegistry)
    requires
        unique_ids(layers@),
        forall|i: int| 0 <= i < layers@.len() ==> (#[trigger] layers@[i]).wf(),
    ensures
        r.wf(),
        r.ordering@ == layers@.map_values(|l: LayerDefinition| l.id),
        r.definitions@ == layers@,
{
    let mut ordering: Vec<LayerId> = Vec::new();
    let mut k: usize = 0;
    while k < layers.len()
        invariant
            k <= layers@.len(),
            ordering@ == layers@.take(k as int).map_values(|l: LayerDefinition| l.id),
        decreases layers.len() - k,
    {
        ordering.push(layers[k].id);
        assert(layers@.take(k + 1).map_values(|l: LayerDefinition| l.id) =~= layers@.take(k as int).map_values(
            |l: LayerDefinition| l.id,
        ).push(layers@[k as int].id));
        k = k + 1;
    }
    assert(layers@.take(layers@.len() as int) =~= layers@);
    LayerRegistry { ordering, definitions: layers }
}

/// The mask store of checked records, each under its layer and tile.
pub fn store_from_records(records: Vec<ProjectRegionTile>) -> (r: LayerStore)
    requires
        forall|i: int, j: int|
            0 <= i < j < records@.len() ==> !((#[trigger] records@[i]).layer == (#[trigger] records@[j]).layer
                && records@[i].tile.tile == records@[j].tile.tile),
        forall|i: int| 0 <= i < records@.len() ==> (#[trigger] records@[i]).tile.wf(),
    ensures
        r.wf(),
        r.categorical_tiles@.len() == records@.len(),
        forall|i: int|
            0 <= i < records@.len() ==> r.tile_of((#[trigger] records@[i]).layer, records@[i].tile.tile) == Some(
                records@[i].tile,
            ),
{
    let ghost orig = records@;
    let mut rest = records;
    let mut entries: Vec<((LayerId, TileId), RegionTile)> = Vec::new();
    while rest.len() > 0
        invariant
            entries@.len() + rest@.len() == orig.len(),
            rest@ == orig.skip(entries@.len() as int),
            forall|i: int|
                0 <= i < entries@.len() ==> (#[trigger] entries@[i]) == ((orig[i].layer, orig[i].tile.tile), orig[i].tile),
        decreases rest.len(),
    {
        let record = rest.remove(0);
        let ghost n = entries@.len();
        assert(record == orig[n as int]);
        let key = (record.layer, record.tile.tile);
        entries.push((key, record.tile));
        assert(rest@ =~= orig.skip((n + 1) as int));
    }
    let r = LayerStore { categorical_tiles: entries };
    proof {
        let s = r.categorical_tiles@;
        assert forall|a: int, b: int| 0 <= a < b < s.len() implies (#[trigger] s[a]).0 != (#[trigger] s[b]).0 by {
            assert(s[a] == ((orig[a].layer, orig[a].tile.tile), orig[a].tile));
            assert(s[b] == ((orig[b].layer, orig[b].tile.tile), orig[b].tile));
        }
        assert forall|i: int| 0 <= i < s.len() implies (#[trigger] s[i]).1.wf() by {
            assert(s[i] == ((orig[i].layer, orig[i].tile.tile), orig[i].tile));
        }
        assert forall|i: int| 0 <= i < orig.len() implies r.tile_of((#[trigger] orig[i]).layer, orig[i].tile.tile)
            == Some(orig[i].tile) by {
            assert(s[i] == ((orig[i].layer, orig[i].tile.tile), orig[i].tile));
            lemma_region_tile_at(s, i);
        }
    }
    r
}

/// The feature store of checked features, in id order.
pub fn features_from_list(features: Vec<MapFeature>) -> (r: FeatureStore)
    requires
        forall|i: int, j: int| 0 <= i < j < features@.len() ==> (#[trigger] features@[i]).id != (#[trigger] features@[j]).id,
    ensures
        r.wf(),
        r.features@.len() == features@.len(),
        forall|i: int| 0 <= i < features@.len() ==> r.get((#[trigger] features@[i]).id) == Some(features@[i]),
{
    let ghost orig = features@;
    assert(orig.len() == features.len());
    let mut rest = features;
    let mut store = FeatureStore::new();
    let mut k: usize = 0;
    while rest.len() > 0
        invariant
            k + rest@.len() == orig.len(),
            orig.len() <= usize::MAX,
            rest@ == orig.skip(k as int),
            store.wf(),
            store.features@.len() == k,
            forall|i: int, j: int| 0 <= i < j < orig.len() ==> (#[trigger] orig[i]).id != (#[trigger] orig[j]).id,
            forall|j: int| 0 <= j < k ==> store.get((#[trigger] orig[j]).id) == Some(orig[j]),
            forall|i: int, j: int|
                0 <= i < store.features@.len() && k <= j < orig.len() ==> (#[trigger] store.features@[i]).id
                    != (#[trigger] orig[j]).id,
        decreases rest.len(),
    {
        let f = rest.remove(0);
        assert(f == orig[k as int]);
        let ghost s = store.features@;
        proof {
            lemma_store_step(s, orig, k as int);
        }
        store.insert(f);
        k = k + 1;
        assert(rest@ =~= orig.skip(k as int));
    }
    store
}

proof fn lemma_store_step(s: Seq<MapFeature>, orig: Seq<MapFeature>, k: int)
    requires
        crate::features::ids_ascending(s),
        0 <= k < orig.len(),
        s.len() == k,
        forall|i: int, j: int| 0 <= i < j < orig.len() ==> (#[trigger] orig[i]).id != (#[trigger] orig[j]).id,
        forall|j: int| 0 <= j < k ==> feature_of(s, (#[trigger] orig[j]).id) == Some(orig[j]),
        forall|i: int, j: int| 0 <= i < s.len() && k <= j < orig.len() ==> (#[trigger] s[i]).id != (#[trigger] orig[j]).id,
    ensures
        crate::features::ids_ascending(with_feature(s, orig[k])),
        with_feature(s, orig[k]).len() == k + 1,
        forall|j: int| 0 <= j < k + 1 ==> feature_of(with_feature(s, orig[k]), (#[trigger] orig[j]).id) == Some(orig[j]),
        forall|i: int, j: int|
            0 <= i < with_feature(s, orig[k]).len() && k + 1 <= j < orig.len() ==> (#[trigger] with_feature(
                s,
                orig[k],
            )[i]).id != (#[trigger] orig[j]).id,
{
    let f = orig[k];
    assert forall|i: int| 0 <= i < s.len() implies (#[trigger] s[i]).id != f.id by {
        assert(s[i].id != orig[k].id);
    }
    lemma_absent_feature(s, f.id);
    lemma_with_feature(s, f);
    crate::features::lemma_id_pos(s, f.id);
    let p = crate::features::id_pos(s, f.id) as int;
    let n = with_feature(s, f);
    assert(n == s.insert(p, f));
    assert forall|j: int| 0 <= j < k + 1 implies feature_of(n, (#[trigger] orig[j]).id) == Some(orig[j]) by {
        if j < k {
            assert(orig[j].id != orig[k].id);
        }
    }
    assert forall|i: int, j: int| 0 <= i < n.len() && k + 1 <= j < orig.len() implies (#[trigger] n[i]).id
        != (#[trigger] orig[j]).id by {
        if i < p {
            assert(n[i] == s[i]);
        } else if i == p {
            assert(orig[k].id != orig[j].id);
        } else {
            assert(n[i] == s[i - 1]);
        }
    }
}

/// Where the project is saved and loaded.
#[derive(Debug, Clone)]
pub struct ProjectPath(pub String);

impl Default for ProjectPath {
    fn default() -> (r: ProjectPath)
        ensures
            r.0@ == "kovia-atlas.kovia.json"@,
    {
        proof {
            reveal_strlit("kovia-atlas.kovia.json");
        }
        ProjectPath(String::from_str("kovia-atlas.kovia.json"))
    }
}

/// Whether there are unsaved edits, and where the project was last saved or
/// loaded.
#[derive(Debug)]
pub struct ProjectSession {
    pub dirty: bool,
    pub last_saved_path: Option<PathBuf>,
}

impl Default for ProjectSession {
    fn default() -> (r: ProjectSession)
        ensures
            !r.dirty,
            r.last_saved_path is None,
    {
        ProjectSession { dirty: false, last_saved_path: None }
    }
}

impl ProjectSession {
    /// Any authored change makes the project dirty.
    pub fn mark_dirty(&mut self)
        ensures
            final(self).dirty,
            final(self).last_saved_path == old(self).last_saved_path,
    {
        self.dirty = true;
    }

    /// After a save or a load the project is clean and remembers the path.
    pub fn mark_saved(&mut self, path: PathBuf)
        ensures
            !final(self).dirty,
            final(self).last_saved_path == Some(path),
    {
        self.dirty = false;
        self.last_saved_path = Some(path);
    }
}

#[derive(Debug, Clone, Copy)]
pub struct SaveProject;

#[derive(Debug, Clone, Copy)]
pub struct LoadProject;

#[derive(Debug)]
pub struct ProjectSaved {
    pub path: PathBuf,
}

#[derive(Debug)]
pub struct ProjectLoaded {
    pub path: PathBuf,
}

#[derive(Debug, Clone)]
pub struct ProjectIoFailed {
    pub operation: &'static str,
    pub error: String,
}

/// Saving and loading of the authored world.
pub struct ProjectPersistencePlugin;

/// Selection after a load: the first listed layer, and the lowest region code
/// of its palette.
pub open spec fn loaded_selection(registry: LayerRegistry) -> LayerSelection {
    if registry.ordering@.len() == 0 {
        LayerSelection { layer: None, region: None }
    } else {
        let first = registry.ordering@[0];
        LayerSelection {
            layer: Some(first),
            region: match registry.get(first) {
                Some(d) => if d.regions@.len() > 0 {
                    Some(d.regions@[0].code)
                } else {
                    None
                },
                None => None,
            },
        }
    }
}

pub fn selection_after_load(registry: &LayerRegistry) -> (r: LayerSelection)
    requires
        registry.wf(),
    ensures
        r == loaded_selection(*registry),
{
    if registry.ordering.len() == 0 {
        return LayerSelection { layer: None, region: None };
    }
    let first = registry.ordering[0];
    let region = match registry.position(first) {
        Some(i) => if registry.definitions[i].regions.len() > 0 {
            Some(registry.definitions[i].regions[0].code)
        } else {
            None
        },
        None => None,
    };
    LayerSelection { layer: Some(first), region }
}

/// The first of `tiles` in tile order.
pub open spec fn first_tile(tiles: Seq<TileId>) -> TileId
    decreases tiles.len(),
{
    if tiles.len() <= 1 {
        tiles[0]
    } else {
        let m = first_tile(tiles.drop_last());
        if tiles.last().precedes(m) {
            tiles.last()
        } else {
            m
        }
    }
}

/// The first tile is one of the tiles and comes before every other one.
pub proof fn lemma_first_tile(tiles: Seq<TileId>)
    requires
        tiles.len() > 0,
    ensures
        tiles.contains(first_tile(tiles)),
        forall|i: int| 0 <= i < tiles.len() ==> #[trigger] tiles[i] == first_tile(tiles) || first_tile(tiles).precedes(tiles[i]),
    decreases tiles.len(),
{
    if tiles.len() == 1 {
        assert(tiles[0] == first_tile(tiles));
    } else {
        let t = tiles.drop_last();
        lemma_first_tile(t);
        let m = first_tile(t);
        let l = tiles.last();
        lemma_precedes_total(l, m);
        assert forall|i: int| 0 <= i < tiles.len() implies #[trigger] tiles[i] == first_tile(tiles) || first_tile(tiles).precedes(
            tiles[i],
        ) by {
            if i < t.len() {
                assert(tiles[i] == t[i]);
                if l.precedes(m) && tiles[i] != m {
                    lemma_precedes_transitive(l, m, tiles[i]);
                }
                if !l.precedes(m) {
                    lemma_precedes_total(l, m);
                }
            }
        }
        if l.precedes(m) {
            assert(tiles[tiles.len() - 1] == l);
        } else {
            let k = choose|k: int| 0 <= k < t.len() && t[k] == m;
            assert(tiles[k] == m);
        }
    }
}

/// The tile being edited after a load: it stays when it is still loaded or
/// nothing is; otherwise the first loaded tile takes its place.
pub open spec fn loaded_active(active: TileId, tiles: Seq<TileId>) -> TileId {
    if tiles.contains(active) || tiles.len() == 0 {
        active
    } else {
        first_tile(tiles)
    }
}

fn active_after_load(active: TileId, tiles: &Vec<TileId>) -> (r: TileId)
    ensures
        r == loaded_active(active, tiles@),
{
    if tiles.len() == 0 {
        return active;
    }
    let mut k: usize = 0;
    while k < tiles.len()
        invariant
            k <= tiles@.len(),
            forall|j: int| 0 <= j < k ==> tiles@[j] != active,
        decreases tiles.len() - k,
    {
        if tiles[k].same(&active) {
            assert(tiles@.contains(active));
            return active;
        }
        k = k + 1;
    }
    let mut first = tiles[0];
    let mut i: usize = 1;
    while i < tiles.len()
        invariant
            1 <= i <= tiles@.len(),
            first == first_tile(tiles@.take(i as int)),
        decreases tiles.len() - i,
    {
        assert(tiles@.take(i + 1).drop_last() =~= tiles@.take(i as int));
        assert(tiles@.take(i + 1).last() == tiles@[i as int]);
        if tiles[i].is_before(&first) {
            first = tiles[i];
        }
        i = i + 1;
    }
    assert(tiles@.take(tiles@.len() as int) =~= tiles@);
    first
}

/// Settles the editor on a project that was just loaded from `path`: the
/// undo history and the stale marks of derived products are dropped, the
/// first layer and its lowest region are selected, no feature is selected,
/// the edited tile falls back to the first loaded one when it is gone, and
/// the session is clean and remembers the path. `loaded_tiles` are the
/// loaded terrain tiles; caches of floating-point products are the caller's.
pub fn settle_after_load<A>(
    registry: &LayerRegistry,
    loaded_tiles: &Vec<TileId>,
    path: PathBuf,
    history: &mut EditHistory<A>,
    dirty: &mut DirtyTracker,
    selection: &mut LayerSelection,
    selected: &mut SelectedFeature,
    active: &mut ActiveEditTile,
    session: &mut ProjectSession,
)
    requires
        registry.wf(),
    ensures
        final(history)@ == (Seq::<A>::empty(), Seq::<A>::empty()),
        final(dirty).wf(),
        final(dirty).tiles@.len() == 0,
        !final(dirty).feature_labels,
        *final(selection) == loaded_selection(*registry),
        final(selected).0 is None,
        final(active).0 == loaded_active(old(active).0, loaded_tiles@),
        !final(session).dirty,
        final(session).last_saved_path == Some(path),
{
    history.clear();
    *dirty = DirtyTracker::default();
    *selection = selection_after_load(registry);
    selected.0 = None;
    active.0 = active_after_load(active.0, loaded_tiles);
    session.mark_saved(path);
}


proof fn lemma_no_failure(n: int, check: spec_fn(int) -> Option<SnapshotError>)
    requires
        first_failure(n, check) is None,
    ensures
        forall|i: int| 0 <= i < n ==> (#[trigger] check(i)) is None,
    decreases n,
{
    if n > 0 {
        lemma_no_failure(n - 1, check);
    }
}

/// What an accepted snapshot guarantees: the supported schema, a positive
/// finite radius; terrain tiles of distinct addresses with at least two
/// samples to an edge and a full grid of finite samples; layers of distinct
/// ids; masks each on a listed layer, never two for one layer and tile, each
/// with exactly `edge_cells * edge_cells` cells; features of distinct ids on
/// listed layers with valid geometry.
pub proof fn lemma_accepted_snapshot(s: ProjectSnapshot)
    requires
        snapshot_error(s) is None,
    ensures
        s.schema_version == PROJECT_SCHEMA_VERSION,
        f64_positive_finite(s.planet.radius_m),
        forall|i: int|
            0 <= i < s.terrain_tiles@.len() ==> {
                let t = #[trigger] s.terrain_tiles@[i];
                &&& t.edge_samples >= 2
                &&& t.samples@.len() == t.edge_samples * t.edge_samples
                &&& forall|k: int| 0 <= k < t.samples@.len() ==> f32_finite(#[trigger] t.samples@[k])
                &&& forall|j: int| 0 <= j < i ==> (#[trigger] s.terrain_tiles@[j]).id != t.id
            },
        forall|i: int, j: int| 0 <= j < i < s.layers@.len() ==> (#[trigger] s.layers@[j]).id != (#[trigger] s.layers@[i]).id,
        forall|i: int|
            0 <= i < s.categorical_tiles@.len() ==> {
                let r = #[trigger] s.categorical_tiles@[i];
                &&& has_layer(s.layers@, r.layer)
                &&& r.tile.cells@.len() == r.tile.edge_cells * r.tile.edge_cells
                &&& forall|j: int|
                    0 <= j < i ==> !((#[trigger] s.categorical_tiles@[j]).layer == r.layer
                        && s.categorical_tiles@[j].tile.tile == r.tile.tile)
            },
        forall|i: int|
            0 <= i < s.features@.len() ==> {
                let f = #[trigger] s.features@[i];
                &&& f.layer matches Some(l) ==> has_layer(s.layers@, l)
                &&& geometry_valid(f.geometry)
                &&& forall|j: int| 0 <= j < i ==> (#[trigger] s.features@[j]).id != f.id
            },
{
    let tiles = s.terrain_tiles@;
    let layers = s.layers@;
    let records = s.categorical_tiles@;
    let features = s.features@;
    lemma_no_failure(tiles.len() as int, terrain_checks(tiles));
    lemma_no_failure(layers.len() as int, layer_checks(layers));
    lemma_no_failure(records.len() as int, categorical_checks(records, layers));
    lemma_no_failure(features.len() as int, feature_checks(features, layers));
    assert forall|i: int| 0 <= i < tiles.len() implies {
        let t = #[trigger] tiles[i];
        &&& t.edge_samples >= 2
        &&& t.samples@.len() == t.edge_samples * t.edge_samples
        &&& forall|k: int| 0 <= k < t.samples@.len() ==> f32_finite(#[trigger] t.samples@[k])
        &&& forall|j: int| 0 <= j < i ==> (#[trigger] tiles[j]).id != t.id
    } by {
        assert(terrain_checks(tiles)(i) is None);
    }
    assert forall|i: int, j: int| 0 <= j < i < layers.len() implies (#[trigger] layers[j]).id != (#[trigger] layers[i]).id by {
        assert(layer_checks(layers)(i) is None);
    }
    assert forall|i: int| 0 <= i < records.len() implies {
        let r = #[trigger] records[i];
        &&& has_layer(layers, r.layer)
        &&& r.tile.cells@.len() == r.tile.edge_cells * r.tile.edge_cells
        &&& forall|j: int|
            0 <= j < i ==> !((#[trigger] records[j]).layer == r.layer && records[j].tile.tile == r.tile.tile)
    } by {
        assert(categorical_checks(records, layers)(i) is None);
    }
    assert forall|i: int| 0 <= i < features.len() implies {
        let f = #[trigger] features[i];
        &&& f.layer matches Some(l) ==> has_layer(layers, l)
        &&& geometry_valid(f.geometry)
        &&& forall|j: int| 0 <= j < i ==> (#[trigger] features[j]).id != f.id
    } by {
        assert(feature_checks(features, layers)(i) is None);
    }
}

} // verus!
