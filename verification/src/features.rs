//! Semantic point and path features: settlements, rivers, roads and the like.
use vstd::prelude::*;
use crate::coordinates::SurfacePosition;
use crate::protocol::{FeatureId, LayerId};
use crate::text::{chars_of, string_of, trim, trim_exec};
use crate::history::{record_if_present, records, EditHistory, UndoAction};
use crate::edits::AtlasUndo;

verus! {

#[derive(Debug, Clone, Copy, PartialEq, Eq, Structural)]
pub enum SettlementKind {
    Hamlet,
    Village,
    Town,
    City,
    Capital,
    Port,
}

#[derive(Debug)]
pub enum FeatureGeometry {
    Point(SurfacePosition),
    Path(Vec<SurfacePosition>),
}

/// What a feature is. A river's discharge is the bit pattern of an `f32` in
/// cubic metres per second.
#[derive(Debug, Clone, Copy, PartialEq, Eq, Structural)]
pub enum FeatureKind {
    Settlement { kind: SettlementKind, population: Option<u64> },
    River { discharge_m3_s: Option<u32>, locked: bool },
    Road,
    SeaRoute,
    Border,
    Landmark,
}

#[derive(Debug)]
pub struct MapFeature {
    pub id: FeatureId,
    pub name: String,
    pub kind: FeatureKind,
    pub geometry: FeatureGeometry,
    pub visible_from_level: u8,
    pub layer: Option<LayerId>,
}

/// A geometry as plain values.
pub enum GeometryView {
    Point(SurfacePosition),
    Path(Seq<SurfacePosition>),
}

impl View for FeatureGeometry {
    type V = GeometryView;

    open spec fn view(&self) -> GeometryView {
        match self {
            FeatureGeometry::Point(p) => GeometryView::Point(*p),
            FeatureGeometry::Path(points) => GeometryView::Path(points@),
        }
    }
}

/// A feature as plain values.
pub struct FeatureView {
    pub id: FeatureId,
    pub name: Seq<char>,
    pub kind: FeatureKind,
    pub geometry: GeometryView,
    pub visible_from_level: u8,
    pub layer: Option<LayerId>,
}

impl View for MapFeature {
    type V = FeatureView;

    open spec fn view(&self) -> FeatureView {
        FeatureView {
            id: self.id,
            name: self.name@,
            kind: self.kind,
            geometry: self.geometry@,
            visible_from_level: self.visible_from_level,
            layer: self.layer,
        }
    }
}

impl FeatureGeometry {
    /// A copy with the same positions.
    pub fn duplicate(&self) -> (r: FeatureGeometry)
        ensures
            r@ == self@,
    {
        match self {
            FeatureGeometry::Point(p) => FeatureGeometry::Point(*p),
            FeatureGeometry::Path(points) => {
                let mut copy: Vec<SurfacePosition> = Vec::new();
                let mut i: usize = 0;
                while i < points.len()
                    invariant
                        i <= points@.len(),
                        copy@ == points@.take(i as int),
                    decreases points.len() - i,
                {
                    copy.push(points[i]);
                    assert(points@.take(i + 1) =~= points@.take(i as int).push(points@[i as int]));
                    i = i + 1;
                }
                assert(points@.take(points@.len() as int) =~= points@);
                FeatureGeometry::Path(copy)
            },
        }
    }
}

impl MapFeature {
    /// A copy with the same values.
    pub fn duplicate(&self) -> (r: MapFeature)
        ensures
            r@ == self@,
    {
        MapFeature {
            id: self.id,
            name: self.name.clone(),
            kind: self.kind,
            geometry: self.geometry.duplicate(),
            visible_from_level: self.visible_from_level,
            layer: self.layer,
        }
    }
}

/// Lowest zoom level from which a settlement of this kind is drawn.
pub open spec fn settlement_level(kind: SettlementKind) -> u8 {
    match kind {
        SettlementKind::Capital => 0,
        SettlementKind::City | SettlementKind::Port => 2,
        SettlementKind::Town => 4,
        SettlementKind::Village | SettlementKind::Hamlet => 6,
    }
}

pub fn visible_from_level(kind: SettlementKind) -> (r: u8)
    ensures
        r == settlement_level(kind),
{
    match kind {
        SettlementKind::Capital => 0,
        SettlementKind::City | SettlementKind::Port => 2,
        SettlementKind::Town => 4,
        SettlementKind::Village | SettlementKind::Hamlet => 6,
    }
}

pub open spec fn ids_ascending(s: Seq<MapFeature>) -> bool {
    forall|i: int, j: int| 0 <= i < j < s.len() ==> (#[trigger] s[i]).id.0 < (#[trigger] s[j]).id.0
}

/// Number of leading features whose id is below `id`.
pub open spec fn id_pos(s: Seq<MapFeature>, id: FeatureId) -> nat
    decreases s.len(),
{
    if s.len() > 0 && s[0].id.0 < id.0 {
        1 + id_pos(s.drop_first(), id)
    } else {
        0
    }
}

/// The feature stored under `id`.
pub open spec fn feature_of(s: Seq<MapFeature>, id: FeatureId) -> Option<MapFeature> {
    let p = id_pos(s, id) as int;
    if p < s.len() && s[p].id == id {
        Some(s[p])
    } else {
        None
    }
}

/// Features after storing `f` under its id, replacing what was there.
pub open spec fn with_feature(s: Seq<MapFeature>, f: MapFeature) -> Seq<MapFeature> {
    let p = id_pos(s, f.id) as int;
    if p < s.len() && s[p].id == f.id {
        s.update(p, f)
    } else {
        s.insert(p, f)
    }
}

/// Features after dropping the one stored under `id`, if any.
pub open spec fn without_feature(s: Seq<MapFeature>, id: FeatureId) -> Seq<MapFeature> {
    let p = id_pos(s, id) as int;
    if p < s.len() && s[p].id == id {
        s.remove(p)
    } else {
        s
    }
}

pub proof fn lemma_id_pos(s: Seq<MapFeature>, id: FeatureId)
    ensures
        id_pos(s, id) <= s.len(),
        forall|j: int| 0 <= j < id_pos(s, id) ==> (#[trigger] s[j]).id.0 < id.0,
        id_pos(s, id) < s.len() ==> s[id_pos(s, id) as int].id.0 >= id.0,
    decreases s.len(),
{
    if s.len() > 0 && s[0].id.0 < id.0 {
        let t = s.drop_first();
        lemma_id_pos(t, id);
        assert forall|j: int| 0 <= j < id_pos(s, id) implies (#[trigger] s[j]).id.0 < id.0 by {
            if j > 0 {
                assert(s[j] == t[j - 1]);
            }
        }
        if id_pos(s, id) < s.len() {
            assert(s[id_pos(s, id) as int] == t[id_pos(t, id) as int]);
        }
    }
}

/// In ascending order, the position of an id is fixed by the ids around it.
proof fn lemma_id_pos_at(s: Seq<MapFeature>, id: FeatureId, i: int)
    requires
        ids_ascending(s),
        0 <= i <= s.len(),
        forall|j: int| 0 <= j < i ==> (#[trigger] s[j]).id.0 < id.0,
        i == s.len() || s[i].id.0 >= id.0,
    ensures
        id_pos(s, id) == i,
{
    lemma_id_pos(s, id);
    let p = id_pos(s, id) as int;
    if p < i {
        assert(s[p].id.0 < id.0);
    } else if p > i {
        assert(s[i].id.0 < id.0);
    }
}

pub proof fn lemma_found_feature(s: Seq<MapFeature>, i: int)
    requires
        ids_ascending(s),
        0 <= i < s.len(),
    ensures
        feature_of(s, s[i].id) == Some(s[i]),
{
    assert forall|j: int| 0 <= j < i implies (#[trigger] s[j]).id.0 < s[i].id.0 by {}
    lemma_id_pos_at(s, s[i].id, i);
}

pub proof fn lemma_absent_feature(s: Seq<MapFeature>, id: FeatureId)
    requires
        ids_ascending(s),
        forall|i: int| 0 <= i < s.len() ==> (#[trigger] s[i]).id != id,
    ensures
        feature_of(s, id) is None,
{
    lemma_id_pos(s, id);
    if id_pos(s, id) < s.len() {
        assert(s[id_pos(s, id) as int].id != id);
    }
}

/// Storing a feature keeps ids ascending and changes what is found for its
/// id only.
pub proof fn lemma_with_feature(s: Seq<MapFeature>, f: MapFeature)
    requires
        ids_ascending(s),
    ensures
        ids_ascending(with_feature(s, f)),
        feature_of(with_feature(s, f), f.id) == Some(f),
        forall|id: FeatureId| id != f.id ==> #[trigger] feature_of(with_feature(s, f), id) == feature_of(s, id),
{
    lemma_id_pos(s, f.id);
    let p = id_pos(s, f.id) as int;
    let n = with_feature(s, f);
    let replaced = p < s.len() && s[p].id == f.id;
    if replaced {
        assert forall|i: int, j: int| 0 <= i < j < n.len() implies (#[trigger] n[i]).id.0 < (
        #[trigger] n[j]).id.0 by {
            assert(n[i].id == s[i].id && n[j].id == s[j].id);
        }
        assert(n[p] == f);
        lemma_found_feature(n, p);
    } else {
        assert forall|i: int, j: int| 0 <= i < j < n.len() implies (#[trigger] n[i]).id.0 < (
        #[trigger] n[j]).id.0 by {
            if j < p {
                assert(n[i] == s[i] && n[j] == s[j]);
            } else if j == p {
                assert(n[i] == s[i]);
            } else if i == p {
                assert(n[j] == s[j - 1]);
                assert(s[p].id.0 <= s[j - 1].id.0);
            } else if i < p {
                assert(n[i] == s[i] && n[j] == s[j - 1]);
            } else {
                assert(n[i] == s[i - 1] && n[j] == s[j - 1]);
            }
        }
        assert(n[p] == f);
        lemma_found_feature(n, p);
    }
    assert forall|id: FeatureId| id != f.id implies #[trigger] feature_of(n, id) == feature_of(s, id) by {
        if exists|k: int| 0 <= k < s.len() && s[k].id == id {
            let k = choose|k: int| 0 <= k < s.len() && s[k].id == id;
            lemma_found_feature(s, k);
            if replaced {
                assert(k != p);
                assert(n[k] == s[k]);
                lemma_found_feature(n, k);
            } else if k < p {
                assert(n[k] == s[k]);
                lemma_found_feature(n, k);
            } else {
                assert(n[k + 1] == s[k]);
                lemma_found_feature(n, k + 1);
            }
        } else {
            lemma_absent_feature(s, id);
            assert forall|k: int| 0 <= k < n.len() implies (#[trigger] n[k]).id != id by {
                if replaced {
                    if k != p {
                        assert(n[k] == s[k]);
                    }
                } else if k < p {
                    assert(n[k] == s[k]);
                } else if k > p {
                    assert(n[k] == s[k - 1]);
                }
            }
            lemma_absent_feature(n, id);
        }
    }
}

/// Dropping a feature keeps ids ascending and leaves nothing under its id,
/// while every other id finds what it found before.
pub proof fn lemma_without_feature(s: Seq<MapFeature>, id: FeatureId)
    requires
        ids_ascending(s),
    ensures
        ids_ascending(without_feature(s, id)),
        feature_of(without_feature(s, id), id) is None,
        forall|other: FeatureId|
            other != id ==> #[trigger] feature_of(without_feature(s, id), other) == feature_of(s, other),
{
    lemma_id_pos(s, id);
    let p = id_pos(s, id) as int;
    let n = without_feature(s, id);
    let found = p < s.len() && s[p].id == id;
    if found {
        assert forall|i: int, j: int| 0 <= i < j < n.len() implies (#[trigger] n[i]).id.0 < (
        #[trigger] n[j]).id.0 by {
            if j < p {
                assert(n[i] == s[i] && n[j] == s[j]);
            } else if i < p {
                assert(n[i] == s[i] && n[j] == s[j + 1]);
            } else {
                assert(n[i] == s[i + 1] && n[j] == s[j + 1]);
            }
        }
        assert forall|k: int| 0 <= k < n.len() implies (#[trigger] n[k]).id != id by {
            if k < p {
                assert(n[k] == s[k]);
            } else {
                assert(n[k] == s[k + 1]);
            }
        }
        lemma_absent_feature(n, id);
        assert forall|other: FeatureId| other != id implies #[trigger] feature_of(n, other) == feature_of(s, other) by {
            if exists|k: int| 0 <= k < s.len() && s[k].id == other {
                let k = choose|k: int| 0 <= k < s.len() && s[k].id == other;
                lemma_found_feature(s, k);
                if k < p {
                    assert(n[k] == s[k]);
                    lemma_found_feature(n, k);
                } else {
                    assert(k != p);
                    assert(n[k - 1] == s[k]);
                    lemma_found_feature(n, k - 1);
                }
            } else {
                lemma_absent_feature(s, other);
                assert forall|k: int| 0 <= k < n.len() implies (#[trigger] n[k]).id != other by {
                    if k < p {
                        assert(n[k] == s[k]);
                    } else {
                        assert(n[k] == s[k + 1]);
                    }
                }
                lemma_absent_feature(n, other);
            }
        }
    } else {
        if p < s.len() {
            assert(s[p].id.0 > id.0);
        }
        assert forall|k: int| 0 <= k < s.len() implies (#[trigger] s[k]).id != id by {
            if k < p {
            } else if k > p {
                assert(s[p].id.0 < s[k].id.0);
            }
        }
        lemma_absent_feature(s, id);
    }
}

/// Features in ascending id order, each id once.
pub struct FeatureStore {
    pub features: Vec<MapFeature>,
}

impl FeatureStore {
    pub open spec fn wf(&self) -> bool {
        ids_ascending(self.features@)
    }

    pub open spec fn get(&self, id: FeatureId) -> Option<MapFeature> {
        feature_of(self.features@, id)
    }

    pub fn new() -> (r: FeatureStore)
        ensures
            r.wf(),
            r.features@.len() == 0,
    {
        FeatureStore { features: Vec::new() }
    }

    /// Where `id` is or would go.
    fn position(&self, id: FeatureId) -> (r: usize)
        requires
            self.wf(),
        ensures
            r == id_pos(self.features@, id),
            r <= self.features@.len(),
    {
        let mut i: usize = 0;
        while i < self.features.len() && self.features[i].id.0 < id.0
            invariant
                i <= self.features@.len(),
                ids_ascending(self.features@),
                forall|j: int| 0 <= j < i ==> (#[trigger] self.features@[j]).id.0 < id.0,
            decreases self.features.len() - i,
        {
            i = i + 1;
        }
        proof {
            lemma_id_pos_at(self.features@, id, i as int);
        }
        i
    }

    /// Stores the feature under its id, replacing any feature with that id.
    pub fn insert(&mut self, feature: MapFeature) -> (id: FeatureId)
        requires
            old(self).wf(),
        ensures
            final(self).wf(),
            id == feature.id,
            final(self).features@ == with_feature(old(self).features@, feature),
    {
        let id = feature.id;
        let p = self.position(id);
        proof {
            lemma_with_feature(self.features@, feature);
        }
        if p < self.features.len() && self.features[p].id == id {
            self.features.set(p, feature);
        } else {
            self.features.insert(p, feature);
        }
        id
    }

    /// Takes out the feature stored under `id`.
    pub fn remove(&mut self, id: FeatureId) -> (r: Option<MapFeature>)
        requires
            old(self).wf(),
        ensures
            final(self).wf(),
            r == old(self).get(id),
            final(self).features@ == without_feature(old(self).features@, id),
    {
        let p = self.position(id);
        proof {
            lemma_without_feature(self.features@, id);
        }
        if p < self.features.len() && self.features[p].id == id {
            Some(self.features.remove(p))
        } else {
            None
        }
    }

    /// The feature stored under `id`.
    pub fn find(&self, id: FeatureId) -> (r: Option<&MapFeature>)
        requires
            self.wf(),
        ensures
            match r {
                Some(f) => self.get(id) == Some(*f),
                None => self.get(id) is None,
            },
    {
        let p = self.position(id);
        if p < self.features.len() && self.features[p].id == id {
            Some(&self.features[p])
        } else {
            None
        }
    }
}

impl FeatureStore {
    fn entry_mut(&mut self, p: usize) -> (r: &mut MapFeature)
        requires
            p < old(self).features@.len(),
        ensures
            *r == old(self).features@[p as int],
            final(self).features@ == old(self).features@.update(p as int, *final(r)),
    {
        &mut self.features[p]
    }
}

/// Storing a new feature and then dropping it leaves the features as they
/// were.
pub proof fn lemma_insert_then_remove(s: Seq<MapFeature>, f: MapFeature)
    requires
        ids_ascending(s),
        feature_of(s, f.id) is None,
    ensures
        without_feature(with_feature(s, f), f.id) == s,
{
    lemma_id_pos(s, f.id);
    lemma_with_feature(s, f);
    let p = id_pos(s, f.id) as int;
    let n = with_feature(s, f);
    assert(n == s.insert(p, f));
    assert forall|j: int| 0 <= j < p implies (#[trigger] n[j]).id.0 < f.id.0 by {
        assert(n[j] == s[j]);
    }
    lemma_id_pos_at(n, f.id, p);
    assert(n.remove(p) =~= s);
}

/// Dropping a feature and then storing it again leaves the features as they
/// were.
pub proof fn lemma_remove_then_insert(s: Seq<MapFeature>, f: MapFeature)
    requires
        ids_ascending(s),
        feature_of(s, f.id) == Some(f),
    ensures
        with_feature(without_feature(s, f.id), f) == s,
{
    lemma_id_pos(s, f.id);
    lemma_without_feature(s, f.id);
    let p = id_pos(s, f.id) as int;
    let m = without_feature(s, f.id);
    assert(m == s.remove(p));
    assert forall|j: int| 0 <= j < p implies (#[trigger] m[j]).id.0 < f.id.0 by {
        assert(m[j] == s[j]);
    }
    if p < m.len() {
        assert(m[p] == s[p + 1]);
        assert(s[p].id.0 < s[p + 1].id.0);
    }
    lemma_id_pos_at(m, f.id, p);
    assert(m.insert(p, f) =~= s);
}

/// Replacing a feature and then putting the old one back leaves the features
/// as they were.
pub proof fn lemma_replace_then_restore(s: Seq<MapFeature>, before: MapFeature, after: MapFeature)
    requires
        ids_ascending(s),
        feature_of(s, before.id) == Some(before),
        after.id == before.id,
    ensures
        with_feature(with_feature(s, after), before) == s,
{
    lemma_id_pos(s, before.id);
    let p = id_pos(s, before.id) as int;
    let n = with_feature(s, after);
    assert(n == s.update(p, after));
    assert forall|j: int| 0 <= j < p implies (#[trigger] n[j]).id.0 < before.id.0 by {
        assert(n[j] == s[j]);
    }
    lemma_with_feature(s, after);
    lemma_id_pos_at(n, before.id, p);
    assert(n.update(p, before) =~= s);
}

/// Request to found a settlement.
#[derive(Debug, Clone)]
pub struct PlaceSettlement {
    pub name: String,
    pub position: SurfacePosition,
    pub kind: SettlementKind,
    pub population: Option<u64>,
    pub layer: Option<LayerId>,
}

#[derive(Debug, Clone, Copy, PartialEq, Eq, Structural)]
pub struct FeatureChanged {
    pub feature: FeatureId,
}

#[derive(Debug, Clone, Copy, PartialEq, Eq, Structural)]
pub struct FeatureCreated {
    pub feature: FeatureId,
}

/// Request to rename and reclassify a settlement.
#[derive(Debug, Clone)]
pub struct UpdateSettlement {
    pub feature: FeatureId,
    pub name: String,
    pub kind: SettlementKind,
    pub population: Option<u64>,
}

#[derive(Debug, Clone, Copy, PartialEq, Eq, Structural)]
pub struct DeleteFeature {
    pub feature: FeatureId,
}

#[derive(Debug, Clone)]
pub struct FeatureEditFailed(pub String);

/// Owns semantic point and vector features; it needs no terrain, editor, UI
/// or renderer.
pub struct FeaturePlugin;

/// History entries of feature edits.
#[derive(Debug)]
pub enum FeatureUndo {
    Insertion(MapFeature),
    Removal(MapFeature),
    Replacement { before: MapFeature, after: MapFeature },
}

impl FeatureUndo {
    /// Whether this entry undoes storing a feature with view `f`.
    pub open spec fn inserts(self, f: FeatureView) -> bool {
        match self {
            FeatureUndo::Insertion(g) => g@ == f,
            _ => false,
        }
    }

    /// Whether this entry undoes dropping a feature with view `f`.
    pub open spec fn removes(self, f: FeatureView) -> bool {
        match self {
            FeatureUndo::Removal(g) => g@ == f,
            _ => false,
        }
    }

    /// Whether this entry undoes replacing a feature viewed as `before` by one
    /// viewed as `after`.
    pub open spec fn replaces(self, before: FeatureView, after: FeatureView) -> bool {
        match self {
            FeatureUndo::Replacement { before: b, after: a } => b@ == before && a@ == after,
            _ => false,
        }
    }
}

/// The settlement a placement request describes, under `id`.
pub open spec fn placed(request: PlaceSettlement, id: FeatureId) -> FeatureView {
    FeatureView {
        id,
        name: trim(request.name@),
        kind: FeatureKind::Settlement { kind: request.kind, population: request.population },
        geometry: GeometryView::Point(request.position),
        visible_from_level: settlement_level(request.kind),
        layer: request.layer,
    }
}

/// Founds a settlement under a fresh id. The trimmed name must not be empty.
pub fn place_settlement(store: &mut FeatureStore, request: &PlaceSettlement) -> (r: Result<(FeatureCreated, FeatureUndo), String>)
    requires
        old(store).wf(),
    ensures
        final(store).wf(),
        trim(request.name@).len() == 0 <==> r is Err,
        r matches Err(e) ==> e@ == "settlement name cannot be empty"@ && *final(store) == *old(store),
        r matches Ok((created, undo)) ==> {
            &&& (created.feature.0 >> 76u128) & 0xfu128 == 4
            &&& (created.feature.0 >> 62u128) & 0x3u128 == 2
            &&& undo.inserts(placed(*request, created.feature))
            &&& final(store).get(created.feature) matches Some(g) && g@ == placed(*request, created.feature)
            &&& final(store).features@ == with_feature(old(store).features@, final(store).get(created.feature).unwrap())
        },
{
    let name_chars = trim_exec(&chars_of(request.name.as_str()));
    if name_chars.len() == 0 {
        proof {
            reveal_strlit("settlement name cannot be empty");
        }
        return Err(String::from_str("settlement name cannot be empty"));
    }
    let name = string_of(&name_chars);
    let feature = MapFeature {
        id: FeatureId::new(),
        name,
        kind: FeatureKind::Settlement { kind: request.kind, population: request.population },
        geometry: FeatureGeometry::Point(request.position),
        visible_from_level: visible_from_level(request.kind),
        layer: request.layer,
    };
    let stored = feature.duplicate();
    proof {
        lemma_with_feature(store.features@, stored);
    }
    let id = store.insert(stored);
    Ok((FeatureCreated { feature: id }, FeatureUndo::Insertion(feature)))
}

/// Handles a placement request: the settlement goes into the store, its undo
/// entry into the history when there is one, and both its creation and the
/// change of the store are announced.
pub fn on_place_settlement(
    store: &mut FeatureStore,
    history: &mut Option<EditHistory<AtlasUndo>>,
    request: &PlaceSettlement,
) -> (r: Result<(FeatureCreated, FeatureChanged), String>)
    requires
        old(store).wf(),
    ensures
        final(store).wf(),
        trim(request.name@).len() == 0 <==> r is Err,
        r matches Err(e) ==> e@ == "settlement name cannot be empty"@ && *final(store) == *old(store)
            && *final(history) == *old(history),
        r matches Ok((created, changed)) ==> {
            &&& changed.feature == created.feature
            &&& (created.feature.0 >> 76u128) & 0xfu128 == 4
            &&& (created.feature.0 >> 62u128) & 0x3u128 == 2
            &&& final(store).get(created.feature) matches Some(g) && g@ == placed(*request, created.feature)
            &&& final(store).features@ == with_feature(old(store).features@, final(store).get(created.feature).unwrap())
            &&& exists|u: FeatureUndo|
                u.inserts(placed(*request, created.feature)) && #[trigger] records(
                    *old(history),
                    *final(history),
                    AtlasUndo::Feature(u),
                )
        },
{
    match place_settlement(store, request) {
        Err(e) => Err(e),
        Ok((created, undo)) => {
            let ghost entry = undo;
            record_if_present(history, AtlasUndo::Feature(undo));
            assert(records(*old(history), *history, AtlasUndo::Feature(entry)));
            Ok((created, FeatureChanged { feature: created.feature }))
        },
    }
}

/// Handles a deletion request: the feature leaves the store, its undo entry
/// goes into the history when there is one, and the change is announced.
pub fn on_delete_feature(
    store: &mut FeatureStore,
    history: &mut Option<EditHistory<AtlasUndo>>,
    request: &DeleteFeature,
) -> (r: Result<FeatureChanged, String>)
    requires
        old(store).wf(),
    ensures
        final(store).wf(),
        final(store).features@ == without_feature(old(store).features@, request.feature),
        match old(store).get(request.feature) {
            None => r matches Err(e) && e@ == "selected feature no longer exists"@ && *final(history)
                == *old(history),
            Some(f) => r == Ok::<FeatureChanged, String>(FeatureChanged { feature: request.feature })
                && exists|u: FeatureUndo| u.removes(f@) && #[trigger] records(*old(history), *final(history), AtlasUndo::Feature(u)),
        },
{
    match delete_feature(store, request) {
        Err(e) => Err(e),
        Ok((changed, undo)) => {
            let ghost entry = undo;
            record_if_present(history, AtlasUndo::Feature(undo));
            assert(records(*old(history), *history, AtlasUndo::Feature(entry)));
            Ok(changed)
        },
    }
}

/// What updating a settlement did: `after` from `before`, answering `r`.
pub open spec fn settlement_updated(
    before: FeatureStore,
    after: FeatureStore,
    request: UpdateSettlement,
    r: Result<Option<(FeatureChanged, FeatureUndo)>, String>,
) -> bool {
    match before.get(request.feature) {
        None => r matches Err(e) && e@ == "selected feature no longer exists"@ && after == before,
        Some(f) => match f.kind {
            FeatureKind::Settlement { kind, population } => if trim(request.name@).len() == 0 {
                r matches Err(e) && e@ == "settlement name cannot be empty"@ && after == before
            } else if trim(request.name@) == f.name@ && kind == request.kind && population
                == request.population {
                r == Ok::<Option<(FeatureChanged, FeatureUndo)>, String>(None) && after == before
            } else {
                let updated = FeatureView {
                    name: trim(request.name@),
                    kind: FeatureKind::Settlement { kind: request.kind, population: request.population },
                    ..f@
                };
                &&& r matches Ok(Some((changed, undo))) && changed.feature == request.feature
                    && undo.replaces(f@, updated)
                &&& after.get(request.feature) matches Some(n) && n@ == updated
                &&& after.features@ == with_feature(before.features@, after.get(request.feature).unwrap())
            },
            _ => r matches Err(e) && e@ == "selected feature is not a settlement"@ && after == before,
        },
    }
}

/// Renames and reclassifies a settlement. Nothing is recorded when the values
/// are already the requested ones.
pub fn update_settlement(store: &mut FeatureStore, request: &UpdateSettlement) -> (r: Result<Option<(FeatureChanged, FeatureUndo)>, String>)
    requires
        old(store).wf(),
    ensures
        final(store).wf(),
        settlement_updated(*old(store), *final(store), *request, r),
{
    let p = store.position(request.feature);
    if !(p < store.features.len() && store.features[p].id == request.feature) {
        proof {
            reveal_strlit("selected feature no longer exists");
        }
        return Err(String::from_str("selected feature no longer exists"));
    }
    proof {
        lemma_found_feature(store.features@, p as int);
    }
    let current = store.features[p].kind;
    let (kind, population) = match current {
        FeatureKind::Settlement { kind, population } => (kind, population),
        _ => {
            proof {
                reveal_strlit("selected feature is not a settlement");
            }
            return Err(String::from_str("selected feature is not a settlement"));
        },
    };
    let name_chars = trim_exec(&chars_of(request.name.as_str()));
    if name_chars.len() == 0 {
        proof {
            reveal_strlit("settlement name cannot be empty");
        }
        return Err(String::from_str("settlement name cannot be empty"));
    }
    let name = string_of(&name_chars);
    if name == store.features[p].name && kind == request.kind && population == request.population {
        return Ok(None);
    }
    let before = store.features[p].duplicate();
    let ghost s = store.features@;
    let entry = store.entry_mut(p);
    entry.name = name;
    entry.kind = FeatureKind::Settlement { kind: request.kind, population: request.population };
    proof {
        let n = store.features@;
        assert(n == with_feature(s, n[p as int]));
        lemma_with_feature(s, n[p as int]);
    }
    let stored_after = store.features[p].duplicate();
    Ok(Some((FeatureChanged { feature: request.feature }, FeatureUndo::Replacement { before, after: stored_after })))
}

/// The answer a handler gives for an update that answered `inner`.
pub open spec fn announced(inner: Result<Option<(FeatureChanged, FeatureUndo)>, String>) -> Result<Option<FeatureChanged>, String> {
    match inner {
        Err(e) => Err(e),
        Ok(None) => Ok(None),
        Ok(Some((changed, _))) => Ok(Some(changed)),
    }
}

/// Handles an update request: the store changes as `update_settlement` says,
/// and when something changed its undo entry goes into the history (when there
/// is one) and the change is announced.
pub fn on_update_settlement(
    store: &mut FeatureStore,
    history: &mut Option<EditHistory<AtlasUndo>>,
    request: &UpdateSettlement,
) -> (r: Result<Option<FeatureChanged>, String>)
    requires
        old(store).wf(),
    ensures
        final(store).wf(),
        exists|inner: Result<Option<(FeatureChanged, FeatureUndo)>, String>|
            #[trigger] settlement_updated(*old(store), *final(store), *request, inner) && r == announced(inner)
                && match inner {
                Ok(Some((_, u))) => records(*old(history), *final(history), AtlasUndo::Feature(u)),
                _ => *final(history) == *old(history),
            },
{
    let inner = update_settlement(store, request);
    let ghost answered = inner;
    match inner {
        Err(e) => Err(e),
        Ok(None) => Ok(None),
        Ok(Some((changed, undo))) => {
            record_if_present(history, AtlasUndo::Feature(undo));
            assert(announced(answered) == Ok::<Option<FeatureChanged>, String>(Some(changed)));
            Ok(Some(changed))
        },
    }
}

/// Drops a feature.
pub fn delete_feature(store: &mut FeatureStore, request: &DeleteFeature) -> (r: Result<(FeatureChanged, FeatureUndo), String>)
    requires
        old(store).wf(),
    ensures
        final(store).wf(),
        final(store).features@ == without_feature(old(store).features@, request.feature),
        match old(store).get(request.feature) {
            None => r matches Err(e) && e@ == "selected feature no longer exists"@,
            Some(f) => r matches Ok((changed, undo)) && changed.feature == request.feature && undo.removes(f@),
        },
{
    match store.remove(request.feature) {
        Some(feature) => Ok((FeatureChanged { feature: request.feature }, FeatureUndo::Removal(feature))),
        None => {
            proof {
                reveal_strlit("selected feature no longer exists");
            }
            Err(String::from_str("selected feature no longer exists"))
        },
    }
}

impl FeatureUndo {
    /// Takes the edit back: an inserted feature is dropped again (which fails
    /// when it is gone), a dropped or replaced one is stored again as it was.
    pub fn undo(&self, store: &mut FeatureStore) -> (r: Result<FeatureChanged, String>)
        requires
            old(store).wf(),
        ensures
            final(store).wf(),
            match self {
                FeatureUndo::Insertion(f) => {
                    &&& final(store).features@ == without_feature(old(store).features@, f.id)
                    &&& old(store).get(f.id) is None ==> (r matches Err(e) && e@
                        == "feature needed by history is no longer present"@)
                    &&& old(store).get(f.id) is Some ==> r == Ok::<FeatureChanged, String>(
                        FeatureChanged { feature: f.id },
                    )
                },
                FeatureUndo::Removal(f) => r == Ok::<FeatureChanged, String>(FeatureChanged { feature: f.id })
                    && (final(store).get(f.id) matches Some(g) && g@ == f@
                    && final(store).features@ == with_feature(old(store).features@, g)),
                FeatureUndo::Replacement { before, .. } => r == Ok::<FeatureChanged, String>(
                    FeatureChanged { feature: before.id },
                ) && (final(store).get(before.id) matches Some(g) && g@ == before@
                    && final(store).features@ == with_feature(old(store).features@, g)),
            },
    {
        match self {
            FeatureUndo::Insertion(f) => match store.remove(f.id) {
                Some(_) => Ok(FeatureChanged { feature: f.id }),
                None => {
                    proof {
                        reveal_strlit("feature needed by history is no longer present");
                    }
                    Err(String::from_str("feature needed by history is no longer present"))
                },
            },
            FeatureUndo::Removal(f) => {
                let g = f.duplicate();
                proof {
                    lemma_with_feature(store.features@, g);
                }
                store.insert(g);
                Ok(FeatureChanged { feature: f.id })
            },
            FeatureUndo::Replacement { before, .. } => {
                let g = before.duplicate();
                proof {
                    lemma_with_feature(store.features@, g);
                }
                store.insert(g);
                Ok(FeatureChanged { feature: before.id })
            },
        }
    }

    /// Makes the edit again: an inserted or replacing feature is stored again,
    /// a dropped one is dropped again (whether or not it is there).
    pub fn redo(&self, store: &mut FeatureStore) -> (r: Result<FeatureChanged, String>)
        requires
            old(store).wf(),
        ensures
            final(store).wf(),
            match self {
                FeatureUndo::Insertion(f) => r == Ok::<FeatureChanged, String>(FeatureChanged { feature: f.id })
                    && (final(store).get(f.id) matches Some(g) && g@ == f@
                    && final(store).features@ == with_feature(old(store).features@, g)),
                FeatureUndo::Removal(f) => r == Ok::<FeatureChanged, String>(FeatureChanged { feature: f.id })
                    && final(store).features@ == without_feature(old(store).features@, f.id),
                FeatureUndo::Replacement { after, .. } => r == Ok::<FeatureChanged, String>(
                    FeatureChanged { feature: after.id },
                ) && (final(store).get(after.id) matches Some(g) && g@ == after@
                    && final(store).features@ == with_feature(old(store).features@, g)),
            },
    {
        match self {
            FeatureUndo::Insertion(f) => {
                let g = f.duplicate();
                proof {
                    lemma_with_feature(store.features@, g);
                }
                store.insert(g);
                Ok(FeatureChanged { feature: f.id })
            },
            FeatureUndo::Removal(f) => {
                store.remove(f.id);
                Ok(FeatureChanged { feature: f.id })
            },
            FeatureUndo::Replacement { after, .. } => {
                let g = after.duplicate();
                proof {
                    lemma_with_feature(store.features@, g);
                }
                store.insert(g);
                Ok(FeatureChanged { feature: after.id })
            },
        }
    }
}

/// A feature edit as history keeps it, run against the feature store.
impl UndoAction<FeatureStore> for FeatureUndo {
    open spec fn fits(&self, world: FeatureStore) -> bool {
        world.wf()
    }

    open spec fn undone(&self, before: FeatureStore, after: FeatureStore, result: Result<(), String>) -> bool {
        &&& after.wf()
        &&& match self {
            FeatureUndo::Insertion(f) => {
                &&& after.features@ == without_feature(before.features@, f.id)
                &&& before.get(f.id) is None ==> (result matches Err(e) && e@
                    == "feature needed by history is no longer present"@)
                &&& before.get(f.id) is Some ==> result is Ok
            },
            FeatureUndo::Removal(f) => result is Ok && (after.get(f.id) matches Some(g) && g@ == f@
                && after.features@ == with_feature(before.features@, g)),
            FeatureUndo::Replacement { before: b, .. } => result is Ok && (after.get(b.id) matches Some(g)
                && g@ == b@ && after.features@ == with_feature(before.features@, g)),
        }
    }

    open spec fn redone(&self, before: FeatureStore, after: FeatureStore, result: Result<(), String>) -> bool {
        &&& after.wf()
        &&& result is Ok
        &&& match self {
            FeatureUndo::Insertion(f) => after.get(f.id) matches Some(g) && g@ == f@ && after.features@
                == with_feature(before.features@, g),
            FeatureUndo::Removal(f) => after.features@ == without_feature(before.features@, f.id),
            FeatureUndo::Replacement { after: a, .. } => after.get(a.id) matches Some(g) && g@ == a@
                && after.features@ == with_feature(before.features@, g),
        }
    }

    fn undo(&self, world: &mut FeatureStore) -> (r: Result<(), String>) {
        match FeatureUndo::undo(self, world) {
            Ok(_) => Ok(()),
            Err(e) => Err(e),
        }
    }

    fn redo(&self, world: &mut FeatureStore) -> (r: Result<(), String>) {
        match FeatureUndo::redo(self, world) {
            Ok(_) => Ok(()),
            Err(e) => Err(e),
        }
    }
}

impl Default for FeatureStore {
    fn default() -> (r: FeatureStore)
        ensures
            r.wf(),
            r.features@.len() == 0,
    {
        FeatureStore::new()
    }
}


/// An update of an existing settlement with a non-empty trimmed name leaves
/// it with the trimmed name, the requested kind and the requested population,
/// and keeps its id, geometry, level and layer; it answers `Ok(None)` only
/// when the settlement already had exactly those values, and otherwise
/// returns the change and an undo entry from the old feature to the new one.
pub proof fn lemma_update_sets_request(
    before: FeatureStore,
    after: FeatureStore,
    request: UpdateSettlement,
    r: Result<Option<(FeatureChanged, FeatureUndo)>, String>,
)
    requires
        settlement_updated(before, after, request, r),
        before.get(request.feature) matches Some(f) && f.kind is Settlement,
        trim(request.name@).len() > 0,
    ensures
        after.get(request.feature) matches Some(g) && g@.name == trim(request.name@) && g.kind == (
        FeatureKind::Settlement { kind: request.kind, population: request.population }) && g@.id
            == before.get(request.feature).unwrap()@.id && g@.geometry == before.get(request.feature).unwrap()@.geometry
            && g@.visible_from_level == before.get(request.feature).unwrap()@.visible_from_level && g@.layer
            == before.get(request.feature).unwrap()@.layer,
        r == Ok::<Option<(FeatureChanged, FeatureUndo)>, String>(None) ==> before.get(request.feature).unwrap()@.name
            == trim(request.name@) && before.get(request.feature).unwrap().kind == (FeatureKind::Settlement {
            kind: request.kind,
            population: request.population,
        }),
        r matches Ok(Some((changed, undo))) ==> changed.feature == request.feature && undo.replaces(
            before.get(request.feature).unwrap()@,
            after.get(request.feature).unwrap()@,
        ),
{
}

} // verus!
