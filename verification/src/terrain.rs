//! Vocabulary of terrain sculpting shared with the editor. Heights are
//! floating-point and are sculpted outside the library; here they appear as
//! `f32` bit patterns.
use vstd::prelude::*;
use crate::coordinates::TileId;
use crate::edits::AtlasUndo;
use crate::history::{record_if_present, records, EditHistory, UndoAction};
use crate::layers::next_revision;

verus! {

/// Cells along the edge of a freshly created terrain tile.
pub const DEFAULT_TILE_CELLS: u16 = 128;

/// How a sculpt stroke changes heights. The flatten target is the bit pattern
/// of an `f32` height in metres.
#[derive(Debug, Clone, Copy, PartialEq, Eq, Structural)]
pub enum SculptMode {
    Raise,
    Lower,
    Flatten { target_m: u32 },
    Smooth,
}

/// Heights of a tile changed; `revision` is the tile's new revision.
#[derive(Debug, Clone, Copy, PartialEq, Eq, Structural)]
pub struct TerrainChanged {
    pub tile: TileId,
    pub revision: u64,
}

/// Why a terrain edit was refused.
#[derive(Debug, Clone, Copy, PartialEq, Eq, Structural)]
pub enum TerrainEditError {
    MissingTile(TileId),
    StaleProposal { expected: u64, actual: u64 },
    InvalidProposalSize,
}

/// The verdict on a computed height proposal: the tile must be loaded, still
/// at the revision the proposal was computed from, and have as many samples
/// as the proposal. `current` is the loaded tile's revision and sample count.
pub open spec fn proposal_verdict(
    tile: TileId,
    current: Option<(u64, usize)>,
    source_revision: u64,
    proposal_len: usize,
) -> Result<(), TerrainEditError> {
    match current {
        None => Err(TerrainEditError::MissingTile(tile)),
        Some((revision, len)) => if revision != source_revision {
            Err(TerrainEditError::StaleProposal { expected: source_revision, actual: revision })
        } else if len != proposal_len {
            Err(TerrainEditError::InvalidProposalSize)
        } else {
            Ok(())
        },
    }
}

pub fn check_proposal(
    tile: TileId,
    current: Option<(u64, usize)>,
    source_revision: u64,
    proposal_len: usize,
) -> (r: Result<(), TerrainEditError>)
    ensures
        r == proposal_verdict(tile, current, source_revision, proposal_len),
{
    match current {
        None => Err(TerrainEditError::MissingTile(tile)),
        Some((revision, len)) => if revision != source_revision {
            Err(TerrainEditError::StaleProposal { expected: source_revision, actual: revision })
        } else if len != proposal_len {
            Err(TerrainEditError::InvalidProposalSize)
        } else {
            Ok(())
        },
    }
}

/// Whether two `f32` bit patterns compare equal as floats: no NaN, and the
/// same bits or both zeros.
pub open spec fn f32_same(a: u32, b: u32) -> bool {
    &&& a & 0x7fff_ffff <= 0x7f80_0000
    &&& b & 0x7fff_ffff <= 0x7f80_0000
    &&& (a == b || (a | b) & 0x7fff_ffff == 0)
}

pub fn f32_equal(a: u32, b: u32) -> (r: bool)
    ensures
        r == f32_same(a, b),
{
    a & 0x7fff_ffff <= 0x7f80_0000 && b & 0x7fff_ffff <= 0x7f80_0000 && (a == b || (a | b) & 0x7fff_ffff == 0)
}

/// One height sample an edit changed, as `f32` bit patterns.
#[derive(Debug, Clone, Copy, PartialEq, Eq, Structural)]
pub struct HeightChange {
    pub index: u32,
    pub before: u32,
    pub after: u32,
}

/// Every sample change of one edit, in the order they were made.
#[derive(Debug, Clone)]
pub struct HeightPatch {
    pub tile: TileId,
    pub changes: Vec<HeightChange>,
}

/// Samples and changes after writing `proposed` values over `source`, in
/// order. Each value is compared with the sample from before the edit; only
/// a value that differs from it (as a float) is written and recorded.
pub open spec fn heights_written(source: Seq<u32>, proposed: Seq<(usize, u32)>) -> (Seq<u32>, Seq<HeightChange>)
    decreases proposed.len(),
{
    if proposed.len() == 0 {
        (source, Seq::empty())
    } else {
        let (s, ch) = heights_written(source, proposed.drop_last());
        let i = proposed.last().0 as int;
        let a = proposed.last().1;
        if !f32_same(source[i], a) {
            (s.update(i, a), ch.push(HeightChange { index: i as u32, before: source[i], after: a }))
        } else {
            (s, ch)
        }
    }
}

/// The last change of sample `n`, if any.
pub open spec fn height_change_at(changes: Seq<HeightChange>, n: int) -> Option<HeightChange>
    decreases changes.len(),
{
    if changes.len() == 0 {
        None
    } else if changes.last().index as int == n {
        Some(changes.last())
    } else {
        height_change_at(changes.drop_last(), n)
    }
}

/// Samples after writing each change in order: `after` going forward,
/// `before` going back.
pub open spec fn heights_applied(samples: Seq<u32>, changes: Seq<HeightChange>, forward: bool) -> Seq<u32>
    decreases changes.len(),
{
    if changes.len() == 0 {
        samples
    } else {
        let last = changes.last();
        heights_applied(samples, changes.drop_last(), forward).update(
            last.index as int,
            if forward {
                last.after
            } else {
                last.before
            },
        )
    }
}

pub open spec fn proposals_in_range(proposed: Seq<(usize, u32)>, len: nat) -> bool {
    forall|k: int| 0 <= k < proposed.len() ==> (#[trigger] proposed[k]).0 < len
}

pub open spec fn change_indices_below(changes: Seq<HeightChange>, len: nat) -> bool {
    forall|k: int| 0 <= k < changes.len() ==> (#[trigger] changes[k]).index < len
}

proof fn lemma_heights_applied_at(samples: Seq<u32>, changes: Seq<HeightChange>, forward: bool)
    requires
        change_indices_below(changes, samples.len()),
    ensures
        heights_applied(samples, changes, forward).len() == samples.len(),
        forall|n: int|
            0 <= n < samples.len() ==> #[trigger] heights_applied(samples, changes, forward)[n] == match height_change_at(
                changes,
                n,
            ) {
                Some(c) => if forward {
                    c.after
                } else {
                    c.before
                },
                None => samples[n],
            },
    decreases changes.len(),
{
    if changes.len() > 0 {
        let t = changes.drop_last();
        assert forall|k: int| 0 <= k < t.len() implies (#[trigger] t[k]).index < samples.len() by {
            assert(t[k] == changes[k]);
        }
        lemma_heights_applied_at(samples, t, forward);
        assert(changes.last() == changes[changes.len() - 1]);
    }
}

proof fn lemma_heights_written(source: Seq<u32>, proposed: Seq<(usize, u32)>)
    requires
        proposals_in_range(proposed, source.len()),
        source.len() < 0x1_0000_0000,
    ensures
        heights_written(source, proposed).0.len() == source.len(),
        change_indices_below(heights_written(source, proposed).1, source.len()),
        forall|n: int|
            0 <= n < source.len() ==> #[trigger] heights_written(source, proposed).0[n] == match height_change_at(
                heights_written(source, proposed).1,
                n,
            ) {
                Some(c) => c.after,
                None => source[n],
            },
        forall|n: int|
            0 <= n < source.len() ==> match #[trigger] height_change_at(heights_written(source, proposed).1, n) {
                Some(c) => c.before == source[n],
                None => true,
            },
    decreases proposed.len(),
{
    if proposed.len() > 0 {
        let t = proposed.drop_last();
        assert forall|k: int| 0 <= k < t.len() implies (#[trigger] t[k]).0 < source.len() by {
            assert(t[k] == proposed[k]);
        }
        lemma_heights_written(source, t);
        let (s, ch) = heights_written(source, t);
        let last = proposed[proposed.len() - 1];
        let i = last.0 as int;
        assert((i as u32) as int == i);
        let r = heights_written(source, proposed);
        if !f32_same(source[i], last.1) {
            let nc = HeightChange { index: i as u32, before: source[i], after: last.1 };
            assert(r.1 == ch.push(nc));
            assert(r.1.drop_last() =~= ch);
            assert forall|k: int| 0 <= k < r.1.len() implies (#[trigger] r.1[k]).index < source.len() by {
                if k < ch.len() {
                    assert(r.1[k] == ch[k]);
                }
            }
            assert forall|n: int| 0 <= n < source.len() implies #[trigger] r.0[n] == match height_change_at(r.1, n) {
                Some(c) => c.after,
                None => source[n],
            } by {
                if n != i {
                    assert(height_change_at(r.1, n) == height_change_at(ch, n));
                }
            }
            assert forall|n: int| 0 <= n < source.len() implies match #[trigger] height_change_at(r.1, n) {
                Some(c) => c.before == source[n],
                None => true,
            } by {
                if n != i {
                    assert(height_change_at(r.1, n) == height_change_at(ch, n));
                }
            }
        }
    }
}

/// A height edit's patch undoes it: applying the changes backwards to the
/// edited samples gives back the samples from before the edit, and applying
/// them forwards to those samples gives the edited samples again.
pub proof fn lemma_height_patch_round_trip(source: Seq<u32>, proposed: Seq<(usize, u32)>)
    requires
        proposals_in_range(proposed, source.len()),
        source.len() < 0x1_0000_0000,
    ensures
        heights_applied(heights_written(source, proposed).0, heights_written(source, proposed).1, false)
            == source,
        heights_applied(source, heights_written(source, proposed).1, true) == heights_written(source, proposed).0,
{
    let (s1, ch) = heights_written(source, proposed);
    lemma_heights_written(source, proposed);
    lemma_heights_applied_at(s1, ch, false);
    lemma_heights_applied_at(source, ch, true);
    assert forall|n: int| 0 <= n < source.len() implies #[trigger] heights_applied(s1, ch, false)[n] == source[n] by {
        assert(match height_change_at(ch, n) {
            Some(c) => c.before == source[n],
            None => true,
        });
        assert(s1[n] == match height_change_at(ch, n) {
            Some(c) => c.after,
            None => source[n],
        });
    }
    assert forall|n: int| 0 <= n < source.len() implies #[trigger] heights_applied(source, ch, true)[n] == s1[n] by {
        assert(s1[n] == match height_change_at(ch, n) {
            Some(c) => c.after,
            None => source[n],
        });
    }
    assert(heights_applied(s1, ch, false) =~= source);
    assert(heights_applied(source, ch, true) =~= s1);
}

/// Writes proposed sample values, each compared with the samples from before
/// the edit, and returns the changes made.
pub fn write_heights(samples: &mut Vec<u32>, tile: TileId, proposed: &Vec<(usize, u32)>) -> (patch: HeightPatch)
    requires
        proposals_in_range(proposed@, old(samples)@.len()),
        old(samples)@.len() < 0x1_0000_0000,
    ensures
        final(samples)@ == heights_written(old(samples)@, proposed@).0,
        patch.changes@ == heights_written(old(samples)@, proposed@).1,
        patch.tile == tile,
{
    let ghost source = samples@;
    let mut before_edit: Vec<u32> = Vec::new();
    let mut j: usize = 0;
    while j < samples.len()
        invariant
            j <= samples@.len(),
            samples@ == source,
            before_edit@ == source.take(j as int),
        decreases samples.len() - j,
    {
        before_edit.push(samples[j]);
        assert(source.take(j + 1) =~= source.take(j as int).push(source[j as int]));
        j = j + 1;
    }
    assert(source.take(source.len() as int) =~= source);
    let mut changes: Vec<HeightChange> = Vec::new();
    let mut k: usize = 0;
    while k < proposed.len()
        invariant
            k <= proposed@.len(),
            before_edit@ == source,
            proposals_in_range(proposed@, source.len()),
            source.len() < 0x1_0000_0000,
            samples@ == heights_written(source, proposed@.take(k as int)).0,
            changes@ == heights_written(source, proposed@.take(k as int)).1,
        decreases proposed.len() - k,
    {
        let ghost prefix = proposed@.take(k as int);
        proof {
            assert forall|m: int| 0 <= m < prefix.len() implies (#[trigger] prefix[m]).0 < source.len() by {
                assert(prefix[m] == proposed@[m]);
            }
            lemma_heights_written(source, prefix);
            assert(proposed@.take(k + 1).drop_last() =~= prefix);
            assert(proposed@.take(k + 1).last() == proposed@[k as int]);
        }
        let (index, after) = proposed[k];
        let before = before_edit[index];
        if !f32_equal(before, after) {
            samples.set(index, after);
            changes.push(HeightChange { index: index as u32, before, after });
        }
        k = k + 1;
    }
    proof {
        assert(proposed@.take(proposed@.len() as int) =~= proposed@);
    }
    HeightPatch { tile, changes }
}

/// Writes a patch's changes into the samples, forward (`after`) or back
/// (`before`).
pub fn apply_height_patch(samples: &mut Vec<u32>, patch: &HeightPatch, forward: bool)
    requires
        change_indices_below(patch.changes@, old(samples)@.len()),
    ensures
        final(samples)@ == heights_applied(old(samples)@, patch.changes@, forward),
{
    let mut k: usize = 0;
    while k < patch.changes.len()
        invariant
            k <= patch.changes@.len(),
            change_indices_below(patch.changes@, old(samples)@.len()),
            samples@ == heights_applied(old(samples)@, patch.changes@.take(k as int), forward),
            samples@.len() == old(samples)@.len(),
        decreases patch.changes.len() - k,
    {
        let change = patch.changes[k];
        proof {
            assert(patch.changes@.take(k + 1).drop_last() =~= patch.changes@.take(k as int));
            assert(patch.changes@.take(k + 1).last() == change);
        }
        let value = if forward {
            change.after
        } else {
            change.before
        };
        samples.set(change.index as usize, value);
        k = k + 1;
    }
    proof {
        assert(patch.changes@.take(patch.changes@.len() as int) =~= patch.changes@);
    }
}

/// The samples and revision of one loaded tile: what height edits change.
pub struct HeightSamples {
    pub tile: TileId,
    /// Heights as `f32` bit patterns, row major.
    pub samples: Vec<u32>,
    pub revision: u64,
}

/// Revision of a tile after an edit with `changes`: it moves on when any
/// sample changed.
pub open spec fn height_revision(revision: u64, changes: Seq<HeightChange>) -> u64 {
    if changes.len() == 0 {
        revision
    } else {
        next_revision(revision)
    }
}

/// Writing a patch (back when `forward` is false) into its tile turned
/// `before` into `after`.
pub open spec fn height_patch_written(patch: HeightPatch, before: HeightSamples, after: HeightSamples, forward: bool) -> bool {
    &&& after.tile == before.tile
    &&& after.samples@ == heights_applied(before.samples@, patch.changes@, forward)
    &&& after.revision == height_revision(before.revision, patch.changes@)
}

/// Writes a patch into its tile, back when `forward` is false; the revision
/// moves on when the patch changes anything.
pub fn apply_height_patch_to(tile: &mut HeightSamples, patch: &HeightPatch, forward: bool)
    requires
        change_indices_below(patch.changes@, old(tile).samples@.len()),
    ensures
        height_patch_written(*patch, *old(tile), *final(tile), forward),
{
    apply_height_patch(&mut tile.samples, patch, forward);
    if patch.changes.len() > 0 {
        tile.revision = tile.revision.wrapping_add(1);
    }
}

/// A height edit as history keeps it, run against the tile it belongs to.
impl UndoAction<HeightSamples> for HeightPatch {
    open spec fn fits(&self, world: HeightSamples) -> bool {
        world.tile == self.tile && change_indices_below(self.changes@, world.samples@.len())
    }

    open spec fn undone(&self, before: HeightSamples, after: HeightSamples, result: Result<(), String>) -> bool {
        result is Ok && height_patch_written(*self, before, after, false)
    }

    open spec fn redone(&self, before: HeightSamples, after: HeightSamples, result: Result<(), String>) -> bool {
        result is Ok && height_patch_written(*self, before, after, true)
    }

    fn undo(&self, world: &mut HeightSamples) -> (r: Result<(), String>) {
        apply_height_patch_to(world, self, false);
        Ok(())
    }

    fn redo(&self, world: &mut HeightSamples) -> (r: Result<(), String>) {
        apply_height_patch_to(world, self, true);
        Ok(())
    }
}

/// Writes proposed sample values into a loaded tile. When any sample changed,
/// the revision moves on, the patch goes into the history (when there is
/// one) and the change is announced; otherwise nothing else happens.
pub fn on_height_write(
    tile: &mut HeightSamples,
    history: &mut Option<EditHistory<AtlasUndo>>,
    proposed: &Vec<(usize, u32)>,
) -> (r: Option<TerrainChanged>)
    requires
        proposals_in_range(proposed@, old(tile).samples@.len()),
        old(tile).samples@.len() < 0x1_0000_0000,
    ensures
        final(tile).tile == old(tile).tile,
        final(tile).samples@ == heights_written(old(tile).samples@, proposed@).0,
        final(tile).revision == height_revision(old(tile).revision, heights_written(old(tile).samples@, proposed@).1),
        heights_written(old(tile).samples@, proposed@).1.len() == 0 ==> r is None && *final(history) == *old(history),
        heights_written(old(tile).samples@, proposed@).1.len() > 0 ==> {
            &&& r == Some(TerrainChanged { tile: old(tile).tile, revision: next_revision(old(tile).revision) })
            &&& exists|p: HeightPatch|
                p.tile == old(tile).tile && p.changes@ == heights_written(old(tile).samples@, proposed@).1
                    && #[trigger] records(*old(history), *final(history), AtlasUndo::Height(p))
        },
{
    let patch = write_heights(&mut tile.samples, tile.tile, proposed);
    if patch.changes.len() == 0 {
        return None;
    }
    tile.revision = tile.revision.wrapping_add(1);
    let ghost entry = patch;
    record_if_present(history, AtlasUndo::Height(patch));
    assert(records(*old(history), *history, AtlasUndo::Height(entry)));
    Some(TerrainChanged { tile: tile.tile, revision: tile.revision })
}

/// Each proposed value paired with its sample index.
pub open spec fn indexed(values: Seq<u32>) -> Seq<(usize, u32)> {
    Seq::new(values.len(), |i: int| (i as usize, values[i]))
}

/// Applies a computed height proposal to a loaded tile: it must still be at
/// the revision the proposal was computed from and have as many samples;
/// then every sample is written as `on_height_write` does.
pub fn apply_height_proposal(
    tile: &mut HeightSamples,
    history: &mut Option<EditHistory<AtlasUndo>>,
    source_revision: u64,
    values: &Vec<u32>,
) -> (r: Result<Option<TerrainChanged>, TerrainEditError>)
    requires
        old(tile).samples@.len() < 0x1_0000_0000,
    ensures
        proposal_verdict(old(tile).tile, Some((old(tile).revision, old(tile).samples.len())), source_revision, values.len())
            matches Err(e) ==> r == Err::<Option<TerrainChanged>, TerrainEditError>(e) && *final(tile) == *old(tile)
            && *final(history) == *old(history),
        proposal_verdict(old(tile).tile, Some((old(tile).revision, old(tile).samples.len())), source_revision, values.len())
            is Ok ==> {
            let (s1, ch) = heights_written(old(tile).samples@, indexed(values@));
            &&& final(tile).tile == old(tile).tile
            &&& final(tile).samples@ == s1
            &&& final(tile).revision == height_revision(old(tile).revision, ch)
            &&& ch.len() == 0 ==> r == Ok::<Option<TerrainChanged>, TerrainEditError>(None) && *final(history) == *old(history)
            &&& ch.len() > 0 ==> {
                &&& r == Ok::<Option<TerrainChanged>, TerrainEditError>(
                    Some(TerrainChanged { tile: old(tile).tile, revision: next_revision(old(tile).revision) }),
                )
                &&& exists|p: HeightPatch|
                    p.tile == old(tile).tile && p.changes@ == ch && #[trigger] records(
                        *old(history),
                        *final(history),
                        AtlasUndo::Height(p),
                    )
            }
        },
{
    match check_proposal(tile.tile, Some((tile.revision, tile.samples.len())), source_revision, values.len()) {
        Err(e) => return Err(e),
        Ok(()) => {},
    }
    let mut proposed: Vec<(usize, u32)> = Vec::new();
    let mut i: usize = 0;
    while i < values.len()
        invariant
            i <= values@.len(),
            proposed@ == indexed(values@).take(i as int),
        decreases values.len() - i,
    {
        proposed.push((i, values[i]));
        assert(proposed@ =~= indexed(values@).take(i + 1));
        i = i + 1;
    }
    assert(proposed@ =~= indexed(values@));
    Ok(on_height_write(tile, history, &proposed))
}

} // verus!
