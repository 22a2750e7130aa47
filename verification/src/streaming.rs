//! Memory policy for resident terrain tiles: which tiles are requested or
//! resident, what they cost, and which may be evicted first.
use vstd::prelude::*;
use crate::coordinates::TileId;
use crate::coordinates::lemma_precedes_total;
use crate::coordinates::lemma_precedes_transitive;

verus! {

#[derive(Debug, Clone, Copy, PartialEq, Eq, Structural)]
pub enum ResidencyState {
    Requested,
    CpuResident,
    GpuResident,
}

#[derive(Debug, Clone, Copy, PartialEq, Eq, Structural)]
pub struct ResidentTile {
    pub id: TileId,
    pub state: ResidencyState,
    pub last_used_frame: u64,
    pub cpu_bytes: u64,
    pub gpu_bytes: u64,
    /// Dirty tiles and tiles participating in active compute windows are pinned.
    pub pinned: bool,
}

#[derive(Debug, Clone, Copy, PartialEq, Eq, Structural)]
pub struct ResidencyBudget {
    pub maximum_cpu_bytes: u64,
    pub maximum_gpu_bytes: u64,
    pub maximum_tiles: usize,
}

impl Default for ResidencyBudget {
    fn default() -> (r: Self)
        ensures
            r.maximum_cpu_bytes == 384 * 1024 * 1024,
            r.maximum_gpu_bytes == 512 * 1024 * 1024,
            r.maximum_tiles == 192,
    {
        ResidencyBudget {
            maximum_cpu_bytes: 384 * 1024 * 1024,
            maximum_gpu_bytes: 512 * 1024 * 1024,
            maximum_tiles: 192,
        }
    }
}

/// Tiles in ascending address order, each address at most once.
pub open spec fn sorted_tiles(s: Seq<ResidentTile>) -> bool {
    forall|i: int, j: int| 0 <= i < j < s.len() ==> (#[trigger] s[i]).id.precedes((#[trigger] s[j]).id)
}

/// Number of leading tiles whose address precedes `id`: where `id` is found or
/// would be inserted.
pub open spec fn key_pos(s: Seq<ResidentTile>, id: TileId) -> nat
    decreases s.len(),
{
    if s.len() > 0 && s[0].id.precedes(id) {
        1 + key_pos(s.drop_first(), id)
    } else {
        0
    }
}

pub open spec fn holds(s: Seq<ResidentTile>, id: TileId) -> bool {
    key_pos(s, id) < s.len() && s[key_pos(s, id) as int].id == id
}

pub open spec fn fresh_tile(id: TileId, frame: u64) -> ResidentTile {
    ResidentTile {
        id,
        state: ResidencyState::Requested,
        last_used_frame: frame,
        cpu_bytes: 0,
        gpu_bytes: 0,
        pinned: false,
    }
}

/// Tiles after a request for `id` in `frame`: a known tile is marked used, an
/// unknown one is added as requested.
pub open spec fn requested(s: Seq<ResidentTile>, id: TileId, frame: u64) -> Seq<ResidentTile> {
    let p = key_pos(s, id) as int;
    if holds(s, id) {
        s.update(p, ResidentTile { last_used_frame: frame, ..s[p] })
    } else {
        s.insert(p, fresh_tile(id, frame))
    }
}

pub open spec fn total_cpu(s: Seq<ResidentTile>) -> int
    decreases s.len(),
{
    if s.len() == 0 {
        0
    } else {
        total_cpu(s.drop_last()) + s.last().cpu_bytes
    }
}

pub open spec fn total_gpu(s: Seq<ResidentTile>) -> int
    decreases s.len(),
{
    if s.len() == 0 {
        0
    } else {
        total_gpu(s.drop_last()) + s.last().gpu_bytes
    }
}

/// Eviction order: least recently used first, ties broken by address.
pub open spec fn evicts_before(a: (u64, TileId), b: (u64, TileId)) -> bool {
    a.0 < b.0 || (a.0 == b.0 && a.1.precedes(b.1))
}

pub open spec fn key_of(t: ResidentTile) -> (u64, TileId) {
    (t.last_used_frame, t.id)
}

#[derive(Debug, Clone)]
pub struct TileResidencyManager {
    pub budget: ResidencyBudget,
    /// Tiles in ascending address order, each address at most once.
    pub tiles: Vec<ResidentTile>,
    pub frame: u64,
}

proof fn lemma_unique_ids(s: Seq<ResidentTile>, i: int, j: int)
    requires
        sorted_tiles(s),
        0 <= i < s.len(),
        0 <= j < s.len(),
        s[i].id == s[j].id,
    ensures
        i == j,
{
    if i < j {
        assert(s[i].id.precedes(s[j].id));
    } else if j < i {
        assert(s[j].id.precedes(s[i].id));
    }
}

proof fn lemma_key_pos(s: Seq<ResidentTile>, id: TileId, i: int)
    requires
        sorted_tiles(s),
        0 <= i <= s.len(),
        forall|j: int| 0 <= j < i ==> (#[trigger] s[j]).id.precedes(id),
        i == s.len() || !s[i].id.precedes(id),
    ensures
        key_pos(s, id) == i,
    decreases i,
{
    if i > 0 {
        let t = s.drop_first();
        assert forall|a: int, b: int| 0 <= a < b < t.len() implies (#[trigger] t[a]).id.precedes(
            (#[trigger] t[b]).id,
        ) by {
            assert(t[a] == s[a + 1] && t[b] == s[b + 1]);
        }
        assert forall|j: int| 0 <= j < i - 1 implies (#[trigger] t[j]).id.precedes(id) by {
            assert(t[j] == s[j + 1]);
        }
        if i < s.len() {
            assert(t[i - 1] == s[i]);
        }
        lemma_key_pos(t, id, i - 1);
    }
}

impl TileResidencyManager {
    pub open spec fn wf(&self) -> bool {
        sorted_tiles(self.tiles@)
    }

    pub fn new() -> (r: Self)
        ensures
            r.wf(),
            r.tiles@.len() == 0,
            r.frame == 0,
            r.budget.maximum_cpu_bytes == 384 * 1024 * 1024,
            r.budget.maximum_gpu_bytes == 512 * 1024 * 1024,
            r.budget.maximum_tiles == 192,
    {
        TileResidencyManager { budget: ResidencyBudget::default(), tiles: Vec::new(), frame: 0 }
    }

    pub fn begin_frame(&mut self)
        ensures
            final(self).frame == (if old(self).frame == u64::MAX {
                0
            } else {
                old(self).frame + 1
            }),
            final(self).tiles@ == old(self).tiles@,
            final(self).budget == old(self).budget,
            final(self).wf() == old(self).wf(),
    {
        self.frame = self.frame.wrapping_add(1);
    }

    /// Position of `id` among the tiles, or where it would go.
    fn position(&self, id: &TileId) -> (r: usize)
        requires
            self.wf(),
        ensures
            r == key_pos(self.tiles@, *id),
            r <= self.tiles@.len(),
            forall|j: int| 0 <= j < r ==> (#[trigger] self.tiles@[j]).id.precedes(*id),
            r < self.tiles@.len() ==> !self.tiles@[r as int].id.precedes(*id),
    {
        let mut i: usize = 0;
        while i < self.tiles.len() && self.tiles[i].id.is_before(id)
            invariant
                i <= self.tiles@.len(),
                sorted_tiles(self.tiles@),
                forall|j: int| 0 <= j < i ==> (#[trigger] self.tiles@[j]).id.precedes(*id),
            decreases self.tiles.len() - i,
        {
            i = i + 1;
        }
        proof {
            lemma_key_pos(self.tiles@, *id, i as int);
        }
        i
    }

    /// Notes that `id` is wanted in the current frame.
    pub fn request(&mut self, id: TileId)
        requires
            old(self).wf(),
        ensures
            final(self).wf(),
            final(self).tiles@ == requested(old(self).tiles@, id, old(self).frame),
            final(self).frame == old(self).frame,
            final(self).budget == old(self).budget,
    {
        self.request_at(id);
    }

    /// `request`, also giving the position of the tile afterwards.
    fn request_at(&mut self, id: TileId) -> (r: usize)
        requires
            old(self).wf(),
        ensures
            final(self).wf(),
            final(self).tiles@ == requested(old(self).tiles@, id, old(self).frame),
            final(self).frame == old(self).frame,
            final(self).budget == old(self).budget,
            r == key_pos(old(self).tiles@, id),
            r < final(self).tiles@.len(),
            final(self).tiles@[r as int].id == id,
    {
        let p = self.position(&id);
        let frame = self.frame;
        if p < self.tiles.len() && self.tiles[p].id.same(&id) {
            let mut t = self.tiles[p];
            t.last_used_frame = frame;
            self.tiles.set(p, t);
            assert(sorted_tiles(self.tiles@)) by {
                assert forall|i: int, j: int| 0 <= i < j < self.tiles@.len() implies (
                #[trigger] self.tiles@[i]).id.precedes((#[trigger] self.tiles@[j]).id) by {
                    assert(self.tiles@[i].id == old(self).tiles@[i].id);
                    assert(self.tiles@[j].id == old(self).tiles@[j].id);
                }
            }
        } else {
            let ghost s = self.tiles@;
            proof {
                if p < s.len() {
                    lemma_precedes_total(s[p as int].id, id);
                    assert(id.precedes(s[p as int].id));
                }
            }
            self.tiles.insert(
                p,
                ResidentTile {
                    id,
                    state: ResidencyState::Requested,
                    last_used_frame: frame,
                    cpu_bytes: 0,
                    gpu_bytes: 0,
                    pinned: false,
                },
            );
            assert(sorted_tiles(self.tiles@)) by {
                let n = self.tiles@;
                assert forall|i: int, j: int| 0 <= i < j < n.len() implies (
                #[trigger] n[i]).id.precedes((#[trigger] n[j]).id) by {
                    if j < p {
                        assert(n[i] == s[i] && n[j] == s[j]);
                    } else if j == p {
                        assert(n[i] == s[i]);
                    } else if i == p {
                        assert(n[j] == s[j - 1]);
                        if j - 1 > p {
                            lemma_precedes_transitive(id, s[p as int].id, s[j - 1].id);
                        }
                    } else if i < p {
                        assert(n[i] == s[i] && n[j] == s[j - 1]);
                    } else {
                        assert(n[i] == s[i - 1] && n[j] == s[j - 1]);
                    }
                }
            }
        }
        p
    }

    /// Requests `id` and records that its data is in CPU memory.
    pub fn mark_cpu_resident(&mut self, id: TileId, bytes: u64)
        requires
            old(self).wf(),
        ensures
            final(self).wf(),
            final(self).tiles@ == marked_cpu(old(self).tiles@, id, old(self).frame, bytes),
            final(self).frame == old(self).frame,
            final(self).budget == old(self).budget,
    {
        let p = self.request_at(id);
        let ghost before = self.tiles@;
        let mut t = self.tiles[p];
        t.state = ResidencyState::CpuResident;
        t.cpu_bytes = bytes;
        self.tiles.set(p, t);
        assert(sorted_tiles(self.tiles@)) by {
            assert forall|i: int, j: int| 0 <= i < j < self.tiles@.len() implies (
            #[trigger] self.tiles@[i]).id.precedes((#[trigger] self.tiles@[j]).id) by {
                assert(self.tiles@[i].id == before[i].id);
                assert(self.tiles@[j].id == before[j].id);
            }
        }
    }

    /// Requests `id` and records that its data is in GPU memory.
    pub fn mark_gpu_resident(&mut self, id: TileId, gpu_bytes: u64)
        requires
            old(self).wf(),
        ensures
            final(self).wf(),
            final(self).tiles@ == marked_gpu(old(self).tiles@, id, old(self).frame, gpu_bytes),
            final(self).frame == old(self).frame,
            final(self).budget == old(self).budget,
    {
        let p = self.request_at(id);
        let ghost before = self.tiles@;
        let mut t = self.tiles[p];
        t.state = ResidencyState::GpuResident;
        t.gpu_bytes = gpu_bytes;
        self.tiles.set(p, t);
        assert(sorted_tiles(self.tiles@)) by {
            assert forall|i: int, j: int| 0 <= i < j < self.tiles@.len() implies (
            #[trigger] self.tiles@[i]).id.precedes((#[trigger] self.tiles@[j]).id) by {
                assert(self.tiles@[i].id == before[i].id);
                assert(self.tiles@[j].id == before[j].id);
            }
        }
    }

    /// Marks a known tile as used in the current frame.
    pub fn touch(&mut self, id: TileId)
        requires
            old(self).wf(),
        ensures
            final(self).wf(),
            final(self).tiles@ == touched(old(self).tiles@, id, old(self).frame),
            final(self).frame == old(self).frame,
            final(self).budget == old(self).budget,
    {
        let p = self.position(&id);
        if p < self.tiles.len() && self.tiles[p].id.same(&id) {
            let mut t = self.tiles[p];
            t.last_used_frame = self.frame;
            self.tiles.set(p, t);
            assert(sorted_tiles(self.tiles@)) by {
                assert forall|i: int, j: int| 0 <= i < j < self.tiles@.len() implies (
                #[trigger] self.tiles@[i]).id.precedes((#[trigger] self.tiles@[j]).id) by {
                    assert(self.tiles@[i].id == old(self).tiles@[i].id);
                    assert(self.tiles@[j].id == old(self).tiles@[j].id);
                }
            }
        }
    }

    /// Pins or unpins a known tile.
    pub fn set_pinned(&mut self, id: TileId, pinned: bool)
        requires
            old(self).wf(),
        ensures
            final(self).wf(),
            final(self).tiles@ == pinned_as(old(self).tiles@, id, pinned),
            final(self).frame == old(self).frame,
            final(self).budget == old(self).budget,
    {
        let p = self.position(&id);
        if p < self.tiles.len() && self.tiles[p].id.same(&id) {
            let mut t = self.tiles[p];
            t.pinned = pinned;
            self.tiles.set(p, t);
            assert(sorted_tiles(self.tiles@)) by {
                assert forall|i: int, j: int| 0 <= i < j < self.tiles@.len() implies (
                #[trigger] self.tiles@[i]).id.precedes((#[trigger] self.tiles@[j]).id) by {
                    assert(self.tiles@[i].id == old(self).tiles@[i].id);
                    assert(self.tiles@[j].id == old(self).tiles@[j].id);
                }
            }
        }
    }
}

pub open spec fn marked_cpu(s: Seq<ResidentTile>, id: TileId, frame: u64, bytes: u64) -> Seq<ResidentTile> {
    let r = requested(s, id, frame);
    let p = key_pos(s, id) as int;
    r.update(p, ResidentTile { state: ResidencyState::CpuResident, cpu_bytes: bytes, ..r[p] })
}

pub open spec fn marked_gpu(s: Seq<ResidentTile>, id: TileId, frame: u64, bytes: u64) -> Seq<ResidentTile> {
    let r = requested(s, id, frame);
    let p = key_pos(s, id) as int;
    r.update(p, ResidentTile { state: ResidencyState::GpuResident, gpu_bytes: bytes, ..r[p] })
}

pub open spec fn touched(s: Seq<ResidentTile>, id: TileId, frame: u64) -> Seq<ResidentTile> {
    let p = key_pos(s, id) as int;
    if holds(s, id) {
        s.update(p, ResidentTile { last_used_frame: frame, ..s[p] })
    } else {
        s
    }
}

pub open spec fn pinned_as(s: Seq<ResidentTile>, id: TileId, pinned: bool) -> Seq<ResidentTile> {
    let p = key_pos(s, id) as int;
    if holds(s, id) {
        s.update(p, ResidentTile { pinned, ..s[p] })
    } else {
        s
    }
}


proof fn lemma_totals_prefix(s: Seq<ResidentTile>, i: int)
    requires
        0 <= i <= s.len(),
    ensures
        0 <= total_cpu(s.take(i)) <= total_cpu(s),
        0 <= total_gpu(s.take(i)) <= total_gpu(s),
    decreases s.len(),
{
    if i == s.len() {
        assert(s.take(i) =~= s);
    } else {
        lemma_totals_prefix(s.drop_last(), i);
        assert(s.drop_last().take(i) =~= s.take(i));
    }
    if s.len() > 0 {
        lemma_totals_prefix(s.drop_last(), s.len() - 1);
        assert(s.drop_last().take(s.len() - 1) =~= s.drop_last());
    }
}

/// Whether a resident set exceeds any limit of the budget.
pub open spec fn exceeds(b: ResidencyBudget, s: Seq<ResidentTile>) -> bool {
    total_cpu(s) > b.maximum_cpu_bytes || total_gpu(s) > b.maximum_gpu_bytes || s.len()
        > b.maximum_tiles
}

/// A candidate list is the addresses of exactly the unpinned tiles, least
/// recently used first and by address among equals.
pub open spec fn eviction_order(s: Seq<ResidentTile>, r: Seq<TileId>) -> bool {
    &&& forall|k: int| 0 <= k < r.len() ==> exists|i: int| 0 <= i < s.len() && !s[i].pinned && s[i].id == #[trigger] r[k]
    &&& forall|i: int| 0 <= i < s.len() && !(#[trigger] s[i]).pinned ==> r.contains(s[i].id)
    &&& forall|a: int, b: int, i: int, j: int|
        #![trigger r[a], r[b], s[i], s[j]]
        0 <= a < b < r.len() && 0 <= i < s.len() && 0 <= j < s.len() && s[i].id == r[a] && s[j].id == r[b]
            ==> evicts_before(key_of(s[i]), key_of(s[j]))
}

impl TileResidencyManager {
    /// CPU bytes, GPU bytes and number of tiles.
    pub fn usage(&self) -> (r: (u64, u64, usize))
        requires
            total_cpu(self.tiles@) <= u64::MAX,
            total_gpu(self.tiles@) <= u64::MAX,
        ensures
            r.0 == total_cpu(self.tiles@),
            r.1 == total_gpu(self.tiles@),
            r.2 == self.tiles@.len(),
    {
        let mut cpu: u64 = 0;
        let mut gpu: u64 = 0;
        let mut i: usize = 0;
        while i < self.tiles.len()
            invariant
                i <= self.tiles@.len(),
                total_cpu(self.tiles@) <= u64::MAX,
                total_gpu(self.tiles@) <= u64::MAX,
                cpu == total_cpu(self.tiles@.take(i as int)),
                gpu == total_gpu(self.tiles@.take(i as int)),
            decreases self.tiles.len() - i,
        {
            assert(self.tiles@.take(i + 1).drop_last() =~= self.tiles@.take(i as int));
            proof {
                lemma_totals_prefix(self.tiles@, i + 1);
            }
            cpu = cpu + self.tiles[i].cpu_bytes;
            gpu = gpu + self.tiles[i].gpu_bytes;
            i = i + 1;
        }
        assert(self.tiles@.take(i as int) =~= self.tiles@);
        (cpu, gpu, i)
    }

    pub fn over_budget(&self) -> (r: bool)
        requires
            total_cpu(self.tiles@) <= u64::MAX,
            total_gpu(self.tiles@) <= u64::MAX,
        ensures
            r == exceeds(self.budget, self.tiles@),
    {
        let (cpu, gpu, count) = self.usage();
        cpu > self.budget.maximum_cpu_bytes || gpu > self.budget.maximum_gpu_bytes || count
            > self.budget.maximum_tiles
    }

    /// Unpinned tiles, oldest first. The caller tears them down and removes
    /// entries only after that succeeds.
    pub fn eviction_candidates(&self) -> (r: Vec<TileId>)
        requires
            self.wf(),
        ensures
            eviction_order(self.tiles@, r@),
            forall|i: int| 0 <= i < self.tiles@.len() && (#[trigger] self.tiles@[i]).pinned ==> !r@.contains(
                self.tiles@[i].id,
            ),
    {
        let ghost s = self.tiles@;
        // Unpinned tiles in eviction order; `src[k]` is the position of `order[k]`.
        let mut order: Vec<ResidentTile> = Vec::new();
        let ghost mut src: Seq<int> = Seq::empty();
        let mut i: usize = 0;
        while i < self.tiles.len()
            invariant
                i <= s.len(),
                s == self.tiles@,
                sorted_tiles(s),
                src.len() == order@.len(),
                forall|k: int| 0 <= k < order@.len() ==> 0 <= #[trigger] src[k] < i && !s[src[k]].pinned && s[src[k]] == order@[k],
                forall|j: int| 0 <= j < i && !(#[trigger] s[j]).pinned ==> exists|k: int| 0 <= k < src.len() && src[k] == j,
                forall|a: int, b: int| 0 <= a < b < order@.len() ==> evicts_before(key_of(#[trigger] order@[a]), key_of(#[trigger] order@[b])),
            decreases s.len() - i,
        {
            let t = self.tiles[i];
            if !t.pinned {
                let ghost o = order@;
                let ghost so = src;
                let mut p: usize = 0;
                while p < order.len() && (order[p].last_used_frame < t.last_used_frame || (order[p].last_used_frame == t.last_used_frame && order[p].id.is_before(&t.id)))
                    invariant
                        p <= order@.len(),
                        o == order@,
                        forall|k: int| 0 <= k < p ==> evicts_before(key_of(#[trigger] o[k]), key_of(t)),
                    decreases order.len() - p,
                {
                    p = p + 1;
                }
                proof {
                    if p < o.len() {
                        let j = so[p as int];
                        assert(s[j].id.precedes(s[i as int].id));
                        lemma_precedes_total(o[p as int].id, t.id);
                        assert(evicts_before(key_of(t), key_of(o[p as int])));
                    }
                }
                order.insert(p, t);
                proof {
                    src = so.insert(p as int, i as int);
                    let n = order@;
                    assert forall|a: int, b: int| 0 <= a < b < n.len() implies evicts_before(key_of(#[trigger] n[a]), key_of(#[trigger] n[b])) by {
                        if b < p {
                            assert(n[a] == o[a] && n[b] == o[b]);
                        } else if b == p {
                            assert(n[a] == o[a]);
                        } else if a == p {
                            assert(n[b] == o[b - 1]);
                            if b - 1 > p {
                                assert(evicts_before(key_of(o[p as int]), key_of(o[b - 1])));
                                if key_of(t).0 == key_of(o[p as int]).0 && key_of(o[p as int]).0 == key_of(o[b - 1]).0 {
                                    lemma_precedes_transitive(t.id, o[p as int].id, o[b - 1].id);
                                }
                            }
                        } else if a < p {
                            assert(n[a] == o[a] && n[b] == o[b - 1]);
                        } else {
                            assert(n[a] == o[a - 1] && n[b] == o[b - 1]);
                        }
                    }
                    assert forall|k: int| 0 <= k < n.len() implies 0 <= #[trigger] src[k] < i + 1 && !s[src[k]].pinned && s[src[k]] == n[k] by {
                        if k < p {
                            assert(n[k] == o[k] && src[k] == so[k]);
                        } else if k > p {
                            assert(n[k] == o[k - 1] && src[k] == so[k - 1]);
                        }
                    }
                    assert forall|j: int| 0 <= j < i + 1 && !(#[trigger] s[j]).pinned implies exists|k: int| 0 <= k < src.len() && src[k] == j by {
                        if j < i {
                            let k = choose|k: int| 0 <= k < so.len() && so[k] == j;
                            if k < p {
                                assert(src[k] == j);
                            } else {
                                assert(src[k + 1] == j);
                            }
                        } else {
                            assert(src[p as int] == j);
                        }
                    }
                }
            }
            i = i + 1;
        }
        let mut r: Vec<TileId> = Vec::new();
        let mut k: usize = 0;
        while k < order.len()
            invariant
                k <= order@.len(),
                r@.len() == k,
                forall|m: int| 0 <= m < k ==> r@[m] == (#[trigger] order@[m]).id,
            decreases order.len() - k,
        {
            r.push(order[k].id);
            k = k + 1;
        }
        proof {
            assert forall|m: int| 0 <= m < r@.len() implies exists|i: int| 0 <= i < s.len() && !s[i].pinned && s[i].id == #[trigger] r@[m] by {
                let j = src[m];
                assert(0 <= j < s.len() && !s[j].pinned && s[j].id == r@[m]);
            }
            assert forall|i: int| 0 <= i < s.len() && !(#[trigger] s[i]).pinned implies r@.contains(s[i].id) by {
                let m = choose|m: int| 0 <= m < src.len() && src[m] == i;
                assert(r@[m] == s[i].id);
            }
            assert forall|a: int, b: int, i: int, j: int|
                #![trigger r@[a], r@[b], s[i], s[j]]
                0 <= a < b < r@.len() && 0 <= i < s.len() && 0 <= j < s.len() && s[i].id == r@[a] && s[j].id == r@[b]
                implies evicts_before(key_of(s[i]), key_of(s[j])) by {
                lemma_unique_ids(s, i, src[a]);
                lemma_unique_ids(s, j, src[b]);
                assert(evicts_before(key_of(order@[a]), key_of(order@[b])));
            }
            assert forall|i: int| 0 <= i < s.len() && (#[trigger] s[i]).pinned implies !r@.contains(s[i].id) by {
                if r@.contains(s[i].id) {
                    let m = choose|m: int| 0 <= m < r@.len() && r@[m] == s[i].id;
                    let j = src[m];
                    assert(s[j].id == s[i].id);
                    if i < j {
                        assert(s[i].id.precedes(s[j].id));
                    } else if j < i {
                        assert(s[j].id.precedes(s[i].id));
                    }
                    lemma_precedes_total(s[i].id, s[j].id);
                }
            }
        }
        r
    }
}

impl Default for TileResidencyManager {
    fn default() -> (r: Self)
        ensures
            r.wf(),
            r.tiles@.len() == 0,
            r.frame == 0,
            r.budget.maximum_cpu_bytes == 384 * 1024 * 1024,
            r.budget.maximum_gpu_bytes == 512 * 1024 * 1024,
            r.budget.maximum_tiles == 192,
    {
        TileResidencyManager::new()
    }
}

/// Keeps the residency bookkeeping of terrain tiles.
pub struct TileResidencyPlugin;


proof fn lemma_key_pos_props(s: Seq<ResidentTile>, id: TileId)
    requires
        sorted_tiles(s),
    ensures
        key_pos(s, id) <= s.len(),
        forall|j: int| 0 <= j < key_pos(s, id) ==> (#[trigger] s[j]).id.precedes(id),
        key_pos(s, id) < s.len() ==> !s[key_pos(s, id) as int].id.precedes(id),
    decreases s.len(),
{
    if s.len() > 0 && s[0].id.precedes(id) {
        let t = s.drop_first();
        assert forall|a: int, b: int| 0 <= a < b < t.len() implies (#[trigger] t[a]).id.precedes((#[trigger] t[b]).id) by {
            assert(t[a] == s[a + 1] && t[b] == s[b + 1]);
        }
        lemma_key_pos_props(t, id);
        assert forall|j: int| 0 <= j < key_pos(s, id) implies (#[trigger] s[j]).id.precedes(id) by {
            if j > 0 {
                assert(s[j] == t[j - 1]);
            }
        }
        if key_pos(s, id) < s.len() {
            assert(s[key_pos(s, id) as int] == t[key_pos(t, id) as int]);
        }
    }
}

/// A tile is tracked exactly when `holds` finds it.
proof fn lemma_holds_iff_tracked(s: Seq<ResidentTile>, id: TileId)
    requires
        sorted_tiles(s),
    ensures
        holds(s, id) <==> exists|i: int| 0 <= i < s.len() && (#[trigger] s[i]).id == id,
{
    lemma_key_pos_props(s, id);
    let p = key_pos(s, id) as int;
    if exists|i: int| 0 <= i < s.len() && (#[trigger] s[i]).id == id {
        let i = choose|i: int| 0 <= i < s.len() && (#[trigger] s[i]).id == id;
        lemma_precedes_total(id, id);
        if i < p {
            assert(s[i].id.precedes(id));
        } else if i > p {
            assert(s[p].id.precedes(s[i].id));
        }
    }
}

/// A request marks the tile used in the request's frame: afterwards the tile
/// is tracked with that frame as its last use, a tracked tile keeps its other
/// fields, an untracked one starts as freshly requested, and every other
/// tracked tile stays as it was.
pub proof fn lemma_request_marks_use(s: Seq<ResidentTile>, id: TileId, frame: u64)
    requires
        sorted_tiles(s),
    ensures
        exists|k: int|
            0 <= k < requested(s, id, frame).len() && (#[trigger] requested(s, id, frame)[k]).id == id
                && requested(s, id, frame)[k].last_used_frame == frame && (forall|i: int|
                0 <= i < s.len() && (#[trigger] s[i]).id == id ==> requested(s, id, frame)[k] == (ResidentTile {
                    last_used_frame: frame,
                    ..s[i]
                })) && ((forall|i: int| 0 <= i < s.len() ==> (#[trigger] s[i]).id != id) ==> requested(s, id, frame)[k]
                == fresh_tile(id, frame)),
        forall|i: int| 0 <= i < s.len() && (#[trigger] s[i]).id != id ==> requested(s, id, frame).contains(s[i]),
{
    lemma_key_pos_props(s, id);
    lemma_holds_iff_tracked(s, id);
    let p = key_pos(s, id) as int;
    let n = requested(s, id, frame);
    if holds(s, id) {
        assert(n[p].id == id);
        assert forall|i: int| 0 <= i < s.len() && (#[trigger] s[i]).id == id implies n[p] == (ResidentTile {
            last_used_frame: frame,
            ..s[i]
        }) by {
            lemma_unique_ids(s, i, p);
        }
        assert forall|i: int| 0 <= i < s.len() && (#[trigger] s[i]).id != id implies n.contains(s[i]) by {
            assert(i != p);
            assert(n[i] == s[i]);
        }
    } else {
        assert(n[p] == fresh_tile(id, frame));
        assert forall|i: int| 0 <= i < s.len() && (#[trigger] s[i]).id != id implies n.contains(s[i]) by {
            if i < p {
                assert(n[i] == s[i]);
            } else {
                assert(n[i + 1] == s[i]);
            }
        }
    }
}

} // verus!
