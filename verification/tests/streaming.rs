use kovia::coordinates::TileId;
use kovia::streaming::{ResidencyState, TileResidencyManager};

#[test]
fn pinned_tiles_are_not_eviction_candidates() {
    let mut manager = TileResidencyManager::default();
    let root = TileId::root();
    let child = root.children()[0];
    manager.request(root);
    manager.begin_frame();
    manager.request(child);
    manager.set_pinned(root, true);
    assert_eq!(manager.eviction_candidates(), vec![child]);
}

#[test]
fn eviction_prefers_least_recently_used() {
    let mut manager = TileResidencyManager::default();
    let root = TileId::root();
    let children = root.children();
    manager.request(children[2]);
    manager.begin_frame();
    manager.request(children[0]);
    manager.request(children[1]);
    manager.begin_frame();
    manager.touch(children[2]);
    assert_eq!(manager.eviction_candidates(), vec![children[0], children[1], children[2]]);
}

#[test]
fn residency_usage_and_budget() {
    let mut manager = TileResidencyManager::default();
    let root = TileId::root();
    manager.mark_cpu_resident(root, 100);
    manager.mark_gpu_resident(root, 40);
    manager.mark_cpu_resident(root.children()[1], 7);
    assert_eq!(manager.usage(), (107, 40, 2));
    assert!(!manager.over_budget());
    assert_eq!(manager.tiles[0].state, ResidencyState::GpuResident);
    manager.budget.maximum_tiles = 1;
    assert!(manager.over_budget());
}
