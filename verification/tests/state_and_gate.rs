use semantex_core::index::gate::{
    max_concurrent_builds, next_step, slot_name, slots_dir, GateStep, MAX_WAIT_NANOS,
};
use semantex_core::index::state::{detect, index_age_secs, is_stale, IndexState};
use semantex_core::types::IndexMeta;

const CURRENT: u32 = 13;

fn meta(schema_version: u32) -> IndexMeta {
    IndexMeta {
        schema_version,
        project_path: "/x".to_string(),
        created_at: "2026-01-01T00:00:00Z".to_string(),
        updated_at: "2026-01-01T00:00:00Z".to_string(),
        file_count: 10,
        chunk_count: 50,
        embedding_model: "test".to_string(),
        embedding_dim: 48,
        use_bm25_stemmer: true,
        dense_backend: "coderank-hnsw".to_string(),
        embedder_fingerprint: "test".to_string(),
    }
}

#[test]
fn test_not_indexed() {
    assert_eq!(detect(false, &None, CURRENT, false), IndexState::NotIndexed);
}

#[test]
fn test_ready() {
    assert_eq!(detect(true, &Some(meta(CURRENT)), CURRENT, false), IndexState::Ready);
}

#[test]
fn test_stale_schema() {
    assert_eq!(detect(true, &Some(meta(1)), CURRENT, false), IndexState::Stale);
    assert!(is_stale(&Some(meta(1)), CURRENT));
}

#[test]
fn test_unreadable_meta_treated_as_stale() {
    assert_eq!(detect(true, &None, CURRENT, false), IndexState::Stale);
    assert_eq!(detect(true, &None, CURRENT, true), IndexState::Stale);
}

#[test]
fn test_building_with_lock() {
    assert_eq!(detect(false, &None, CURRENT, true), IndexState::Building);
    assert_eq!(detect(true, &Some(meta(CURRENT)), CURRENT, true), IndexState::Building);
}

#[test]
fn test_pre_v0_3_schema_v7_is_stale() {
    assert!(CURRENT > 7);
    assert_eq!(detect(true, &Some(meta(7)), CURRENT, false), IndexState::Stale);
}

#[test]
fn age_is_the_time_since_the_last_update() {
    let mut m = meta(CURRENT);
    assert_eq!(index_age_secs(&Some(m.clone()), Some(5)), None);
    m.updated_at = " 100\n".to_string();
    assert_eq!(index_age_secs(&Some(m.clone()), Some(160)), Some(60));
    assert_eq!(index_age_secs(&Some(m.clone()), Some(40)), Some(0));
    assert_eq!(index_age_secs(&Some(m), None), None);
    assert_eq!(index_age_secs(&None, Some(5)), None);
}

#[test]
fn env_override_is_honored_and_floored() {
    assert_eq!(max_concurrent_builds(Some("3"), None), 3);
    assert_eq!(max_concurrent_builds(Some("0"), None), 1, "must floor at 1");
}

#[test]
fn default_scales_with_ram_and_is_at_least_one() {
    assert_eq!(max_concurrent_builds(None, None), 1);
    assert_eq!(max_concurrent_builds(None, Some(8 * 1024)), 1);
    assert_eq!(max_concurrent_builds(None, Some(16 * 1024)), 1);
    assert_eq!(max_concurrent_builds(None, Some(32 * 1024)), 2);
    assert_eq!(max_concurrent_builds(None, Some(64 * 1024)), 4);
    assert_eq!(max_concurrent_builds(Some(" 3"), Some(64 * 1024)), 4);
}

#[test]
fn a_build_waits_for_a_slot_and_not_forever() {
    assert_eq!(next_step(true, None), GateStep::Proceed);
    assert_eq!(next_step(false, None), GateStep::AnnounceAndWait);
    assert_eq!(next_step(false, Some(MAX_WAIT_NANOS)), GateStep::Wait);
    assert_eq!(next_step(false, Some(MAX_WAIT_NANOS + 1)), GateStep::ProceedUngated);
    assert_eq!(next_step(true, Some(MAX_WAIT_NANOS + 1)), GateStep::Proceed);
    assert_eq!(slot_name(0), "slot-0.lock");
    assert_eq!(slots_dir(Some("/h")), Some("/h/.semantex/build-slots".to_string()));
    assert_eq!(slots_dir(None), None);
}
