use std::sync::Arc;

use layer_manager::error::LayerError;
use layer_manager::layer_desc::{
    InMemoryLayer, Key, KeyRange, Layer, LsnRange, PersistentLayerDesc,
};
use layer_manager::layer_file_manager::LayerFileManager;
use layer_manager::layer_manager::LayerManager;
use layer_manager::layer_map::LayerMap;
use layer_manager::lsn::Lsn;
use layer_manager::metrics::{
    LayerResidenceEventReason, LayerResidenceStatus, ResidenceEvent, TimelineMetrics,
};

fn token() -> Arc<tokio::sync::OwnedMutexGuard<()>> {
    let lock = Arc::new(tokio::sync::Mutex::new(()));
    Arc::new(lock.try_lock_owned().unwrap())
}

fn desc(key_start: u128, key_end: u128, lsn_start: u64, lsn_end: u64, delta: bool, size: u64)
    -> PersistentLayerDesc {
    PersistentLayerDesc {
        key_range: KeyRange { start: Key(key_start), end: Key(key_end) },
        lsn_range: LsnRange { start: Lsn(lsn_start), end: Lsn(lsn_end) },
        is_delta: delta,
        file_size: size,
    }
}

fn delta(lsn_start: u64, lsn_end: u64, size: u64, handle: u64) -> Layer {
    Layer { desc: desc(0, 1000, lsn_start, lsn_end, true, size), handle }
}

fn image(key_start: u128, key_end: u128, lsn: u64, size: u64, handle: u64) -> Layer {
    Layer { desc: desc(key_start, key_end, lsn, lsn + 1, false, size), handle }
}

#[test]
fn lsn_alignment() {
    assert!(Lsn(104).is_aligned());
    assert!(Lsn(0).is_aligned());
    assert!(!Lsn(103).is_aligned());
    assert!(!Lsn(1).is_aligned());
}

#[test]
fn create_is_empty() {
    let m = LayerManager::create();
    assert_eq!(m.layer_map().open_layer(), None);
    assert_eq!(m.layer_map().next_open_layer_at(), None);
    assert_eq!(m.layer_map().frozen_layers().len(), 0);
    assert_eq!(m.layer_map().historic_len(), 0);
}

#[test]
fn first_write_opens_layer_at_cursor() {
    let mut m = LayerManager::create();
    m.initialize_empty(Lsn(100));
    assert_eq!(m.layer_map().next_open_layer_at(), Some(Lsn(100)));
    let layer = m.get_layer_for_write(Lsn(104), Lsn(100)).unwrap();
    assert_eq!(layer.start_lsn, Lsn(100));
    assert_eq!(layer.end_lsn, None);
    assert_eq!(m.layer_map().open_layer(), Some(layer));
    assert_eq!(m.layer_map().next_open_layer_at(), None);
}

#[test]
fn unaligned_write_is_refused() {
    let mut m = LayerManager::create();
    m.initialize_empty(Lsn(100));
    let r = m.get_layer_for_write(Lsn(103), Lsn(100));
    assert_eq!(r, Err(LayerError::UnalignedLsn));
    assert!(LayerError::UnalignedLsn.is_operational());
    assert_eq!(m.layer_map().open_layer(), None);
    assert_eq!(m.layer_map().next_open_layer_at(), Some(Lsn(100)));
}

#[test]
fn non_advancing_write_is_refused() {
    let mut m = LayerManager::create();
    m.initialize_empty(Lsn(100));
    let r = m.get_layer_for_write(Lsn(99), Lsn(100));
    assert_eq!(r, Err(LayerError::NonAdvancingLsn));
    let r = m.get_layer_for_write(Lsn(96), Lsn(100));
    assert_eq!(r, Err(LayerError::NonAdvancingLsn));
    let r = m.get_layer_for_write(Lsn(104), Lsn(104));
    assert_eq!(r, Err(LayerError::NonAdvancingLsn));
    assert_eq!(m.layer_map().open_layer(), None);
    assert_eq!(m.layer_map().next_open_layer_at(), Some(Lsn(100)));
}

#[test]
fn write_without_cursor_is_corruption() {
    let mut m = LayerManager::create();
    let r = m.get_layer_for_write(Lsn(104), Lsn(100));
    assert_eq!(r, Err(LayerError::NoNextOpenLayer));
    assert!(LayerError::NoNextOpenLayer.is_corruption());
}

#[test]
fn open_layer_from_the_future_is_corruption() {
    let mut m = LayerManager::create();
    m.initialize_empty(Lsn(200));
    let layer = m.get_layer_for_write(Lsn(208), Lsn(200)).unwrap();
    assert_eq!(layer.start_lsn, Lsn(200));
    let r = m.get_layer_for_write(Lsn(104), Lsn(100));
    assert_eq!(r, Err(LayerError::OpenLayerInFuture));
    assert!(LayerError::OpenLayerInFuture.is_corruption());
    assert_eq!(m.layer_map().open_layer(), Some(layer));
}

#[test]
fn single_writer_over_many_writes() {
    let mut m = LayerManager::create();
    m.initialize_empty(Lsn(100));
    let first = m.get_layer_for_write(Lsn(104), Lsn(100)).unwrap();
    let second = m.get_layer_for_write(Lsn(112), Lsn(104)).unwrap();
    let third = m.get_layer_for_write(Lsn(120), Lsn(112)).unwrap();
    assert_eq!(first, second);
    assert_eq!(second, third);
    assert_eq!(m.layer_map().open_layer(), Some(first));
    assert_eq!(m.layer_map().next_open_layer_at(), None);
    assert_eq!(m.layer_map().frozen_layers().len(), 0);
}

#[test]
fn freeze_moves_open_layer_to_queue_tail() {
    let mut m = LayerManager::create();
    m.initialize_empty(Lsn(100));
    let open = m.get_layer_for_write(Lsn(104), Lsn(100)).unwrap();
    let mut last_freeze_at = Lsn(0);
    m.try_freeze_in_memory_layer(Lsn(109), &mut last_freeze_at);
    assert_eq!(last_freeze_at, Lsn(110));
    assert_eq!(m.layer_map().open_layer(), None);
    assert_eq!(m.layer_map().next_open_layer_at(), Some(Lsn(110)));
    let frozen = m.layer_map().frozen_layers();
    assert_eq!(frozen.len(), 1);
    assert_eq!(
        frozen[0],
        InMemoryLayer { handle: open.handle, start_lsn: Lsn(100), end_lsn: Some(Lsn(110)) }
    );
}

#[test]
fn freeze_without_open_layer_does_nothing() {
    let mut m = LayerManager::create();
    m.initialize_empty(Lsn(100));
    let mut last_freeze_at = Lsn(7);
    m.try_freeze_in_memory_layer(Lsn(109), &mut last_freeze_at);
    assert_eq!(last_freeze_at, Lsn(7));
    assert_eq!(m.layer_map().next_open_layer_at(), Some(Lsn(100)));
    assert_eq!(m.layer_map().frozen_layers().len(), 0);
}

#[test]
fn next_open_layer_starts_where_the_last_was_frozen() {
    let mut m = LayerManager::create();
    m.initialize_empty(Lsn(100));
    let first = m.get_layer_for_write(Lsn(104), Lsn(100)).unwrap();
    let mut at = Lsn(0);
    m.try_freeze_in_memory_layer(Lsn(109), &mut at);
    let second = m.get_layer_for_write(Lsn(112), Lsn(109)).unwrap();
    assert_eq!(second.start_lsn, Lsn(110));
    assert_ne!(second.handle, first.handle);
    assert_eq!(m.layer_map().frozen_layers().len(), 1);
}

#[test]
fn flush_registers_delta_layer() {
    let mut m = LayerManager::create();
    let mut metrics = TimelineMetrics::new();
    m.initialize_empty(Lsn(100));
    let open = m.get_layer_for_write(Lsn(104), Lsn(100)).unwrap();
    let mut at = Lsn(0);
    m.try_freeze_in_memory_layer(Lsn(109), &mut at);
    let frozen = m.layer_map().frozen_layers()[0];
    assert_eq!(frozen.handle, open.handle);
    assert_eq!(frozen.end_lsn, Some(Lsn(110)));
    let produced = delta(100, 110, 4096, 1);
    assert!(!m.contains(&produced));
    let r = m.finish_flush_l0_layer(Some(&produced), &frozen, &mut metrics);
    assert_eq!(r, Ok(()));
    assert!(m.contains(&produced));
    assert_eq!(m.get_from_desc(&produced.desc), Ok(produced));
    assert!(m.layer_map().contains_historic(&produced.desc));
    assert_eq!(m.layer_map().frozen_layers().len(), 0);
    assert_eq!(metrics.resident_physical_size_gauge, 4096);
    assert_eq!(metrics.num_persistent_files_created, 1);
    assert_eq!(metrics.persistent_bytes_written, 4096);
    assert_eq!(
        metrics.residence_events,
        vec![ResidenceEvent {
            layer: produced.desc.key(),
            status: LayerResidenceStatus::Resident,
            reason: LayerResidenceEventReason::LayerCreate,
        }]
    );
}

#[test]
fn flush_of_empty_frozen_layer_discards_it() {
    let mut m = LayerManager::create();
    let mut metrics = TimelineMetrics::new();
    m.initialize_empty(Lsn(100));
    m.get_layer_for_write(Lsn(104), Lsn(100)).unwrap();
    let mut at = Lsn(0);
    m.try_freeze_in_memory_layer(Lsn(109), &mut at);
    let frozen = m.layer_map().frozen_layers()[0];
    assert_eq!(m.finish_flush_l0_layer(None, &frozen, &mut metrics), Ok(()));
    assert_eq!(m.layer_map().frozen_layers().len(), 0);
    assert_eq!(m.layer_map().historic_len(), 0);
    assert_eq!(metrics.resident_physical_size_gauge, 0);
    assert_eq!(metrics.num_persistent_files_created, 0);
}

#[test]
fn flush_out_of_order_is_refused() {
    let mut m = LayerManager::create();
    let mut metrics = TimelineMetrics::new();
    m.initialize_empty(Lsn(100));
    m.get_layer_for_write(Lsn(104), Lsn(100)).unwrap();
    let mut at = Lsn(0);
    m.try_freeze_in_memory_layer(Lsn(109), &mut at);
    m.get_layer_for_write(Lsn(112), Lsn(109)).unwrap();
    m.try_freeze_in_memory_layer(Lsn(119), &mut at);
    assert_eq!(at, Lsn(120));
    let oldest = m.layer_map().frozen_layers()[0];
    let newest = m.layer_map().frozen_layers()[1];
    let produced = delta(110, 120, 10, 1);
    let r = m.finish_flush_l0_layer(Some(&produced), &newest, &mut metrics);
    assert_eq!(r, Err(LayerError::FlushOutOfOrder));
    assert!(LayerError::FlushOutOfOrder.is_corruption());
    assert_eq!(m.layer_map().frozen_layers().len(), 2);
    assert_eq!(m.layer_map().frozen_layers()[0], oldest);
    assert!(!m.contains(&produced));
    assert_eq!(metrics.resident_physical_size_gauge, 0);
    assert_eq!(m.finish_flush_l0_layer(None, &oldest, &mut metrics), Ok(()));
    assert_eq!(m.finish_flush_l0_layer(None, &newest, &mut metrics), Ok(()));
    assert_eq!(
        m.finish_flush_l0_layer(None, &newest, &mut metrics),
        Err(LayerError::NothingToFlush)
    );
}

#[test]
fn duplicate_insert_is_a_fault_in_strict_mode() {
    let mut table = LayerFileManager::new();
    assert!(table.strict());
    let first = delta(100, 110, 10, 1);
    let again = delta(100, 110, 99, 2);
    assert_eq!(table.insert(first), Ok(()));
    assert_eq!(table.insert(again), Err(LayerError::DuplicateLayer));
    assert!(LayerError::DuplicateLayer.is_corruption());
    assert_eq!(table.get_from_desc(&first.desc), Ok(first));
    assert_eq!(table.len(), 1);
}

#[test]
fn duplicate_insert_overwrites_in_permissive_mode() {
    let mut table = LayerFileManager::with_strictness(false);
    let first = delta(100, 110, 10, 1);
    let again = delta(100, 110, 99, 2);
    assert_eq!(table.insert(first), Ok(()));
    assert_eq!(table.insert(again), Ok(()));
    assert_eq!(table.get_from_desc(&first.desc), Ok(again));
    assert_eq!(table.len(), 1);
    let absent = delta(200, 210, 1, 3);
    assert_eq!(table.remove(&absent), Ok(()));
    assert_eq!(table.len(), 1);
}

#[test]
fn lookup_returns_what_was_inserted_until_removed() {
    let mut table = LayerFileManager::new();
    let a = delta(100, 110, 10, 1);
    let b = delta(110, 120, 20, 2);
    let c = image(0, 50, 120, 30, 3);
    assert_eq!(table.insert(a), Ok(()));
    assert_eq!(table.insert(b), Ok(()));
    assert_eq!(table.insert(c), Ok(()));
    assert_eq!(table.get_from_desc(&a.desc), Ok(a));
    assert_eq!(table.get_from_desc(&b.desc), Ok(b));
    assert_eq!(table.get_from_desc(&c.desc), Ok(c));
    assert_eq!(table.get_from_desc(&b.desc).unwrap().handle, 2);
    assert_eq!(table.remove(&b), Ok(()));
    assert_eq!(table.get_from_desc(&a.desc), Ok(a));
    assert_eq!(table.get_from_desc(&c.desc), Ok(c));
    assert_eq!(table.get_from_desc(&b.desc), Err(LayerError::MissingLayer));
    assert!(!table.contains(&b));
    assert!(table.contains(&a));
    assert_eq!(table.remove(&b), Err(LayerError::MissingLayer));
    assert!(LayerError::MissingLayer.is_corruption());
    let copy = table.snapshot();
    assert_eq!(copy.len(), 2);
    assert_eq!(copy.get_from_desc(&c.desc), Ok(c));
}

#[test]
fn identity_leaves_the_size_out() {
    let a = desc(0, 10, 100, 110, true, 5);
    let b = desc(0, 10, 100, 110, true, 6);
    let c = desc(0, 10, 100, 110, false, 5);
    assert_eq!(a.key(), b.key());
    assert_ne!(a.key(), c.key());
}

#[test]
fn initialize_local_layers_registers_all() {
    let mut m = LayerManager::create();
    let a = delta(0, 50, 10, 1);
    let b = delta(50, 100, 20, 2);
    assert_eq!(m.initialize_local_layers(vec![a, b], Lsn(100)), Ok(()));
    assert!(m.contains(&a));
    assert!(m.contains(&b));
    assert_eq!(m.layer_map().historic_len(), 2);
    assert!(m.layer_map().contains_historic(&a.desc));
    assert_eq!(m.layer_map().next_open_layer_at(), Some(Lsn(100)));
    assert_eq!(m.layer_map().historic_layers().len(), 2);
}

#[test]
fn initialize_local_layers_with_duplicate_changes_nothing() {
    let mut m = LayerManager::create();
    let a = delta(0, 50, 10, 1);
    let b = delta(0, 50, 20, 2);
    assert_eq!(
        m.initialize_local_layers(vec![a, b], Lsn(100)),
        Err(LayerError::DuplicateLayer)
    );
    assert!(!m.contains(&a));
    assert_eq!(m.layer_map().historic_len(), 0);
    assert_eq!(m.layer_map().next_open_layer_at(), None);
}

#[test]
fn track_new_image_layers_reports_sizes() {
    let mut m = LayerManager::create();
    let mut metrics = TimelineMetrics::new();
    m.initialize_empty(Lsn(100));
    let a = image(0, 50, 100, 1000, 1);
    let b = image(50, 100, 100, 234, 2);
    assert_eq!(m.track_new_image_layers(&[a, b], &mut metrics), Ok(()));
    assert!(m.contains(&a));
    assert!(m.contains(&b));
    assert_eq!(metrics.resident_physical_size_gauge, 1234);
    assert_eq!(metrics.residence_events.len(), 2);
    assert_eq!(metrics.residence_events[1].layer, b.desc.key());
    assert_eq!(metrics.num_persistent_files_created, 0);
    assert_eq!(metrics.persistent_bytes_written, 0);
    assert_eq!(
        m.track_new_image_layers(&[a], &mut metrics),
        Err(LayerError::DuplicateLayer)
    );
    assert_eq!(metrics.resident_physical_size_gauge, 1234);
    assert_eq!(m.layer_map().historic_len(), 2);
}

#[test]
fn size_gauge_wraps_around() {
    let mut metrics = TimelineMetrics::new();
    let a = image(0, 50, 100, u64::MAX, 1);
    let b = image(50, 100, 100, 3, 2);
    metrics.record_created(&[a, b]);
    assert_eq!(metrics.resident_physical_size_gauge, 2);
    metrics.record_written(7);
    assert_eq!(metrics.num_persistent_files_created, 1);
    assert_eq!(metrics.persistent_bytes_written, 7);
}

#[test]
fn compaction_replaces_layers_in_one_step() {
    let mut m = LayerManager::create();
    let mut metrics = TimelineMetrics::new();
    let mut reclaimed = Vec::new();
    let a = delta(0, 50, 10, 1);
    let b = delta(50, 100, 20, 2);
    let keep = image(0, 1000, 100, 5, 3);
    assert_eq!(m.initialize_local_layers(vec![a, b, keep], Lsn(100)), Ok(()));
    let merged = delta(0, 100, 25, 4);
    let cs = token();
    let r = m.finish_compact_l0(&cs, vec![a, b], &[merged], &mut metrics, &mut reclaimed);
    assert_eq!(r, Ok(()));
    assert!(m.contains(&merged));
    assert!(m.contains(&keep));
    assert!(!m.contains(&a));
    assert!(!m.contains(&b));
    assert!(m.layer_map().contains_historic(&merged.desc));
    assert!(m.layer_map().contains_historic(&keep.desc));
    assert!(!m.layer_map().contains_historic(&a.desc));
    assert!(!m.layer_map().contains_historic(&b.desc));
    assert_eq!(m.layer_map().historic_len(), 2);
    assert_eq!(reclaimed, vec![a, b]);
    assert_eq!(metrics.resident_physical_size_gauge, 25);
    assert_eq!(metrics.residence_events.len(), 1);
}

#[test]
fn failed_compaction_changes_nothing() {
    let mut m = LayerManager::create();
    let mut metrics = TimelineMetrics::new();
    let mut reclaimed = Vec::new();
    let a = delta(0, 50, 10, 1);
    let b = delta(50, 100, 20, 2);
    assert_eq!(m.initialize_local_layers(vec![a], Lsn(100)), Ok(()));
    let merged = delta(0, 100, 25, 4);
    let cs = token();
    let r = m.finish_compact_l0(&cs, vec![a, b], &[merged], &mut metrics, &mut reclaimed);
    assert_eq!(r, Err(LayerError::MissingLayer));
    assert!(m.contains(&a));
    assert!(!m.contains(&merged));
    assert!(m.layer_map().contains_historic(&a.desc));
    assert!(!m.layer_map().contains_historic(&merged.desc));
    assert_eq!(m.layer_map().historic_len(), 1);
    assert!(reclaimed.is_empty());
    assert_eq!(metrics.resident_physical_size_gauge, 0);
    let r = m.finish_compact_l0(&cs, vec![], &[a], &mut metrics, &mut reclaimed);
    assert_eq!(r, Err(LayerError::DuplicateLayer));
    assert_eq!(m.layer_map().historic_len(), 1);
}

#[test]
fn gc_reaches_the_index_when_the_guard_is_flushed() {
    let mut m = LayerManager::create();
    let mut reclaimed = Vec::new();
    let a = delta(0, 50, 10, 1);
    let b = delta(50, 100, 20, 2);
    assert_eq!(m.initialize_local_layers(vec![a, b], Lsn(100)), Ok(()));
    let cs = token();
    let guard = m.finish_gc_timeline(&cs, vec![a], &mut reclaimed).unwrap();
    assert_eq!(reclaimed, vec![a]);
    assert!(!m.contains(&a));
    assert!(m.layer_map().contains_historic(&a.desc));
    assert_eq!(m.layer_map().historic_len(), 2);
    guard.flush(&mut m);
    assert!(!m.layer_map().contains_historic(&a.desc));
    assert!(m.layer_map().contains_historic(&b.desc));
    assert_eq!(m.layer_map().historic_len(), 1);
    assert!(m.contains(&b));
}

#[test]
fn gc_of_an_absent_layer_is_corruption() {
    let mut m = LayerManager::create();
    let mut reclaimed = Vec::new();
    let a = delta(0, 50, 10, 1);
    let b = delta(50, 100, 20, 2);
    assert_eq!(m.initialize_local_layers(vec![a], Lsn(100)), Ok(()));
    let cs = token();
    let r = m.finish_gc_timeline(&cs, vec![a, b], &mut reclaimed);
    assert!(matches!(r, Err(LayerError::MissingLayer)));
    assert!(m.contains(&a));
    assert!(reclaimed.is_empty());
    assert_eq!(m.get_from_desc(&b.desc), Err(LayerError::MissingLayer));
}

#[test]
fn permissive_manager_lets_duplicates_pass() {
    let mut m = LayerManager::create_with_strictness(false);
    let mut metrics = TimelineMetrics::new();
    let a = delta(0, 50, 10, 1);
    let again = delta(0, 50, 10, 9);
    assert_eq!(m.track_new_image_layers(&[a, again], &mut metrics), Ok(()));
    assert_eq!(m.get_from_desc(&a.desc), Ok(again));
    assert_eq!(m.layer_map().historic_len(), 2);
}

#[test]
fn batch_inserts_before_it_removes() {
    let mut map = LayerMap::new();
    let a = desc(0, 50, 0, 10, true, 1);
    let b = desc(50, 100, 0, 10, true, 2);
    let mut batch = map.batch_update();
    batch.remove_historic(a);
    batch.insert_historic(a);
    batch.insert_historic(b);
    batch.insert_historic(b);
    assert_eq!(map.historic_len(), 0);
    batch.flush(&mut map);
    assert!(!map.contains_historic(&a));
    assert!(map.contains_historic(&b));
    assert_eq!(map.historic_len(), 2);
}

#[test]
fn in_memory_layer_freezes_once() {
    let mut l = InMemoryLayer::create(3, Lsn(40));
    assert_eq!(l.get_lsn_range_start(), Lsn(40));
    assert_eq!(l.end_lsn, None);
    l.freeze(Lsn(48));
    assert_eq!(l, InMemoryLayer { handle: 3, start_lsn: Lsn(40), end_lsn: Some(Lsn(48)) });
}

#[test]
fn error_messages_and_kinds() {
    assert_eq!(LayerError::NoNextOpenLayer.message(), "No next open layer found");
    assert_eq!(
        LayerError::NothingToFlush.message(),
        "there must be a inmem layer to flush"
    );
    assert!(LayerError::NonAdvancingLsn.is_operational());
    assert!(LayerError::LayerCreate.is_operational());
    assert!(!LayerError::LayerCreate.is_corruption());
    assert!(LayerError::NothingToFlush.is_corruption());
}
