use vstd::prelude::*;
use vstd::multiset::Multiset;
use std::sync::Arc;
use crate::error::LayerError;
use crate::layer_desc::{InMemoryLayer, Layer, PersistentLayerDesc, PersistentLayerKey};
use crate::layer_file_manager::{
    descs_of,
    table_insert,
    table_insert_all,
    table_remove,
    table_remove_all,
    LayerFileManager,
};
use crate::layer_map::{BatchedUpdates, LayerMap, LayerMapView};
use crate::lsn::Lsn;
use crate::metrics::{counted, created_event, created_events, total_size, TimelineMetrics};

verus! {

/// What holds of the in-memory layers of an index whose next handle number is
/// `next_handle`: the open layer is not sealed, every frozen layer is, and no
/// two of them have the same handle number.
pub open spec fn in_memory_wf(v: LayerMapView, next_handle: u64) -> bool {
    &&& v.open_layer is Some ==> v.open_layer->0.is_open() && v.open_layer->0.handle
        < next_handle
    &&& forall|i: int|
        0 <= i < v.frozen_layers.len() ==> {
            &&& !(#[trigger] v.frozen_layers[i]).is_open()
            &&& v.frozen_layers[i].handle < next_handle
            &&& v.open_layer is Some ==> v.frozen_layers[i].handle != v.open_layer->0.handle
        }
    &&& forall|i: int, j: int|
        0 <= i < j < v.frozen_layers.len() ==> (#[trigger] v.frozen_layers[i]).handle != (
        #[trigger] v.frozen_layers[j]).handle
}

/// What a request for the writable layer gives, for a write at `lsn` after the
/// last record at `last_record_lsn`. A write that does not advance is refused
/// before its alignment is looked at.
pub open spec fn write_outcome(
    v: LayerMapView,
    next_handle: u64,
    lsn: Lsn,
    last_record_lsn: Lsn,
) -> Result<InMemoryLayer, LayerError> {
    if lsn.0 <= last_record_lsn.0 {
        Err(LayerError::NonAdvancingLsn)
    } else if !lsn.aligned() {
        Err(LayerError::UnalignedLsn)
    } else {
        match v.open_layer {
            Some(open) => if open.start_lsn.0 > lsn.0 {
                Err(LayerError::OpenLayerInFuture)
            } else {
                Ok(open)
            },
            None => match v.next_open_layer_at {
                None => Err(LayerError::NoNextOpenLayer),
                Some(start) => if next_handle == u64::MAX {
                    Err(LayerError::LayerCreate)
                } else {
                    Ok(InMemoryLayer { handle: next_handle, start_lsn: start, end_lsn: None })
                },
            },
        }
    }
}

/// Why the flush of `expected` cannot be finished, if it cannot: only the
/// oldest frozen layer may be flushed.
pub open spec fn flush_refusal(frozen: Seq<InMemoryLayer>, expected: InMemoryLayer) -> Option<
    LayerError,
> {
    if frozen.len() == 0 {
        Some(LayerError::NothingToFlush)
    } else if frozen[0].handle != expected.handle {
        Some(LayerError::FlushOutOfOrder)
    } else {
        None
    }
}

/// The persistent layers of an index that held `historic`, after the layers
/// `from` were replaced by the layers `to`.
pub open spec fn compacted(
    historic: Multiset<PersistentLayerDesc>,
    from: Seq<Layer>,
    to: Seq<Layer>,
) -> Multiset<PersistentLayerDesc> {
    historic.add(descs_of(to).to_multiset()).sub(descs_of(from).to_multiset())
}

/// The one place through which the layers of a timeline change: it keeps the
/// layer index and the lookup table by identity in step.
pub struct LayerManager {
    layer_map: LayerMap,
    layer_fmgr: LayerFileManager,
    next_handle: u64,
}

/// The removals that a garbage collection staged. They reach the layer index
/// when the guard is flushed. By then the layers have left the lookup table
/// and have been handed over to be reclaimed: a guard that is dropped without
/// being flushed leaves the index showing layers that are gone.
#[must_use]
pub struct ApplyGcResultGuard {
    updates: BatchedUpdates,
}

impl ApplyGcResultGuard {
    /// The descriptors that the flush will take out of the index.
    pub closed spec fn doomed(&self) -> Seq<PersistentLayerDesc> {
        self.updates.removed()
    }

    pub closed spec fn wf(&self) -> bool {
        self.updates.inserted().len() == 0
    }

    /// Takes the staged removals out of the index of `manager`, all at once.
    pub fn flush(self, manager: &mut LayerManager)
        requires
            self.wf(),
            old(manager).wf(),
        ensures
            final(manager).wf(),
            final(manager).index() == (LayerMapView {
                historic: old(manager).index().historic.sub(self.doomed().to_multiset()),
                ..old(manager).index()
            }),
            final(manager).lookup() == old(manager).lookup(),
            final(manager).is_strict() == old(manager).is_strict(),
            final(manager).next_handle() == old(manager).next_handle(),
    {
        proof {
            let h = manager.layer_map@.historic;
            assert(self.updates.inserted() =~= Seq::<PersistentLayerDesc>::empty());
            self.updates.inserted().to_multiset_ensures();
            assert(self.updates.inserted().to_multiset() =~= Multiset::<
                PersistentLayerDesc,
            >::empty());
            assert(h.add(Multiset::empty()) =~= h);
        }
        self.updates.flush(&mut manager.layer_map);
    }
}

impl LayerManager {
    /// What a reader sees of the layer index.
    pub closed spec fn index(&self) -> LayerMapView {
        self.layer_map@
    }

    /// The lookup table: the handle registered for each identity.
    pub closed spec fn lookup(&self) -> Map<PersistentLayerKey, Layer> {
        self.layer_fmgr@
    }

    /// Whether the lookup table refuses duplicates and absent removals.
    pub closed spec fn is_strict(&self) -> bool {
        self.layer_fmgr.is_strict()
    }

    /// The handle number that the next in-memory layer gets.
    pub closed spec fn next_handle(&self) -> u64 {
        self.next_handle
    }

    pub closed spec fn table_wf(&self) -> bool {
        self.layer_fmgr.wf()
    }

    pub open spec fn wf(&self) -> bool {
        &&& self.table_wf()
        &&& in_memory_wf(self.index(), self.next_handle())
    }

    /// Exactly one of the two is there: the open layer, or the place at which
    /// to open one.
    pub open spec fn writer_slot_set(&self) -> bool {
        (self.index().open_layer is Some) != (self.index().next_open_layer_at is Some)
    }

    /// Every descriptor of the index has its handle in the lookup table, and
    /// every handle of the table its descriptor in the index, once.
    pub open spec fn in_sync(&self) -> bool {
        historic_matches(self.index().historic, self.lookup())
    }

    /// Neither the index, nor the lookup table, nor the mode differs.
    pub open spec fn same_as(&self, other: &LayerManager) -> bool {
        &&& self.index() == other.index()
        &&& self.lookup() == other.lookup()
        &&& self.is_strict() == other.is_strict()
        &&& self.next_handle() == other.next_handle()
    }

    /// A manager without layers, in strict mode.
    pub fn create() -> (m: LayerManager)
        ensures
            m.wf(),
            m.is_strict(),
            m.in_sync(),
            m.next_handle() == 0,
            m.lookup() == Map::<PersistentLayerKey, Layer>::empty(),
            m.index() == (LayerMapView {
                open_layer: None,
                next_open_layer_at: None,
                frozen_layers: Seq::empty(),
                historic: Multiset::empty(),
            }),
    {
        Self::create_with_strictness(true)
    }

    /// A manager without layers. In permissive mode a layer registered twice
    /// overwrites its handle and the removal of an absent layer passes, so
    /// that the index and the lookup table may drift apart unnoticed.
    pub fn create_with_strictness(strict: bool) -> (m: LayerManager)
        ensures
            m.wf(),
            m.is_strict() == strict,
            m.in_sync(),
            m.next_handle() == 0,
            m.lookup() == Map::<PersistentLayerKey, Layer>::empty(),
            m.index() == (LayerMapView {
                open_layer: None,
                next_open_layer_at: None,
                frozen_layers: Seq::empty(),
                historic: Multiset::empty(),
            }),
    {
        LayerManager {
            layer_map: LayerMap::new(),
            layer_fmgr: LayerFileManager::with_strictness(strict),
            next_handle: 0,
        }
    }

    /// The handle registered for `desc`.
    pub fn get_from_desc(&self, desc: &PersistentLayerDesc) -> (r: Result<Layer, LayerError>)
        requires
            self.wf(),
        ensures
            self.lookup().contains_key(desc.identity()) ==> r == Ok::<Layer, LayerError>(
                self.lookup()[desc.identity()],
            ),
            !self.lookup().contains_key(desc.identity()) ==> r == Err::<Layer, LayerError>(
                LayerError::MissingLayer,
            ),
    {
        self.layer_fmgr.get_from_desc(desc)
    }

    /// The layer index, to read. It changes only through the operations of
    /// the manager.
    pub fn layer_map(&self) -> (m: &LayerMap)
        ensures
            m@ == self.index(),
    {
        &self.layer_map
    }

    /// Registers the layers found on disk, all at once, and sets where the
    /// next open layer starts.
    pub fn initialize_local_layers(
        &mut self,
        on_disk_layers: Vec<Layer>,
        next_open_layer_at: Lsn,
    ) -> (r: Result<(), LayerError>)
        requires
            old(self).wf(),
        ensures
            final(self).wf(),
            final(self).is_strict() == old(self).is_strict(),
            final(self).next_handle() == old(self).next_handle(),
            r is Ok && old(self).index().open_layer is None ==> final(self).writer_slot_set(),
            r is Ok && old(self).is_strict() && old(self).in_sync() ==> final(self).in_sync(),
            match table_insert_all(old(self).lookup(), old(self).is_strict(), on_disk_layers@) {
                Ok(t) => {
                    &&& r == Ok::<(), LayerError>(())
                    &&& final(self).lookup() == t
                    &&& final(self).index() == (LayerMapView {
                        historic: old(self).index().historic.add(
                            descs_of(on_disk_layers@).to_multiset(),
                        ),
                        next_open_layer_at: Some(next_open_layer_at),
                        ..old(self).index()
                    })
                },
                Err(e) => r == Err::<(), LayerError>(e) && final(self).same_as(old(self)),
            },
    {
        let mut mapping = self.layer_fmgr.snapshot();
        let mut updates = self.layer_map.batch_update();
        match Self::insert_batch(on_disk_layers.as_slice(), &mut updates, &mut mapping) {
            Err(e) => {
                return Err(e);
            },
            Ok(()) => {},
        }
        proof {
            lemma_inserts_only(self.layer_map@.historic, updates);
            if self.is_strict() && self.in_sync() {
                lemma_insert_keeps_sync(self.index().historic, self.lookup(), on_disk_layers@);
            }
        }
        updates.flush(&mut self.layer_map);
        self.layer_map.set_next_open_layer_at(Some(next_open_layer_at));
        self.layer_fmgr = mapping;
        Ok(())
    }

    /// Sets where the first open layer of a new timeline starts.
    pub fn initialize_empty(&mut self, next_open_layer_at: Lsn)
        requires
            old(self).wf(),
        ensures
            final(self).wf(),
            old(self).index().open_layer is None ==> final(self).writer_slot_set(),
            final(self).index() == (LayerMapView {
                next_open_layer_at: Some(next_open_layer_at),
                ..old(self).index()
            }),
            final(self).lookup() == old(self).lookup(),
            final(self).is_strict() == old(self).is_strict(),
            final(self).next_handle() == old(self).next_handle(),
    {
        self.layer_map.set_next_open_layer_at(Some(next_open_layer_at));
    }

    /// The layer to write to at `lsn`: the open layer, or a new one that starts
    /// where the last one was frozen.
    pub fn get_layer_for_write(&mut self, lsn: Lsn, last_record_lsn: Lsn) -> (r: Result<
        InMemoryLayer,
        LayerError,
    >)
        requires
            old(self).wf(),
        ensures
            final(self).wf(),
            r == write_outcome(old(self).index(), old(self).next_handle(), lsn, last_record_lsn),
            final(self).lookup() == old(self).lookup(),
            final(self).is_strict() == old(self).is_strict(),
            r is Err || old(self).index().open_layer is Some ==> final(self).same_as(old(self)),
            r is Ok ==> final(self).index().open_layer == Some(r->Ok_0),
            r is Ok && old(self).index().open_layer is None ==> {
                &&& final(self).index() == (LayerMapView {
                    open_layer: Some(r->Ok_0),
                    next_open_layer_at: None,
                    ..old(self).index()
                })
                &&& final(self).next_handle() == old(self).next_handle() + 1
            },
            old(self).writer_slot_set() ==> final(self).writer_slot_set(),
    {
        if lsn.0 <= last_record_lsn.0 {
            return Err(LayerError::NonAdvancingLsn);
        }
        if !lsn.is_aligned() {
            return Err(LayerError::UnalignedLsn);
        }
        match self.layer_map.open_layer() {
            Some(open_layer) => {
                if open_layer.get_lsn_range_start().0 > lsn.0 {
                    return Err(LayerError::OpenLayerInFuture);
                }
                Ok(open_layer)
            },
            None => {
                let start_lsn = match self.layer_map.next_open_layer_at() {
                    Some(start_lsn) => start_lsn,
                    None => {
                        return Err(LayerError::NoNextOpenLayer);
                    },
                };
                if self.next_handle == u64::MAX {
                    return Err(LayerError::LayerCreate);
                }
                let layer = InMemoryLayer::create(self.next_handle, start_lsn);
                self.next_handle = self.next_handle + 1;
                self.layer_map.set_open_layer(Some(layer));
                self.layer_map.set_next_open_layer_at(None);
                Ok(layer)
            },
        }
    }

    /// Seals the open layer, if there is one, just past `last_record_lsn`, and
    /// queues it behind the frozen layers. The next open layer starts where
    /// this one ends, and `last_freeze_at` is moved there.
    pub fn try_freeze_in_memory_layer(&mut self, last_record_lsn: Lsn, last_freeze_at: &mut Lsn)
        requires
            old(self).wf(),
            last_record_lsn.0 < u64::MAX,
        ensures
            final(self).wf(),
            final(self).lookup() == old(self).lookup(),
            final(self).is_strict() == old(self).is_strict(),
            final(self).next_handle() == old(self).next_handle(),
            match old(self).index().open_layer {
                Some(open) => {
                    &&& final(self).index() == (LayerMapView {
                        open_layer: None,
                        next_open_layer_at: Some(Lsn((last_record_lsn.0 + 1) as u64)),
                        frozen_layers: old(self).index().frozen_layers.push(
                            open.frozen_at(Lsn((last_record_lsn.0 + 1) as u64)),
                        ),
                        ..old(self).index()
                    })
                    &&& *final(last_freeze_at) == Lsn((last_record_lsn.0 + 1) as u64)
                },
                None => final(self).same_as(old(self)) && *final(last_freeze_at) == *old(
                    last_freeze_at,
                ),
            },
            old(self).writer_slot_set() ==> final(self).writer_slot_set(),
    {
        let end_lsn = Lsn(last_record_lsn.0 + 1);
        match self.layer_map.open_layer() {
            Some(open_layer) => {
                let mut frozen = open_layer;
                frozen.freeze(end_lsn);
                self.layer_map.push_frozen(frozen);
                self.layer_map.set_open_layer(None);
                self.layer_map.set_next_open_layer_at(Some(end_lsn));
                *last_freeze_at = end_lsn;
            },
            None => {},
        }
    }

    /// Registers freshly written image layers, all at once, and reports them.
    pub fn track_new_image_layers(
        &mut self,
        image_layers: &[Layer],
        metrics: &mut TimelineMetrics,
    ) -> (r: Result<(), LayerError>)
        requires
            old(self).wf(),
        ensures
            final(self).wf(),
            final(self).is_strict() == old(self).is_strict(),
            final(self).next_handle() == old(self).next_handle(),
            r is Ok && old(self).is_strict() && old(self).in_sync() ==> final(self).in_sync(),
            match table_insert_all(old(self).lookup(), old(self).is_strict(), image_layers@) {
                Ok(t) => {
                    &&& r == Ok::<(), LayerError>(())
                    &&& final(self).lookup() == t
                    &&& final(self).index() == (LayerMapView {
                        historic: old(self).index().historic.add(
                            descs_of(image_layers@).to_multiset(),
                        ),
                        ..old(self).index()
                    })
                    &&& final(metrics).resident_physical_size_gauge == counted(
                        old(metrics).resident_physical_size_gauge,
                        total_size(image_layers@),
                    )
                    &&& final(metrics).residence_events@ == old(metrics).residence_events@
                        + created_events(image_layers@)
                    &&& final(metrics).num_persistent_files_created == old(
                        metrics,
                    ).num_persistent_files_created
                    &&& final(metrics).persistent_bytes_written == old(
                        metrics,
                    ).persistent_bytes_written
                },
                Err(e) => {
                    &&& r == Err::<(), LayerError>(e)
                    &&& final(self).same_as(old(self))
                    &&& *final(metrics) == *old(metrics)
                },
            },
    {
        let mut mapping = self.layer_fmgr.snapshot();
        let mut updates = self.layer_map.batch_update();
        match Self::insert_batch(image_layers, &mut updates, &mut mapping) {
            Err(e) => {
                return Err(e);
            },
            Ok(()) => {},
        }
        proof {
            lemma_inserts_only(self.layer_map@.historic, updates);
            if self.is_strict() && self.in_sync() {
                lemma_insert_keeps_sync(self.index().historic, self.lookup(), image_layers@);
            }
        }
        metrics.record_created(image_layers);
        updates.flush(&mut self.layer_map);
        self.layer_fmgr = mapping;
        Ok(())
    }

    /// Ends the flush of the oldest frozen layer, which must be
    /// `frozen_layer_for_check`: the frozen layer leaves the queue, and the
    /// delta layer that was written from it, if any, is registered and
    /// reported.
    pub fn finish_flush_l0_layer(
        &mut self,
        delta_layer: Option<&Layer>,
        frozen_layer_for_check: &InMemoryLayer,
        metrics: &mut TimelineMetrics,
    ) -> (r: Result<(), LayerError>)
        requires
            old(self).wf(),
        ensures
            final(self).wf(),
            final(self).is_strict() == old(self).is_strict(),
            final(self).next_handle() == old(self).next_handle(),
            r is Ok && old(self).is_strict() && old(self).in_sync() ==> final(self).in_sync(),
            match flush_refusal(old(self).index().frozen_layers, *frozen_layer_for_check) {
                Some(e) => {
                    &&& r == Err::<(), LayerError>(e)
                    &&& final(self).same_as(old(self))
                    &&& *final(metrics) == *old(metrics)
                },
                None => match delta_layer {
                    None => {
                        &&& r == Ok::<(), LayerError>(())
                        &&& final(self).lookup() == old(self).lookup()
                        &&& final(self).index() == (LayerMapView {
                            frozen_layers: old(self).index().frozen_layers.skip(1),
                            ..old(self).index()
                        })
                        &&& *final(metrics) == *old(metrics)
                    },
                    Some(l) => match table_insert(old(self).lookup(), old(self).is_strict(), *l) {
                        Err(e) => {
                            &&& r == Err::<(), LayerError>(e)
                            &&& final(self).same_as(old(self))
                            &&& *final(metrics) == *old(metrics)
                        },
                        Ok(t) => {
                            &&& r == Ok::<(), LayerError>(())
                            &&& final(self).lookup() == t
                            &&& final(self).index() == (LayerMapView {
                                frozen_layers: old(self).index().frozen_layers.skip(1),
                                historic: old(self).index().historic.insert(l.desc),
                                ..old(self).index()
                            })
                            &&& final(metrics).resident_physical_size_gauge == counted(
                                old(metrics).resident_physical_size_gauge,
                                l.desc.file_size as int,
                            )
                            &&& final(metrics).num_persistent_files_created == counted(
                                old(metrics).num_persistent_files_created,
                                1,
                            )
                            &&& final(metrics).persistent_bytes_written == counted(
                                old(metrics).persistent_bytes_written,
                                l.desc.file_size as int,
                            )
                            &&& final(metrics).residence_events@ == old(
                                metrics,
                            ).residence_events@.push(created_event(*l))
                        },
                    },
                },
            },
    {
        let frozen = self.layer_map.frozen_layers();
        if frozen.len() == 0 {
            return Err(LayerError::NothingToFlush);
        }
        if frozen[0].handle != frozen_layer_for_check.handle {
            return Err(LayerError::FlushOutOfOrder);
        }
        match delta_layer {
            Some(l) => {
                let mut updates = self.layer_map.batch_update();
                proof {
                    if self.is_strict() && self.in_sync() && !self.lookup().contains_key(
                        l.desc.identity(),
                    ) {
                        let one = Seq::<Layer>::empty().push(*l);
                        let t = self.lookup().insert(l.desc.identity(), *l);
                        assert(one.skip(1) =~= Seq::<Layer>::empty());
                        assert(table_insert_all(t, true, one.skip(1)) == Ok::<
                            Map<PersistentLayerKey, Layer>,
                            LayerError,
                        >(t));
                        assert(table_insert_all(self.lookup(), true, one) == Ok::<
                            Map<PersistentLayerKey, Layer>,
                            LayerError,
                        >(t));
                        lemma_insert_keeps_sync(self.index().historic, self.lookup(), one);
                        assert(descs_of(one) =~= Seq::<PersistentLayerDesc>::empty().push(
                            l.desc,
                        ));
                        Seq::<PersistentLayerDesc>::empty().to_multiset_ensures();
                        assert(self.index().historic.add(descs_of(one).to_multiset())
                            =~= self.index().historic.insert(l.desc));
                    }
                }
                match Self::insert_historic_layer(*l, &mut updates, &mut self.layer_fmgr) {
                    Err(e) => {
                        return Err(e);
                    },
                    Ok(()) => {},
                }
                proof {
                    lemma_inserts_only(self.layer_map@.historic, updates);
                    let h = self.layer_map@.historic;
                    let one = Seq::<PersistentLayerDesc>::empty().push(l.desc);
                    assert(updates.inserted() =~= one);
                    Seq::<PersistentLayerDesc>::empty().to_multiset_ensures();
                    assert(h.add(one.to_multiset()) =~= h.insert(l.desc));
                }
                metrics.record_layer_created(l);
                metrics.record_written(l.desc.file_size);
                updates.flush(&mut self.layer_map);
            },
            None => {},
        }
        let _ = self.layer_map.pop_frozen();
        Ok(())
    }

    /// Ends a compaction: the layers of `compact_to` take the place of those
    /// of `compact_from`, in one step. The replaced layers are handed to
    /// `reclaimed`, whose holder frees what they occupy.
    pub fn finish_compact_l0(
        &mut self,
        layer_removal_cs: &Arc<tokio::sync::OwnedMutexGuard<()>>,
        compact_from: Vec<Layer>,
        compact_to: &[Layer],
        metrics: &mut TimelineMetrics,
        reclaimed: &mut Vec<Layer>,
    ) -> (r: Result<(), LayerError>)
        requires
            old(self).wf(),
        ensures
            final(self).wf(),
            final(self).is_strict() == old(self).is_strict(),
            final(self).next_handle() == old(self).next_handle(),
            r is Ok && old(self).is_strict() && old(self).in_sync() && registered_as_given(
                table_insert_all(old(self).lookup(), true, compact_to@)->Ok_0,
                compact_from@,
            ) ==> final(self).in_sync(),
            match table_insert_all(old(self).lookup(), old(self).is_strict(), compact_to@) {
                Ok(grown) => match table_remove_all(
                    grown,
                    old(self).is_strict(),
                    compact_from@,
                ) {
                    Ok(t) => {
                        &&& r == Ok::<(), LayerError>(())
                        &&& final(self).lookup() == t
                        &&& final(self).index() == (LayerMapView {
                            historic: compacted(
                                old(self).index().historic,
                                compact_from@,
                                compact_to@,
                            ),
                            ..old(self).index()
                        })
                        &&& final(metrics).resident_physical_size_gauge == counted(
                            old(metrics).resident_physical_size_gauge,
                            total_size(compact_to@),
                        )
                        &&& final(metrics).residence_events@ == old(metrics).residence_events@
                            + created_events(compact_to@)
                        &&& final(metrics).num_persistent_files_created == old(
                            metrics,
                        ).num_persistent_files_created
                        &&& final(metrics).persistent_bytes_written == old(
                            metrics,
                        ).persistent_bytes_written
                        &&& final(reclaimed)@ == old(reclaimed)@ + compact_from@
                    },
                    Err(e) => {
                        &&& r == Err::<(), LayerError>(e)
                        &&& final(self).same_as(old(self))
                        &&& *final(metrics) == *old(metrics)
                        &&& *final(reclaimed) == *old(reclaimed)
                    },
                },
                Err(e) => {
                    &&& r == Err::<(), LayerError>(e)
                    &&& final(self).same_as(old(self))
                    &&& *final(metrics) == *old(metrics)
                    &&& *final(reclaimed) == *old(reclaimed)
                },
            },
    {
        let mut mapping = self.layer_fmgr.snapshot();
        let mut updates = self.layer_map.batch_update();
        let mut doomed: Vec<Layer> = Vec::new();
        match Self::insert_batch(compact_to, &mut updates, &mut mapping) {
            Err(e) => {
                return Err(e);
            },
            Ok(()) => {},
        }
        match Self::remove_batch(
            layer_removal_cs,
            compact_from.as_slice(),
            &mut updates,
            &mut mapping,
            &mut doomed,
        ) {
            Err(e) => {
                return Err(e);
            },
            Ok(()) => {},
        }
        proof {
            assert(updates.inserted() =~= descs_of(compact_to@));
            assert(updates.removed() =~= descs_of(compact_from@));
            assert(doomed@ =~= compact_from@);
            if self.is_strict() && self.in_sync() && registered_as_given(
                table_insert_all(self.lookup(), true, compact_to@)->Ok_0,
                compact_from@,
            ) {
                lemma_compaction_keeps_sync(
                    self.index().historic,
                    self.lookup(),
                    compact_from@,
                    compact_to@,
                );
            }
        }
        metrics.record_created(compact_to);
        updates.flush(&mut self.layer_map);
        self.layer_fmgr = mapping;
        reclaimed.append(&mut doomed);
        Ok(())
    }

    /// Ends a garbage collection: each layer of `gc_layers` leaves the lookup
    /// table and is handed to `reclaimed`, whose holder frees what it
    /// occupies. The index keeps the layers until the guard that is returned
    /// is flushed.
    pub fn finish_gc_timeline(
        &mut self,
        layer_removal_cs: &Arc<tokio::sync::OwnedMutexGuard<()>>,
        gc_layers: Vec<Layer>,
        reclaimed: &mut Vec<Layer>,
    ) -> (r: Result<ApplyGcResultGuard, LayerError>)
        requires
            old(self).wf(),
        ensures
            final(self).wf(),
            final(self).is_strict() == old(self).is_strict(),
            final(self).next_handle() == old(self).next_handle(),
            final(self).index() == old(self).index(),
            match table_remove_all(old(self).lookup(), old(self).is_strict(), gc_layers@) {
                Ok(t) => {
                    &&& r is Ok
                    &&& r->Ok_0.wf()
                    &&& r->Ok_0.doomed() == descs_of(gc_layers@)
                    &&& final(self).lookup() == t
                    &&& final(reclaimed)@ == old(reclaimed)@ + gc_layers@
                },
                Err(e) => {
                    &&& r is Err
                    &&& r->Err_0 == e
                    &&& final(self).lookup() == old(self).lookup()
                    &&& *final(reclaimed) == *old(reclaimed)
                },
            },
    {
        let mut mapping = self.layer_fmgr.snapshot();
        let mut updates = self.layer_map.batch_update();
        let mut doomed: Vec<Layer> = Vec::new();
        match Self::remove_batch(
            layer_removal_cs,
            gc_layers.as_slice(),
            &mut updates,
            &mut mapping,
            &mut doomed,
        ) {
            Err(e) => {
                return Err(e);
            },
            Ok(()) => {},
        }
        proof {
            assert(updates.removed() =~= descs_of(gc_layers@));
            assert(doomed@ =~= gc_layers@);
        }
        self.layer_fmgr = mapping;
        reclaimed.append(&mut doomed);
        Ok(ApplyGcResultGuard { updates })
    }

    /// Registers one layer: stages its descriptor for the index and puts its
    /// handle into the lookup table. The two always go together.
    pub fn insert_historic_layer(
        layer: Layer,
        updates: &mut BatchedUpdates,
        mapping: &mut LayerFileManager,
    ) -> (r: Result<(), LayerError>)
        requires
            old(mapping).wf(),
        ensures
            final(mapping).wf(),
            final(mapping).is_strict() == old(mapping).is_strict(),
            final(updates).removed() == old(updates).removed(),
            match table_insert(old(mapping)@, old(mapping).is_strict(), layer) {
                Ok(t) => {
                    &&& r == Ok::<(), LayerError>(())
                    &&& final(mapping)@ == t
                    &&& final(updates).inserted() == old(updates).inserted().push(layer.desc)
                },
                Err(e) => {
                    &&& r == Err::<(), LayerError>(e)
                    &&& final(mapping)@ == old(mapping)@
                    &&& final(updates).inserted() == old(updates).inserted()
                },
            },
    {
        match mapping.insert(layer) {
            Err(e) => Err(e),
            Ok(()) => {
                updates.insert_historic(layer.layer_desc());
                Ok(())
            },
        }
    }

    /// Removes one layer: stages the removal of its descriptor from the index,
    /// takes its handle out of the lookup table and hands the layer to
    /// `doomed` to be reclaimed. The three always go together, and only under
    /// the removal lock.
    pub fn delete_historic_layer(
        _layer_removal_cs: &Arc<tokio::sync::OwnedMutexGuard<()>>,
        layer: Layer,
        updates: &mut BatchedUpdates,
        mapping: &mut LayerFileManager,
        doomed: &mut Vec<Layer>,
    ) -> (r: Result<(), LayerError>)
        requires
            old(mapping).wf(),
        ensures
            final(mapping).wf(),
            final(mapping).is_strict() == old(mapping).is_strict(),
            final(updates).inserted() == old(updates).inserted(),
            match table_remove(old(mapping)@, old(mapping).is_strict(), layer) {
                Ok(t) => {
                    &&& r == Ok::<(), LayerError>(())
                    &&& final(mapping)@ == t
                    &&& final(updates).removed() == old(updates).removed().push(layer.desc)
                    &&& final(doomed)@ == old(doomed)@.push(layer)
                },
                Err(e) => {
                    &&& r == Err::<(), LayerError>(e)
                    &&& final(mapping)@ == old(mapping)@
                    &&& final(updates).removed() == old(updates).removed()
                    &&& final(doomed)@ == old(doomed)@
                },
            },
    {
        match mapping.remove(&layer) {
            Err(e) => Err(e),
            Ok(()) => {
                updates.remove_historic(layer.layer_desc());
                doomed.push(layer);
                Ok(())
            },
        }
    }

    fn insert_batch(
        layers: &[Layer],
        updates: &mut BatchedUpdates,
        mapping: &mut LayerFileManager,
    ) -> (r: Result<(), LayerError>)
        requires
            old(mapping).wf(),
        ensures
            final(mapping).wf(),
            final(mapping).is_strict() == old(mapping).is_strict(),
            final(updates).removed() == old(updates).removed(),
            match table_insert_all(old(mapping)@, old(mapping).is_strict(), layers@) {
                Ok(t) => {
                    &&& r == Ok::<(), LayerError>(())
                    &&& final(mapping)@ == t
                    &&& final(updates).inserted() == old(updates).inserted() + descs_of(layers@)
                },
                Err(e) => r == Err::<(), LayerError>(e),
            },
    {
        let mut i: usize = 0;
        proof {
            assert(layers@.skip(0) =~= layers@);
            assert(old(updates).inserted() + descs_of(layers@.take(0)) =~= old(
                updates,
            ).inserted());
        }
        while i < layers.len()
            invariant
                i <= layers@.len(),
                mapping.wf(),
                mapping.is_strict() == old(mapping).is_strict(),
                updates.removed() == old(updates).removed(),
                updates.inserted() == old(updates).inserted() + descs_of(layers@.take(i as int)),
                table_insert_all(old(mapping)@, old(mapping).is_strict(), layers@)
                    == table_insert_all(mapping@, mapping.is_strict(), layers@.skip(i as int)),
            decreases layers@.len() - i,
        {
            let layer = layers[i];
            proof {
                assert(layers@.skip(i as int)[0] == layer);
                assert(layers@.skip(i as int).skip(1) =~= layers@.skip(i + 1));
                assert(descs_of(layers@.take(i + 1)) =~= descs_of(layers@.take(i as int)).push(
                    layer.desc,
                ));
                assert((old(updates).inserted() + descs_of(layers@.take(i as int))).push(
                    layer.desc,
                ) =~= old(updates).inserted() + descs_of(layers@.take(i + 1)));
            }
            match Self::insert_historic_layer(layer, updates, mapping) {
                Err(e) => {
                    return Err(e);
                },
                Ok(()) => {},
            }
            i += 1;
        }
        proof {
            assert(layers@.take(layers@.len() as int) =~= layers@);
        }
        Ok(())
    }

    fn remove_batch(
        layer_removal_cs: &Arc<tokio::sync::OwnedMutexGuard<()>>,
        layers: &[Layer],
        updates: &mut BatchedUpdates,
        mapping: &mut LayerFileManager,
        doomed: &mut Vec<Layer>,
    ) -> (r: Result<(), LayerError>)
        requires
            old(mapping).wf(),
        ensures
            final(mapping).wf(),
            final(mapping).is_strict() == old(mapping).is_strict(),
            final(updates).inserted() == old(updates).inserted(),
            match table_remove_all(old(mapping)@, old(mapping).is_strict(), layers@) {
                Ok(t) => {
                    &&& r == Ok::<(), LayerError>(())
                    &&& final(mapping)@ == t
                    &&& final(updates).removed() == old(updates).removed() + descs_of(layers@)
                    &&& final(doomed)@ == old(doomed)@ + layers@
                },
                Err(e) => r == Err::<(), LayerError>(e),
            },
    {
        let mut i: usize = 0;
        proof {
            assert(layers@.skip(0) =~= layers@);
            assert(old(updates).removed() + descs_of(layers@.take(0)) =~= old(
                updates,
            ).removed());
            assert(old(doomed)@ + layers@.take(0) =~= old(doomed)@);
        }
        while i < layers.len()
            invariant
                i <= layers@.len(),
                mapping.wf(),
                mapping.is_strict() == old(mapping).is_strict(),
                updates.inserted() == old(updates).inserted(),
                updates.removed() == old(updates).removed() + descs_of(layers@.take(i as int)),
                doomed@ == old(doomed)@ + layers@.take(i as int),
                table_remove_all(old(mapping)@, old(mapping).is_strict(), layers@)
                    == table_remove_all(mapping@, mapping.is_strict(), layers@.skip(i as int)),
            decreases layers@.len() - i,
        {
            let layer = layers[i];
            proof {
                assert(layers@.skip(i as int)[0] == layer);
                assert(layers@.skip(i as int).skip(1) =~= layers@.skip(i + 1));
                assert(descs_of(layers@.take(i + 1)) =~= descs_of(layers@.take(i as int)).push(
                    layer.desc,
                ));
                assert((old(updates).removed() + descs_of(layers@.take(i as int))).push(
                    layer.desc,
                ) =~= old(updates).removed() + descs_of(layers@.take(i + 1)));
                assert((old(doomed)@ + layers@.take(i as int)).push(layer) =~= old(doomed)@
                    + layers@.take(i + 1));
            }
            match Self::delete_historic_layer(layer_removal_cs, layer, updates, mapping, doomed) {
                Err(e) => {
                    return Err(e);
                },
                Ok(()) => {},
            }
            i += 1;
        }
        proof {
            assert(layers@.take(layers@.len() as int) =~= layers@);
        }
        Ok(())
    }

    /// Whether a layer of the identity of `layer` is registered.
    pub fn contains(&self, layer: &Layer) -> (r: bool)
        requires
            self.wf(),
        ensures
            r == self.lookup().contains_key(layer.desc.identity()),
    {
        self.layer_fmgr.contains(layer)
    }
}

/// The index and the lookup table agree: a descriptor is in the index, once,
/// exactly if the table holds a handle with that descriptor under its
/// identity.
pub open spec fn historic_matches(
    historic: Multiset<PersistentLayerDesc>,
    lookup: Map<PersistentLayerKey, Layer>,
) -> bool {
    forall|d: PersistentLayerDesc|
        #![trigger historic.count(d)]
        historic.count(d) == if lookup.contains_key(d.identity()) && lookup[d.identity()].desc
            == d {
            1nat
        } else {
            0nat
        }
}

/// Each of `layers` that is registered in `lookup` is registered there with
/// the descriptor that it carries.
pub open spec fn registered_as_given(
    lookup: Map<PersistentLayerKey, Layer>,
    layers: Seq<Layer>,
) -> bool {
    forall|i: int|
        0 <= i < layers.len() && lookup.contains_key((#[trigger] layers[i]).desc.identity())
            ==> lookup[layers[i].desc.identity()].desc == layers[i].desc
}

proof fn lemma_inserts_only(historic: Multiset<PersistentLayerDesc>, updates: BatchedUpdates)
    requires
        updates.removed().len() == 0,
    ensures
        updates.applied_to(historic) == historic.add(updates.inserted().to_multiset()),
{
    assert(updates.removed() =~= Seq::<PersistentLayerDesc>::empty());
    updates.removed().to_multiset_ensures();
    assert(updates.removed().to_multiset() =~= Multiset::<PersistentLayerDesc>::empty());
    let grown = historic.add(updates.inserted().to_multiset());
    assert(grown.sub(Multiset::empty()) =~= grown);
}

/// Only the oldest frozen layer can be flushed: of the frozen layers of a
/// well-formed index, the flush of any but the first is refused as out of
/// order.
pub proof fn lemma_flush_only_in_order(v: LayerMapView, next_handle: u64, j: int)
    requires
        in_memory_wf(v, next_handle),
        0 <= j < v.frozen_layers.len(),
    ensures
        j == 0 ==> flush_refusal(v.frozen_layers, v.frozen_layers[j]) is None,
        j > 0 ==> flush_refusal(v.frozen_layers, v.frozen_layers[j]) == Some(
            LayerError::FlushOutOfOrder,
        ),
{
    if j > 0 {
        assert(v.frozen_layers[0].handle != v.frozen_layers[j].handle);
    }
}

/// A compaction leaves no gap and no overlap: in the index after it, every
/// replacement is present, every replaced layer that the index held once is
/// absent, and every other descriptor is counted as before.
pub proof fn lemma_compaction_replaces(
    historic: Multiset<PersistentLayerDesc>,
    from: Seq<Layer>,
    to: Seq<Layer>,
    d: PersistentLayerDesc,
)
    ensures
        descs_of(to).contains(d) && !descs_of(from).contains(d) ==> compacted(
            historic,
            from,
            to,
        ).count(d) > 0,
        descs_of(from).contains(d) && !descs_of(to).contains(d) && historic.count(d) <= 1
            ==> compacted(historic, from, to).count(d) == 0,
        !descs_of(from).contains(d) && !descs_of(to).contains(d) ==> compacted(
            historic,
            from,
            to,
        ).count(d) == historic.count(d),
{
    descs_of(to).to_multiset_ensures();
    descs_of(from).to_multiset_ensures();
}

proof fn lemma_front(layers: Seq<Layer>)
    requires
        layers.len() > 0,
    ensures
        descs_of(layers).to_multiset() == descs_of(layers.skip(1)).to_multiset().insert(
            layers[0].desc,
        ),
{
    let head = Seq::<PersistentLayerDesc>::empty().push(layers[0].desc);
    let rest = descs_of(layers.skip(1));
    assert(descs_of(layers) =~= head + rest);
    vstd::seq_lib::lemma_multiset_commutative(head, rest);
    Seq::<PersistentLayerDesc>::empty().to_multiset_ensures();
    assert(head.to_multiset().add(rest.to_multiset()) =~= rest.to_multiset().insert(
        layers[0].desc,
    ));
}

/// In strict mode, registering layers keeps the index and the lookup table in
/// agreement.
pub proof fn lemma_insert_keeps_sync(
    historic: Multiset<PersistentLayerDesc>,
    lookup: Map<PersistentLayerKey, Layer>,
    layers: Seq<Layer>,
)
    requires
        historic_matches(historic, lookup),
        table_insert_all(lookup, true, layers) is Ok,
    ensures
        historic_matches(
            historic.add(descs_of(layers).to_multiset()),
            table_insert_all(lookup, true, layers)->Ok_0,
        ),
    decreases layers.len(),
{
    if layers.len() == 0 {
        descs_of(layers).to_multiset_ensures();
        assert(descs_of(layers) =~= Seq::<PersistentLayerDesc>::empty());
        assert(descs_of(layers).to_multiset() =~= Multiset::<PersistentLayerDesc>::empty());
        assert(historic.add(Multiset::empty()) =~= historic);
    } else {
        let l = layers[0];
        let k = l.desc.identity();
        let next_lookup = lookup.insert(k, l);
        let next_historic = historic.insert(l.desc);
        assert forall|d: PersistentLayerDesc|
            #![trigger next_historic.count(d)]
            next_historic.count(d) == if next_lookup.contains_key(d.identity())
                && next_lookup[d.identity()].desc == d {
                1nat
            } else {
                0nat
            } by {
            assert(historic.count(d) == if lookup.contains_key(d.identity())
                && lookup[d.identity()].desc == d {
                1nat
            } else {
                0nat
            });
        }
        lemma_insert_keeps_sync(next_historic, next_lookup, layers.skip(1));
        lemma_front(layers);
        assert(historic.add(descs_of(layers).to_multiset()) =~= next_historic.add(
            descs_of(layers.skip(1)).to_multiset(),
        ));
    }
}

/// In strict mode, removing layers by the descriptors under which they are
/// registered keeps the index and the lookup table in agreement.
pub proof fn lemma_remove_keeps_sync(
    historic: Multiset<PersistentLayerDesc>,
    lookup: Map<PersistentLayerKey, Layer>,
    layers: Seq<Layer>,
)
    requires
        historic_matches(historic, lookup),
        table_remove_all(lookup, true, layers) is Ok,
        registered_as_given(lookup, layers),
    ensures
        historic_matches(
            historic.sub(descs_of(layers).to_multiset()),
            table_remove_all(lookup, true, layers)->Ok_0,
        ),
    decreases layers.len(),
{
    if layers.len() == 0 {
        descs_of(layers).to_multiset_ensures();
        assert(descs_of(layers) =~= Seq::<PersistentLayerDesc>::empty());
        assert(descs_of(layers).to_multiset() =~= Multiset::<PersistentLayerDesc>::empty());
        assert(historic.sub(Multiset::empty()) =~= historic);
    } else {
        let l = layers[0];
        let k = l.desc.identity();
        let next_lookup = lookup.remove(k);
        let next_historic = historic.remove(l.desc);
        assert(lookup[k].desc == l.desc);
        assert forall|d: PersistentLayerDesc|
            #![trigger next_historic.count(d)]
            next_historic.count(d) == if next_lookup.contains_key(d.identity())
                && next_lookup[d.identity()].desc == d {
                1nat
            } else {
                0nat
            } by {
            assert(historic.count(d) == if lookup.contains_key(d.identity())
                && lookup[d.identity()].desc == d {
                1nat
            } else {
                0nat
            });
            assert(historic.count(l.desc) == 1);
        }
        let rest = layers.skip(1);
        assert(layers[0] == l);
        assert forall|i: int|
            0 <= i < rest.len() && next_lookup.contains_key(
                (#[trigger] rest[i]).desc.identity(),
            ) implies next_lookup[rest[i].desc.identity()].desc == rest[i].desc by {
            assert(rest[i] == layers[i + 1]);
        }
        lemma_remove_keeps_sync(next_historic, next_lookup, rest);
        lemma_front(layers);
        assert(historic.sub(descs_of(layers).to_multiset()) =~= next_historic.sub(
            descs_of(rest).to_multiset(),
        ));
    }
}

/// In strict mode a compaction that replaces layers by the descriptors under
/// which they are registered keeps the index and the lookup table in
/// agreement.
pub proof fn lemma_compaction_keeps_sync(
    historic: Multiset<PersistentLayerDesc>,
    lookup: Map<PersistentLayerKey, Layer>,
    from: Seq<Layer>,
    to: Seq<Layer>,
)
    requires
        historic_matches(historic, lookup),
        table_insert_all(lookup, true, to) is Ok,
        table_remove_all(table_insert_all(lookup, true, to)->Ok_0, true, from) is Ok,
        registered_as_given(table_insert_all(lookup, true, to)->Ok_0, from),
    ensures
        historic_matches(
            compacted(historic, from, to),
            table_remove_all(table_insert_all(lookup, true, to)->Ok_0, true, from)->Ok_0,
        ),
{
    lemma_insert_keeps_sync(historic, lookup, to);
    lemma_remove_keeps_sync(
        historic.add(descs_of(to).to_multiset()),
        table_insert_all(lookup, true, to)->Ok_0,
        from,
    );
}

} // verus!
