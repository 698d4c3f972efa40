use vstd::prelude::*;
use crate::layer_desc::{Layer, PersistentLayerKey};

verus! {

/// Whether a layer's content is at hand locally.
#[derive(Clone, Copy, Debug, PartialEq, Eq, Structural)]
pub enum LayerResidenceStatus {
    Resident,
    Evicted,
}

/// What made a layer's residence change.
#[derive(Clone, Copy, Debug, PartialEq, Eq, Structural)]
pub enum LayerResidenceEventReason {
    LayerLoad,
    LayerCreate,
    ResidenceChange,
}

/// One entry of the residence history of a layer.
#[derive(Clone, Copy, Debug, PartialEq, Eq, Structural)]
pub struct ResidenceEvent {
    pub layer: PersistentLayerKey,
    pub status: LayerResidenceStatus,
    pub reason: LayerResidenceEventReason,
}

/// The counters wrap around at this value.
pub open spec fn counter_range() -> int {
    0x1_0000_0000_0000_0000
}

/// The sum of the sizes of `layers`.
pub open spec fn total_size(layers: Seq<Layer>) -> int
    decreases layers.len(),
{
    if layers.len() == 0 {
        0
    } else {
        total_size(layers.drop_last()) + layers.last().desc.file_size
    }
}

/// A counter that stood at `counter`, after `amount` was added to it.
pub open spec fn counted(counter: u64, amount: int) -> u64 {
    ((counter + amount) % counter_range()) as u64
}

/// The event that tells that `layer` was created and is resident.
pub open spec fn created_event(layer: Layer) -> ResidenceEvent {
    ResidenceEvent {
        layer: layer.desc.identity(),
        status: LayerResidenceStatus::Resident,
        reason: LayerResidenceEventReason::LayerCreate,
    }
}

/// The events that tell that each of `layers` was created, in their order.
pub open spec fn created_events(layers: Seq<Layer>) -> Seq<ResidenceEvent> {
    layers.map_values(|l: Layer| created_event(l))
}

/// What a timeline reports of its layers: sizes, counts and residence events.
/// The counters wrap around; reporting never fails.
pub struct TimelineMetrics {
    pub resident_physical_size_gauge: u64,
    pub num_persistent_files_created: u64,
    pub persistent_bytes_written: u64,
    pub residence_events: Vec<ResidenceEvent>,
}

impl TimelineMetrics {
    pub fn new() -> (m: TimelineMetrics)
        ensures
            m.resident_physical_size_gauge == 0,
            m.num_persistent_files_created == 0,
            m.persistent_bytes_written == 0,
            m.residence_events@ == Seq::<ResidenceEvent>::empty(),
    {
        TimelineMetrics {
            resident_physical_size_gauge: 0,
            num_persistent_files_created: 0,
            persistent_bytes_written: 0,
            residence_events: Vec::new(),
        }
    }

    /// Reports that `layer` was created and is resident: its size is added to
    /// the resident size, and one event is recorded for it.
    pub fn record_layer_created(&mut self, layer: &Layer)
        ensures
            final(self).resident_physical_size_gauge == counted(
                old(self).resident_physical_size_gauge,
                layer.desc.file_size as int,
            ),
            final(self).residence_events@ == old(self).residence_events@.push(
                created_event(*layer),
            ),
            final(self).num_persistent_files_created == old(self).num_persistent_files_created,
            final(self).persistent_bytes_written == old(self).persistent_bytes_written,
    {
        self.resident_physical_size_gauge = self.resident_physical_size_gauge.wrapping_add(
            layer.desc.file_size,
        );
        self.residence_events.push(
            ResidenceEvent {
                layer: layer.desc.key(),
                status: LayerResidenceStatus::Resident,
                reason: LayerResidenceEventReason::LayerCreate,
            },
        );
    }

    /// Reports the creation of each of `layers`, in their order.
    pub fn record_created(&mut self, layers: &[Layer])
        ensures
            final(self).resident_physical_size_gauge == counted(
                old(self).resident_physical_size_gauge,
                total_size(layers@),
            ),
            final(self).residence_events@ == old(self).residence_events@ + created_events(
                layers@,
            ),
            final(self).num_persistent_files_created == old(self).num_persistent_files_created,
            final(self).persistent_bytes_written == old(self).persistent_bytes_written,
    {
        let mut i: usize = 0;
        assert(layers@.take(0) =~= Seq::<Layer>::empty());
        assert(created_events(layers@.take(0)) =~= Seq::<ResidenceEvent>::empty());
        assert(self.residence_events@ + Seq::<ResidenceEvent>::empty()
            =~= self.residence_events@);
        while i < layers.len()
            invariant
                i <= layers@.len(),
                self.resident_physical_size_gauge == counted(
                    old(self).resident_physical_size_gauge,
                    total_size(layers@.take(i as int)),
                ),
                self.residence_events@ == old(self).residence_events@ + created_events(
                    layers@.take(i as int),
                ),
                self.num_persistent_files_created == old(self).num_persistent_files_created,
                self.persistent_bytes_written == old(self).persistent_bytes_written,
            decreases layers@.len() - i,
        {
            let layer = layers[i];
            proof {
                let next = layers@.take(i + 1);
                assert(next.drop_last() =~= layers@.take(i as int));
                assert(next.last() == layer);
                assert(created_events(next) =~= created_events(layers@.take(i as int)).push(
                    created_event(layer),
                ));
                assert(total_size(next) == total_size(layers@.take(i as int))
                    + layer.desc.file_size);
            }
            self.record_layer_created(&layer);
            i += 1;
        }
        assert(layers@.take(layers@.len() as int) =~= layers@);
    }

    /// Reports that a file of `size` bytes was written.
    pub fn record_written(&mut self, size: u64)
        ensures
            final(self).num_persistent_files_created == counted(
                old(self).num_persistent_files_created,
                1,
            ),
            final(self).persistent_bytes_written == counted(
                old(self).persistent_bytes_written,
                size as int,
            ),
            final(self).resident_physical_size_gauge == old(self).resident_physical_size_gauge,
            final(self).residence_events@ == old(self).residence_events@,
    {
        self.num_persistent_files_created = self.num_persistent_files_created.wrapping_add(1);
        self.persistent_bytes_written = self.persistent_bytes_written.wrapping_add(size);
    }
}

} // verus!
