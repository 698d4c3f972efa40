use vstd::prelude::*;
use vstd::multiset::Multiset;
use std::collections::VecDeque;
use crate::layer_desc::{InMemoryLayer, PersistentLayerDesc};
use crate::lsn::Lsn;

verus! {

/// What a reader sees of the layer index.
pub struct LayerMapView {
    /// The one layer that takes writes, if there is one.
    pub open_layer: Option<InMemoryLayer>,
    /// Where the next open layer starts, while there is none.
    pub next_open_layer_at: Option<Lsn>,
    /// The sealed layers that wait to be written out, oldest first.
    pub frozen_layers: Seq<InMemoryLayer>,
    /// The descriptors of the persistent layers.
    pub historic: Multiset<PersistentLayerDesc>,
}

/// The layer index of one timeline: the persistent layers by descriptor, the
/// open layer and the queue of frozen layers.
pub struct LayerMap {
    open_layer: Option<InMemoryLayer>,
    next_open_layer_at: Option<Lsn>,
    frozen_layers: VecDeque<InMemoryLayer>,
    historic: Vec<PersistentLayerDesc>,
}

impl View for LayerMap {
    type V = LayerMapView;

    closed spec fn view(&self) -> LayerMapView {
        LayerMapView {
            open_layer: self.open_layer,
            next_open_layer_at: self.next_open_layer_at,
            frozen_layers: self.frozen_layers@,
            historic: self.historic@.to_multiset(),
        }
    }
}

/// Changes to the persistent layers of an index that take effect together,
/// when the batch is flushed: first what it inserts is added, then what it
/// removes is taken out, each once for each time it was staged.
pub struct BatchedUpdates {
    inserted: Vec<PersistentLayerDesc>,
    removed: Vec<PersistentLayerDesc>,
}

impl BatchedUpdates {
    /// The descriptors staged for insertion, in the order of staging.
    pub closed spec fn inserted(&self) -> Seq<PersistentLayerDesc> {
        self.inserted@
    }

    /// The descriptors staged for removal, in the order of staging.
    pub closed spec fn removed(&self) -> Seq<PersistentLayerDesc> {
        self.removed@
    }

    /// The persistent layers of an index that held `historic`, after this
    /// batch.
    pub open spec fn applied_to(&self, historic: Multiset<PersistentLayerDesc>) -> Multiset<
        PersistentLayerDesc,
    > {
        historic.add(self.inserted().to_multiset()).sub(self.removed().to_multiset())
    }

    pub fn insert_historic(&mut self, desc: PersistentLayerDesc)
        ensures
            final(self).inserted() == old(self).inserted().push(desc),
            final(self).removed() == old(self).removed(),
    {
        self.inserted.push(desc);
    }

    pub fn remove_historic(&mut self, desc: PersistentLayerDesc)
        ensures
            final(self).inserted() == old(self).inserted(),
            final(self).removed() == old(self).removed().push(desc),
    {
        self.removed.push(desc);
    }

    /// Applies the batch to `map`, all of it at once.
    pub fn flush(self, map: &mut LayerMap)
        ensures
            final(map)@ == (LayerMapView {
                historic: self.applied_to(old(map)@.historic),
                ..old(map)@
            }),
    {
        map.apply(&self);
    }
}

fn position(v: &Vec<PersistentLayerDesc>, desc: &PersistentLayerDesc) -> (r: Option<usize>)
    ensures
        match r {
            Some(i) => i < v@.len() && v@[i as int] == *desc,
            None => !v@.contains(*desc),
        },
{
    let mut i: usize = 0;
    while i < v.len()
        invariant
            i <= v@.len(),
            forall|j: int| 0 <= j < i ==> v@[j] != *desc,
        decreases v@.len() - i,
    {
        if v[i] == *desc {
            return Some(i);
        }
        i += 1;
    }
    None
}

impl LayerMap {
    /// An index without layers, without an open layer and without a place to
    /// open one.
    pub fn new() -> (m: LayerMap)
        ensures
            m@ == (LayerMapView {
                open_layer: None,
                next_open_layer_at: None,
                frozen_layers: Seq::empty(),
                historic: Multiset::empty(),
            }),
    {
        let m = LayerMap {
            open_layer: None,
            next_open_layer_at: None,
            frozen_layers: VecDeque::new(),
            historic: Vec::new(),
        };
        proof {
            broadcast use vstd::seq_lib::group_to_multiset_ensures;

            assert(m.historic@.to_multiset() =~= Multiset::<PersistentLayerDesc>::empty());
        }
        m
    }

    /// The layer that takes writes, if there is one.
    pub fn open_layer(&self) -> (l: Option<InMemoryLayer>)
        ensures
            l == self@.open_layer,
    {
        self.open_layer
    }

    /// Where the next open layer will start, while there is none.
    pub fn next_open_layer_at(&self) -> (at: Option<Lsn>)
        ensures
            at == self@.next_open_layer_at,
    {
        self.next_open_layer_at
    }

    /// The frozen layers, oldest first.
    pub fn frozen_layers(&self) -> (q: &VecDeque<InMemoryLayer>)
        ensures
            q@ == self@.frozen_layers,
    {
        &self.frozen_layers
    }

    pub(crate) fn set_open_layer(&mut self, layer: Option<InMemoryLayer>)
        ensures
            final(self)@ == (LayerMapView { open_layer: layer, ..old(self)@ }),
    {
        self.open_layer = layer;
    }

    pub(crate) fn set_next_open_layer_at(&mut self, at: Option<Lsn>)
        ensures
            final(self)@ == (LayerMapView { next_open_layer_at: at, ..old(self)@ }),
    {
        self.next_open_layer_at = at;
    }

    pub(crate) fn push_frozen(&mut self, layer: InMemoryLayer)
        ensures
            final(self)@ == (LayerMapView {
                frozen_layers: old(self)@.frozen_layers.push(layer),
                ..old(self)@
            }),
    {
        self.frozen_layers.push_back(layer);
    }

    pub(crate) fn pop_frozen(&mut self) -> (l: Option<InMemoryLayer>)
        ensures
            old(self)@.frozen_layers.len() == 0 ==> l is None && final(self)@ == old(self)@,
            old(self)@.frozen_layers.len() > 0 ==> l == Some(old(self)@.frozen_layers[0])
                && final(self)@ == (LayerMapView {
                frozen_layers: old(self)@.frozen_layers.skip(1),
                ..old(self)@
            }),
    {
        let l = self.frozen_layers.pop_front();
        proof {
            if old(self)@.frozen_layers.len() > 0 {
                assert(old(self)@.frozen_layers.subrange(
                    1,
                    old(self)@.frozen_layers.len() as int,
                ) =~= old(self)@.frozen_layers.skip(1));
            }
        }
        l
    }

    /// An empty batch of updates.
    pub fn batch_update(&self) -> (u: BatchedUpdates)
        ensures
            u.inserted() == Seq::<PersistentLayerDesc>::empty(),
            u.removed() == Seq::<PersistentLayerDesc>::empty(),
    {
        BatchedUpdates { inserted: Vec::new(), removed: Vec::new() }
    }

    /// Whether `desc` is among the persistent layers.
    pub fn contains_historic(&self, desc: &PersistentLayerDesc) -> (r: bool)
        ensures
            r == (self@.historic.count(*desc) > 0),
    {
        proof {
            self.historic@.to_multiset_ensures();
        }
        position(&self.historic, desc).is_some()
    }

    /// The number of persistent layers.
    pub fn historic_len(&self) -> (n: usize)
        ensures
            n == self@.historic.len(),
    {
        proof {
            self.historic@.to_multiset_ensures();
        }
        self.historic.len()
    }

    /// The descriptors of the persistent layers.
    pub fn historic_layers(&self) -> (v: &Vec<PersistentLayerDesc>)
        ensures
            v@.to_multiset() == self@.historic,
    {
        &self.historic
    }

    fn apply(&mut self, updates: &BatchedUpdates)
        ensures
            final(self)@ == (LayerMapView {
                historic: updates.applied_to(old(self)@.historic),
                ..old(self)@
            }),
    {
        let ghost start = self.historic@.to_multiset();
        let mut i: usize = 0;
        proof {
            assert(updates.inserted@.take(0) =~= Seq::<PersistentLayerDesc>::empty());
            updates.inserted@.take(0).to_multiset_ensures();
            assert(updates.inserted@.take(0).to_multiset() =~= Multiset::<
                PersistentLayerDesc,
            >::empty());
            assert(start.add(Multiset::empty()) =~= start);
        }
        while i < updates.inserted.len()
            invariant
                i <= updates.inserted@.len(),
                self.open_layer == old(self).open_layer,
                self.next_open_layer_at == old(self).next_open_layer_at,
                self.frozen_layers@ == old(self).frozen_layers@,
                self.historic@.to_multiset() == start.add(
                    updates.inserted@.take(i as int).to_multiset(),
                ),
            decreases updates.inserted@.len() - i,
        {
            let desc = updates.inserted[i];
            proof {
                let done = updates.inserted@.take(i as int);
                assert(updates.inserted@.take(i + 1) =~= done.push(desc));
                done.to_multiset_ensures();
                self.historic@.to_multiset_ensures();
                assert(start.add(done.to_multiset().insert(desc)) =~= start.add(
                    done.to_multiset(),
                ).insert(desc));
            }
            self.historic.push(desc);
            i += 1;
        }
        assert(updates.inserted@.take(updates.inserted@.len() as int) =~= updates.inserted@);
        let ghost grown = start.add(updates.inserted@.to_multiset());
        let mut j: usize = 0;
        proof {
            assert(updates.removed@.take(0) =~= Seq::<PersistentLayerDesc>::empty());
            updates.removed@.take(0).to_multiset_ensures();
            assert(updates.removed@.take(0).to_multiset() =~= Multiset::<
                PersistentLayerDesc,
            >::empty());
            assert(grown.sub(Multiset::empty()) =~= grown);
        }
        while j < updates.removed.len()
            invariant
                j <= updates.removed@.len(),
                self.open_layer == old(self).open_layer,
                self.next_open_layer_at == old(self).next_open_layer_at,
                self.frozen_layers@ == old(self).frozen_layers@,
                self.historic@.to_multiset() == grown.sub(
                    updates.removed@.take(j as int).to_multiset(),
                ),
            decreases updates.removed@.len() - j,
        {
            let desc = updates.removed[j];
            let found = position(&self.historic, &desc);
            proof {
                let done = updates.removed@.take(j as int);
                assert(updates.removed@.take(j + 1) =~= done.push(desc));
                done.to_multiset_ensures();
                self.historic@.to_multiset_ensures();
                assert(grown.sub(done.to_multiset().insert(desc)) =~= grown.sub(
                    done.to_multiset(),
                ).remove(desc));
                if found is None {
                    assert(grown.sub(done.to_multiset()).remove(desc) =~= grown.sub(
                        done.to_multiset(),
                    ));
                }
            }
            match found {
                Some(k) => {
                    self.historic.remove(k);
                },
                None => {},
            }
            j += 1;
        }
        assert(updates.removed@.take(updates.removed@.len() as int) =~= updates.removed@);
    }
}

} // verus!
