use vstd::prelude::*;
use crate::error::LayerError;
use crate::layer_desc::{Layer, PersistentLayerDesc, PersistentLayerKey};

verus! {

/// The identity of the `i`-th handle of `s`.
pub open spec fn key_at(s: Seq<Layer>, i: int) -> PersistentLayerKey {
    s[i].desc.identity()
}

/// No two handles of `s` have the same identity.
pub open spec fn distinct_keys(s: Seq<Layer>) -> bool {
    forall|i: int, j: int| 0 <= i < j < s.len() ==> key_at(s, i) != key_at(s, j)
}

/// Some handle of `s` has the identity `k`.
pub open spec fn has_key(s: Seq<Layer>, k: PersistentLayerKey) -> bool {
    exists|i: int| 0 <= i < s.len() && key_at(s, i) == k
}

/// Where in `s` the handle of identity `k` stands.
pub open spec fn index_of_key(s: Seq<Layer>, k: PersistentLayerKey) -> int {
    choose|i: int| 0 <= i < s.len() && key_at(s, i) == k
}

/// The mapping from identity to handle that `s` stands for.
pub open spec fn table_of(s: Seq<Layer>) -> Map<PersistentLayerKey, Layer> {
    Map::new(|k: PersistentLayerKey| has_key(s, k), |k: PersistentLayerKey| s[index_of_key(s, k)])
}

/// What registering `layer` in the table `t` gives: in strict mode a second
/// handle of one identity is refused, otherwise the later handle wins.
pub open spec fn table_insert(
    t: Map<PersistentLayerKey, Layer>,
    strict: bool,
    layer: Layer,
) -> Result<Map<PersistentLayerKey, Layer>, LayerError> {
    if strict && t.contains_key(layer.desc.identity()) {
        Err(LayerError::DuplicateLayer)
    } else {
        Ok(t.insert(layer.desc.identity(), layer))
    }
}

/// What taking `layer` out of the table `t` gives: in strict mode the identity
/// must be there.
pub open spec fn table_remove(
    t: Map<PersistentLayerKey, Layer>,
    strict: bool,
    layer: Layer,
) -> Result<Map<PersistentLayerKey, Layer>, LayerError> {
    if strict && !t.contains_key(layer.desc.identity()) {
        Err(LayerError::MissingLayer)
    } else {
        Ok(t.remove(layer.desc.identity()))
    }
}

/// What registering each of `layers` in turn gives; the first refusal ends it.
pub open spec fn table_insert_all(
    t: Map<PersistentLayerKey, Layer>,
    strict: bool,
    layers: Seq<Layer>,
) -> Result<Map<PersistentLayerKey, Layer>, LayerError>
    decreases layers.len(),
{
    if layers.len() == 0 {
        Ok(t)
    } else {
        match table_insert(t, strict, layers[0]) {
            Ok(next) => table_insert_all(next, strict, layers.skip(1)),
            Err(e) => Err(e),
        }
    }
}

/// What taking each of `layers` out in turn gives; the first refusal ends it.
pub open spec fn table_remove_all(
    t: Map<PersistentLayerKey, Layer>,
    strict: bool,
    layers: Seq<Layer>,
) -> Result<Map<PersistentLayerKey, Layer>, LayerError>
    decreases layers.len(),
{
    if layers.len() == 0 {
        Ok(t)
    } else {
        match table_remove(t, strict, layers[0]) {
            Ok(next) => table_remove_all(next, strict, layers.skip(1)),
            Err(e) => Err(e),
        }
    }
}

/// The descriptors of `layers`, in their order.
pub open spec fn descs_of(layers: Seq<Layer>) -> Seq<PersistentLayerDesc> {
    layers.map_values(|l: Layer| l.desc)
}

proof fn lemma_table_entry(s: Seq<Layer>, i: int)
    requires
        distinct_keys(s),
        0 <= i < s.len(),
    ensures
        table_of(s).contains_key(key_at(s, i)),
        table_of(s)[key_at(s, i)] == s[i],
{
    let k = key_at(s, i);
    assert(has_key(s, k));
    let j = index_of_key(s, k);
    assert(0 <= j < s.len() && key_at(s, j) == k);
    if j < i {
        assert(key_at(s, j) != key_at(s, i));
    }
    if i < j {
        assert(key_at(s, i) != key_at(s, j));
    }
}

proof fn lemma_table_push(s: Seq<Layer>, l: Layer)
    requires
        distinct_keys(s),
        !has_key(s, l.desc.identity()),
    ensures
        distinct_keys(s.push(l)),
        table_of(s.push(l)) == table_of(s).insert(l.desc.identity(), l),
{
    let t = s.push(l);
    let lk = l.desc.identity();
    assert forall|i: int, j: int| 0 <= i < j < t.len() implies key_at(t, i) != key_at(t, j) by {
        assert(key_at(t, i) == key_at(s, i));
        if j < s.len() {
            assert(key_at(t, j) == key_at(s, j));
        }
    }
    assert forall|k: PersistentLayerKey| has_key(t, k) == (has_key(s, k) || k == lk) by {
        if has_key(t, k) {
            let i = index_of_key(t, k);
            if i < s.len() {
                assert(key_at(s, i) == k);
            }
        }
        if has_key(s, k) {
            let i = index_of_key(s, k);
            assert(key_at(t, i) == k);
        }
        if k == lk {
            assert(key_at(t, s.len() as int) == k);
        }
    }
    assert forall|k: PersistentLayerKey| has_key(t, k) implies table_of(t)[k] == table_of(
        s,
    ).insert(lk, l)[k] by {
        let i = index_of_key(t, k);
        lemma_table_entry(t, i);
        if i < s.len() {
            assert(key_at(s, i) == k);
            lemma_table_entry(s, i);
        }
    }
    assert(table_of(t) =~= table_of(s).insert(lk, l));
}

proof fn lemma_table_update(s: Seq<Layer>, n: int, l: Layer)
    requires
        distinct_keys(s),
        0 <= n < s.len(),
        key_at(s, n) == l.desc.identity(),
    ensures
        distinct_keys(s.update(n, l)),
        table_of(s.update(n, l)) == table_of(s).insert(l.desc.identity(), l),
{
    let t = s.update(n, l);
    let lk = l.desc.identity();
    assert forall|i: int| 0 <= i < s.len() implies key_at(t, i) == key_at(s, i) by {}
    assert forall|i: int, j: int| 0 <= i < j < t.len() implies key_at(t, i) != key_at(t, j) by {
        assert(key_at(s, i) != key_at(s, j));
    }
    assert forall|k: PersistentLayerKey| has_key(t, k) == (has_key(s, k) || k == lk) by {
        if has_key(t, k) {
            let i = index_of_key(t, k);
            assert(key_at(s, i) == k);
        }
        if has_key(s, k) {
            let i = index_of_key(s, k);
            assert(key_at(t, i) == k);
        }
        if k == lk {
            assert(key_at(t, n) == k);
        }
    }
    assert forall|k: PersistentLayerKey| has_key(t, k) implies table_of(t)[k] == table_of(
        s,
    ).insert(lk, l)[k] by {
        let i = index_of_key(t, k);
        lemma_table_entry(t, i);
        assert(key_at(s, i) == k);
        lemma_table_entry(s, i);
        if i != n && k == lk {
            if i < n {
                assert(key_at(s, i) != key_at(s, n));
            } else {
                assert(key_at(s, n) != key_at(s, i));
            }
        }
    }
    assert(table_of(t) =~= table_of(s).insert(lk, l));
}

proof fn lemma_table_remove(s: Seq<Layer>, n: int)
    requires
        distinct_keys(s),
        0 <= n < s.len(),
    ensures
        distinct_keys(s.remove(n)),
        table_of(s.remove(n)) == table_of(s).remove(key_at(s, n)),
{
    let t = s.remove(n);
    let nk = key_at(s, n);
    assert forall|i: int| 0 <= i < t.len() implies key_at(t, i) == key_at(
        s,
        if i < n {
            i
        } else {
            i + 1
        },
    ) by {}
    assert forall|i: int, j: int| 0 <= i < j < t.len() implies key_at(t, i) != key_at(t, j) by {
        let a = if i < n {
            i
        } else {
            i + 1
        };
        let b = if j < n {
            j
        } else {
            j + 1
        };
        assert(key_at(s, a) != key_at(s, b));
    }
    assert forall|k: PersistentLayerKey| has_key(t, k) == (has_key(s, k) && k != nk) by {
        if has_key(t, k) {
            let i = index_of_key(t, k);
            let a = if i < n {
                i
            } else {
                i + 1
            };
            assert(key_at(s, a) == k);
            if a < n {
                assert(key_at(s, a) != key_at(s, n));
            } else {
                assert(key_at(s, n) != key_at(s, a));
            }
        }
        if has_key(s, k) && k != nk {
            let i = index_of_key(s, k);
            let a = if i < n {
                i
            } else {
                i - 1
            };
            assert(key_at(t, a) == k);
        }
    }
    assert forall|k: PersistentLayerKey| has_key(t, k) implies table_of(t)[k] == table_of(
        s,
    ).remove(nk)[k] by {
        let i = index_of_key(t, k);
        let a = if i < n {
            i
        } else {
            i + 1
        };
        lemma_table_entry(t, i);
        assert(key_at(s, a) == k);
        lemma_table_entry(s, a);
    }
    assert(table_of(t) =~= table_of(s).remove(nk));
}

/// The lookup table: for each identity of a registered persistent layer, the
/// handle that was registered. It answers by identity where the layer index
/// answers by range.
pub struct LayerFileManager {
    entries: Vec<Layer>,
    strict: bool,
}

impl View for LayerFileManager {
    type V = Map<PersistentLayerKey, Layer>;

    closed spec fn view(&self) -> Map<PersistentLayerKey, Layer> {
        table_of(self.entries@)
    }
}

impl LayerFileManager {
    /// No identity stands in the table twice.
    pub closed spec fn wf(&self) -> bool {
        distinct_keys(self.entries@)
    }

    /// Whether a duplicate registration and a removal of what is not there are
    /// refused (strict) or let pass (permissive).
    pub closed spec fn is_strict(&self) -> bool {
        self.strict
    }

    /// An empty table in strict mode.
    pub fn new() -> (m: LayerFileManager)
        ensures
            m.wf(),
            m.is_strict(),
            m@ == Map::<PersistentLayerKey, Layer>::empty(),
    {
        Self::with_strictness(true)
    }

    /// An empty table. A permissive table lets a later handle overwrite an
    /// earlier one of the same identity and ignores the removal of an absent
    /// one; whoever chooses it gives up the detection of such faults.
    pub fn with_strictness(strict: bool) -> (m: LayerFileManager)
        ensures
            m.wf(),
            m.is_strict() == strict,
            m@ == Map::<PersistentLayerKey, Layer>::empty(),
    {
        let m = LayerFileManager { entries: Vec::new(), strict };
        assert(m@ =~= Map::<PersistentLayerKey, Layer>::empty());
        m
    }

    pub fn strict(&self) -> (r: bool)
        ensures
            r == self.is_strict(),
    {
        self.strict
    }

    /// The number of registered handles.
    pub fn len(&self) -> (n: usize)
        requires
            self.wf(),
        ensures
            self@.dom().finite(),
            n == self@.dom().len(),
    {
        proof {
            lemma_table_len(self.entries@);
        }
        self.entries.len()
    }

    /// A copy of the table as it stands.
    pub fn snapshot(&self) -> (m: LayerFileManager)
        ensures
            m@ == self@,
            m.wf() == self.wf(),
            m.is_strict() == self.is_strict(),
    {
        let mut entries: Vec<Layer> = Vec::new();
        let mut i: usize = 0;
        while i < self.entries.len()
            invariant
                i <= self.entries@.len(),
                entries@ == self.entries@.take(i as int),
            decreases self.entries@.len() - i,
        {
            entries.push(self.entries[i]);
            assert(self.entries@.take(i + 1) =~= self.entries@.take(i as int).push(
                self.entries@[i as int],
            ));
            i += 1;
        }
        assert(self.entries@.take(self.entries@.len() as int) =~= self.entries@);
        LayerFileManager { entries, strict: self.strict }
    }

    fn find(&self, key: &PersistentLayerKey) -> (r: Option<usize>)
        ensures
            match r {
                Some(i) => i < self.entries@.len() && key_at(self.entries@, i as int) == *key,
                None => !has_key(self.entries@, *key),
            },
    {
        let mut i: usize = 0;
        while i < self.entries.len()
            invariant
                i <= self.entries@.len(),
                forall|j: int| 0 <= j < i ==> key_at(self.entries@, j) != *key,
            decreases self.entries@.len() - i,
        {
            if self.entries[i].desc.key() == *key {
                return Some(i);
            }
            i += 1;
        }
        None
    }

    /// The handle registered for the identity of `desc`. Every descriptor of
    /// the layer index is expected to have one: that there is none tells of
    /// corruption.
    pub fn get_from_desc(&self, desc: &PersistentLayerDesc) -> (r: Result<Layer, LayerError>)
        requires
            self.wf(),
        ensures
            self@.contains_key(desc.identity()) ==> r == Ok::<Layer, LayerError>(
                self@[desc.identity()],
            ),
            !self@.contains_key(desc.identity()) ==> r == Err::<Layer, LayerError>(
                LayerError::MissingLayer,
            ),
    {
        let key = desc.key();
        match self.find(&key) {
            Some(i) => {
                proof {
                    lemma_table_entry(self.entries@, i as int);
                }
                Ok(self.entries[i])
            },
            None => Err(LayerError::MissingLayer),
        }
    }

    /// Registers `layer` under its identity.
    pub fn insert(&mut self, layer: Layer) -> (r: Result<(), LayerError>)
        requires
            old(self).wf(),
        ensures
            final(self).wf(),
            final(self).is_strict() == old(self).is_strict(),
            match table_insert(old(self)@, old(self).is_strict(), layer) {
                Ok(t) => r == Ok::<(), LayerError>(()) && final(self)@ == t,
                Err(e) => r == Err::<(), LayerError>(e) && final(self)@ == old(self)@,
            },
    {
        let key = layer.desc.key();
        match self.find(&key) {
            Some(i) => {
                if self.strict {
                    proof {
                        lemma_table_entry(self.entries@, i as int);
                    }
                    return Err(LayerError::DuplicateLayer);
                }
                proof {
                    lemma_table_update(self.entries@, i as int, layer);
                }
                self.entries[i] = layer;
                Ok(())
            },
            None => {
                proof {
                    lemma_table_push(self.entries@, layer);
                }
                self.entries.push(layer);
                Ok(())
            },
        }
    }

    /// Whether a handle is registered under the identity of `layer`.
    pub fn contains(&self, layer: &Layer) -> (r: bool)
        requires
            self.wf(),
        ensures
            r == self@.contains_key(layer.desc.identity()),
    {
        let key = layer.desc.key();
        match self.find(&key) {
            Some(i) => {
                proof {
                    lemma_table_entry(self.entries@, i as int);
                }
                true
            },
            None => false,
        }
    }

    /// Takes the handle registered under the identity of `layer` out.
    pub fn remove(&mut self, layer: &Layer) -> (r: Result<(), LayerError>)
        requires
            old(self).wf(),
        ensures
            final(self).wf(),
            final(self).is_strict() == old(self).is_strict(),
            match table_remove(old(self)@, old(self).is_strict(), *layer) {
                Ok(t) => r == Ok::<(), LayerError>(()) && final(self)@ == t,
                Err(e) => r == Err::<(), LayerError>(e) && final(self)@ == old(self)@,
            },
    {
        let key = layer.desc.key();
        match self.find(&key) {
            Some(i) => {
                proof {
                    lemma_table_remove(self.entries@, i as int);
                }
                self.entries.remove(i);
                Ok(())
            },
            None => {
                assert(self@.remove(key) =~= self@);
                if self.strict {
                    Err(LayerError::MissingLayer)
                } else {
                    Ok(())
                }
            },
        }
    }
}

proof fn lemma_table_len(s: Seq<Layer>)
    requires
        distinct_keys(s),
    ensures
        table_of(s).dom().finite(),
        table_of(s).dom().len() == s.len(),
    decreases s.len(),
{
    if s.len() == 0 {
        assert(table_of(s).dom() =~= Set::<PersistentLayerKey>::empty());
    } else {
        let n = s.len() - 1;
        let p = s.remove(n);
        lemma_table_remove(s, n);
        lemma_table_len(p);
        lemma_table_entry(s, n);
        assert(table_of(s).dom() =~= table_of(p).dom().insert(key_at(s, n)));
    }
}

/// A handle that was registered is the one that a lookup by its identity
/// gives, until a handle of that identity is registered again or removed:
/// registering or removing a layer of another identity does not touch it.
pub proof fn lemma_lookup_consistency(
    t: Map<PersistentLayerKey, Layer>,
    strict: bool,
    layer: Layer,
    other: Layer,
)
    ensures
        table_insert(t, strict, layer) is Ok ==> table_insert(t, strict, layer)->Ok_0[layer.desc.identity()]
            == layer,
        t.contains_key(layer.desc.identity()) && other.desc.identity() != layer.desc.identity()
            && table_insert(t, strict, other) is Ok ==> table_insert(
            t,
            strict,
            other,
        )->Ok_0.contains_key(layer.desc.identity()) && table_insert(t, strict, other)->Ok_0[layer.desc.identity()]
            == t[layer.desc.identity()],
        t.contains_key(layer.desc.identity()) && other.desc.identity() != layer.desc.identity()
            && table_remove(t, strict, other) is Ok ==> table_remove(
            t,
            strict,
            other,
        )->Ok_0.contains_key(layer.desc.identity()) && table_remove(t, strict, other)->Ok_0[layer.desc.identity()]
            == t[layer.desc.identity()],
        table_remove(t, strict, layer) is Ok ==> !table_remove(t, strict, layer)->Ok_0.contains_key(
            layer.desc.identity(),
        ),
{
}

/// None of `layers` is registered in `t`, and no two of them have the same
/// identity.
pub open spec fn fresh_batch(t: Map<PersistentLayerKey, Layer>, layers: Seq<Layer>) -> bool {
    &&& distinct_keys(layers)
    &&& forall|i: int| 0 <= i < layers.len() ==> !t.contains_key(#[trigger] key_at(layers, i))
}

/// Each of `layers` is registered in `t`, and no two of them have the same
/// identity.
pub open spec fn present_batch(t: Map<PersistentLayerKey, Layer>, layers: Seq<Layer>) -> bool {
    &&& distinct_keys(layers)
    &&& forall|i: int| 0 <= i < layers.len() ==> t.contains_key(#[trigger] key_at(layers, i))
}

proof fn lemma_table_front(layers: Seq<Layer>)
    requires
        layers.len() > 0,
        distinct_keys(layers),
    ensures
        distinct_keys(layers.skip(1)),
        !has_key(layers.skip(1), key_at(layers, 0)),
        table_of(layers) == table_of(layers.skip(1)).insert(key_at(layers, 0), layers[0]),
{
    let rest = layers.skip(1);
    assert forall|i: int| 0 <= i < rest.len() implies key_at(rest, i) == key_at(
        layers,
        i + 1,
    ) by {}
    assert forall|i: int, j: int| 0 <= i < j < rest.len() implies key_at(rest, i) != key_at(
        rest,
        j,
    ) by {
        assert(key_at(layers, i + 1) != key_at(layers, j + 1));
    }
    if has_key(rest, key_at(layers, 0)) {
        let i = index_of_key(rest, key_at(layers, 0));
        assert(key_at(layers, 0) != key_at(layers, i + 1));
    }
    let k0 = key_at(layers, 0);
    assert forall|k: PersistentLayerKey| has_key(layers, k) == (has_key(rest, k) || k == k0) by {
        if has_key(layers, k) {
            let i = index_of_key(layers, k);
            if i > 0 {
                assert(key_at(rest, i - 1) == k);
            }
        }
        if has_key(rest, k) {
            let i = index_of_key(rest, k);
            assert(key_at(layers, i + 1) == k);
        }
        if k == k0 {
            assert(key_at(layers, 0) == k);
        }
    }
    assert forall|k: PersistentLayerKey| has_key(layers, k) implies table_of(layers)[k]
        == table_of(rest).insert(k0, layers[0])[k] by {
        let i = index_of_key(layers, k);
        lemma_table_entry(layers, i);
        if i > 0 {
            assert(key_at(rest, i - 1) == k);
            lemma_table_entry(rest, i - 1);
            assert(key_at(layers, 0) != key_at(layers, i));
        }
    }
    assert(table_of(layers) =~= table_of(rest).insert(k0, layers[0]));
}

/// In strict mode a batch is registered exactly if it is fresh; it is refused
/// as a duplicate otherwise. A batch that is registered adds each of its
/// layers under its identity and leaves what was registered as it was.
pub proof fn lemma_strict_insert_all(t: Map<PersistentLayerKey, Layer>, layers: Seq<Layer>)
    ensures
        fresh_batch(t, layers) ==> table_insert_all(t, true, layers) == Ok::<
            Map<PersistentLayerKey, Layer>,
            LayerError,
        >(t.union_prefer_right(table_of(layers))),
        !fresh_batch(t, layers) ==> table_insert_all(t, true, layers) == Err::<
            Map<PersistentLayerKey, Layer>,
            LayerError,
        >(LayerError::DuplicateLayer),
    decreases layers.len(),
{
    if layers.len() == 0 {
        assert(t.union_prefer_right(table_of(layers)) =~= t);
    } else {
        let l = layers[0];
        let k0 = key_at(layers, 0);
        let rest = layers.skip(1);
        let t1 = t.insert(k0, l);
        assert forall|i: int| 0 <= i < rest.len() implies key_at(rest, i) == key_at(
            layers,
            i + 1,
        ) by {}
        if t.contains_key(k0) {
            assert(!fresh_batch(t, layers));
        } else {
            lemma_strict_insert_all(t1, rest);
            if fresh_batch(t, layers) {
                lemma_table_front(layers);
                assert forall|i: int| 0 <= i < rest.len() implies !t1.contains_key(
                    #[trigger] key_at(rest, i),
                ) by {
                    assert(key_at(layers, 0) != key_at(layers, i + 1));
                    assert(!t.contains_key(key_at(layers, i + 1)));
                }
                assert(fresh_batch(t1, rest));
                assert(t1.union_prefer_right(table_of(rest)) =~= t.union_prefer_right(
                    table_of(layers),
                ));
            } else {
                if fresh_batch(t1, rest) {
                    assert forall|i: int, j: int| 0 <= i < j < layers.len() implies key_at(
                        layers,
                        i,
                    ) != key_at(layers, j) by {
                        if i == 0 {
                            assert(!t1.contains_key(key_at(rest, j - 1)));
                        } else {
                            assert(key_at(rest, i - 1) != key_at(rest, j - 1));
                        }
                    }
                    assert forall|i: int| 0 <= i < layers.len() implies !t.contains_key(
                        #[trigger] key_at(layers, i),
                    ) by {
                        if i > 0 {
                            assert(!t1.contains_key(key_at(rest, i - 1)));
                        }
                    }
                    assert(false);
                }
            }
        }
    }
}

/// In strict mode a batch is taken out exactly if each of its layers is
/// registered and no two have the same identity; it is refused as missing
/// otherwise. A batch that is taken out leaves what else was registered as
/// it was.
pub proof fn lemma_strict_remove_all(t: Map<PersistentLayerKey, Layer>, layers: Seq<Layer>)
    ensures
        present_batch(t, layers) ==> table_remove_all(t, true, layers) == Ok::<
            Map<PersistentLayerKey, Layer>,
            LayerError,
        >(t.remove_keys(table_of(layers).dom())),
        !present_batch(t, layers) ==> table_remove_all(t, true, layers) == Err::<
            Map<PersistentLayerKey, Layer>,
            LayerError,
        >(LayerError::MissingLayer),
    decreases layers.len(),
{
    if layers.len() == 0 {
        assert(t.remove_keys(table_of(layers).dom()) =~= t);
    } else {
        let l = layers[0];
        let k0 = key_at(layers, 0);
        let rest = layers.skip(1);
        let t1 = t.remove(k0);
        assert forall|i: int| 0 <= i < rest.len() implies key_at(rest, i) == key_at(
            layers,
            i + 1,
        ) by {}
        if !t.contains_key(k0) {
            assert(!present_batch(t, layers));
        } else {
            lemma_strict_remove_all(t1, rest);
            if present_batch(t, layers) {
                lemma_table_front(layers);
                assert forall|i: int| 0 <= i < rest.len() implies t1.contains_key(
                    #[trigger] key_at(rest, i),
                ) by {
                    assert(key_at(layers, 0) != key_at(layers, i + 1));
                    assert(t.contains_key(key_at(layers, i + 1)));
                }
                assert(present_batch(t1, rest));
                assert(t1.remove_keys(table_of(rest).dom()) =~= t.remove_keys(
                    table_of(layers).dom(),
                ));
            } else {
                if present_batch(t1, rest) {
                    assert forall|i: int, j: int| 0 <= i < j < layers.len() implies key_at(
                        layers,
                        i,
                    ) != key_at(layers, j) by {
                        if i == 0 {
                            assert(t1.contains_key(key_at(rest, j - 1)));
                        } else {
                            assert(key_at(rest, i - 1) != key_at(rest, j - 1));
                        }
                    }
                    assert forall|i: int| 0 <= i < layers.len() implies t.contains_key(
                        #[trigger] key_at(layers, i),
                    ) by {
                        if i > 0 {
                            assert(t1.contains_key(key_at(rest, i - 1)));
                        }
                    }
                    assert(false);
                }
            }
        }
    }
}

} // verus!
