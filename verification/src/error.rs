use vstd::prelude::*;

verus! {

/// Why an operation on the layer manager was refused.
///
/// Operational errors tell the writer that this one write cannot go ahead.
/// Corruption errors tell that some caller broke the rules by which layers
/// move through the manager; they are not to be retried.
#[derive(Clone, Copy, Debug, PartialEq, Eq, Structural)]
pub enum LayerError {
    /// The write position is not aligned.
    UnalignedLsn,
    /// The write position does not lie past the last record.
    NonAdvancingLsn,
    /// No further in-memory layer can be created.
    LayerCreate,
    /// The open layer starts after the position that is to be written.
    OpenLayerInFuture,
    /// There is no open layer and no position at which to open one.
    NoNextOpenLayer,
    /// A layer of the same identity is registered already.
    DuplicateLayer,
    /// No layer of that identity is registered.
    MissingLayer,
    /// There is no frozen layer to flush.
    NothingToFlush,
    /// The layer that was flushed is not the oldest frozen layer.
    FlushOutOfOrder,
}

impl LayerError {
    pub open spec fn corruption(self) -> bool {
        match self {
            LayerError::UnalignedLsn => false,
            LayerError::NonAdvancingLsn => false,
            LayerError::LayerCreate => false,
            _ => true,
        }
    }

    /// True of the errors that signal a broken invariant.
    pub fn is_corruption(&self) -> (r: bool)
        ensures
            r == self.corruption(),
    {
        match self {
            LayerError::UnalignedLsn => false,
            LayerError::NonAdvancingLsn => false,
            LayerError::LayerCreate => false,
            _ => true,
        }
    }

    /// True of the errors that only fail the write at hand.
    pub fn is_operational(&self) -> (r: bool)
        ensures
            r == !self.corruption(),
    {
        !self.is_corruption()
    }

    /// The error in words.
    pub fn message(&self) -> (r: &'static str)
        ensures
            r == self.message_text(),
    {
        match self {
            LayerError::UnalignedLsn => "write lsn is not aligned",
            LayerError::NonAdvancingLsn => "cannot modify relation after advancing last_record_lsn",
            LayerError::LayerCreate => "cannot create another in-memory layer",
            LayerError::OpenLayerInFuture => "unexpected open layer in the future",
            LayerError::NoNextOpenLayer => "No next open layer found",
            LayerError::DuplicateLayer => "overwriting a layer",
            LayerError::MissingLayer => "layer is not present in layer mapping",
            LayerError::NothingToFlush => "there must be a inmem layer to flush",
            LayerError::FlushOutOfOrder => "flushed layer is not the oldest frozen layer",
        }
    }

    pub open spec fn message_text(self) -> &'static str {
        match self {
            LayerError::UnalignedLsn => "write lsn is not aligned",
            LayerError::NonAdvancingLsn => "cannot modify relation after advancing last_record_lsn",
            LayerError::LayerCreate => "cannot create another in-memory layer",
            LayerError::OpenLayerInFuture => "unexpected open layer in the future",
            LayerError::NoNextOpenLayer => "No next open layer found",
            LayerError::DuplicateLayer => "overwriting a layer",
            LayerError::MissingLayer => "layer is not present in layer mapping",
            LayerError::NothingToFlush => "there must be a inmem layer to flush",
            LayerError::FlushOutOfOrder => "flushed layer is not the oldest frozen layer",
        }
    }
}

} // verus!
