//! The overlay of edited columns, and whether the copy on disk is behind it.

use crate::edited::{lemma_record_is_seen, EditedColumns, EditsView};
use vstd::prelude::*;

verus! {

/// The edits that coarse terrain honours, saved wherever chunks are saved and
/// never per edit: the whole overlay is rewritten each time.
#[derive(Debug)]
pub struct EditOverlay {
    columns: EditedColumns,
    unsaved: bool,
}

/// The edits, and whether they changed since they were last written.
pub struct OverlayView {
    pub edits: EditsView,
    pub unsaved: bool,
}

impl OverlayView {
    /// What recording a column's height makes of the overlay.
    pub open spec fn recorded(self, x: int, z: int, surface_y: i32) -> OverlayView {
        OverlayView {
            edits: EditsView {
                columns: self.edits.columns.insert(self.edits.canon(x, z), surface_y),
                shape: self.edits.shape,
            },
            unsaved: true,
        }
    }

    /// What an attempt to write it makes of the overlay.
    pub open spec fn written(self, ok: bool) -> OverlayView {
        OverlayView { edits: self.edits, unsaved: self.unsaved && !ok }
    }

    /// The overlay is marked unsaved, or `disk` holds these very edits.
    pub open spec fn agrees_with(self, disk: EditsView) -> bool {
        self.unsaved || disk == self.edits
    }
}

impl View for EditOverlay {
    type V = OverlayView;

    closed spec fn view(&self) -> OverlayView {
        OverlayView { edits: self.columns@, unsaved: self.unsaved }
    }
}

impl Clone for EditOverlay {
    fn clone(&self) -> (r: Self)
        ensures
            r@ == self@,
    {
        EditOverlay { columns: self.columns.clone(), unsaved: self.unsaved }
    }
}

impl EditOverlay {
    /// An overlay as it was read, or an empty one for a world without any.
    pub fn new(columns: EditedColumns) -> (r: Self)
        ensures
            r@ == (OverlayView { edits: columns@, unsaved: false }),
    {
        EditOverlay { columns, unsaved: false }
    }

    pub fn columns(&self) -> (r: &EditedColumns)
        ensures
            r@ == self@.edits,
    {
        &self.columns
    }

    /// Whether the overlay changed since it was last written.
    pub fn needs_save(&self) -> (r: bool)
        ensures
            r == self@.unsaved,
    {
        self.unsaved
    }

    /// Record the surface height of an edited column, which has to be saved.
    pub fn record(&mut self, x: i64, z: i64, surface_y: i32)
        ensures
            final(self)@ == old(self)@.recorded(x as int, z as int, surface_y),
    {
        self.columns.record(x, z, surface_y);
        self.unsaved = true;
    }

    /// Note how an attempt to write the overlay ended. After a failure it stays
    /// marked unsaved, so that the next save tries again.
    pub fn written(&mut self, ok: bool)
        ensures
            final(self)@ == old(self)@.written(ok),
    {
        if ok {
            self.unsaved = false;
        }
    }
}

/// Between saves the overlay on disk is never silently behind: an edit marks the
/// overlay unsaved, whatever `disk` holds.
pub proof fn lemma_edit_is_owed(v: OverlayView, disk: EditsView, x: int, z: int, surface_y: i32)
    ensures
        v.recorded(x, z, surface_y).unsaved,
        v.recorded(x, z, surface_y).agrees_with(disk),
        v.recorded(x, z, surface_y).edits.edit_at(x, z) == Some(surface_y),
{
}

/// A write that succeeded leaves on disk what is in memory; one that failed
/// leaves an unsaved overlay unsaved, whatever it left on disk.
pub proof fn lemma_write_settles(v: OverlayView, disk: EditsView)
    ensures
        v.written(true).agrees_with(v.edits),
        !v.written(true).unsaved,
        v.unsaved ==> v.written(false).unsaved && v.written(false).agrees_with(disk),
{
}

/// Recording a column leaves every other place's record as it was, and an attempt
/// to write leaves all records.
pub proof fn lemma_record_leaves_others(
    v: OverlayView,
    x: int,
    z: int,
    surface_y: i32,
    a: int,
    b: int,
    ok: bool,
)
    requires
        v.edits.shape.legal(),
    ensures
        !((a - x) % v.edits.shape.sx() == 0 && (b - z) % v.edits.shape.sz() == 0) ==> v.recorded(
            x,
            z,
            surface_y,
        ).edits.edit_at(a, b) == v.edits.edit_at(a, b),
        v.written(ok).edits == v.edits,
        v.written(ok).unsaved ==> v.unsaved,
{
    lemma_record_is_seen(v.edits, v.recorded(x, z, surface_y).edits, x, z, surface_y, a, b);
}

} // verus!
