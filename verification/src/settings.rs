//! Settings of the view that change what is streamed.
//!
//! Applying a change has a cost: these values rebuild the streaming rings, so
//! that the caller decides when to act on them.

use vstd::prelude::*;

verus! {

/// Inclusive slider bounds of the load radius.
pub const LOAD_RADIUS_MIN: i64 = 2;

pub const LOAD_RADIUS_MAX: i64 = 24;

/// Inclusive slider bounds of the number of extra levels. Coarse levels drag
/// the finer levels' radii outward, whose node count is quadratic in radius.
pub const LOD_EXTRA_LEVELS_MIN: i32 = 0;

pub const LOD_EXTRA_LEVELS_MAX: i32 = 2;

/// The settings whose change rebuilds the streaming rings.
#[derive(Debug, Clone, Copy, PartialEq, Eq, Structural)]
pub struct ViewSettings {
    /// Full-resolution chunk radius.
    pub load_radius: i64,
    /// Extra coarse LOD levels appended beyond the built-in ones. Each doubles
    /// both its stride and its radius.
    pub lod_extra_levels: i32,
    /// Draw coarse LOD terrain at all.
    pub lod_enabled: bool,
}

impl Default for ViewSettings {
    fn default() -> (r: Self)
        ensures
            r == (ViewSettings { load_radius: 8, lod_extra_levels: 0, lod_enabled: true }),
    {
        ViewSettings { load_radius: 8, lod_extra_levels: 0, lod_enabled: true }
    }
}

/// `v` brought between two bounds.
pub open spec fn clamped(v: int, lo: int, hi: int) -> int {
    if v < lo {
        lo
    } else if v > hi {
        hi
    } else {
        v
    }
}

impl ViewSettings {
    /// Every value is within its bounds.
    pub open spec fn in_bounds(self) -> bool {
        &&& LOAD_RADIUS_MIN <= self.load_radius <= LOAD_RADIUS_MAX
        &&& LOD_EXTRA_LEVELS_MIN <= self.lod_extra_levels <= LOD_EXTRA_LEVELS_MAX
    }

    /// Clamp every value into its valid range. Called after any edit: text
    /// entry can put anything in a field.
    pub fn sanitize(&mut self)
        ensures
            final(self).load_radius == clamped(
                old(self).load_radius as int,
                LOAD_RADIUS_MIN as int,
                LOAD_RADIUS_MAX as int,
            ),
            final(self).lod_extra_levels == clamped(
                old(self).lod_extra_levels as int,
                LOD_EXTRA_LEVELS_MIN as int,
                LOD_EXTRA_LEVELS_MAX as int,
            ),
            final(self).lod_enabled == old(self).lod_enabled,
            final(self).in_bounds(),
            old(self).in_bounds() ==> *final(self) == *old(self),
    {
        if self.load_radius < LOAD_RADIUS_MIN {
            self.load_radius = LOAD_RADIUS_MIN;
        } else if self.load_radius > LOAD_RADIUS_MAX {
            self.load_radius = LOAD_RADIUS_MAX;
        }
        if self.lod_extra_levels < LOD_EXTRA_LEVELS_MIN {
            self.lod_extra_levels = LOD_EXTRA_LEVELS_MIN;
        } else if self.lod_extra_levels > LOD_EXTRA_LEVELS_MAX {
            self.lod_extra_levels = LOD_EXTRA_LEVELS_MAX;
        }
    }

    /// Switch coarse terrain on or off. True if it is off now, and what is drawn
    /// of it must go.
    pub fn toggle_lod(&mut self) -> (r: bool)
        ensures
            *final(self) == (ViewSettings { lod_enabled: !old(self).lod_enabled, ..*old(self) }),
            r == old(self).lod_enabled,
    {
        self.lod_enabled = !self.lod_enabled;
        !self.lod_enabled
    }

    /// Does moving from `old_view` to `self` require rebuilding the streaming
    /// rings?
    pub fn rebuild_needed(&self, old_view: &ViewSettings) -> (r: bool)
        ensures
            r == (*self != *old_view),
    {
        self.load_radius != old_view.load_radius || self.lod_extra_levels
            != old_view.lod_extra_levels || self.lod_enabled != old_view.lod_enabled
    }
}

/// A value is brought to the nearest one within the bounds.
pub proof fn lemma_clamped_is_nearest(v: int, lo: int, hi: int, w: int)
    requires
        lo <= w <= hi,
    ensures
        lo <= clamped(v, lo, hi) <= hi,
        v <= w ==> v <= clamped(v, lo, hi) <= w,
        v >= w ==> w <= clamped(v, lo, hi) <= v,
        v == w ==> clamped(v, lo, hi) == v,
{
}

/// The load radius goes from 2 to 24 chunks, and there are at most two extra
/// levels.
pub proof fn lemma_slider_bounds(s: ViewSettings)
    ensures
        s.in_bounds() <==> 2 <= s.load_radius <= 24 && 0 <= s.lod_extra_levels <= 2,
{
}

} // verus!
