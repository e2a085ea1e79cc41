//! Swipe gesture from scroll events.
//!
//! Tracks when to begin, update, and end a swipe gesture from pointer axis events, also whether
//! the gesture is vertical or horizontal. Necessary because libinput only provides touchpad swipe
//! gesture events for 3+ fingers.
//!
//! The decision logic only ever looks at whether each axis delta is zero, so the verified
//! state machine takes those two facts; the caller compares its deltas against zero.
use vstd::prelude::*;

verus! {

#[derive(Debug)]
pub struct ScrollSwipeGesture {
    ongoing: bool,
    vertical: bool,
}

#[derive(Debug, Clone, Copy, PartialEq, Eq, Structural)]
pub enum ScrollSwipeGestureAction {
    BeginUpdate,
    Update,
    End,
}

impl ScrollSwipeGesture {
    /// Whether a gesture is currently in progress.
    pub closed spec fn spec_ongoing(&self) -> bool {
        self.ongoing
    }

    /// Whether the current (or last) gesture was started by a vertical scroll.
    pub closed spec fn spec_vertical(&self) -> bool {
        self.vertical
    }

    pub fn new() -> (r: Self)
        ensures
            !r.spec_ongoing(),
            !r.spec_vertical(),
    {
        Self { ongoing: false, vertical: false }
    }

    /// Feeds one scroll event, described by whether its horizontal and vertical deltas are zero.
    ///
    /// An all-zero event ends the gesture; the first non-zero event begins it and records
    /// whether it is vertical (its vertical delta is non-zero); later events update it.
    pub fn update(&mut self, dx_is_zero: bool, dy_is_zero: bool) -> (r: ScrollSwipeGestureAction)
        ensures
            dx_is_zero && dy_is_zero ==> {
                &&& r == ScrollSwipeGestureAction::End
                &&& !final(self).spec_ongoing()
                &&& final(self).spec_vertical() == old(self).spec_vertical()
            },
            !(dx_is_zero && dy_is_zero) && !old(self).spec_ongoing() ==> {
                &&& r == ScrollSwipeGestureAction::BeginUpdate
                &&& final(self).spec_ongoing()
                &&& final(self).spec_vertical() == !dy_is_zero
            },
            !(dx_is_zero && dy_is_zero) && old(self).spec_ongoing() ==> {
                &&& r == ScrollSwipeGestureAction::Update
                &&& final(self).spec_ongoing()
                &&& final(self).spec_vertical() == old(self).spec_vertical()
            },
    {
        if dx_is_zero && dy_is_zero {
            self.ongoing = false;
            ScrollSwipeGestureAction::End
        } else if !self.ongoing {
            self.ongoing = true;
            self.vertical = !dy_is_zero;
            ScrollSwipeGestureAction::BeginUpdate
        } else {
            ScrollSwipeGestureAction::Update
        }
    }

    /// Stops an ongoing gesture; returns whether one was ongoing.
    pub fn reset(&mut self) -> (r: bool)
        ensures
            r == old(self).spec_ongoing(),
            !final(self).spec_ongoing(),
            final(self).spec_vertical() == old(self).spec_vertical(),
    {
        if self.ongoing {
            self.ongoing = false;
            true
        } else {
            false
        }
    }

    pub fn is_vertical(&self) -> (r: bool)
        ensures
            r == self.spec_vertical(),
    {
        self.vertical
    }
}

impl Default for ScrollSwipeGesture {
    fn default() -> (r: Self)
        ensures
            !r.spec_ongoing(),
            !r.spec_vertical(),
    {
        Self::new()
    }
}

impl ScrollSwipeGestureAction {
    pub fn begin(self) -> (r: bool)
        ensures
            r == (self == ScrollSwipeGestureAction::BeginUpdate),
    {
        self == ScrollSwipeGestureAction::BeginUpdate
    }

    pub fn end(self) -> (r: bool)
        ensures
            r == (self == ScrollSwipeGestureAction::End),
    {
        self == ScrollSwipeGestureAction::End
    }
}

} // verus!
