use vstd::prelude::*;

pub mod stamp_timer;
pub mod step_timer;
pub mod timer_rbtree;
pub mod timer_wheel;

verus! {

/// A value that knows when it is due: its time, or its distance from now,
/// in the unit of the timer that holds it.
pub trait Timer: Sized {
    fn when(&self) -> u64;

    /// Whether asking for the time through `when_mut` leaves the value as it
    /// is; a type whose `when_mut` changes the value keeps this `false`.
    open spec fn when_mut_keeps(&self) -> bool {
        false
    }

    fn when_mut(&mut self) -> (r: u64)
        ensures
            old(self).when_mut_keeps() ==> *final(self) == *old(self),
    {
        self.when()
    }
}

impl Timer for u8 {
    open spec fn when_mut_keeps(&self) -> bool {
        true
    }

    fn when(&self) -> (r: u64)
        ensures
            r == *self,
    {
        *self as u64
    }
}

impl Timer for u16 {
    open spec fn when_mut_keeps(&self) -> bool {
        true
    }

    fn when(&self) -> (r: u64)
        ensures
            r == *self,
    {
        *self as u64
    }
}

impl Timer for u32 {
    open spec fn when_mut_keeps(&self) -> bool {
        true
    }

    fn when(&self) -> (r: u64)
        ensures
            r == *self,
    {
        *self as u64
    }
}

impl Timer for u64 {
    open spec fn when_mut_keeps(&self) -> bool {
        true
    }

    fn when(&self) -> (r: u64)
        ensures
            r == *self,
    {
        *self
    }
}

impl Timer for usize {
    open spec fn when_mut_keeps(&self) -> bool {
        true
    }

    fn when(&self) -> (r: u64)
        ensures
            r == *self as u64,
    {
        *self as u64
    }
}

impl Timer for u128 {
    open spec fn when_mut_keeps(&self) -> bool {
        true
    }

    fn when(&self) -> (r: u64)
        ensures
            r == *self as u64,
    {
        *self as u64
    }
}

impl Timer for i8 {
    open spec fn when_mut_keeps(&self) -> bool {
        true
    }

    fn when(&self) -> (r: u64)
        ensures
            r == *self as u64,
    {
        *self as u64
    }
}

impl Timer for i16 {
    open spec fn when_mut_keeps(&self) -> bool {
        true
    }

    fn when(&self) -> (r: u64)
        ensures
            r == *self as u64,
    {
        *self as u64
    }
}

impl Timer for i32 {
    open spec fn when_mut_keeps(&self) -> bool {
        true
    }

    fn when(&self) -> (r: u64)
        ensures
            r == *self as u64,
    {
        *self as u64
    }
}

impl Timer for i64 {
    open spec fn when_mut_keeps(&self) -> bool {
        true
    }

    fn when(&self) -> (r: u64)
        ensures
            r == *self as u64,
    {
        *self as u64
    }
}

impl Timer for i128 {
    open spec fn when_mut_keeps(&self) -> bool {
        true
    }

    fn when(&self) -> (r: u64)
        ensures
            r == *self as u64,
    {
        *self as u64
    }
}

} // verus!
