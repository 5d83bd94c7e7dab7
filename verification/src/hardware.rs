//! The boundary to the hardware bridge, as plain values: a snapshot of
//! sensor readings flows in, and a list of actuator commands flows out.
//! The caller that owns the real bridge performs the reads before a tick
//! and the writes after it.

use vstd::prelude::*;
use crate::node::Id;

verus! {

/// Failure of the hardware layer, as the engine sees it: a sensor that a
/// node refers to has no reading in the snapshot.
#[derive(Clone, Copy, PartialEq, Eq, Structural, Debug)]
pub enum HardwareError {
    SensorNotFound,
}

/// One actuator command for the caller to perform after the tick.
#[derive(Clone, Copy, PartialEq, Eq, Structural, Debug)]
pub enum Command {
    /// Drive the control in manual mode at the given speed.
    SetSpeed { id: Id, hardware_id: u64, speed: i32 },
    /// Return the control to the hardware's own automatic mode.
    SetAuto { id: Id, hardware_id: u64 },
}

/// The graph node a command was issued for.
pub open spec fn cmd_node(c: Command) -> Id {
    match c {
        Command::SetSpeed { id, .. } => id,
        Command::SetAuto { id, .. } => id,
    }
}

/// Whether a command drives a speed (a manual write, the only evaluation
/// side effect), as opposed to falling back to automatic mode.
pub open spec fn is_speed(c: Command) -> bool {
    c is SetSpeed
}

/// The first reading recorded for sensor `h`, if any.
pub open spec fn lookup(rd: Seq<(u64, i32)>, h: u64) -> Option<i32>
    decreases rd.len(),
{
    if rd.len() == 0 {
        None
    } else if rd[0].0 == h {
        Some(rd[0].1)
    } else {
        lookup(rd.drop_first(), h)
    }
}

/// A snapshot of sensor readings, keyed by the hardware identifier each
/// `Fan` or `Temp` node refers to.
pub struct Readings {
    values: Vec<(u64, i32)>,
}

impl View for Readings {
    type V = Seq<(u64, i32)>;

    closed spec fn view(&self) -> Seq<(u64, i32)> {
        self.values@
    }
}

impl Readings {
    /// An empty snapshot.
    pub fn new() -> (r: Readings)
        ensures
            r@ == Seq::<(u64, i32)>::empty(),
    {
        let r = Readings { values: Vec::new() };
        proof {
            assert(r@ =~= Seq::<(u64, i32)>::empty());
        }
        r
    }

    /// Records a reading for sensor `h`.
    pub fn push(&mut self, h: u64, v: i32)
        ensures
            final(self)@ == old(self)@.push((h, v)),
    {
        self.values.push((h, v));
    }

    /// Looks the reading of sensor `h` up.
    pub fn get(&self, h: u64) -> (r: Option<i32>)
        ensures
            r == lookup(self@, h),
    {
        let mut k: usize = 0;
        proof {
            assert(self@.skip(0) =~= self@);
        }
        while k < self.values.len()
            invariant
                k <= self@.len(),
                lookup(self@, h) == lookup(self@.skip(k as int), h),
            decreases self@.len() - k,
        {
            if self.values[k].0 == h {
                proof {
                    assert(self@.skip(k as int)[0] == self@[k as int]);
                }
                return Some(self.values[k].1);
            }
            proof {
                assert(self@.skip(k as int)[0] == self@[k as int]);
                assert(self@.skip(k as int).drop_first() =~= self@.skip(k as int + 1));
            }
            k += 1;
        }
        proof {
            assert(self@.skip(k as int).len() == 0);
        }
        None
    }
}

} // verus!
