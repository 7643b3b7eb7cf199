use vstd::prelude::*;

use rand::rngs::ThreadRng;
use rand::Rng;

verus! {

#[verifier::external_type_specification]
#[verifier::external_body]
pub struct ExThreadRng(ThreadRng);

/// rand's `Rng::gen_range` on the half-open range `low .. high` of `u64`:
/// the documentation promises a value of the range, and a panic when the
/// range is empty. Which value comes out is chance.
#[verifier::external_body]
fn gen_range_u64(rng: &mut ThreadRng, low: u64, high: u64) -> (r: u64)
    requires
        low < high,
    ensures
        low <= r < high,
{
    rng.gen_range(low..high)
}

/// One flash of fire between two fleets: a shot shows for `interval_in`
/// nanoseconds, then nothing shows for `interval_out`, and so on.
#[derive(Clone, Copy, Debug, PartialEq, Eq, Structural)]
pub struct FireVE {
    pub interval_in: u64,
    pub interval_out: u64,
    /// Whether a shot is showing.
    pub is_in: bool,
}

/// What a firing effect does on a frame: draw its shot (the shot it
/// had), restart its clock, and pick the ends of a new shot.
#[derive(Clone, Copy, Debug, PartialEq, Eq, Structural)]
pub struct FireStep {
    pub draw: bool,
    pub restart: bool,
    pub new_shot: bool,
}

impl FireVE {
    /// An effect with no shot showing.
    pub fn new(interval_in: u64, interval_out: u64) -> (f: FireVE)
        ensures
            f.interval_in == interval_in,
            f.interval_out == interval_out,
            !f.is_in,
    {
        FireVE { interval_in: interval_in, interval_out: interval_out, is_in: false }
    }

    /// A frame `elapsed` nanoseconds after the clock was last restarted:
    /// a showing shot is drawn; once the current phase has lasted longer
    /// than its interval, the phase flips and the clock restarts, and a
    /// new shot is picked when one starts showing.
    pub fn advance(&mut self, elapsed: u64) -> (step: FireStep)
        ensures
            final(self).interval_in == old(self).interval_in,
            final(self).interval_out == old(self).interval_out,
            step.draw == old(self).is_in,
            step.restart == (if old(self).is_in {
                elapsed > old(self).interval_in
            } else {
                elapsed > old(self).interval_out
            }),
            final(self).is_in == (old(self).is_in != step.restart),
            step.new_shot == (step.restart && final(self).is_in),
    {
        let draw = self.is_in;
        if self.is_in {
            if elapsed > self.interval_in {
                self.is_in = false;
                FireStep { draw: draw, restart: true, new_shot: false }
            } else {
                FireStep { draw: draw, restart: false, new_shot: false }
            }
        } else {
            if elapsed > self.interval_out {
                self.is_in = true;
                FireStep { draw: draw, restart: true, new_shot: true }
            } else {
                FireStep { draw: draw, restart: false, new_shot: false }
            }
        }
    }
}

/// The flashes of fire of one fleet.
#[derive(Debug)]
pub struct MultiFireVE {
    pub fires: Vec<FireVE>,
}

/// `v` lies within `delta` of `mid`, the upper end excluded.
pub open spec fn within(v: u64, mid: u64, delta: u64) -> bool {
    mid - delta <= v < mid + delta
}

impl MultiFireVE {
    /// `count` effects, none showing, each with intervals drawn at
    /// random within `interval_delta` of `interval_in` and of
    /// `interval_out` (the shown interval drawn first).
    pub fn new(
        rng: &mut ThreadRng,
        interval_in: u64,
        interval_out: u64,
        interval_delta: u64,
        count: u32,
    ) -> (m: MultiFireVE)
        requires
            count > 0 ==> 0 < interval_delta,
            count > 0 ==> interval_delta <= interval_in,
            count > 0 ==> interval_delta <= interval_out,
            count > 0 ==> interval_in + interval_delta <= u64::MAX,
            count > 0 ==> interval_out + interval_delta <= u64::MAX,
        ensures
            m.fires.len() == count,
            forall|k: int|
                0 <= k < count ==> {
                    &&& within(#[trigger] m.fires@[k].interval_in, interval_in, interval_delta)
                    &&& within(m.fires@[k].interval_out, interval_out, interval_delta)
                    &&& !m.fires@[k].is_in
                },
    {
        let mut fires: Vec<FireVE> = Vec::new();
        let mut k: u32 = 0;
        while k < count
            invariant
                k <= count,
                count > 0 ==> 0 < interval_delta,
                count > 0 ==> interval_delta <= interval_in,
                count > 0 ==> interval_delta <= interval_out,
                count > 0 ==> interval_in + interval_delta <= u64::MAX,
                count > 0 ==> interval_out + interval_delta <= u64::MAX,
                fires.len() == k,
                forall|k2: int|
                    0 <= k2 < k ==> {
                        &&& within(#[trigger] fires@[k2].interval_in, interval_in, interval_delta)
                        &&& within(fires@[k2].interval_out, interval_out, interval_delta)
                        &&& !fires@[k2].is_in
                    },
            decreases count - k,
        {
            let ghost old_fires = fires@;
            let id: u64 = gen_range_u64(rng, interval_in - interval_delta, interval_in + interval_delta);
            let od: u64 = gen_range_u64(rng, interval_out - interval_delta, interval_out + interval_delta);
            let fire = FireVE::new(id, od);
            fires.push(fire);
            assert(fires@[k as int] == fire);
            assert forall|k2: int| 0 <= k2 < k + 1 implies {
                &&& within(#[trigger] fires@[k2].interval_in, interval_in, interval_delta)
                &&& within(fires@[k2].interval_out, interval_out, interval_delta)
                &&& !fires@[k2].is_in
            } by {
                if k2 < k {
                    assert(fires@[k2] == old_fires[k2]);
                }
            }
            k = k + 1;
        }
        MultiFireVE { fires: fires }
    }
}

} // verus!
