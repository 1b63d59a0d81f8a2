use vstd::prelude::*;
use crate::coord::Coord;
use vstd::arithmetic::div_mod::lemma_fundamental_div_mod_converse;
use crate::text::{dec_text, push_decimal, string_of};
use crate::world::{world_text, EntityView, GameState};

verus! {

/// What the simulation authority tells the component-execution thread.
#[derive(Debug, Clone, Copy, PartialEq, Eq, Structural)]
pub enum Command {
    Tick(u64),
}

/// What the component-execution thread asks of the simulation authority.
#[derive(Debug)]
pub enum Event {
    GetEntities,
    SpawnEntity { name: String, x: Coord, y: Coord },
    TickDone,
}

/// The authority's answer to a query or a mutation.
#[derive(Debug)]
pub enum Response {
    Entities(String),
    Spawned(u64),
}

/// The signal handed to each component's `process` on tick `n`: `tick:<n>`.
pub open spec fn tick_signal_text(n: nat) -> Seq<char> {
    seq!['t', 'i', 'c', 'k', ':'] + dec_text(n)
}

/// The text `tick:<n>` that components receive on tick `n`.
pub fn tick_signal(n: u64) -> (r: String)
    ensures
        r@ == tick_signal_text(n as nat),
{
    let mut out: Vec<char> = Vec::new();
    out.push('t');
    out.push('i');
    out.push('c');
    out.push('k');
    out.push(':');
    push_decimal(&mut out, n);
    assert(out@ =~= tick_signal_text(n as nat));
    string_of(out.as_slice())
}

/// Where the wandering entity stands on tick `tick`: `(10 * tick) mod 200`
/// across, `(15 * tick) mod 200` down, in whole units.
pub fn wander_position(tick: u64) -> (r: (Coord, Coord))
    ensures
        r.0.milli == ((10 * tick) % 200) * 1000,
        r.1.milli == ((15 * tick) % 200) * 1000,
{
    let x = (tick % 20) * 10;
    let y = ((tick % 40) * 15) % 200;
    proof {
        let t = tick as int;
        let q = t / 20;
        let q2 = t / 40;
        assert(10 * t == (q * 200) + 10 * (t % 20)) by (nonlinear_arith)
            requires
                t == 20 * q + t % 20,
        ;
        lemma_fundamental_div_mod_converse(10 * t, 200, q, 10 * (t % 20));
        let s = 15 * (t % 40);
        assert(15 * t == q2 * 600 + s) by (nonlinear_arith)
            requires
                t == 40 * q2 + t % 40,
                s == 15 * (t % 40),
        ;
        let k = s / 200;
        assert(15 * t == (q2 * 3 + k) * 200 + s % 200) by (nonlinear_arith)
            requires
                15 * t == q2 * 600 + s,
                s == 200 * k + s % 200,
        ;
        lemma_fundamental_div_mod_converse(15 * t, 200, q2 * 3 + k, s % 200);
    }
    (Coord::whole(x as i32), Coord::whole(y as i32))
}

/// How long to wait, in nanoseconds, once a tick's work took `elapsed` out
/// of a tick period of `period`: what is left of the period, or nothing when
/// the work overran it.
pub fn pace_remaining(elapsed: u64, period: u64) -> (r: u64)
    ensures
        elapsed < period ==> r == period - elapsed,
        elapsed >= period ==> r == 0,
{
    if elapsed < period {
        period - elapsed
    } else {
        0
    }
}

impl GameState {
    /// Answers one event: a query with the serialized state, a spawn with the
    /// new id, and `TickDone` with nothing, which ends the tick.
    pub fn handle(&mut self, event: Event) -> (r: Option<Response>)
        requires
            old(self).wf(),
            event is SpawnEntity ==> old(self).spec_next_id() < u64::MAX,
        ensures
            final(self).wf(),
            match event {
                Event::GetEntities => {
                    &&& final(self)@ == old(self)@
                    &&& final(self).spec_next_id() == old(self).spec_next_id()
                    &&& r matches Some(Response::Entities(t)) && t@ == world_text(old(self)@)
                },
                Event::SpawnEntity { name, x, y } => {
                    &&& final(self)@ == old(self)@.push(
                        EntityView {
                            id: old(self).spec_next_id() as nat,
                            name: name@,
                            x: x.milli as int,
                            y: y.milli as int,
                        },
                    )
                    &&& final(self).spec_next_id() == old(self).spec_next_id() + 1
                    &&& r == Some(Response::Spawned(old(self).spec_next_id()))
                },
                Event::TickDone => {
                    &&& final(self)@ == old(self)@
                    &&& final(self).spec_next_id() == old(self).spec_next_id()
                    &&& r is None
                },
            },
    {
        match event {
            Event::GetEntities => Some(Response::Entities(self.serialize())),
            Event::SpawnEntity { name, x, y } => {
                let id = self.spawn(name, x, y);
                Some(Response::Spawned(id))
            },
            Event::TickDone => None,
        }
    }
}

} // verus!
