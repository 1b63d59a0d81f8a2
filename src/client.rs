use vstd::prelude::*;
use crate::bridge::{tick_signal, tick_signal_text};

verus! {

/// The decisions of the client component: on the first tick it asks the
/// server to spawn its player and remembers the id of that call; when the
/// answer with that id comes back it checks the entities again.
pub struct Component {
    spawn_request_id: Option<u64>,
}

/// A host call that the client makes while it handles a signal, in order.
#[derive(Debug)]
pub enum ClientCall {
    /// Read the serialized entities.
    ReadEntities,
    /// Ask component `target` to run `method(args)`; the id that comes back
    /// goes to `record_spawn_request`.
    Rpc { target: String, method: String, args: String },
}

/// The call that asks the server to spawn the client's player:
/// `ready_to_spawn("player1")` on `server`.
pub open spec fn is_spawn_call(c: ClientCall) -> bool {
    &&& c matches ClientCall::Rpc { target, method, args }
    &&& target@ == "server"@
    &&& method@ == "ready_to_spawn"@
    &&& args@ == "player1"@
}

/// What the client answers to a call, and whether it runs the benchmark first.
pub struct RequestReply {
    pub reply: String,
    pub run_benchmark: bool,
}

/// One benchmark run: an `size` x `size` matrix product repeated
/// `iterations` times, the time it took, and the arithmetic operations done.
#[derive(Debug, Clone, Copy, PartialEq, Eq, Structural)]
pub struct BenchReport {
    pub size: u32,
    pub iterations: u32,
    pub nanos: u64,
    pub ops: u64,
}

/// The benchmark runs, in order: matrix size and repetitions.
pub open spec fn bench_config(k: int) -> (u32, u32) {
    if k == 0 {
        (64, 100)
    } else if k == 1 {
        (128, 50)
    } else {
        (256, 10)
    }
}

pub open spec fn ops_of(size: u32, iterations: u32) -> int {
    size * size * size * 2 * iterations
}

impl Component {
    pub closed spec fn awaited(&self) -> Option<u64> {
        self.spawn_request_id
    }

    /// A client that has asked for nothing yet.
    pub fn new() -> (r: Component)
        ensures
            r.awaited() is None,
    {
        Component { spawn_request_id: None }
    }

    /// The host calls the client makes on the signal `input`: on `tick:1`
    /// it reads the entities and then asks the server to spawn its player;
    /// on any other signal it makes none.
    pub fn process(&self, input: &str) -> (calls: Vec<ClientCall>)
        ensures
            input@ == tick_signal_text(1) ==> {
                &&& calls@.len() == 2
                &&& calls@[0] is ReadEntities
                &&& is_spawn_call(calls@[1])
            },
            input@ != tick_signal_text(1) ==> calls@.len() == 0,
    {
        let mut calls: Vec<ClientCall> = Vec::new();
        let owned = input.to_owned();
        if owned == tick_signal(1) {
            calls.push(ClientCall::ReadEntities);
            calls.push(
                ClientCall::Rpc {
                    target: "server".to_owned(),
                    method: "ready_to_spawn".to_owned(),
                    args: "player1".to_owned(),
                },
            );
        }
        calls
    }

    /// Remembers the id of the spawn call.
    pub fn record_spawn_request(&mut self, id: u64)
        ensures
            final(self).awaited() == Some(id),
    {
        self.spawn_request_id = Some(id);
    }

    /// Whether the answer to call `request_id` confirms the spawn.
    pub fn on_rpc_response(&self, request_id: u64) -> (confirmed: bool)
        ensures
            confirmed == (self.awaited() == Some(request_id)),
    {
        match self.spawn_request_id {
            Some(id) => id == request_id,
            None => false,
        }
    }

    /// The answer to `method(args)`: `ping` gives `pong:<args>`,
    /// `run_benchmark` runs the benchmark and gives `ok`, anything else
    /// gives `error:unknown_method`.
    pub fn on_rpc_request(method: &str, args: &str) -> (r: RequestReply)
        ensures
            method@ == "ping"@ ==> r.reply@ == "pong:"@ + args@ && !r.run_benchmark,
            method@ == "run_benchmark"@ ==> r.reply@ == "ok"@ && r.run_benchmark,
            method@ != "ping"@ && method@ != "run_benchmark"@ ==> r.reply@ == "error:unknown_method"@
                && !r.run_benchmark,
    {
        proof {
            reveal_strlit("ping");
            reveal_strlit("run_benchmark");
            assert("ping"@ != "run_benchmark"@) by {
                assert("ping"@.len() != "run_benchmark"@.len());
            }
        }
        let m = method.to_owned();
        if m == "ping".to_owned() {
            let mut reply = "pong:".to_owned();
            reply.append(args);
            RequestReply { reply, run_benchmark: false }
        } else if m == "run_benchmark".to_owned() {
            RequestReply { reply: "ok".to_owned(), run_benchmark: true }
        } else {
            RequestReply { reply: "error:unknown_method".to_owned(), run_benchmark: false }
        }
    }
}

/// Runs the three benchmark configurations in order through `bench`, which
/// times `iterations` products of two `size` x `size` matrices, and reports
/// each with its operation count `2 * size^3 * iterations`.
pub fn run_benchmark<F: Fn(u32, u32) -> u64>(bench: F) -> (r: Vec<BenchReport>)
    requires
        forall|size: u32, iterations: u32| bench.requires((size, iterations)),
    ensures
        r@.len() == 3,
        forall|k: int|
            0 <= k < 3 ==> {
                let (size, iterations) = bench_config(k);
                &&& (#[trigger] r@[k]).size == size
                &&& r@[k].iterations == iterations
                &&& r@[k].ops == ops_of(size, iterations)
                &&& bench.ensures((size, iterations), r@[k].nanos)
            },
{
    let configs: [(u32, u32); 3] = [(64, 100), (128, 50), (256, 10)];
    let mut r: Vec<BenchReport> = Vec::new();
    let mut k: usize = 0;
    while k < 3
        invariant
            0 <= k <= 3,
            r@.len() == k,
            configs@ == seq![(64u32, 100u32), (128u32, 50u32), (256u32, 10u32)],
            forall|size: u32, iterations: u32| bench.requires((size, iterations)),
            forall|j: int|
                0 <= j < k ==> {
                    let (size, iterations) = bench_config(j);
                    &&& (#[trigger] r@[j]).size == size
                    &&& r@[j].iterations == iterations
                    &&& r@[j].ops == ops_of(size, iterations)
                    &&& bench.ensures((size, iterations), r@[j].nanos)
                },
        decreases 3 - k,
    {
        let (size, iterations) = configs[k];
        assert((size, iterations) == bench_config(k as int));
        let nanos = bench(size, iterations);
        let s = size as u64;
        assert(s * s * s * 2 * (iterations as u64) <= 3355443200) by (nonlinear_arith)
            requires
                s <= 256,
                iterations <= 100,
        ;
        let ops = s * s * s * 2 * (iterations as u64);
        r.push(BenchReport { size, iterations, nanos, ops });
        k = k + 1;
    }
    r
}

} // verus!
