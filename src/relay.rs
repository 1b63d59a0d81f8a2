use vstd::prelude::*;
use crate::registry::{slot_of, Registry};

verus! {

/// A queued cross-component call, as the contracts speak of it.
pub struct RpcView {
    pub id: nat,
    pub from: Seq<char>,
    pub to: Seq<char>,
    pub method: Seq<char>,
    pub args: Seq<char>,
}

/// A call that a component has asked the host to make on another component.
#[derive(Debug)]
pub struct RpcRequest {
    pub id: u64,
    pub from: String,
    pub to: String,
    pub method: String,
    pub args: String,
}

impl View for RpcRequest {
    type V = RpcView;

    open spec fn view(&self) -> RpcView {
        RpcView {
            id: self.id as nat,
            from: self.from@,
            to: self.to@,
            method: self.method@,
            args: self.args@,
        }
    }
}

pub open spec fn rpc_views(v: Seq<RpcRequest>) -> Seq<RpcView> {
    v.map_values(|r: RpcRequest| r@)
}

/// Ids that strictly increase along `q`.
pub open spec fn ids_increasing(q: Seq<RpcView>) -> bool {
    forall|i: int, j: int| 0 <= i < j < q.len() ==> (#[trigger] q[i]).id < (#[trigger] q[j]).id
}

/// One step of a relay pass: deliver `request` to the component at slot
/// `target`, then, where `caller` holds a slot, hand the result back there.
#[derive(Debug)]
pub struct Delivery {
    pub request: RpcRequest,
    pub target: usize,
    pub caller: Option<usize>,
}

pub struct DeliveryView {
    pub request: RpcView,
    pub target: nat,
    pub caller: Option<nat>,
}

impl View for Delivery {
    type V = DeliveryView;

    open spec fn view(&self) -> DeliveryView {
        DeliveryView {
            request: self.request@,
            target: self.target as nat,
            caller: match self.caller {
                Some(c) => Some(c as nat),
                None => None,
            },
        }
    }
}

pub open spec fn delivery_views(v: Seq<Delivery>) -> Seq<DeliveryView> {
    v.map_values(|d: Delivery| d@)
}

/// The relay pass over `reqs`, in order: a request whose target is not
/// registered is dropped; any other is delivered once, and answered to its
/// caller exactly where the caller is registered.
pub open spec fn plan_of(reqs: Seq<RpcView>, reg: Seq<(Seq<char>, nat)>) -> Seq<DeliveryView>
    decreases reqs.len(),
{
    if reqs.len() == 0 {
        Seq::empty()
    } else {
        let before = plan_of(reqs.drop_last(), reg);
        let q = reqs.last();
        match slot_of(reg, q.to) {
            Some(t) => before.push(DeliveryView { request: q, target: t, caller: slot_of(reg, q.from) }),
            None => before,
        }
    }
}

/// Every delivery of a relay pass carries a request of the pass to its
/// registered target, answering exactly where the caller is registered;
/// each request with a registered target is delivered; and where the ids of
/// the requests increase, so do those of the deliveries, so no request is
/// delivered twice and the queue's order is kept.
pub proof fn lemma_plan(reqs: Seq<RpcView>, reg: Seq<(Seq<char>, nat)>)
    ensures
        forall|k: int| 0 <= k < plan_of(reqs, reg).len() ==> {
            let d = #[trigger] plan_of(reqs, reg)[k];
            &&& exists|i: int| 0 <= i < reqs.len() && reqs[i] == d.request
            &&& slot_of(reg, d.request.to) == Some(d.target)
            &&& d.caller == slot_of(reg, d.request.from)
        },
        forall|i: int| 0 <= i < reqs.len() && (#[trigger] slot_of(reg, reqs[i].to)) is Some ==>
            exists|k: int| 0 <= k < plan_of(reqs, reg).len() && plan_of(reqs, reg)[k].request == reqs[i],
        ids_increasing(reqs) ==> plan_ids_increasing(plan_of(reqs, reg)),
        plan_of(reqs, reg).len() <= reqs.len(),
    decreases reqs.len(),
{
    if reqs.len() > 0 {
        let init = reqs.drop_last();
        lemma_plan(init, reg);
        let p0 = plan_of(init, reg);
        let p = plan_of(reqs, reg);
        let q = reqs.last();
        assert forall|k: int| 0 <= k < p.len() implies {
            let d = #[trigger] p[k];
            &&& exists|i: int| 0 <= i < reqs.len() && reqs[i] == d.request
            &&& slot_of(reg, d.request.to) == Some(d.target)
            &&& d.caller == slot_of(reg, d.request.from)
        } by {
            if k < p0.len() {
                assert(p[k] == p0[k]);
                let i = choose|i: int| 0 <= i < init.len() && init[i] == p0[k].request;
                assert(reqs[i] == init[i]);
            } else {
                assert(reqs[reqs.len() - 1] == q);
            }
        }
        assert forall|i: int| 0 <= i < reqs.len() && (#[trigger] slot_of(reg, reqs[i].to)) is Some implies
            exists|k: int| 0 <= k < p.len() && p[k].request == reqs[i] by {
            if i < init.len() {
                assert(init[i] == reqs[i]);
                assert(slot_of(reg, init[i].to) is Some);
                let k = choose|k: int| 0 <= k < p0.len() && p0[k].request == init[i];
                assert(p[k] == p0[k]);
            } else {
                assert(reqs[i] == q);
                assert(p[p.len() - 1].request == q);
            }
        }
        if ids_increasing(reqs) {
            assert(ids_increasing(init)) by {
                assert forall|a: int, b: int| 0 <= a < b < init.len() implies (#[trigger] init[a]).id
                    < (#[trigger] init[b]).id by {
                    assert(init[a] == reqs[a]);
                    assert(init[b] == reqs[b]);
                }
            }
            assert forall|a: int, b: int| 0 <= a < b < p.len() implies (#[trigger] p[a]).request.id
                < (#[trigger] p[b]).request.id by {
                if b < p0.len() {
                    assert(p[a] == p0[a]);
                    assert(p[b] == p0[b]);
                } else {
                    assert(p[a] == p0[a]);
                    let i = choose|i: int| 0 <= i < init.len() && init[i] == p0[a].request;
                    assert(reqs[i] == init[i]);
                    assert(reqs[reqs.len() - 1] == q);
                    assert(p[b].request == q);
                }
            }
        }
    }
}

pub open spec fn plan_ids_increasing(p: Seq<DeliveryView>) -> bool {
    forall|a: int, b: int| 0 <= a < b < p.len() ==> (#[trigger] p[a]).request.id < (#[trigger] p[b]).request.id
}

/// Two requests of one relay pass, the first queued before the second and
/// both with a registered target, are delivered in that order.
pub proof fn lemma_plan_order(reqs: Seq<RpcView>, reg: Seq<(Seq<char>, nat)>, i: int, j: int)
    requires
        ids_increasing(reqs),
        0 <= i < j < reqs.len(),
        slot_of(reg, reqs[i].to) is Some,
        slot_of(reg, reqs[j].to) is Some,
    ensures
        exists|a: int, b: int|
            0 <= a < b < plan_of(reqs, reg).len() && (#[trigger] plan_of(reqs, reg)[a]).request == reqs[i]
                && (#[trigger] plan_of(reqs, reg)[b]).request == reqs[j],
{
    lemma_plan(reqs, reg);
    let p = plan_of(reqs, reg);
    let a = choose|a: int| 0 <= a < p.len() && p[a].request == reqs[i];
    let b = choose|b: int| 0 <= b < p.len() && p[b].request == reqs[j];
    assert(reqs[i].id < reqs[j].id);
    if b <= a {
        if b < a {
            assert(p[b].request.id < p[a].request.id);
        }
    }
    assert(a < b);
}

/// Builds the relay pass over `requests`, in their order (see `plan_of`).
pub fn plan_relay(requests: Vec<RpcRequest>, registry: &Registry) -> (r: Vec<Delivery>)
    requires
        registry.wf(),
    ensures
        delivery_views(r@) == plan_of(rpc_views(requests@), registry@),
{
    let ghost all = rpc_views(requests@);
    let mut rest = requests;
    let mut out: Vec<Delivery> = Vec::new();
    let ghost mut done: int = 0;
    while rest.len() > 0
        invariant
            registry.wf(),
            0 <= done <= all.len(),
            rest@.len() + done == all.len(),
            rpc_views(rest@) == all.skip(done),
            delivery_views(out@) == plan_of(all.take(done), registry@),
        decreases rest@.len(),
    {
        let ghost before = out@;
        let ghost rest_before = rest@;
        let q = rest.remove(0);
        assert(q@ == all[done]) by {
            assert(rpc_views(rest_before)[0] == rest_before[0]@);
            assert(all.skip(done)[0] == all[done]);
        }
        assert(rpc_views(rest@) =~= all.skip(done + 1)) by {
            assert(rest@ =~= rest_before.subrange(1, rest_before.len() as int));
            assert forall|k: int| 0 <= k < rest@.len() implies rpc_views(rest@)[k] == all.skip(done + 1)[k] by {
                assert(rest@[k] == rest_before[k + 1]);
                assert(rpc_views(rest_before)[k + 1] == all.skip(done)[k + 1]);
            }
        }
        assert(all.take(done + 1).drop_last() =~= all.take(done));
        assert(all.take(done + 1).last() == q@);
        match registry.lookup(&q.to) {
            Some(t) => {
                let caller = registry.lookup(&q.from);
                let d = Delivery { request: q, target: t, caller };
                let ghost dv = d@;
                out.push(d);
                assert(delivery_views(out@) =~= delivery_views(before).push(dv));
            },
            None => {},
        }
        proof {
            done = done + 1;
        }
    }
    assert(all.take(all.len() as int) =~= all);
    out
}

/// The orchestration state that host calls share: the component whose code
/// is running, the calls queued for the next relay pass, and the next call id.
pub struct SharedState {
    queue: Vec<RpcRequest>,
    next_rpc_id: u64,
    current: String,
}

impl SharedState {
    pub closed spec fn queued(&self) -> Seq<RpcView> {
        rpc_views(self.queue@)
    }

    pub closed spec fn spec_next_rpc_id(&self) -> u64 {
        self.next_rpc_id
    }

    pub closed spec fn current_name(&self) -> Seq<char> {
        self.current@
    }

    /// Queued ids increase in queue order and all lie below the next id,
    /// which is at least 1.
    pub open spec fn wf(&self) -> bool {
        &&& ids_increasing(self.queued())
        &&& forall|i: int| 0 <= i < self.queued().len() ==> (#[trigger] self.queued()[i]).id < self.spec_next_rpc_id()
        &&& self.spec_next_rpc_id() >= 1
    }

    /// Nothing queued, no component running, and the first id 1.
    pub fn new() -> (r: SharedState)
        ensures
            r.wf(),
            r.queued() == Seq::<RpcView>::empty(),
            r.spec_next_rpc_id() == 1,
            r.current_name() == Seq::<char>::empty(),
    {
        let r = SharedState { queue: Vec::new(), next_rpc_id: 1, current: String::new() };
        assert(r.queued() =~= Seq::<RpcView>::empty());
        r
    }

    /// Records that the code of component `name` is about to run.
    pub fn enter(&mut self, name: String)
        ensures
            final(self).current_name() == name@,
            final(self).queued() == old(self).queued(),
            final(self).spec_next_rpc_id() == old(self).spec_next_rpc_id(),
    {
        self.current = name;
    }

    /// The component whose code is running.
    pub fn current_component(&self) -> (r: &String)
        ensures
            r@ == self.current_name(),
    {
        &self.current
    }

    /// The id that the next call will get.
    pub fn next_rpc_id(&self) -> (r: u64)
        ensures
            r == self.spec_next_rpc_id(),
    {
        self.next_rpc_id
    }

    /// Queues a call from the running component to `method` of `target`
    /// and returns its id at once; the call itself waits for the relay pass.
    pub fn rpc_call(&mut self, target: String, method: String, args: String) -> (id: u64)
        requires
            old(self).wf(),
            old(self).spec_next_rpc_id() < u64::MAX,
        ensures
            final(self).wf(),
            id == old(self).spec_next_rpc_id(),
            final(self).spec_next_rpc_id() == id + 1,
            forall|i: int| 0 <= i < old(self).queued().len() ==> (#[trigger] old(self).queued()[i]).id < id,
            final(self).queued() == old(self).queued().push(
                RpcView {
                    id: id as nat,
                    from: old(self).current_name(),
                    to: target@,
                    method: method@,
                    args: args@,
                },
            ),
            final(self).current_name() == old(self).current_name(),
    {
        let id = self.next_rpc_id;
        self.next_rpc_id = id + 1;
        let from = self.current.clone();
        let req = RpcRequest { id, from, to: target, method, args };
        let ghost rv = req@;
        self.queue.push(req);
        assert(self.queued() =~= old(self).queued().push(rv));
        id
    }

    /// Takes every queued call out, in queue order.
    pub fn drain(&mut self) -> (r: Vec<RpcRequest>)
        requires
            old(self).wf(),
        ensures
            final(self).wf(),
            rpc_views(r@) == old(self).queued(),
            final(self).queued() == Seq::<RpcView>::empty(),
            final(self).spec_next_rpc_id() == old(self).spec_next_rpc_id(),
            final(self).current_name() == old(self).current_name(),
    {
        let mut r: Vec<RpcRequest> = Vec::new();
        r.append(&mut self.queue);
        assert(self.queued() =~= Seq::<RpcView>::empty());
        r
    }

    /// One relay pass: drains the queue and plans the deliveries of what it
    /// held. Calls queued while the pass runs wait for the next one.
    pub fn relay(&mut self, registry: &Registry) -> (r: Vec<Delivery>)
        requires
            old(self).wf(),
            registry.wf(),
        ensures
            final(self).wf(),
            delivery_views(r@) == plan_of(old(self).queued(), registry@),
            final(self).queued() == Seq::<RpcView>::empty(),
            final(self).spec_next_rpc_id() == old(self).spec_next_rpc_id(),
            final(self).current_name() == old(self).current_name(),
    {
        let requests = self.drain();
        plan_relay(requests, registry)
    }
}

/// Ids that calls get are fresh: in a well-formed state every queued call
/// has a smaller id than the next one, queued ids strictly increase, and the
/// deliveries of a relay pass keep that order, so no call is delivered twice.
pub proof fn lemma_rpc_ids(s: &SharedState, registry: &Registry)
    requires
        s.wf(),
    ensures
        ids_increasing(s.queued()),
        forall|i: int| 0 <= i < s.queued().len() ==> (#[trigger] s.queued()[i]).id < s.spec_next_rpc_id(),
        plan_ids_increasing(plan_of(s.queued(), registry@)),
{
    lemma_plan(s.queued(), registry@);
}

/// Over any run of `rpc_call`s, whichever components make them and whatever
/// runs between them: where call `i` starts from `before[i]`, returns
/// `ids[i]` and leaves `after[i]`, as `rpc_call` promises, and nothing between
/// two calls lowers the next id (`enter`, `drain` and `relay` keep it), the
/// returned ids strictly increase, each one past the last.
pub proof fn lemma_rpc_ids_over_calls(before: Seq<SharedState>, after: Seq<SharedState>, ids: Seq<u64>)
    requires
        before.len() == ids.len(),
        after.len() == ids.len(),
        forall|i: int| 0 <= i < ids.len() ==> (#[trigger] ids[i]) == before[i].spec_next_rpc_id(),
        forall|i: int| 0 <= i < ids.len() ==> (#[trigger] after[i]).spec_next_rpc_id() == ids[i] + 1,
        forall|i: int|
            0 <= i < ids.len() - 1 ==> before[i + 1].spec_next_rpc_id() >= (#[trigger] after[i]).spec_next_rpc_id(),
    ensures
        forall|i: int, j: int| 0 <= i < j < ids.len() ==> ids[i] < ids[j],
{
    assert forall|i: int, j: int| 0 <= i < j < ids.len() implies ids[i] < ids[j] by {
        lemma_ids_step(before, after, ids, i, j);
    }
}

proof fn lemma_ids_step(before: Seq<SharedState>, after: Seq<SharedState>, ids: Seq<u64>, i: int, j: int)
    requires
        before.len() == ids.len(),
        after.len() == ids.len(),
        forall|i: int| 0 <= i < ids.len() ==> (#[trigger] ids[i]) == before[i].spec_next_rpc_id(),
        forall|i: int| 0 <= i < ids.len() ==> (#[trigger] after[i]).spec_next_rpc_id() == ids[i] + 1,
        forall|i: int|
            0 <= i < ids.len() - 1 ==> before[i + 1].spec_next_rpc_id() >= (#[trigger] after[i]).spec_next_rpc_id(),
        0 <= i < j < ids.len(),
    ensures
        ids[i] < ids[j],
    decreases j - i,
{
    assert(after[j - 1].spec_next_rpc_id() == ids[j - 1] + 1);
    assert(before[j].spec_next_rpc_id() >= after[j - 1].spec_next_rpc_id());
    assert(ids[j] == before[j].spec_next_rpc_id());
    if i < j - 1 {
        lemma_ids_step(before, after, ids, i, j - 1);
    }
}

} // verus!
