use vstd::prelude::*;

use crate::expression::Expression;
use crate::monkey::{can_inspect, inspect_value, throw_target, MonkeyInfo, WorryPolicy};

verus! {

/// The mathematical state of one agent.
pub struct MonkeyState {
    pub id: u32,
    pub items: Seq<u64>,
    pub expression: Expression,
    pub test: u64,
    pub on_true: u32,
    pub on_false: u32,
    pub count: nat,
}

impl View for MonkeyInfo {
    type V = MonkeyState;

    open spec fn view(&self) -> MonkeyState {
        MonkeyState {
            id: self.id,
            items: self.items@,
            expression: self.expression,
            test: self.test,
            on_true: self.on_true,
            on_false: self.on_false,
            count: self.inspection_count as nat,
        }
    }
}

impl MonkeyState {
    pub open spec fn target(self, v: u64) -> u32 {
        throw_target(self.test, self.on_true, self.on_false, v)
    }

    /// The state with another item queue.
    pub open spec fn with_items(self, items: Seq<u64>) -> MonkeyState {
        MonkeyState { items, ..self }
    }
}

/// Agents are listed in strictly ascending id order and every test divisor is positive.
pub open spec fn well_formed(ms: Seq<MonkeyState>) -> bool {
    &&& forall|i: int, j: int| 0 <= i < j < ms.len() ==> ms[i].id < ms[j].id
    &&& forall|i: int| 0 <= i < ms.len() ==> ms[i].test > 0
}

pub open spec fn has_id(ms: Seq<MonkeyState>, id: u32) -> bool {
    exists|j: int| 0 <= j < ms.len() && ms[j].id == id
}

/// Every throw target names an agent of the state.
pub open spec fn targets_exist(ms: Seq<MonkeyState>) -> bool {
    forall|i: int|
        0 <= i < ms.len() ==> has_id(ms, #[trigger] ms[i].on_true) && has_id(ms, ms[i].on_false)
}

pub open spec fn targets_of_exist(ms: Seq<MonkeyState>, i: int) -> bool {
    has_id(ms, ms[i].on_true) && has_id(ms, ms[i].on_false)
}

/// The total number of items held by all agents.
pub open spec fn total_items(ms: Seq<MonkeyState>) -> nat
    decreases ms.len(),
{
    if ms.len() == 0 {
        0
    } else {
        total_items(ms.drop_last()) + ms.last().items.len()
    }
}

/// Two states list the same agents with the same rules; queues and counters may differ.
pub open spec fn same_layout(a: Seq<MonkeyState>, b: Seq<MonkeyState>) -> bool {
    &&& a.len() == b.len()
    &&& forall|j: int|
        0 <= j < a.len() ==> {
            &&& (#[trigger] a[j]).id == b[j].id
            &&& a[j].expression == b[j].expression
            &&& a[j].test == b[j].test
            &&& a[j].on_true == b[j].on_true
            &&& a[j].on_false == b[j].on_false
        }
}

/// The worry values of an agent's items after inspection and the policy, in queue order.
pub open spec fn inspected(m: MonkeyState, p: WorryPolicy) -> Seq<u64> {
    m.items.map_values(|v: u64| p.spec_apply(inspect_value(m.expression, v)))
}

/// Appends item `v` to the queue of the agent whose id is `to`.
#[verifier::opaque]
pub open spec fn receive(ms: Seq<MonkeyState>, to: u32, v: u64) -> Seq<MonkeyState> {
    Seq::new(
        ms.len(),
        |j: int|
            if ms[j].id == to {
                ms[j].with_items(ms[j].items.push(v))
            } else {
                ms[j]
            },
    )
}

/// Throws the values `vals`, in order, by the rule of agent `m`.
#[verifier::opaque]
pub open spec fn deliver(ms: Seq<MonkeyState>, m: MonkeyState, vals: Seq<u64>) -> Seq<
    MonkeyState,
>
    decreases vals.len(),
{
    if vals.len() == 0 {
        ms
    } else {
        receive(deliver(ms, m, vals.drop_last()), m.target(vals.last()), vals.last())
    }
}

/// The turn of the agent at position `i`: its items are inspected, reduced and thrown,
/// its queue is left empty and its counter grows by the number of items it held.
#[verifier::opaque]
pub open spec fn turn(ms: Seq<MonkeyState>, i: int, p: WorryPolicy) -> Seq<MonkeyState> {
    let m = ms[i];
    deliver(
        ms.update(i, MonkeyState { items: Seq::empty(), count: m.count + m.items.len(), ..m }),
        m,
        inspected(m, p),
    )
}

/// The state after the turns of the first `k` agents in id order.
pub open spec fn turns(ms: Seq<MonkeyState>, k: int, p: WorryPolicy) -> Seq<MonkeyState>
    decreases k,
{
    if k <= 0 {
        ms
    } else {
        turn(turns(ms, k - 1, p), k - 1, p)
    }
}

/// One full round: every agent takes its turn, in ascending id order.
pub open spec fn round(ms: Seq<MonkeyState>, p: WorryPolicy) -> Seq<MonkeyState> {
    turns(ms, ms.len() as int, p)
}

/// The state after `n` rounds.
pub open spec fn rounds(ms: Seq<MonkeyState>, n: nat, p: WorryPolicy) -> Seq<MonkeyState>
    decreases n,
{
    if n == 0 {
        ms
    } else {
        round(rounds(ms, (n - 1) as nat, p), p)
    }
}

/// The agent at position `i` can take its turn without overflow.
pub open spec fn turn_ok(ms: Seq<MonkeyState>, i: int) -> bool {
    can_inspect(ms[i].expression, ms[i].count, ms[i].items)
}

/// The first `k` turns of a round can be taken without overflow.
pub open spec fn turns_ok(ms: Seq<MonkeyState>, k: int, p: WorryPolicy) -> bool
    decreases k,
{
    if k <= 0 {
        true
    } else {
        turns_ok(ms, k - 1, p) && turn_ok(turns(ms, k - 1, p), k - 1)
    }
}

/// A whole round can be taken without overflow.
pub open spec fn round_ok(ms: Seq<MonkeyState>, p: WorryPolicy) -> bool {
    turns_ok(ms, ms.len() as int, p)
}

/// `n` rounds can be taken without overflow.
pub open spec fn rounds_ok(ms: Seq<MonkeyState>, n: nat, p: WorryPolicy) -> bool
    decreases n,
{
    if n == 0 {
        true
    } else {
        rounds_ok(ms, (n - 1) as nat, p) && round_ok(rounds(ms, (n - 1) as nat, p), p)
    }
}

pub proof fn lemma_total_update(ms: Seq<MonkeyState>, j: int, m: MonkeyState)
    requires
        0 <= j < ms.len(),
    ensures
        total_items(ms.update(j, m)) == total_items(ms) - ms[j].items.len() + m.items.len(),
        ms[j].items.len() <= total_items(ms),
    decreases ms.len(),
{
    let u = ms.update(j, m);
    if j == ms.len() - 1 {
        assert(u.drop_last() =~= ms.drop_last());
    } else {
        lemma_total_update(ms.drop_last(), j, m);
        assert(u.drop_last() =~= ms.drop_last().update(j, m));
    }
}

pub proof fn lemma_receive(ms: Seq<MonkeyState>, to: u32, v: u64)
    requires
        well_formed(ms),
        has_id(ms, to),
    ensures
        same_layout(receive(ms, to, v), ms),
        well_formed(receive(ms, to, v)),
        total_items(receive(ms, to, v)) == total_items(ms) + 1,
        forall|j: int| 0 <= j < ms.len() ==> #[trigger] receive(ms, to, v)[j].count == ms[j].count,
{
    reveal(receive);
    let j = choose|j: int| 0 <= j < ms.len() && ms[j].id == to;
    let r = receive(ms, to, v);
    assert(r =~= ms.update(j, ms[j].with_items(ms[j].items.push(v))));
    lemma_total_update(ms, j, ms[j].with_items(ms[j].items.push(v)));
}

pub proof fn lemma_deliver(ms: Seq<MonkeyState>, m: MonkeyState, vals: Seq<u64>)
    requires
        well_formed(ms),
        has_id(ms, m.on_true),
        has_id(ms, m.on_false),
    ensures
        same_layout(deliver(ms, m, vals), ms),
        well_formed(deliver(ms, m, vals)),
        total_items(deliver(ms, m, vals)) == total_items(ms) + vals.len(),
        forall|j: int|
            0 <= j < ms.len() ==> #[trigger] deliver(ms, m, vals)[j].count == ms[j].count,
    decreases vals.len(),
{
    reveal(deliver);
    if vals.len() > 0 {
        let d = deliver(ms, m, vals.drop_last());
        lemma_deliver(ms, m, vals.drop_last());
        assert(has_id(d, m.on_true)) by {
            let j = choose|j: int| 0 <= j < ms.len() && ms[j].id == m.on_true;
            assert(d[j].id == m.on_true);
        }
        assert(has_id(d, m.on_false)) by {
            let j = choose|j: int| 0 <= j < ms.len() && ms[j].id == m.on_false;
            assert(d[j].id == m.on_false);
        }
        lemma_receive(d, m.target(vals.last()), vals.last());
    }
}

pub proof fn lemma_layout_keeps_validity(a: Seq<MonkeyState>, b: Seq<MonkeyState>)
    requires
        same_layout(a, b),
        well_formed(b),
        targets_exist(b),
    ensures
        well_formed(a),
        targets_exist(a),
{
    assert forall|i: int| 0 <= i < a.len() implies has_id(a, #[trigger] a[i].on_true) && has_id(
        a,
        a[i].on_false,
    ) by {
        assert(has_id(b, b[i].on_true));
        assert(has_id(b, b[i].on_false));
        let j = choose|j: int| 0 <= j < b.len() && b[j].id == b[i].on_true;
        let k = choose|k: int| 0 <= k < b.len() && b[k].id == b[i].on_false;
        assert(a[j].id == a[i].on_true);
        assert(a[k].id == a[i].on_false);
    }
}

/// The turn of agent `i` starts by emptying its queue and counting its items.
pub open spec fn cleared(m: MonkeyState) -> MonkeyState {
    MonkeyState { items: Seq::empty(), count: m.count + m.items.len(), ..m }
}

pub proof fn lemma_turn_unfold(ms: Seq<MonkeyState>, i: int, p: WorryPolicy)
    ensures
        turn(ms, i, p) == deliver(ms.update(i, cleared(ms[i])), ms[i], inspected(ms[i], p)),
{
    reveal(turn);
}

pub proof fn lemma_turn(ms: Seq<MonkeyState>, i: int, p: WorryPolicy)
    requires
        well_formed(ms),
        targets_exist(ms),
        0 <= i < ms.len(),
    ensures
        same_layout(turn(ms, i, p), ms),
        well_formed(turn(ms, i, p)),
        targets_exist(turn(ms, i, p)),
        total_items(turn(ms, i, p)) == total_items(ms),
        turn(ms, i, p)[i].count == ms[i].count + ms[i].items.len(),
        ms[i].items.len() <= total_items(ms),
        forall|j: int| 0 <= j < ms.len() && j != i ==> #[trigger] turn(ms, i, p)[j].count == ms[j].count,
{
    let m = ms[i];
    let u = ms.update(i, cleared(m));
    let d = deliver(u, m, inspected(m, p));
    lemma_turn_unfold(ms, i, p);
    lemma_total_update(ms, i, cleared(m));
    assert(same_layout(u, ms));
    lemma_layout_keeps_validity(u, ms);
    assert(has_id(ms, ms[i].on_true));
    assert(has_id(ms, ms[i].on_false));
    let jt = choose|j: int| 0 <= j < ms.len() && ms[j].id == m.on_true;
    let jf = choose|j: int| 0 <= j < ms.len() && ms[j].id == m.on_false;
    assert(u[jt].id == m.on_true);
    assert(u[jf].id == m.on_false);
    lemma_deliver(u, m, inspected(m, p));
    assert(same_layout(d, ms));
    lemma_layout_keeps_validity(d, ms);
    assert(d[i].count == u[i].count);
    assert forall|j: int| 0 <= j < ms.len() && j != i implies #[trigger] d[j].count == ms[j].count by {
        assert(d[j].count == u[j].count);
    }
}

pub proof fn lemma_turns(ms: Seq<MonkeyState>, k: int, p: WorryPolicy)
    requires
        well_formed(ms),
        targets_exist(ms),
        0 <= k <= ms.len(),
    ensures
        same_layout(turns(ms, k, p), ms),
        well_formed(turns(ms, k, p)),
        targets_exist(turns(ms, k, p)),
        total_items(turns(ms, k, p)) == total_items(ms),
        forall|j: int|
            0 <= j < k ==> #[trigger] turns(ms, k, p)[j].count <= ms[j].count + total_items(ms),
        forall|j: int| k <= j < ms.len() ==> #[trigger] turns(ms, k, p)[j].count == ms[j].count,
    decreases k,
{
    if k > 0 {
        let prev = turns(ms, k - 1, p);
        lemma_turns(ms, k - 1, p);
        lemma_turn(prev, k - 1, p);
        assert(turns(ms, k, p) == turn(prev, k - 1, p));
        assert forall|j: int| 0 <= j < k implies #[trigger] turns(ms, k, p)[j].count <= ms[j].count
            + total_items(ms) by {
            if j < k - 1 {
                assert(turns(ms, k, p)[j].count == prev[j].count);
            }
        }
        assert forall|j: int| k <= j < ms.len() implies #[trigger] turns(ms, k, p)[j].count
            == ms[j].count by {
            assert(turns(ms, k, p)[j].count == prev[j].count);
        }
    }
}

/// A round keeps the agents and their rules, keeps the total number of items, and
/// raises each inspection counter by at most that total.
pub proof fn lemma_round(ms: Seq<MonkeyState>, p: WorryPolicy)
    requires
        well_formed(ms),
        targets_exist(ms),
    ensures
        same_layout(round(ms, p), ms),
        well_formed(round(ms, p)),
        targets_exist(round(ms, p)),
        total_items(round(ms, p)) == total_items(ms),
        forall|j: int|
            0 <= j < ms.len() ==> #[trigger] round(ms, p)[j].count <= ms[j].count + total_items(ms),
{
    lemma_turns(ms, ms.len() as int, p);
}

/// Items are conserved: after a round the agents together hold exactly as many items
/// as before it.
pub proof fn lemma_round_conserves_items(ms: Seq<MonkeyState>, p: WorryPolicy)
    requires
        well_formed(ms),
        targets_exist(ms),
    ensures
        total_items(round(ms, p)) == total_items(ms),
{
    lemma_round(ms, p);
}

/// Over any number of rounds the agents and their rules stay, the total number of
/// items stays, and each counter grows by at most that total per round.
pub proof fn lemma_rounds(ms: Seq<MonkeyState>, n: nat, p: WorryPolicy)
    requires
        well_formed(ms),
        targets_exist(ms),
    ensures
        same_layout(rounds(ms, n, p), ms),
        well_formed(rounds(ms, n, p)),
        targets_exist(rounds(ms, n, p)),
        total_items(rounds(ms, n, p)) == total_items(ms),
        forall|j: int|
            0 <= j < ms.len() ==> #[trigger] rounds(ms, n, p)[j].count <= ms[j].count + n
                * total_items(ms),
    decreases n,
{
    if n > 0 {
        let prev = rounds(ms, (n - 1) as nat, p);
        lemma_rounds(ms, (n - 1) as nat, p);
        lemma_round(prev, p);
        assert forall|j: int| 0 <= j < ms.len() implies #[trigger] rounds(ms, n, p)[j].count
            <= ms[j].count + n * total_items(ms) by {
            assert(prev[j].count <= ms[j].count + (n - 1) * total_items(ms));
            assert((n - 1) * total_items(ms) + total_items(ms) == n * total_items(ms))
                by (nonlinear_arith);
        }
    }
}

/// The agents of one run, held in strictly ascending id order: that order is the
/// order in which agents take their turns.
#[derive(Debug)]
pub struct Monkees {
    monkees: Vec<MonkeyInfo>,
}

impl View for Monkees {
    type V = Seq<MonkeyState>;

    closed spec fn view(&self) -> Seq<MonkeyState> {
        self.monkees@.map_values(|m: MonkeyInfo| m@)
    }
}

/// The definition at position `q` is the last one among the first `k` with its id.
pub open spec fn last_definition(defs: Seq<MonkeyState>, k: int, q: int) -> bool {
    &&& 0 <= q < k <= defs.len()
    &&& forall|r: int| q < r < k ==> (#[trigger] defs[r]).id != defs[q].id
}

/// `ms` holds, for each id among the first `k` definitions, the last definition with it.
pub open spec fn built_from(ms: Seq<MonkeyState>, defs: Seq<MonkeyState>, k: int) -> bool {
    &&& forall|j: int|
        0 <= j < ms.len() ==> exists|q: int| last_definition(defs, k, q) && defs[q] == #[trigger] ms[j]
    &&& forall|q: int| 0 <= q < k ==> has_id(ms, (#[trigger] defs[q]).id)
}

impl Monkees {
    pub open spec fn wf(&self) -> bool {
        well_formed(self@)
    }

    /// Gathers the agents into ascending id order. Where two definitions share an id,
    /// the later one is kept.
    #[verifier::rlimit(80)]
    #[verifier::spinoff_prover]
    pub fn new(monkees: Vec<MonkeyInfo>) -> (r: Monkees)
        requires
            forall|q: int| 0 <= q < monkees@.len() ==> (#[trigger] monkees@[q]).test > 0,
        ensures
            r.wf(),
            built_from(r@, monkees@.map_values(|m: MonkeyInfo| m@), monkees@.len() as int),
    {
        let ghost defs = monkees@.map_values(|m: MonkeyInfo| m@);
        let n0 = monkees.len();
        let ghost n = n0 as int;
        let mut rest = monkees;
        let mut m = Monkees { monkees: Vec::new() };
        let mut k: usize = 0;
        while rest.len() > 0
            invariant
                defs.len() == n,
                n <= usize::MAX,
                0 <= k <= n,
                rest@.map_values(|m: MonkeyInfo| m@) == defs.skip(k as int),
                forall|q: int| 0 <= q < n ==> (#[trigger] defs[q]).test > 0,
                well_formed(m@),
                built_from(m@, defs, k as int),
            decreases rest@.len(),
        {
            proof {
                assert(rest@.map_values(|m: MonkeyInfo| m@).len() == rest@.len());
                assert(k < n);
            }
            let ghost before = rest@;
            let info = rest.remove(0);
            proof {
                assert(defs.skip(k as int)[0] == info@);
                assert(defs[k as int] == info@);
            }
            let ghost prev = m@;
            match m.index_of(info.id) {
                Some(j) => {
                    m.monkees.set(j, info);
                    proof {
                        assert(m@ =~= prev.update(j as int, defs[k as int]));
                        assert forall|a: int| 0 <= a < m@.len() implies exists|q: int|
                            last_definition(defs, k + 1, q) && defs[q] == #[trigger] m@[a] by {
                            if a == j {
                                assert(last_definition(defs, k + 1, k as int));
                            } else {
                                let q = choose|q: int|
                                    last_definition(defs, k as int, q) && defs[q] == prev[a];
                                assert(prev[a].id != prev[j as int].id);
                                assert(last_definition(defs, k + 1, q));
                            }
                        }
                        assert forall|q: int| 0 <= q < k + 1 implies has_id(
                            m@,
                            (#[trigger] defs[q]).id,
                        ) by {
                            if q < k {
                                let b = choose|b: int| 0 <= b < prev.len() && prev[b].id == defs[q].id;
                                assert(m@[b].id == defs[q].id);
                            } else {
                                assert(m@[j as int].id == defs[q].id);
                            }
                        }
                    }
                },
                None => {
                    let mut p: usize = 0;
                    while p < m.monkees.len() && m.monkees[p].id < info.id
                        invariant
                            0 <= p <= m@.len(),
                            m@ == prev,
                            forall|a: int| 0 <= a < p ==> m@[a].id < info.id,
                        decreases m@.len() - p,
                    {
                        p = p + 1;
                    }
                    m.monkees.insert(p, info);
                    proof {
                        assert(m@ =~= prev.insert(p as int, defs[k as int]));
                        assert forall|a: int| p < a < prev.len() implies info.id < prev[a].id by {
                            assert(prev[p as int].id != info.id);
                            assert(prev[p as int].id >= info.id);
                        }
                        assert forall|a: int| 0 <= a < m@.len() implies exists|q: int|
                            last_definition(defs, k + 1, q) && defs[q] == #[trigger] m@[a] by {
                            if a == p {
                                assert(last_definition(defs, k + 1, k as int));
                            } else {
                                let b = if a < p { a } else { a - 1 };
                                assert(m@[a] == prev[b]);
                                let q = choose|q: int|
                                    last_definition(defs, k as int, q) && defs[q] == prev[b];
                                assert(prev[b].id != info.id);
                                assert(last_definition(defs, k + 1, q));
                            }
                        }
                        assert forall|q: int| 0 <= q < k + 1 implies has_id(
                            m@,
                            (#[trigger] defs[q]).id,
                        ) by {
                            if q < k {
                                let b = choose|b: int| 0 <= b < prev.len() && prev[b].id == defs[q].id;
                                if b < p {
                                    assert(m@[b].id == defs[q].id);
                                } else {
                                    assert(m@[b + 1].id == defs[q].id);
                                }
                            } else {
                                assert(m@[p as int].id == defs[q].id);
                            }
                        }
                    }
                },
            }
            proof {
                assert forall|a: int| 0 <= a < rest@.len() implies #[trigger] rest@[a]@ == defs[k + 1
                    + a] by {
                    assert(rest@[a] == before[a + 1]);
                    assert(before.map_values(|m: MonkeyInfo| m@)[a + 1] == defs.skip(k as int)[a
                        + 1]);
                }
                assert(rest@.map_values(|m: MonkeyInfo| m@) =~= defs.skip(k + 1));
            }
            k = k + 1;
        }
        proof {
            assert(defs.skip(k as int).len() == 0);
        }
        m
    }

    /// The position of the agent with id `id`, if there is one.
    fn index_of(&self, id: u32) -> (r: Option<usize>)
        ensures
            match r {
                Some(j) => j < self@.len() && self@[j as int].id == id,
                None => !has_id(self@, id),
            },
    {
        let mut j: usize = 0;
        while j < self.monkees.len()
            invariant
                0 <= j <= self@.len(),
                self@.len() == self.monkees@.len(),
                forall|k: int| 0 <= k < j ==> self@[k].id != id,
            decreases self@.len() - j,
        {
            if self.monkees[j].id == id {
                return Some(j);
            }
            j = j + 1;
        }
        None
    }

    /// Whether every throw target names an agent of this state.
    pub fn has_valid_targets(&self) -> (r: bool)
        ensures
            r == targets_exist(self@),
    {
        let mut i: usize = 0;
        while i < self.monkees.len()
            invariant
                0 <= i <= self@.len(),
                self@.len() == self.monkees@.len(),
                forall|k: int| 0 <= k < i ==> #[trigger] targets_of_exist(self@, k),
            decreases self@.len() - i,
        {
            let t = self.index_of(self.monkees[i].on_true);
            let f = self.index_of(self.monkees[i].on_false);
            match (t, f) {
                (Some(a), Some(b)) => {
                    assert(self@[a as int].id == self@[i as int].on_true);
                    assert(self@[b as int].id == self@[i as int].on_false);
                    assert(has_id(self@, self@[i as int].on_true));
                    assert(has_id(self@, self@[i as int].on_false));
                    assert(targets_of_exist(self@, i as int));
                },
                _ => {
                    assert(!(has_id(self@, self@[i as int].on_true) && has_id(
                        self@,
                        self@[i as int].on_false,
                    )));
                    proof {
                        if targets_exist(self@) {
                            assert(has_id(self@, self@[i as int].on_true));
                        }
                    }
                    return false;
                },
            }
            i = i + 1;
        }
        assert(targets_exist(self@)) by {
            assert forall|k: int| 0 <= k < self@.len() implies has_id(self@, #[trigger] self@[k].on_true)
                && has_id(self@, self@[k].on_false) by {
                assert(targets_of_exist(self@, k));
            }
        }
        true
    }

    /// Appends item `v` to the queue of the agent with id `to`.
    fn receive_item(&mut self, to: u32, v: u64)
        requires
            old(self).wf(),
            has_id(old(self)@, to),
        ensures
            final(self)@ == receive(old(self)@, to, v),
    {
        match self.index_of(to) {
            Some(j) => {
                self.monkees[j].items.push(v);
                proof {
                    reveal(receive);
                    assert(self@ =~= receive(old(self)@, to, v));
                }
            },
            None => {},
        }
    }

    /// The turn of the agent at position `i`; `false`, with nothing changed, where it
    /// would overflow.
    fn run_turn(&mut self, i: usize, policy: &WorryPolicy) -> (r: bool)
        requires
            old(self).wf(),
            targets_exist(old(self)@),
            policy.valid(),
            i < old(self)@.len(),
        ensures
            r == turn_ok(old(self)@, i as int),
            r ==> final(self)@ == turn(old(self)@, i as int, *policy),
            !r ==> final(self)@ == old(self)@,
    {
        let ghost ms = self@;
        let ghost m = ms[i as int];
        let ghost vals = inspected(m, *policy);
        let ghost start = ms.update(i as int, cleared(m));
        if !self.monkees[i].inspect_items() {
            proof {
                assert(self@ =~= ms);
            }
            return false;
        }
        self.monkees[i].manage_worry(policy);
        let throws = self.monkees[i].test_and_get_throws();
        proof {
            assert(self@ =~= start);
            assert(throws@ =~= vals.map_values(|v: u64| (m.target(v), v)));
            assert(has_id(ms, ms[i as int].on_true));
            assert(has_id(ms, ms[i as int].on_false));
            let jt = choose|j: int| 0 <= j < ms.len() && ms[j].id == m.on_true;
            let jf = choose|j: int| 0 <= j < ms.len() && ms[j].id == m.on_false;
            assert(start[jt].id == m.on_true);
            assert(start[jf].id == m.on_false);
            assert(same_layout(start, ms));
            lemma_layout_keeps_validity(start, ms);
            reveal(deliver);
            assert(vals.take(0) =~= Seq::<u64>::empty());
        }
        let mut k: usize = 0;
        while k < throws.len()
            invariant
                throws@ == vals.map_values(|v: u64| (m.target(v), v)),
                0 <= k <= throws@.len(),
                well_formed(start),
                has_id(start, m.on_true),
                has_id(start, m.on_false),
                self@ == deliver(start, m, vals.take(k as int)),
            decreases throws@.len() - k,
        {
            let (to, v) = throws[k];
            proof {
                lemma_deliver(start, m, vals.take(k as int));
                let d = self@;
                let jt = choose|j: int| 0 <= j < start.len() && start[j].id == m.on_true;
                let jf = choose|j: int| 0 <= j < start.len() && start[j].id == m.on_false;
                assert(d[jt].id == m.on_true);
                assert(d[jf].id == m.on_false);
            }
            self.receive_item(to, v);
            proof {
                reveal(deliver);
                assert(vals.take(k + 1).drop_last() =~= vals.take(k as int));
            }
            k = k + 1;
        }
        proof {
            lemma_turn_unfold(ms, i as int, *policy);
            assert(vals.take(k as int) =~= vals);
        }
        true
    }

    /// Runs one round: each agent takes its turn in ascending id order. An item thrown
    /// to an agent later in that order is inspected again in the same round. The result
    /// is `false` where some turn would overflow; the run is then abandoned.
    pub fn run_round(&mut self, policy: &WorryPolicy) -> (r: bool)
        requires
            old(self).wf(),
            targets_exist(old(self)@),
            policy.valid(),
        ensures
            r == round_ok(old(self)@, *policy),
            r ==> final(self)@ == round(old(self)@, *policy),
            final(self).wf(),
            targets_exist(final(self)@),
            same_layout(final(self)@, old(self)@),
    {
        let n = self.monkees.len();
        let mut i: usize = 0;
        while i < n
            invariant
                n == old(self)@.len(),
                0 <= i <= n,
                well_formed(old(self)@),
                targets_exist(old(self)@),
                policy.valid(),
                turns_ok(old(self)@, i as int, *policy),
                self@ == turns(old(self)@, i as int, *policy),
            decreases n - i,
        {
            proof {
                lemma_turns(old(self)@, i as int, *policy);
            }
            if !self.run_turn(i, policy) {
                proof {
                    lemma_turns_ok_stops(old(self)@, i as int + 1, n as int, *policy);
                }
                return false;
            }
            i = i + 1;
        }
        proof {
            lemma_turns(old(self)@, i as int, *policy);
        }
        true
    }

    /// Runs `rounds` rounds in sequence under one worry policy; `false` where some turn
    /// would overflow, and the run is then abandoned.
    pub fn run_rounds(&mut self, rounds: u32, policy: &WorryPolicy) -> (r: bool)
        requires
            old(self).wf(),
            targets_exist(old(self)@),
            policy.valid(),
        ensures
            r == rounds_ok(old(self)@, rounds as nat, *policy),
            r ==> final(self)@ == crate::simulation::rounds(old(self)@, rounds as nat, *policy),
            final(self).wf(),
            targets_exist(final(self)@),
            same_layout(final(self)@, old(self)@),
    {
        let mut r: u32 = 0;
        while r < rounds
            invariant
                0 <= r <= rounds,
                well_formed(old(self)@),
                targets_exist(old(self)@),
                policy.valid(),
                rounds_ok(old(self)@, r as nat, *policy),
                self@ == crate::simulation::rounds(old(self)@, r as nat, *policy),
            decreases rounds - r,
        {
            proof {
                lemma_rounds(old(self)@, r as nat, *policy);
            }
            if !self.run_round(policy) {
                proof {
                    lemma_rounds_ok_stops(old(self)@, r as nat + 1, rounds as nat, *policy);
                }
                return false;
            }
            r = r + 1;
        }
        proof {
            lemma_rounds(old(self)@, r as nat, *policy);
        }
        true
    }

    /// The inspection counters, in ascending id order.
    pub fn inspection_counts(&self) -> (r: Vec<u32>)
        ensures
            r@.len() == self@.len(),
            forall|j: int| 0 <= j < r@.len() ==> r@[j] as nat == #[trigger] self@[j].count,
    {
        let mut r: Vec<u32> = Vec::new();
        let mut i: usize = 0;
        while i < self.monkees.len()
            invariant
                0 <= i <= self@.len(),
                self@.len() == self.monkees@.len(),
                r@.len() == i,
                forall|j: int| 0 <= j < i ==> r@[j] as nat == #[trigger] self@[j].count,
            decreases self@.len() - i,
        {
            r.push(self.monkees[i].inspection_count);
            i = i + 1;
        }
        r
    }

    /// The agent ids, ascending.
    pub fn ids(&self) -> (r: Vec<u32>)
        ensures
            r@.len() == self@.len(),
            forall|j: int| 0 <= j < r@.len() ==> r@[j] == #[trigger] self@[j].id,
    {
        let mut r: Vec<u32> = Vec::new();
        let mut i: usize = 0;
        while i < self.monkees.len()
            invariant
                0 <= i <= self@.len(),
                self@.len() == self.monkees@.len(),
                r@.len() == i,
                forall|j: int| 0 <= j < i ==> r@[j] == #[trigger] self@[j].id,
            decreases self@.len() - i,
        {
            r.push(self.monkees[i].id);
            i = i + 1;
        }
        r
    }

    /// The item queue of the agent at position `j`.
    pub fn items_at(&self, j: usize) -> (r: Vec<u64>)
        requires
            j < self@.len(),
        ensures
            r@ == self@[j as int].items,
    {
        vstd::slice::slice_to_vec(self.monkees[j].items.as_slice())
    }

    /// The number of agents.
    pub fn len(&self) -> (r: usize)
        ensures
            r == self@.len(),
    {
        self.monkees.len()
    }

    /// The number of items held by all agents together, or `None` where it does not
    /// fit in `u64`.
    pub fn total_item_count(&self) -> (r: Option<u64>)
        ensures
            match r {
                Some(t) => t == total_items(self@),
                None => total_items(self@) > u64::MAX,
            },
    {
        let mut acc: u64 = 0;
        let mut i: usize = 0;
        while i < self.monkees.len()
            invariant
                0 <= i <= self@.len(),
                self@.len() == self.monkees@.len(),
                acc == total_items(self@.take(i as int)),
            decreases self@.len() - i,
        {
            proof {
                assert(self@.take(i + 1).drop_last() =~= self@.take(i as int));
            }
            let k = self.monkees[i].items.len() as u64;
            match acc.checked_add(k) {
                Some(next) => {
                    acc = next;
                },
                None => {
                    proof {
                        lemma_total_prefix_le(self@, i + 1);
                    }
                    return None;
                },
            }
            i = i + 1;
        }
        assert(self@.take(i as int) =~= self@);
        Some(acc)
    }

    /// The combined divisor of the modulo policy: the product of all test divisors,
    /// or `None` where that product does not fit in `u64`.
    pub fn get_modulus(&self) -> (r: Option<u64>)
        requires
            self.wf(),
        ensures
            match r {
                Some(m) => m == product_of_tests(self@),
                None => product_of_tests(self@) > u64::MAX,
            },
    {
        let mut acc: u64 = 1;
        let mut i: usize = 0;
        while i < self.monkees.len()
            invariant
                0 <= i <= self@.len(),
                self@.len() == self.monkees@.len(),
                well_formed(self@),
                acc == product_of_tests(self@.take(i as int)),
            decreases self@.len() - i,
        {
            proof {
                assert(self@.take(i + 1).drop_last() =~= self@.take(i as int));
            }
            match acc.checked_mul(self.monkees[i].test) {
                Some(next) => {
                    acc = next;
                },
                None => {
                    proof {
                        lemma_product_prefix_grows(self@, i + 1);
                    }
                    return None;
                },
            }
            i = i + 1;
        }
        assert(self@.take(i as int) =~= self@);
        Some(acc)
    }

    /// The business score: the product of the two largest inspection counters.
    pub fn get_monkey_business(&self) -> (r: u64)
        requires
            self@.len() >= 2,
        ensures
            exists|a: int, b: int| is_top_pair(self@, a, b) && r == self@[a].count * self@[b].count,
    {
        let mut a: usize = 0;
        let mut b: usize = 1;
        if self.monkees[0].inspection_count < self.monkees[1].inspection_count {
            a = 1;
            b = 0;
        }
        let mut i: usize = 2;
        while i < self.monkees.len()
            invariant
                2 <= i <= self@.len(),
                self@.len() == self.monkees@.len(),
                a < i,
                b < i,
                a != b,
                forall|k: int| 0 <= k < i ==> self@[k].count <= self@[a as int].count,
                forall|k: int| 0 <= k < i && k != a ==> self@[k].count <= self@[b as int].count,
            decreases self@.len() - i,
        {
            let c = self.monkees[i].inspection_count;
            if c > self.monkees[a].inspection_count {
                b = a;
                a = i;
            } else if c > self.monkees[b].inspection_count {
                b = i;
            }
            i = i + 1;
        }
        let top = self.monkees[a].inspection_count as u64;
        let second = self.monkees[b].inspection_count as u64;
        proof {
            assert(is_top_pair(self@, a as int, b as int));
            assert(top * second <= u32::MAX * u32::MAX) by (nonlinear_arith)
                requires
                    top <= u32::MAX,
                    second <= u32::MAX,
            ;
        }
        top * second
    }
}

/// Agents `a` and `b` are distinct, `a` has a largest counter, and `b` a largest among
/// the others.
pub open spec fn is_top_pair(ms: Seq<MonkeyState>, a: int, b: int) -> bool {
    &&& 0 <= a < ms.len()
    &&& 0 <= b < ms.len()
    &&& a != b
    &&& forall|k: int| 0 <= k < ms.len() ==> ms[k].count <= ms[a].count
    &&& forall|k: int| 0 <= k < ms.len() && k != a ==> ms[k].count <= ms[b].count
}

/// The product of all test divisors.
pub open spec fn product_of_tests(ms: Seq<MonkeyState>) -> nat
    decreases ms.len(),
{
    if ms.len() == 0 {
        1
    } else {
        product_of_tests(ms.drop_last()) * (ms.last().test as nat)
    }
}

proof fn lemma_total_prefix_le(ms: Seq<MonkeyState>, k: int)
    requires
        0 <= k <= ms.len(),
    ensures
        total_items(ms.take(k)) <= total_items(ms),
    decreases ms.len() - k,
{
    if k < ms.len() {
        lemma_total_prefix_le(ms, k + 1);
        assert(ms.take(k + 1).drop_last() =~= ms.take(k));
    } else {
        assert(ms.take(k) =~= ms);
    }
}

proof fn lemma_product_prefix_grows(ms: Seq<MonkeyState>, k: int)
    requires
        well_formed(ms),
        0 <= k <= ms.len(),
    ensures
        product_of_tests(ms.take(k)) <= product_of_tests(ms),
        product_of_tests(ms.take(k)) > 0,
    decreases ms.len() - k,
{
    if k < ms.len() {
        lemma_product_prefix_grows(ms, k + 1);
        assert(well_formed(ms.take(k)));
        lemma_product_positive(ms.take(k));
        let t = ms.take(k + 1);
        assert(t.drop_last() =~= ms.take(k));
        let a = product_of_tests(ms.take(k));
        let b = ms[k].test as int;
        assert(a <= a * b) by (nonlinear_arith)
            requires
                b >= 1,
                a >= 0,
        ;
    } else {
        assert(ms.take(k) =~= ms);
        lemma_product_positive(ms);
    }
}

pub proof fn lemma_product_positive(ms: Seq<MonkeyState>)
    requires
        well_formed(ms),
    ensures
        product_of_tests(ms) > 0,
    decreases ms.len(),
{
    if ms.len() > 0 {
        lemma_product_positive(ms.drop_last());
        let a = product_of_tests(ms.drop_last());
        let b = ms.last().test as int;
        assert(a * b > 0) by (nonlinear_arith)
            requires
                a > 0,
                b > 0,
        ;
    }
}

/// The product of all test divisors is the divisor of agent `j` times a positive cofactor.
proof fn lemma_test_divides_product(ms: Seq<MonkeyState>, j: int) -> (c: int)
    requires
        well_formed(ms),
        0 <= j < ms.len(),
    ensures
        c > 0,
        product_of_tests(ms) == ms[j].test * c,
    decreases ms.len(),
{
    let init = ms.drop_last();
    assert(well_formed(init));
    lemma_product_positive(init);
    if j == ms.len() - 1 {
        let c = product_of_tests(init) as int;
        let t = ms[j].test as int;
        assert(c * t == t * c) by (nonlinear_arith);
        c
    } else {
        let c0 = lemma_test_divides_product(init, j);
        let t = ms.last().test as int;
        let d = ms[j].test as int;
        assert(init[j] == ms[j]);
        assert(product_of_tests(ms) == product_of_tests(init) * t);
        assert((d * c0) * t == d * (c0 * t)) by (nonlinear_arith);
        assert(c0 * t > 0) by (nonlinear_arith)
            requires
                c0 > 0,
                t > 0,
        ;
        c0 * t
    }
}

/// Reducing a worry value modulo the product of all test divisors leaves every
/// agent's divisibility test as it is on the unreduced value.
pub proof fn lemma_modulo_keeps_tests(ms: Seq<MonkeyState>, v: int, j: int)
    requires
        well_formed(ms),
        0 <= j < ms.len(),
    ensures
        (v % (product_of_tests(ms) as int)) % (ms[j].test as int) == v % (ms[j].test as int),
{
    let c = lemma_test_divides_product(ms, j);
    vstd::arithmetic::div_mod::lemma_mod_mod(v, ms[j].test as int, c);
}

/// Two definitions that are each the last with their id, and share it, are one.
proof fn lemma_last_definition_unique(defs: Seq<MonkeyState>, k: int, q1: int, q2: int)
    requires
        last_definition(defs, k, q1),
        last_definition(defs, k, q2),
        defs[q1].id == defs[q2].id,
    ensures
        q1 == q2,
{
    if q1 < q2 {
        assert(defs[q2].id != defs[q1].id);
    } else if q2 < q1 {
        assert(defs[q1].id != defs[q2].id);
    }
}

/// An agent of one built state has an equal agent, at some position, in another state
/// built from the same definitions.
proof fn lemma_built_match(a: Seq<MonkeyState>, b: Seq<MonkeyState>, defs: Seq<MonkeyState>, k: int, j: int) -> (jb: int)
    requires
        built_from(a, defs, k),
        built_from(b, defs, k),
        0 <= j < a.len(),
    ensures
        0 <= jb < b.len(),
        b[jb] == a[j],
{
    let q = choose|q: int| last_definition(defs, k, q) && defs[q] == #[trigger] a[j];
    assert(has_id(b, defs[q].id));
    let jb = choose|jb: int| 0 <= jb < b.len() && b[jb].id == defs[q].id;
    let q2 = choose|q2: int| last_definition(defs, k, q2) && defs[q2] == #[trigger] b[jb];
    lemma_last_definition_unique(defs, k, q, q2);
    jb
}

/// The state built from a list of definitions is unique: two well-formed states built
/// from the same definitions are equal.
pub proof fn lemma_built_unique(a: Seq<MonkeyState>, b: Seq<MonkeyState>, defs: Seq<MonkeyState>, k: int)
    requires
        well_formed(a),
        well_formed(b),
        built_from(a, defs, k),
        built_from(b, defs, k),
    ensures
        a == b,
{
    lemma_built_prefix(a, b, defs, k, 0);
}

proof fn lemma_built_prefix(
    a: Seq<MonkeyState>,
    b: Seq<MonkeyState>,
    defs: Seq<MonkeyState>,
    k: int,
    j: int,
)
    requires
        well_formed(a),
        well_formed(b),
        built_from(a, defs, k),
        built_from(b, defs, k),
        0 <= j <= a.len(),
        j <= b.len(),
        forall|i: int| 0 <= i < j ==> a[i] == b[i],
    ensures
        a == b,
    decreases a.len() + b.len() - 2 * j,
{
    if j < a.len() && j < b.len() {
        let jb = lemma_built_match(a, b, defs, k, j);
        if jb < j {
            assert(a[jb] == b[jb]);
            assert(a[jb].id < a[j].id);
        } else if jb > j {
            let ja = lemma_built_match(b, a, defs, k, j);
            assert(b[j].id < b[jb].id);
            if ja >= j {
                if ja == j {
                    assert(b[j].id == a[j].id);
                } else {
                    assert(a[j].id < a[ja].id);
                }
            } else {
                assert(a[ja] == b[ja]);
                assert(b[ja].id < b[j].id);
            }
        }
        lemma_built_prefix(a, b, defs, k, j + 1);
    } else if j < a.len() {
        let jb = lemma_built_match(a, b, defs, k, j);
        assert(a[jb] == b[jb]);
        assert(a[jb].id < a[j].id);
    } else if j < b.len() {
        let ja = lemma_built_match(b, a, defs, k, j);
        assert(a[ja] == b[ja]);
        assert(b[ja].id < b[j].id);
    } else {
        assert(a =~= b);
    }
}

/// One inspection under the modulo policy: where the kept value and the true value
/// agree modulo the product of all divisors, the reduced result of the expression
/// gives every agent's test the outcome that the true result gives, and agrees with
/// the true result modulo that product again.
pub proof fn lemma_reduced_inspection_agrees(
    ms: Seq<MonkeyState>,
    e: Expression,
    kept: int,
    actual: int,
    j: int,
)
    requires
        well_formed(ms),
        0 <= j < ms.len(),
        kept % (product_of_tests(ms) as int) == actual % (product_of_tests(ms) as int),
    ensures
        (e.value(kept) % (product_of_tests(ms) as int)) % (ms[j].test as int) == e.value(actual)
            % (ms[j].test as int),
        (e.value(kept) % (product_of_tests(ms) as int)) % (product_of_tests(ms) as int) == e.value(
            actual,
        ) % (product_of_tests(ms) as int),
{
    let m = product_of_tests(ms) as int;
    lemma_product_positive(ms);
    e.lemma_value_mod(kept, m);
    e.lemma_value_mod(actual, m);
    vstd::arithmetic::div_mod::lemma_mod_twice(e.value(kept), m);
    lemma_modulo_keeps_tests(ms, e.value(kept), j);
    lemma_modulo_keeps_tests(ms, e.value(actual), j);
}

/// Once a turn cannot be taken, no longer prefix of the round can be.
proof fn lemma_turns_ok_stops(ms: Seq<MonkeyState>, k: int, m: int, p: WorryPolicy)
    requires
        !turns_ok(ms, k, p),
        k <= m,
    ensures
        !turns_ok(ms, m, p),
    decreases m - k,
{
    if k < m {
        lemma_turns_ok_stops(ms, k, m - 1, p);
    }
}

/// Once a round cannot be taken, no longer run can be.
proof fn lemma_rounds_ok_stops(ms: Seq<MonkeyState>, k: nat, m: nat, p: WorryPolicy)
    requires
        !rounds_ok(ms, k, p),
        k <= m,
    ensures
        !rounds_ok(ms, m, p),
    decreases m - k,
{
    if k < m {
        lemma_rounds_ok_stops(ms, k, (m - 1) as nat, p);
    }
}

} // verus!
