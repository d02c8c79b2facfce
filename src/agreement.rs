use vstd::prelude::*;

use crate::monkey::WorryPolicy;
use crate::simulation::{
    cleared,
    deliver,
    inspected,
    lemma_modulo_keeps_tests,
    lemma_product_positive,
    lemma_rounds,
    lemma_turn_unfold,
    lemma_turns,
    product_of_tests,
    receive,
    round,
    round_ok,
    rounds,
    rounds_ok,
    same_layout,
    targets_exist,
    turn,
    turn_ok,
    turns,
    turns_ok,
    well_formed,
    MonkeyState,
};

verus! {

/// The state of a run without any worry reduction, over unbounded integers: the
/// queue and the counter of each agent, in the order of a state's agents.
pub struct TrueState {
    pub items: Seq<Seq<int>>,
    pub counts: Seq<nat>,
}

/// The true state that a reduced state starts from: the same values, unreduced.
pub open spec fn true_start(ms: Seq<MonkeyState>) -> TrueState {
    TrueState {
        items: ms.map_values(|m: MonkeyState| m.items.map_values(|v: u64| v as int)),
        counts: ms.map_values(|m: MonkeyState| m.count),
    }
}

/// The id that agent `m` throws a true worry value `v` to.
pub open spec fn true_target(m: MonkeyState, v: int) -> u32 {
    if v % (m.test as int) == 0 {
        m.on_true
    } else {
        m.on_false
    }
}

pub open spec fn true_receive(rules: Seq<MonkeyState>, qs: Seq<Seq<int>>, to: u32, v: int) -> Seq<
    Seq<int>,
> {
    Seq::new(qs.len(), |j: int| if rules[j].id == to { qs[j].push(v) } else { qs[j] })
}

pub open spec fn true_deliver(
    rules: Seq<MonkeyState>,
    qs: Seq<Seq<int>>,
    m: MonkeyState,
    vals: Seq<int>,
) -> Seq<Seq<int>>
    decreases vals.len(),
{
    if vals.len() == 0 {
        qs
    } else {
        true_receive(
            rules,
            true_deliver(rules, qs, m, vals.drop_last()),
            true_target(m, vals.last()),
            vals.last(),
        )
    }
}

/// The turn of agent `i` without reduction: every item becomes the true value of
/// the expression and is thrown by the true divisibility test.
pub open spec fn true_turn(rules: Seq<MonkeyState>, st: TrueState, i: int) -> TrueState {
    let m = rules[i];
    let vals = st.items[i].map_values(|v: int| m.expression.value(v));
    TrueState {
        items: true_deliver(rules, st.items.update(i, Seq::empty()), m, vals),
        counts: st.counts.update(i, st.counts[i] + st.items[i].len()),
    }
}

pub open spec fn true_turns(rules: Seq<MonkeyState>, st: TrueState, k: int) -> TrueState
    decreases k,
{
    if k <= 0 {
        st
    } else {
        true_turn(rules, true_turns(rules, st, k - 1), k - 1)
    }
}

pub open spec fn true_rounds(rules: Seq<MonkeyState>, st: TrueState, n: nat) -> TrueState
    decreases n,
{
    if n == 0 {
        st
    } else {
        true_turns(rules, true_rounds(rules, st, (n - 1) as nat), rules.len() as int)
    }
}

/// The queues of `a` hold, position by position, values congruent modulo `m` to the
/// non-negative true values `qs`.
pub open spec fn queues_agree(a: Seq<MonkeyState>, qs: Seq<Seq<int>>, m: int) -> bool {
    &&& a.len() == qs.len()
    &&& forall|j: int|
        0 <= j < a.len() ==> {
            &&& (#[trigger] a[j]).items.len() == qs[j].len()
            &&& forall|k: int|
                0 <= k < qs[j].len() ==> {
                    &&& (#[trigger] qs[j][k]) >= 0
                    &&& (a[j].items[k] as int) % m == qs[j][k] % m
                }
        }
}

/// A reduced state agrees with a true state: same counters, congruent queues.
pub open spec fn agrees(a: Seq<MonkeyState>, st: TrueState, m: int) -> bool {
    &&& queues_agree(a, st.items, m)
    &&& st.counts.len() == a.len()
    &&& forall|j: int| 0 <= j < a.len() ==> (#[trigger] a[j]).count == st.counts[j]
}

proof fn lemma_receive_agrees(
    rules: Seq<MonkeyState>,
    a: Seq<MonkeyState>,
    qs: Seq<Seq<int>>,
    m: int,
    to: u32,
    v: u64,
    w: int,
)
    requires
        same_layout(a, rules),
        queues_agree(a, qs, m),
        w >= 0,
        (v as int) % m == w % m,
    ensures
        queues_agree(receive(a, to, v), true_receive(rules, qs, to, w), m),
        same_layout(receive(a, to, v), rules),
        forall|j: int| 0 <= j < a.len() ==> #[trigger] receive(a, to, v)[j].count == a[j].count,
{
    reveal(receive);
    let r = receive(a, to, v);
    let t = true_receive(rules, qs, to, w);
    assert forall|j: int| 0 <= j < r.len() implies {
        &&& (#[trigger] r[j]).items.len() == t[j].len()
        &&& forall|k: int|
            0 <= k < t[j].len() ==> {
                &&& (#[trigger] t[j][k]) >= 0
                &&& (r[j].items[k] as int) % m == t[j][k] % m
            }
    } by {
        assert(a[j].id == rules[j].id);
        assert forall|k: int| 0 <= k < t[j].len() implies {
            &&& (#[trigger] t[j][k]) >= 0
            &&& (r[j].items[k] as int) % m == t[j][k] % m
        } by {
            if k < qs[j].len() {
                assert(qs[j][k] >= 0);
            }
        }
    }
}

proof fn lemma_deliver_agrees(
    rules: Seq<MonkeyState>,
    a: Seq<MonkeyState>,
    qs: Seq<Seq<int>>,
    i: int,
    ma: MonkeyState,
    vals: Seq<u64>,
    tvals: Seq<int>,
)
    requires
        well_formed(rules),
        0 <= i < rules.len(),
        same_layout(a, rules),
        queues_agree(a, qs, product_of_tests(rules) as int),
        ma.test == rules[i].test,
        ma.on_true == rules[i].on_true,
        ma.on_false == rules[i].on_false,
        vals.len() == tvals.len(),
        forall|k: int|
            0 <= k < vals.len() ==> (#[trigger] tvals[k]) >= 0 && (vals[k] as int) % (
            product_of_tests(rules) as int) == tvals[k] % (product_of_tests(rules) as int),
    ensures
        queues_agree(deliver(a, ma, vals), true_deliver(rules, qs, rules[i], tvals), product_of_tests(rules) as int),
        same_layout(deliver(a, ma, vals), rules),
        forall|j: int| 0 <= j < a.len() ==> #[trigger] deliver(a, ma, vals)[j].count == a[j].count,
    decreases vals.len(),
{
    reveal(deliver);
    let m = product_of_tests(rules) as int;
    if vals.len() > 0 {
        let n = vals.len() - 1;
        lemma_deliver_agrees(rules, a, qs, i, ma, vals.drop_last(), tvals.drop_last());
        let d = deliver(a, ma, vals.drop_last());
        let v = vals.last();
        let w = tvals.last();
        assert(v == vals[n] && w == tvals[n]);
        assert(tvals[n] >= 0);
        lemma_modulo_keeps_tests(rules, w, i);
        lemma_modulo_keeps_tests(rules, v as int, i);
        assert(ma.target(v) == true_target(rules[i], w));
        lemma_receive_agrees(rules, d, true_deliver(rules, qs, rules[i], tvals.drop_last()), m, ma.target(v), v, w);
    }
}

proof fn lemma_turn_agrees(rules: Seq<MonkeyState>, a: Seq<MonkeyState>, st: TrueState, i: int)
    requires
        well_formed(rules),
        0 <= i < rules.len(),
        product_of_tests(rules) <= u64::MAX,
        same_layout(a, rules),
        agrees(a, st, product_of_tests(rules) as int),
        turn_ok(a, i),
    ensures
        agrees(
            turn(a, i, WorryPolicy::Modulo(product_of_tests(rules) as u64)),
            true_turn(rules, st, i),
            product_of_tests(rules) as int,
        ),
        same_layout(turn(a, i, WorryPolicy::Modulo(product_of_tests(rules) as u64)), rules),
{
    let m = product_of_tests(rules) as int;
    let p = WorryPolicy::Modulo(m as u64);
    lemma_product_positive(rules);
    let e = a[i].expression;
    assert(e == rules[i].expression);
    let u = a.update(i, cleared(a[i]));
    let qs = st.items.update(i, Seq::empty());
    let vals = inspected(a[i], p);
    let tvals = st.items[i].map_values(|v: int| rules[i].expression.value(v));
    lemma_turn_unfold(a, i, p);
    assert(same_layout(u, rules));
    assert(queues_agree(u, qs, m)) by {
        assert forall|j: int| 0 <= j < u.len() implies {
            &&& (#[trigger] u[j]).items.len() == qs[j].len()
            &&& forall|k: int|
                0 <= k < qs[j].len() ==> {
                    &&& (#[trigger] qs[j][k]) >= 0
                    &&& (u[j].items[k] as int) % m == qs[j][k] % m
                }
        } by {
            if j != i {
                assert(u[j] == a[j]);
                assert(qs[j] == st.items[j]);
            }
        }
    }
    assert forall|k: int| 0 <= k < vals.len() implies (#[trigger] tvals[k]) >= 0 && (
    vals[k] as int) % m == tvals[k] % m by {
        let x = a[i].items[k];
        let t = st.items[i][k];
        assert(a[i].items.len() == st.items[i].len());
        assert(st.items[i][k] >= 0 && (x as int) % m == t % m);
        assert(e.fits(x as int));
        e.lemma_fits_bound(x as int);
        e.lemma_value_nonneg(t);
        crate::simulation::lemma_reduced_inspection_agrees(rules, e, x as int, t, i);
        assert(vals[k] as int == e.value(x as int) % m);
    }
    lemma_deliver_agrees(rules, u, qs, i, a[i], vals, tvals);
}

proof fn lemma_round_agrees(rules: Seq<MonkeyState>, a: Seq<MonkeyState>, st: TrueState)
    requires
        well_formed(rules),
        targets_exist(rules),
        product_of_tests(rules) <= u64::MAX,
        same_layout(a, rules),
        agrees(a, st, product_of_tests(rules) as int),
        round_ok(a, WorryPolicy::Modulo(product_of_tests(rules) as u64)),
    ensures
        agrees(
            round(a, WorryPolicy::Modulo(product_of_tests(rules) as u64)),
            true_turns(rules, st, rules.len() as int),
            product_of_tests(rules) as int,
        ),
{
    let p = WorryPolicy::Modulo(product_of_tests(rules) as u64);
    lemma_layout_product(a, rules);
    crate::simulation::lemma_layout_keeps_validity(a, rules);
    lemma_turns_agree_from(rules, a, st, a.len() as int);
}

proof fn lemma_turns_agree_from(rules: Seq<MonkeyState>, a: Seq<MonkeyState>, st: TrueState, k: int)
    requires
        well_formed(rules),
        well_formed(a),
        targets_exist(a),
        product_of_tests(rules) <= u64::MAX,
        same_layout(a, rules),
        agrees(a, st, product_of_tests(rules) as int),
        0 <= k <= a.len(),
        turns_ok(a, k, WorryPolicy::Modulo(product_of_tests(rules) as u64)),
    ensures
        agrees(
            turns(a, k, WorryPolicy::Modulo(product_of_tests(rules) as u64)),
            true_turns(rules, st, k),
            product_of_tests(rules) as int,
        ),
    decreases k,
{
    let p = WorryPolicy::Modulo(product_of_tests(rules) as u64);
    if k > 0 {
        lemma_turns_agree_from(rules, a, st, k - 1);
        lemma_turns(a, k - 1, p);
        lemma_turn_agrees(rules, turns(a, k - 1, p), true_turns(rules, st, k - 1), k - 1);
    }
}

/// States with one layout have one product of divisors.
proof fn lemma_layout_product(a: Seq<MonkeyState>, b: Seq<MonkeyState>)
    requires
        same_layout(a, b),
    ensures
        product_of_tests(a) == product_of_tests(b),
    decreases a.len(),
{
    if a.len() > 0 {
        lemma_layout_product(a.drop_last(), b.drop_last());
    }
}

proof fn lemma_start_agrees(ms: Seq<MonkeyState>)
    ensures
        agrees(ms, true_start(ms), product_of_tests(ms) as int),
{
    let m = product_of_tests(ms) as int;
    let st = true_start(ms);
    assert forall|j: int| 0 <= j < ms.len() implies {
        &&& (#[trigger] ms[j]).items.len() == st.items[j].len()
        &&& forall|k: int|
            0 <= k < st.items[j].len() ==> {
                &&& (#[trigger] st.items[j][k]) >= 0
                &&& (ms[j].items[k] as int) % m == st.items[j][k] % m
            }
    } by {}
}

proof fn lemma_rounds_agree(ms: Seq<MonkeyState>, n: nat)
    requires
        well_formed(ms),
        targets_exist(ms),
        product_of_tests(ms) <= u64::MAX,
        rounds_ok(ms, n, WorryPolicy::Modulo(product_of_tests(ms) as u64)),
    ensures
        agrees(
            rounds(ms, n, WorryPolicy::Modulo(product_of_tests(ms) as u64)),
            true_rounds(ms, true_start(ms), n),
            product_of_tests(ms) as int,
        ),
        same_layout(rounds(ms, n, WorryPolicy::Modulo(product_of_tests(ms) as u64)), ms),
    decreases n,
{
    let p = WorryPolicy::Modulo(product_of_tests(ms) as u64);
    lemma_rounds(ms, n, p);
    if n == 0 {
        lemma_start_agrees(ms);
    } else {
        lemma_rounds_agree(ms, (n - 1) as nat);
        lemma_rounds(ms, (n - 1) as nat, p);
        lemma_round_agrees(
            ms,
            rounds(ms, (n - 1) as nat, p),
            true_rounds(ms, true_start(ms), (n - 1) as nat),
        );
    }
}

/// A run under the modulo policy agrees with the run without reduction: after any
/// number of rounds that fit, every inspection counter is the same, every queue has
/// the same length, each kept value is congruent to the true value modulo the product
/// of all divisors, and so every agent's divisibility test gives the same outcome on
/// it as on the true value.
pub proof fn lemma_modulo_run_agrees(ms: Seq<MonkeyState>, n: nat)
    requires
        well_formed(ms),
        targets_exist(ms),
        product_of_tests(ms) <= u64::MAX,
        rounds_ok(ms, n, WorryPolicy::Modulo(product_of_tests(ms) as u64)),
    ensures
        agrees(
            rounds(ms, n, WorryPolicy::Modulo(product_of_tests(ms) as u64)),
            true_rounds(ms, true_start(ms), n),
            product_of_tests(ms) as int,
        ),
        forall|j: int, k: int, t: int|
            0 <= j < ms.len() && 0 <= k < rounds(
                ms,
                n,
                WorryPolicy::Modulo(product_of_tests(ms) as u64),
            )[j].items.len() && 0 <= t < ms.len() ==> (#[trigger] rounds(
                ms,
                n,
                WorryPolicy::Modulo(product_of_tests(ms) as u64),
            )[j].items[k] as int) % (#[trigger] ms[t].test as int) == (#[trigger] true_rounds(
                ms,
                true_start(ms),
                n,
            ).items[j][k]) % (ms[t].test as int),
{
    let m = product_of_tests(ms) as int;
    let p = WorryPolicy::Modulo(m as u64);
    lemma_rounds_agree(ms, n);
    let a = rounds(ms, n, p);
    let tr = true_rounds(ms, true_start(ms), n);
    assert forall|j: int, k: int, t: int|
        0 <= j < ms.len() && 0 <= k < a[j].items.len() && 0 <= t < ms.len() implies (
        #[trigger] a[j].items[k] as int) % (#[trigger] ms[t].test as int) == (
        #[trigger] tr.items[j][k]) % (ms[t].test as int) by {
        assert(a[j].items.len() == tr.items[j].len());
        assert((a[j].items[k] as int) % m == tr.items[j][k] % m);
        lemma_modulo_keeps_tests(ms, a[j].items[k] as int, t);
        lemma_modulo_keeps_tests(ms, tr.items[j][k], t);
    }
}

} // verus!
