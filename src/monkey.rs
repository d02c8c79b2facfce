use vstd::prelude::*;

use crate::expression::Expression;

verus! {

/// How worry values are kept small after each inspection.
#[derive(Debug, Clone, Copy, PartialEq, Eq)]
pub enum WorryPolicy {
    /// Integer division by a fixed positive constant.
    DivideBy(u64),
    /// Reduction modulo a positive combined divisor.
    Modulo(u64),
}

impl WorryPolicy {
    /// The divisor of either policy must be positive.
    pub open spec fn valid(self) -> bool {
        match self {
            WorryPolicy::DivideBy(d) => d > 0,
            WorryPolicy::Modulo(m) => m > 0,
        }
    }

    pub open spec fn spec_apply(self, v: u64) -> u64 {
        match self {
            WorryPolicy::DivideBy(d) => (v / d) as u64,
            WorryPolicy::Modulo(m) => (v % m) as u64,
        }
    }

    /// Applies the policy to one worry value.
    pub fn apply(&self, v: u64) -> (r: u64)
        requires
            self.valid(),
        ensures
            r == self.spec_apply(v),
    {
        match self {
            WorryPolicy::DivideBy(d) => v / *d,
            WorryPolicy::Modulo(m) => v % *m,
        }
    }
}

/// The value of an inspected item: the expression applied to it.
pub open spec fn inspect_value(e: Expression, v: u64) -> u64 {
    e.value(v as int) as u64
}

/// An agent with counter `count` can inspect `items` without overflow: the counter
/// stays within `u32` and every intermediate value within `u64`.
pub open spec fn can_inspect(e: Expression, count: nat, items: Seq<u64>) -> bool {
    &&& count + items.len() <= u32::MAX
    &&& forall|k: int| 0 <= k < items.len() ==> e.fits(#[trigger] items[k] as int)
}

/// One agent: an id, a queue of worry values, its transformation, its divisibility
/// test with the two target ids, and the number of inspections made so far.
#[derive(Debug)]
pub struct MonkeyInfo {
    pub id: u32,
    pub items: Vec<u64>,
    pub expression: Expression,
    pub test: u64,
    pub on_true: u32,
    pub on_false: u32,
    pub inspection_count: u32,
}

/// The id that an item of worry `v` is thrown to by an agent with the given test and targets.
pub open spec fn throw_target(test: u64, on_true: u32, on_false: u32, v: u64) -> u32 {
    if v % test == 0 {
        on_true
    } else {
        on_false
    }
}

impl MonkeyInfo {
    pub open spec fn target(&self, v: u64) -> u32 {
        throw_target(self.test, self.on_true, self.on_false, v)
    }

    /// Applies the expression to every held item and counts one inspection per item.
    /// Where that would overflow, nothing changes and the result is `false`.
    pub fn inspect_items(&mut self) -> (r: bool)
        ensures
            r == can_inspect(
                old(self).expression,
                old(self).inspection_count as nat,
                old(self).items@,
            ),
            r ==> final(self).items@ == old(self).items@.map_values(
                |v: u64| inspect_value(old(self).expression, v),
            ),
            r ==> final(self).inspection_count == old(self).inspection_count + old(self).items@.len(),
            !r ==> final(self).items@ == old(self).items@,
            !r ==> final(self).inspection_count == old(self).inspection_count,
            final(self).id == old(self).id,
            final(self).expression == old(self).expression,
            final(self).test == old(self).test,
            final(self).on_true == old(self).on_true,
            final(self).on_false == old(self).on_false,
    {
        let n = self.items.len();
        if n > 0xffff_ffff || self.inspection_count as usize > 0xffff_ffff - n {
            return false;
        }
        let mut inspected: Vec<u64> = Vec::new();
        let mut k: usize = 0;
        while k < n
            invariant
                n == self.items@.len(),
                self.items@ == old(self).items@,
                self.expression == old(self).expression,
                0 <= k <= n,
                inspected@.len() == k,
                forall|j: int| 0 <= j < k ==> self.expression.fits(#[trigger] self.items@[j] as int),
                forall|j: int|
                    0 <= j < k ==> inspected@[j] == inspect_value(
                        self.expression,
                        #[trigger] self.items@[j],
                    ),
            decreases n - k,
        {
            match self.expression.checked_eval(self.items[k]) {
                Some(v) => {
                    inspected.push(v);
                },
                None => {
                    return false;
                },
            }
            k = k + 1;
        }
        assert(inspected@ =~= old(self).items@.map_values(
            |v: u64| inspect_value(old(self).expression, v),
        ));
        self.items = inspected;
        self.inspection_count = self.inspection_count + n as u32;
        true
    }

    /// Applies a worry policy to every held item, in place.
    pub fn manage_worry(&mut self, policy: &WorryPolicy)
        requires
            policy.valid(),
        ensures
            final(self).items@ == old(self).items@.map_values(|v: u64| policy.spec_apply(v)),
            final(self).id == old(self).id,
            final(self).expression == old(self).expression,
            final(self).test == old(self).test,
            final(self).on_true == old(self).on_true,
            final(self).on_false == old(self).on_false,
            final(self).inspection_count == old(self).inspection_count,
    {
        let n = self.items.len();
        let mut k: usize = 0;
        while k < n
            invariant
                n == old(self).items@.len(),
                self.items@.len() == n,
                0 <= k <= n,
                policy.valid(),
                forall|j: int| 0 <= j < k ==> self.items@[j] == policy.spec_apply(old(self).items@[j]),
                forall|j: int| k <= j < n ==> self.items@[j] == old(self).items@[j],
                self.id == old(self).id,
                self.expression == old(self).expression,
                self.test == old(self).test,
                self.on_true == old(self).on_true,
                self.on_false == old(self).on_false,
                self.inspection_count == old(self).inspection_count,
            decreases n - k,
        {
            let v = policy.apply(self.items[k]);
            self.items.set(k, v);
            k = k + 1;
        }
        assert(self.items@ =~= old(self).items@.map_values(|v: u64| policy.spec_apply(v)));
    }

    /// The id of the agent that an item of worry `item` is thrown to.
    pub fn get_new_monkey_id(&self, item: u64) -> (r: u32)
        requires
            self.test > 0,
        ensures
            r == self.target(item),
    {
        if item % self.test == 0 {
            self.on_true
        } else {
            self.on_false
        }
    }

    /// Empties the queue and returns, in queue order, each item with the id it is thrown to.
    pub fn test_and_get_throws(&mut self) -> (r: Vec<(u32, u64)>)
        requires
            old(self).test > 0,
        ensures
            r@ == old(self).items@.map_values(|v: u64| (old(self).target(v), v)),
            final(self).items@ == Seq::<u64>::empty(),
            final(self).id == old(self).id,
            final(self).expression == old(self).expression,
            final(self).test == old(self).test,
            final(self).on_true == old(self).on_true,
            final(self).on_false == old(self).on_false,
            final(self).inspection_count == old(self).inspection_count,
    {
        let mut items: Vec<u64> = Vec::new();
        std::mem::swap(&mut items, &mut self.items);
        let mut moves: Vec<(u32, u64)> = Vec::new();
        let mut k: usize = 0;
        while k < items.len()
            invariant
                items@ == old(self).items@,
                self.test == old(self).test,
                self.on_true == old(self).on_true,
                self.on_false == old(self).on_false,
                self.test > 0,
                0 <= k <= items@.len(),
                moves@ == items@.take(k as int).map_values(|v: u64| (old(self).target(v), v)),
            decreases items@.len() - k,
        {
            let item = items[k];
            let to = self.get_new_monkey_id(item);
            moves.push((to, item));
            k = k + 1;
            assert(items@.take(k as int) =~= items@.take(k - 1).push(item));
            assert(moves@ =~= items@.take(k as int).map_values(|v: u64| (old(self).target(v), v)));
        }
        assert(items@.take(k as int) =~= items@);
        moves
    }
}

} // verus!
