use vstd::prelude::*;

use crate::monkey::{MonkeyInfo, WorryPolicy};
use crate::parser::{parse_text, MonkeyInfoParser, ParseError, ParseFailure};
use crate::simulation::{
    built_from,
    is_top_pair,
    product_of_tests,
    rounds,
    targets_exist,
    rounds_ok,
    well_formed,
    MonkeyState,
    Monkees,
};

verus! {

/// The broad kind of a failed run.
#[derive(Debug, Clone, Copy, PartialEq, Eq, Structural)]
pub enum ErrorKind {
    /// A line does not have the form of its field.
    Parse,
    /// The records do not fit together: both branches name one outcome, or a throw
    /// target names no agent, or there are fewer than two agents to score.
    Structure,
    /// The text ends inside a record.
    EndOfInput,
    /// The run needs a number larger than its integer types hold.
    Capacity,
}

/// Why a run failed.
#[derive(Debug)]
pub enum DayError {
    Parse(ParseError),
    /// Some agent throws to an id that no agent has.
    MissingTarget,
    /// The score needs at least two agents.
    TooFewMonkeys,
    /// An inspection counter or the combined divisor would not fit its integer type.
    Capacity,
}

impl DayError {
    pub fn kind(&self) -> (r: ErrorKind)
        ensures
            r == match self {
                DayError::Parse(ParseError::Syntax { .. }) => ErrorKind::Parse,
                DayError::Parse(ParseError::DuplicateBranch) => ErrorKind::Structure,
                DayError::Parse(ParseError::EndOfInput { .. }) => ErrorKind::EndOfInput,
                DayError::MissingTarget => ErrorKind::Structure,
                DayError::TooFewMonkeys => ErrorKind::Structure,
                DayError::Capacity => ErrorKind::Capacity,
            },
    {
        match self {
            DayError::Parse(ParseError::Syntax { .. }) => ErrorKind::Parse,
            DayError::Parse(ParseError::DuplicateBranch) => ErrorKind::Structure,
            DayError::Parse(ParseError::EndOfInput { .. }) => ErrorKind::EndOfInput,
            DayError::MissingTarget => ErrorKind::Structure,
            DayError::TooFewMonkeys => ErrorKind::Structure,
            DayError::Capacity => ErrorKind::Capacity,
        }
    }
}

/// `ms` is the state built from the records of `input`: ascending ids, the last
/// definition of each id.
pub open spec fn assembled(input: Seq<u8>, ms: Seq<MonkeyState>) -> bool {
    match parse_text(input) {
        Ok(defs) => well_formed(ms) && built_from(ms, defs, defs.len() as int),
        Err(_) => false,
    }
}

/// `score` is the product of the two largest inspection counters of `ms`.
pub open spec fn business_score(ms: Seq<MonkeyState>, score: u64) -> bool {
    exists|a: int, b: int| is_top_pair(ms, a, b) && score == ms[a].count * ms[b].count
}

/// The worry policy of the first part: each inspected worry is divided by 3.
pub open spec fn first_policy() -> WorryPolicy {
    WorryPolicy::DivideBy(3)
}

impl Monkees {
    /// Parses a text and gathers its agents; every throw target must name an agent.
    pub fn load(input: &[u8]) -> (r: Result<Monkees, DayError>)
        ensures
            match r {
                Ok(m) => assembled(input@, m@) && targets_exist(m@),
                Err(DayError::Parse(e)) => parse_text(input@) == Err::<
                    Seq<MonkeyState>,
                    ParseFailure,
                >(e@),
                Err(DayError::MissingTarget) => exists|ms: Seq<MonkeyState>|
                    assembled(input@, ms) && !targets_exist(ms),
                Err(_) => false,
            },
    {
        let all_monkees = match MonkeyInfoParser::read_all(input) {
            Ok(v) => v,
            Err(e) => return Err(DayError::Parse(e)),
        };
        proof {
            assert forall|q: int| 0 <= q < all_monkees@.len() implies (#[trigger] all_monkees@[q]).test
                > 0 by {
                crate::parser::lemma_records_fresh(crate::text::split_lines(input@), 0);
                assert(all_monkees@.map_values(|m: MonkeyInfo| m@)[q] == all_monkees@[q]@);
            }
        }
        let m = Monkees::new(all_monkees);
        if m.has_valid_targets() {
            Ok(m)
        } else {
            Err(DayError::MissingTarget)
        }
    }
}

/// Runs a loaded state for `n` rounds under `policy` and scores it.
fn run_and_score(monkees: &mut Monkees, n: u32, policy: &WorryPolicy) -> (r: Result<u64, DayError>)
    requires
        old(monkees).wf(),
        targets_exist(old(monkees)@),
        policy.valid(),
    ensures
        match r {
            Ok(score) => {
                &&& old(monkees)@.len() >= 2
                &&& rounds_ok(old(monkees)@, n as nat, *policy)
                &&& business_score(rounds(old(monkees)@, n as nat, *policy), score)
            },
            Err(DayError::TooFewMonkeys) => old(monkees)@.len() < 2,
            Err(DayError::Capacity) => old(monkees)@.len() >= 2 && !rounds_ok(
                old(monkees)@,
                n as nat,
                *policy,
            ),
            Err(_) => false,
        },
{
    if monkees.len() < 2 {
        return Err(DayError::TooFewMonkeys);
    }
    if !monkees.run_rounds(n, policy) {
        return Err(DayError::Capacity);
    }
    Ok(monkees.get_monkey_business())
}

/// What the first part returns for `input`.
pub open spec fn first_part_outcome(input: Seq<u8>, r: Result<u64, DayError>) -> bool {
    match r {
        Ok(score) => exists|ms: Seq<MonkeyState>|
            {
                &&& assembled(input, ms)
                &&& targets_exist(ms)
                &&& ms.len() >= 2
                &&& rounds_ok(ms, 20, first_policy())
                &&& business_score(rounds(ms, 20, first_policy()), score)
            },
        Err(DayError::Parse(e)) => parse_text(input) == Err::<Seq<MonkeyState>, ParseFailure>(
            e@,
        ),
        Err(DayError::MissingTarget) => exists|ms: Seq<MonkeyState>|
            assembled(input, ms) && !targets_exist(ms),
        Err(DayError::TooFewMonkeys) => exists|ms: Seq<MonkeyState>|
            assembled(input, ms) && targets_exist(ms) && ms.len() < 2,
        Err(DayError::Capacity) => exists|ms: Seq<MonkeyState>|
            assembled(input, ms) && targets_exist(ms) && ms.len() >= 2 && !rounds_ok(
                ms,
                20,
                first_policy(),
            ),
    }
}

/// The score after 20 rounds in which every inspected worry is divided by 3.
pub fn part1(input: &[u8]) -> (r: Result<u64, DayError>)
    ensures
        first_part_outcome(input@, r),
{
    let mut monkees = match Monkees::load(input) {
        Ok(m) => m,
        Err(e) => return Err(e),
    };
    run_and_score(&mut monkees, 20, &WorryPolicy::DivideBy(3))
}

/// What the second part returns for `input`.
pub open spec fn second_part_outcome(input: Seq<u8>, r: Result<u64, DayError>) -> bool {
    match r {
        Ok(score) => exists|ms: Seq<MonkeyState>|
            {
                &&& assembled(input, ms)
                &&& targets_exist(ms)
                &&& ms.len() >= 2
                &&& product_of_tests(ms) <= u64::MAX
                &&& rounds_ok(ms, 10000, WorryPolicy::Modulo(product_of_tests(ms) as u64))
                &&& business_score(
                    rounds(ms, 10000, WorryPolicy::Modulo(product_of_tests(ms) as u64)),
                    score,
                )
            },
        Err(DayError::Parse(e)) => parse_text(input) == Err::<Seq<MonkeyState>, ParseFailure>(
            e@,
        ),
        Err(DayError::MissingTarget) => exists|ms: Seq<MonkeyState>|
            assembled(input, ms) && !targets_exist(ms),
        Err(DayError::TooFewMonkeys) => exists|ms: Seq<MonkeyState>|
            assembled(input, ms) && targets_exist(ms) && ms.len() < 2,
        Err(DayError::Capacity) => exists|ms: Seq<MonkeyState>|
            assembled(input, ms) && targets_exist(ms) && (product_of_tests(ms) > u64::MAX || (
            ms.len() >= 2 && !rounds_ok(
                ms,
                10000,
                WorryPolicy::Modulo(product_of_tests(ms) as u64),
            ))),
    }
}

/// The score after 10,000 rounds in which every inspected worry is reduced modulo the
/// product of all test divisors.
pub fn part2(input: &[u8]) -> (r: Result<u64, DayError>)
    ensures
        second_part_outcome(input@, r),
{
    let mut monkees = match Monkees::load(input) {
        Ok(m) => m,
        Err(e) => return Err(e),
    };
    let ghost start = monkees@;
    let modulus = match monkees.get_modulus() {
        Some(m) => m,
        None => return Err(DayError::Capacity),
    };
    proof {
        crate::simulation::lemma_product_positive(start);
    }
    run_and_score(&mut monkees, 10000, &WorryPolicy::Modulo(modulus))
}

/// Runs are deterministic: two runs on the same text, under the same policy and for
/// the same number of rounds, end with the same inspection counters and the same
/// item queues.
pub proof fn lemma_runs_agree(
    input: Seq<u8>,
    a: Seq<MonkeyState>,
    b: Seq<MonkeyState>,
    n: nat,
    p: WorryPolicy,
)
    requires
        assembled(input, a),
        assembled(input, b),
    ensures
        rounds(a, n, p) == rounds(b, n, p),
        rounds_ok(a, n, p) == rounds_ok(b, n, p),
        forall|j: int|
            0 <= j < a.len() ==> {
                &&& (#[trigger] rounds(a, n, p)[j]).count == rounds(b, n, p)[j].count
                &&& rounds(a, n, p)[j].items == rounds(b, n, p)[j].items
            },
{
    let defs = parse_text(input)->Ok_0;
    crate::simulation::lemma_built_unique(a, b, defs, defs.len() as int);
}

} // verus!
