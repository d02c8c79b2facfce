use vstd::prelude::*;
use vstd::string::StringSliceAdditionalSpecFns;

use crate::day11::{first_part_outcome, part1, part2, second_part_outcome, DayError};
use crate::text::{decimal, find, find_byte, has_prefix, parse_u64, starts_with};

verus! {

/// A puzzle part, named by year, day and part number.
#[derive(Debug, Clone, Copy, PartialEq, Eq, Hash, Structural)]
pub struct AocProblem {
    pub year: u32,
    pub day: u32,
    pub part: u8,
}

/// An input file found for a puzzle part.
#[derive(Debug)]
pub struct AocInput {
    pub year: u32,
    pub day: u32,
    pub part: u8,
    pub input: String,
}

/// The solvers that a problem can be registered with.
#[derive(Debug, Clone, Copy, PartialEq, Eq, Structural)]
pub enum AocFunction {
    /// 2022 day 11, first part.
    MonkeyBusiness,
    /// 2022 day 11, second part.
    ManagedMonkeyBusiness,
}

impl AocFunction {
    /// Runs the solver on the text of an input file.
    pub fn run(&self, input: &[u8]) -> (r: Result<u64, DayError>)
        ensures
            match self {
                AocFunction::MonkeyBusiness => first_part_outcome(input@, r),
                AocFunction::ManagedMonkeyBusiness => second_part_outcome(input@, r),
            },
    {
        match self {
            AocFunction::MonkeyBusiness => part1(input),
            AocFunction::ManagedMonkeyBusiness => part2(input),
        }
    }
}

/// The solver registered last for `p` among `entries`.
pub open spec fn lookup(entries: Seq<(AocProblem, AocFunction)>, p: AocProblem) -> Option<
    AocFunction,
>
    decreases entries.len(),
{
    if entries.len() == 0 {
        None
    } else if entries.last().0 == p {
        Some(entries.last().1)
    } else {
        lookup(entries.drop_last(), p)
    }
}

/// No problem occurs twice among `entries`.
pub open spec fn unique_problems(entries: Seq<(AocProblem, AocFunction)>) -> bool {
    forall|i: int, j: int| 0 <= i < j < entries.len() ==> entries[i].0 != entries[j].0
}

/// The registry of solvers, and the directory that their input files are under.
#[derive(Debug)]
pub struct AocService {
    pub input_directory: String,
    pub problem_answers: Vec<(AocProblem, AocFunction)>,
}

impl View for AocService {
    type V = Seq<(AocProblem, AocFunction)>;

    open spec fn view(&self) -> Seq<(AocProblem, AocFunction)> {
        self.problem_answers@
    }
}

impl AocService {
    /// No problem is registered twice.
    pub open spec fn wf(&self) -> bool {
        unique_problems(self@)
    }

    pub fn new(input_directory: String) -> (r: AocService)
        ensures
            r.input_directory == input_directory,
            r@ == Seq::<(AocProblem, AocFunction)>::empty(),
            r.wf(),
    {
        AocService { input_directory, problem_answers: Vec::new() }
    }

    /// A registry with every solver of this library.
    pub fn create_default(input_directory: String) -> (r: AocService)
        ensures
            r.input_directory == input_directory,
            r.wf(),
            forall|p: AocProblem|
                #[trigger] lookup(r@, p) == if p == (AocProblem { year: 2022, day: 11, part: 1 }) {
                    Some(AocFunction::MonkeyBusiness)
                } else if p == (AocProblem { year: 2022, day: 11, part: 2 }) {
                    Some(AocFunction::ManagedMonkeyBusiness)
                } else {
                    None
                },
    {
        let mut service = AocService::new(input_directory);
        crate::service::configure_service(&mut service);
        assert forall|p: AocProblem| #[trigger] lookup(service@, p) == if p == (AocProblem {
            year: 2022,
            day: 11,
            part: 1,
        }) {
            Some(AocFunction::MonkeyBusiness)
        } else if p == (AocProblem { year: 2022, day: 11, part: 2 }) {
            Some(AocFunction::ManagedMonkeyBusiness)
        } else {
            None
        } by {
            assert(lookup(Seq::<(AocProblem, AocFunction)>::empty(), p) == None::<AocFunction>);
        }
        service
    }

    /// Registers `answer` for a problem, replacing an earlier registration of it.
    pub fn register_answer(&mut self, year: u32, day: u32, part: u8, answer: AocFunction)
        requires
            old(self).wf(),
        ensures
            final(self).wf(),
            final(self).input_directory == old(self).input_directory,
            forall|p: AocProblem|
                #[trigger] lookup(final(self)@, p) == if p == (AocProblem { year, day, part }) {
                    Some(answer)
                } else {
                    lookup(old(self)@, p)
                },
            old(self)@.len() <= final(self)@.len() <= old(self)@.len() + 1,
    {
        let problem = AocProblem { year, day, part };
        let n = self.problem_answers.len();
        let mut i: usize = 0;
        while i < n
            invariant
                n == self@.len(),
                self@ == old(self)@,
                unique_problems(old(self)@),
                self.input_directory == old(self).input_directory,
                problem == (AocProblem { year, day, part }),
                0 <= i <= n,
                forall|k: int| 0 <= k < i ==> self@[k].0 != problem,
            decreases n - i,
        {
            if self.problem_answers[i].0 == problem {
                self.problem_answers.set(i, (problem, answer));
                proof {
                    assert forall|p: AocProblem| #[trigger] lookup(self@, p) == if p == problem {
                        Some(answer)
                    } else {
                        lookup(old(self)@, p)
                    } by {
                        lemma_lookup_replace(old(self)@, i as int, answer, p);
                    }
                }
                return;
            }
            i = i + 1;
        }
        self.problem_answers.push((problem, answer));
        proof {
            assert forall|p: AocProblem| #[trigger] lookup(self@, p) == if p == problem {
                Some(answer)
            } else {
                lookup(old(self)@, p)
            } by {
                assert(self@.drop_last() =~= old(self)@);
            }
        }
    }

    /// The solver registered for a problem.
    pub fn find_answer(&self, year: u32, day: u32, part: u8) -> (r: Option<AocFunction>)
        ensures
            r == lookup(self@, AocProblem { year, day, part }),
    {
        let problem = AocProblem { year, day, part };
        let mut i: usize = self.problem_answers.len();
        assert(self@.take(i as int) =~= self@);
        while i > 0
            invariant
                i <= self@.len(),
                self@.len() == self.problem_answers@.len(),
                problem == (AocProblem { year, day, part }),
                lookup(self@, problem) == lookup(self@.take(i as int), problem),
            decreases i,
        {
            let ghost pre = self@.take(i as int);
            assert(pre.drop_last() =~= self@.take(i - 1));
            assert(pre.last() == self@[i - 1]);
            let entry = self.problem_answers[i - 1];
            if entry.0 == problem {
                assert(lookup(pre, problem) == Some(entry.1));
                return Some(entry.1);
            }
            i = i - 1;
        }
        assert(self@.take(0) =~= Seq::<(AocProblem, AocFunction)>::empty());
        None
    }

    /// The registered problems, in order of first registration.
    pub fn list_problems(&self) -> (r: Vec<AocProblem>)
        ensures
            r@ == self@.map_values(|e: (AocProblem, AocFunction)| e.0),
    {
        let mut r: Vec<AocProblem> = Vec::new();
        let mut i: usize = 0;
        while i < self.problem_answers.len()
            invariant
                i <= self@.len(),
                self@.len() == self.problem_answers@.len(),
                r@ == self@.take(i as int).map_values(|e: (AocProblem, AocFunction)| e.0),
            decreases self@.len() - i,
        {
            r.push(self.problem_answers[i].0);
            i = i + 1;
            assert(r@ =~= self@.take(i as int).map_values(|e: (AocProblem, AocFunction)| e.0));
        }
        assert(self@.take(i as int) =~= self@);
        r
    }
}

proof fn lemma_lookup_replace(
    entries: Seq<(AocProblem, AocFunction)>,
    i: int,
    answer: AocFunction,
    p: AocProblem,
)
    requires
        0 <= i < entries.len(),
        unique_problems(entries),
    ensures
        lookup(entries.update(i, (entries[i].0, answer)), p) == if p == entries[i].0 {
            Some(answer)
        } else {
            lookup(entries, p)
        },
    decreases entries.len(),
{
    let u = entries.update(i, (entries[i].0, answer));
    if i == entries.len() - 1 {
        assert(u.drop_last() =~= entries.drop_last());
    } else {
        assert(u.drop_last() =~= entries.drop_last().update(i, (entries[i].0, answer)));
        lemma_lookup_replace(entries.drop_last(), i, answer, p);
    }
}

/// Registers the solvers of the 2022 puzzles.
pub fn configure_service(aoc_service: &mut AocService)
    requires
        old(aoc_service).wf(),
    ensures
        final(aoc_service).wf(),
        final(aoc_service).input_directory == old(aoc_service).input_directory,
        final(aoc_service)@.len() <= old(aoc_service)@.len() + 2,
        forall|p: AocProblem|
            #[trigger] lookup(final(aoc_service)@, p) == if p == (AocProblem {
                year: 2022,
                day: 11,
                part: 1,
            }) {
                Some(AocFunction::MonkeyBusiness)
            } else if p == (AocProblem { year: 2022, day: 11, part: 2 }) {
                Some(AocFunction::ManagedMonkeyBusiness)
            } else {
                lookup(old(aoc_service)@, p)
            },
{
    aoc_service.register_answer(2022, 11, 1, AocFunction::MonkeyBusiness);
    aoc_service.register_answer(2022, 11, 2, AocFunction::ManagedMonkeyBusiness);
}

/// The request for one answer page.
#[derive(Debug, Clone, Copy, PartialEq, Eq, Hash, Structural)]
pub struct AocAnswerRequest {
    pub year: u32,
    pub day: u32,
    pub part: u8,
}

/// The day and part of an input file named `day_<day>_<part>.txt`, or with a label,
/// `day_<day>_<part>_<label>.txt`.
pub open spec fn input_file_name(name: Seq<u8>) -> Option<(u32, u8)> {
    if has_prefix(name, "day_".spec_bytes()) && name.len() >= 8 && has_prefix(
        name.skip(name.len() - 4),
        ".txt".spec_bytes(),
    ) {
        let mid = name.subrange(4, name.len() - 4);
        let c1 = find(mid, 95) as int;
        let rest = mid.skip(c1 + 1);
        let c2 = find(rest, 95) as int;
        if c1 < mid.len() && (c2 == rest.len() || c2 + 1 < rest.len()) {
            match (decimal(mid.take(c1)), decimal(rest.take(c2))) {
                (Some(d), Some(p)) => if d <= u32::MAX && p <= u8::MAX {
                    Some((d as u32, p as u8))
                } else {
                    None
                },
                _ => None,
            }
        } else {
            None
        }
    } else {
        None
    }
}

/// The year that a directory of exactly four digits is named after.
pub open spec fn year_directory(name: Seq<u8>) -> Option<u32> {
    if name.len() == 4 {
        match decimal(name) {
            Some(y) => Some(y as u32),
            None => None,
        }
    } else {
        None
    }
}

/// Reads the day and part from the name of an input file.
pub fn parse_input_file_name(name: &[u8]) -> (r: Option<(u32, u8)>)
    ensures
        r == input_file_name(name@),
{
    let n = name.len();
    if !starts_with(name, "day_".as_bytes()) || n < 8 {
        return None;
    }
    let tail = &name[n - 4..n];
    assert(tail@ =~= name@.skip(n - 4));
    if !starts_with(tail, ".txt".as_bytes()) {
        return None;
    }
    let mid = &name[4..n - 4];
    let c1 = find_byte(mid, 0, 95);
    assert(mid@.skip(0) =~= mid@);
    if c1 >= mid.len() {
        return None;
    }
    let m = mid.len();
    let rest = &mid[c1 + 1..m];
    assert(rest@ =~= mid@.skip(c1 + 1));
    let c2 = find_byte(rest, 0, 95);
    assert(rest@.skip(0) =~= rest@);
    if !(c2 == rest.len() || (c2 < rest.len() && rest.len() - c2 > 1)) {
        return None;
    }
    let day_digits = &mid[0..c1];
    let part_digits = &rest[0..c2];
    assert(day_digits@ =~= mid@.take(c1 as int));
    assert(part_digits@ =~= rest@.take(c2 as int));
    match (parse_u64(day_digits), parse_u64(part_digits)) {
        (Some(d), Some(p)) => if d <= 0xffff_ffff && p <= 0xff {
            Some((d as u32, p as u8))
        } else {
            None
        },
        _ => None,
    }
}

/// Reads the year from a directory name of exactly four digits.
pub fn parse_year_directory(name: &[u8]) -> (r: Option<u32>)
    ensures
        r == year_directory(name@),
{
    if name.len() != 4 {
        return None;
    }
    proof {
        if decimal(name@) is Some {
            crate::text::lemma_four_digits_bound(name@);
        }
    }
    match parse_u64(name) {
        Some(y) => Some(y as u32),
        None => None,
    }
}

} // verus!
