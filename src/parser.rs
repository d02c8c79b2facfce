use vstd::prelude::*;
use vstd::slice::slice_to_vec;
use vstd::string::StringSliceAdditionalSpecFns;

use crate::expression::Expression;
use crate::monkey::MonkeyInfo;
use crate::simulation::MonkeyState;
use crate::text::{
    decimal_u32,
    decimal_u64,
    find,
    find_byte,
    has_prefix,
    is_blank,
    is_blank_line,
    parse_u64,
    split_into_lines,
    split_lines,
    starts_with,
    trim,
    trim_bytes,
};

verus! {

/// The field of an agent record that a parser step expects.
#[derive(Debug, Clone, Copy, PartialEq, Eq, Structural)]
pub enum Field {
    Monkey,
    StartingItems,
    Operation,
    Test,
    TestHandler,
}

/// The name of a field as error messages give it.
pub open spec fn field_name(f: Field) -> Seq<char> {
    match f {
        Field::Monkey => "monkey"@,
        Field::StartingItems => "starting items"@,
        Field::Operation => "operation"@,
        Field::Test => "test"@,
        Field::TestHandler => "test handler"@,
    }
}

impl Field {
    /// The field's name as error messages give it.
    pub fn name(&self) -> (r: &'static str)
        ensures
            r@ == field_name(*self),
    {
        match self {
            Field::Monkey => "monkey",
            Field::StartingItems => "starting items",
            Field::Operation => "operation",
            Field::Test => "test",
            Field::TestHandler => "test handler",
        }
    }
}

/// Why a text is not a valid sequence of agent records.
pub enum ParseFailure {
    /// The line does not have the form of the expected field.
    Syntax(Field, Seq<u8>),
    /// Both branch lines of a record name the same outcome.
    DuplicateBranch,
    /// The text ends before the expected field.
    EndOfInput(Field),
}

/// A parse error; its `line` is the offending line as it stands in the text.
#[derive(Debug)]
pub enum ParseError {
    Syntax { field: Field, line: Vec<u8> },
    DuplicateBranch,
    EndOfInput { field: Field },
}

impl View for ParseError {
    type V = ParseFailure;

    open spec fn view(&self) -> ParseFailure {
        match self {
            ParseError::Syntax { field, line } => ParseFailure::Syntax(*field, line@),
            ParseError::DuplicateBranch => ParseFailure::DuplicateBranch,
            ParseError::EndOfInput { field } => ParseFailure::EndOfInput(*field),
        }
    }
}

/// What follows prefix `p` in the trimmed line `s`.
pub open spec fn after_prefix(s: Seq<u8>, p: Seq<u8>) -> Option<Seq<u8>> {
    if has_prefix(trim(s), p) {
        Some(trim(s).skip(p.len() as int))
    } else {
        None
    }
}

/// `Monkey <id>:`
pub open spec fn monkey_line(s: Seq<u8>) -> Option<u32> {
    match after_prefix(s, "Monkey ".spec_bytes()) {
        Some(r) => if r.len() > 0 && r.last() == 58 {
            decimal_u32(r.drop_last())
        } else {
            None
        },
        None => None,
    }
}

/// A comma-separated list of decimals, each with optional surrounding whitespace.
pub open spec fn item_list(r: Seq<u8>) -> Option<Seq<u64>>
    decreases r.len(),
{
    let c = find(r, 44);
    match decimal_u64(trim(r.take(c as int))) {
        None => None,
        Some(v) => if c >= r.len() {
            Some(seq![v])
        } else {
            match item_list(r.skip(c as int + 1)) {
                Some(rest) => Some(seq![v] + rest),
                None => None,
            }
        },
    }
}

/// `Starting items: <decimal>, <decimal>, ...`
pub open spec fn items_line(s: Seq<u8>) -> Option<Seq<u64>> {
    match after_prefix(s, "Starting items:".spec_bytes()) {
        Some(r) => item_list(r),
        None => None,
    }
}

/// `old` or a decimal constant.
pub open spec fn operand(t: Seq<u8>) -> Option<Expression> {
    if t == "old".spec_bytes() {
        Some(Expression::Old)
    } else {
        match decimal_u64(t) {
            Some(n) => Some(Expression::Number(n)),
            None => None,
        }
    }
}

/// `Operation: new = <operand> <op> <operand>` with `<op>` one of `+` and `*`.
pub open spec fn operation_line(s: Seq<u8>) -> Option<Expression> {
    match after_prefix(s, "Operation: new = ".spec_bytes()) {
        Some(r) => {
            let c = find(r, 32) as int;
            if c + 2 < r.len() && r[c + 2] == 32 {
                match (operand(r.take(c)), operand(r.skip(c + 3))) {
                    (Some(a), Some(b)) => if r[c + 1] == 43 {
                        Some(Expression::Add(Box::new(a), Box::new(b)))
                    } else if r[c + 1] == 42 {
                        Some(Expression::Multiply(Box::new(a), Box::new(b)))
                    } else {
                        None
                    },
                    _ => None,
                }
            } else {
                None
            }
        },
        None => None,
    }
}

/// `Test: divisible by <positive decimal>`
pub open spec fn test_line(s: Seq<u8>) -> Option<u64> {
    match after_prefix(s, "Test: divisible by ".spec_bytes()) {
        Some(r) => match decimal_u64(r) {
            Some(d) => if d > 0 {
                Some(d)
            } else {
                None
            },
            None => None,
        },
        None => None,
    }
}

/// `If true: throw to monkey <id>` or `If false: throw to monkey <id>`.
pub open spec fn handler_line(s: Seq<u8>) -> Option<(bool, u32)> {
    match after_prefix(s, "If true: throw to monkey ".spec_bytes()) {
        Some(r) => match decimal_u32(r) {
            Some(id) => Some((true, id)),
            None => None,
        },
        None => match after_prefix(s, "If false: throw to monkey ".spec_bytes()) {
            Some(r) => match decimal_u32(r) {
                Some(id) => Some((false, id)),
                None => None,
            },
            None => None,
        },
    }
}

pub open spec fn prepend_items(a: Seq<u64>, o: Option<Seq<u64>>) -> Option<Seq<u64>> {
    match o {
        Some(rest) => Some(a + rest),
        None => None,
    }
}

/// What follows prefix `p` in the trimmed line `s`.
fn strip_field_prefix<'a>(s: &'a [u8], p: &[u8]) -> (r: Option<&'a [u8]>)
    ensures
        match r {
            Some(x) => after_prefix(s@, p@) == Some(x@),
            None => after_prefix(s@, p@) is None,
        },
{
    let t = trim_bytes(s);
    if starts_with(t, p) {
        let n = t.len();
        let x = &t[p.len()..n];
        assert(x@ =~= t@.skip(p@.len() as int));
        Some(x)
    } else {
        None
    }
}

fn parse_u32(s: &[u8]) -> (r: Option<u32>)
    ensures
        r == decimal_u32(s@),
{
    match parse_u64(s) {
        Some(v) => if v <= 0xffff_ffff {
            Some(v as u32)
        } else {
            None
        },
        None => None,
    }
}

/// Byte-wise equality of two slices.
fn same_bytes(a: &[u8], b: &[u8]) -> (r: bool)
    ensures
        r == (a@ == b@),
{
    if a.len() != b.len() {
        return false;
    }
    let r = starts_with(a, b);
    assert(a@.take(a@.len() as int) =~= a@);
    r
}

fn read_monkey_line(line: &[u8]) -> (r: Option<u32>)
    ensures
        r == monkey_line(line@),
{
    match strip_field_prefix(line, "Monkey ".as_bytes()) {
        Some(rest) => {
            let n = rest.len();
            if n > 0 && rest[n - 1] == 58 {
                let d = &rest[0..n - 1];
                assert(d@ =~= rest@.drop_last());
                parse_u32(d)
            } else {
                None
            }
        },
        None => None,
    }
}

fn read_item_list(r: &[u8]) -> (res: Option<Vec<u64>>)
    ensures
        match res {
            Some(v) => item_list(r@) == Some(v@),
            None => item_list(r@) is None,
        },
{
    let mut items: Vec<u64> = Vec::new();
    let mut p: usize = 0;
    assert(r@.skip(0) =~= r@);
    loop
        invariant
            p <= r@.len(),
            item_list(r@) == prepend_items(items@, item_list(r@.skip(p as int))),
        decreases r@.len() - p,
    {
        let c = find_byte(r, p, 44);
        let ghost rest = r@.skip(p as int);
        let field = &r[p..c];
        assert(field@ =~= rest.take(find(rest, 44) as int));
        match parse_u64(trim_bytes(field)) {
            None => {
                return None;
            },
            Some(v) => {
                if c >= r.len() {
                    assert(items@ + seq![v] =~= items@.push(v));
                    items.push(v);
                    return Some(items);
                }
                assert(rest.skip(c - p + 1) =~= r@.skip(c + 1));
                let ghost before = items@;
                items.push(v);
                proof {
                    match item_list(r@.skip(c + 1)) {
                        Some(tail) => {
                            assert(before + (seq![v] + tail) =~= items@ + tail);
                        },
                        None => {},
                    }
                }
                p = c + 1;
            },
        }
    }
}

fn read_starting_items(line: &[u8]) -> (r: Option<Vec<u64>>)
    ensures
        match r {
            Some(v) => items_line(line@) == Some(v@),
            None => items_line(line@) is None,
        },
{
    match strip_field_prefix(line, "Starting items:".as_bytes()) {
        Some(rest) => read_item_list(rest),
        None => None,
    }
}

fn read_operand(t: &[u8]) -> (r: Option<Expression>)
    ensures
        r == operand(t@),
{
    if same_bytes(t, "old".as_bytes()) {
        Some(Expression::Old)
    } else {
        match parse_u64(t) {
            Some(n) => Some(Expression::Number(n)),
            None => None,
        }
    }
}

fn read_operation(line: &[u8]) -> (r: Option<Expression>)
    ensures
        r == operation_line(line@),
{
    match strip_field_prefix(line, "Operation: new = ".as_bytes()) {
        Some(rest) => {
            let n = rest.len();
            let c = find_byte(rest, 0, 32);
            assert(rest@.skip(0) =~= rest@);
            if c < n && n - c > 2 && rest[c + 2] == 32 {
                let left = &rest[0..c];
                let right = &rest[c + 3..n];
                assert(left@ =~= rest@.take(c as int));
                assert(right@ =~= rest@.skip(c + 3));
                match (read_operand(left), read_operand(right)) {
                    (Some(a), Some(b)) => {
                        if rest[c + 1] == 43 {
                            Some(Expression::Add(Box::new(a), Box::new(b)))
                        } else if rest[c + 1] == 42 {
                            Some(Expression::Multiply(Box::new(a), Box::new(b)))
                        } else {
                            None
                        }
                    },
                    _ => None,
                }
            } else {
                None
            }
        },
        None => None,
    }
}

fn read_test(line: &[u8]) -> (r: Option<u64>)
    ensures
        r == test_line(line@),
{
    match strip_field_prefix(line, "Test: divisible by ".as_bytes()) {
        Some(rest) => match parse_u64(rest) {
            Some(d) => if d > 0 {
                Some(d)
            } else {
                None
            },
            None => None,
        },
        None => None,
    }
}

fn read_test_handler(line: &[u8]) -> (r: Option<(bool, u32)>)
    ensures
        r == handler_line(line@),
{
    match strip_field_prefix(line, "If true: throw to monkey ".as_bytes()) {
        Some(rest) => match parse_u32(rest) {
            Some(id) => Some((true, id)),
            None => None,
        },
        None => match strip_field_prefix(line, "If false: throw to monkey ".as_bytes()) {
            Some(rest) => match parse_u32(rest) {
                Some(id) => Some((false, id)),
                None => None,
            },
            None => None,
        },
    }
}

/// The line at position `k`, or the end of the text where field `f` was expected.
pub open spec fn line_at(ls: Seq<Seq<u8>>, k: int, f: Field) -> Result<Seq<u8>, ParseFailure> {
    if 0 <= k < ls.len() {
        Ok(ls[k])
    } else {
        Err(ParseFailure::EndOfInput(f))
    }
}

/// The two branch lines of a record: the targets for a true and a false test.
pub open spec fn branches(ls: Seq<Seq<u8>>, k: int) -> Result<(u32, u32), ParseFailure> {
    match line_at(ls, k, Field::TestHandler) {
        Err(e) => Err(e),
        Ok(l1) => match handler_line(l1) {
            None => Err(ParseFailure::Syntax(Field::TestHandler, l1)),
            Some(h1) => match line_at(ls, k + 1, Field::TestHandler) {
                Err(e) => Err(e),
                Ok(l2) => match handler_line(l2) {
                    None => Err(ParseFailure::Syntax(Field::TestHandler, l2)),
                    Some(h2) => if h1.0 == h2.0 {
                        Err(ParseFailure::DuplicateBranch)
                    } else if h1.0 {
                        Ok((h1.1, h2.1))
                    } else {
                        Ok((h2.1, h1.1))
                    },
                },
            },
        },
    }
}

/// The test line and the branch lines of a record.
pub open spec fn routing(ls: Seq<Seq<u8>>, k: int) -> Result<(u64, u32, u32), ParseFailure> {
    match line_at(ls, k, Field::Test) {
        Err(e) => Err(e),
        Ok(l) => match test_line(l) {
            None => Err(ParseFailure::Syntax(Field::Test, l)),
            Some(d) => match branches(ls, k + 1) {
                Err(e) => Err(e),
                Ok(b) => Ok((d, b.0, b.1)),
            },
        },
    }
}

/// The agent record whose first line is at position `i`.
pub open spec fn record(ls: Seq<Seq<u8>>, i: int) -> Result<MonkeyState, ParseFailure> {
    match line_at(ls, i, Field::Monkey) {
        Err(e) => Err(e),
        Ok(l0) => match monkey_line(l0) {
            None => Err(ParseFailure::Syntax(Field::Monkey, l0)),
            Some(id) => match line_at(ls, i + 1, Field::StartingItems) {
                Err(e) => Err(e),
                Ok(l1) => match items_line(l1) {
                    None => Err(ParseFailure::Syntax(Field::StartingItems, l1)),
                    Some(items) => match line_at(ls, i + 2, Field::Operation) {
                        Err(e) => Err(e),
                        Ok(l2) => match operation_line(l2) {
                            None => Err(ParseFailure::Syntax(Field::Operation, l2)),
                            Some(expression) => match routing(ls, i + 3) {
                                Err(e) => Err(e),
                                Ok(r) => Ok(
                                    MonkeyState {
                                        id,
                                        items,
                                        expression,
                                        test: r.0,
                                        on_true: r.1,
                                        on_false: r.2,
                                        count: 0,
                                    },
                                ),
                            },
                        },
                    },
                },
            },
        },
    }
}

/// The records of the lines from position `i` on: blank lines between records are
/// skipped, and each record takes six lines.
pub open spec fn records_from(ls: Seq<Seq<u8>>, i: int) -> Result<Seq<MonkeyState>, ParseFailure>
    decreases ls.len() - i,
{
    if i < 0 || i >= ls.len() {
        Ok(seq![])
    } else if is_blank(ls[i]) {
        records_from(ls, i + 1)
    } else {
        match record(ls, i) {
            Err(e) => Err(e),
            Ok(m) => match records_from(ls, i + 6) {
                Ok(rest) => Ok(seq![m] + rest),
                Err(e) => Err(e),
            },
        }
    }
}

/// The records of a whole text.
pub open spec fn parse_text(s: Seq<u8>) -> Result<Seq<MonkeyState>, ParseFailure> {
    records_from(split_lines(s), 0)
}

pub open spec fn lines_view(lines: &[&[u8]]) -> Seq<Seq<u8>> {
    lines@.map_values(|l: &[u8]| l@)
}

pub open spec fn prepend_record(m: MonkeyState, r: Result<Seq<MonkeyState>, ParseFailure>) -> Result<
    Seq<MonkeyState>,
    ParseFailure,
> {
    match r {
        Ok(rest) => Ok(seq![m] + rest),
        Err(e) => Err(e),
    }
}

/// Reads agent records from the lines of a text.
pub struct MonkeyInfoParser {}

impl MonkeyInfoParser {
    /// The line at `*pos`, moving past it; the end of the text where field `field`
    /// was expected is an error.
    fn read_next_line<'a>(lines: &[&'a [u8]], pos: &mut usize, field: Field) -> (r: Result<
        &'a [u8],
        ParseError,
    >)
        ensures
            match r {
                Ok(l) => line_at(lines_view(lines), *old(pos) as int, field) == Ok::<
                    Seq<u8>,
                    ParseFailure,
                >(l@) && *final(pos) == *old(pos) + 1 && *final(pos) <= lines@.len(),
                Err(e) => line_at(lines_view(lines), *old(pos) as int, field) == Err::<
                    Seq<u8>,
                    ParseFailure,
                >(e@),
            },
    {
        if *pos < lines.len() {
            let l = lines[*pos];
            *pos = *pos + 1;
            Ok(l)
        } else {
            Err(ParseError::EndOfInput { field })
        }
    }

    fn read_branches(lines: &[&[u8]], pos: &mut usize) -> (r: Result<(u32, u32), ParseError>)
        ensures
            match r {
                Ok(b) => branches(lines_view(lines), *old(pos) as int) == Ok::<
                    (u32, u32),
                    ParseFailure,
                >(b) && *final(pos) == *old(pos) + 2 && *final(pos) <= lines@.len(),
                Err(e) => branches(lines_view(lines), *old(pos) as int) == Err::<
                    (u32, u32),
                    ParseFailure,
                >(e@),
            },
    {
        let l1 = match Self::read_next_line(lines, pos, Field::TestHandler) {
            Ok(l) => l,
            Err(e) => return Err(e),
        };
        let h1 = match read_test_handler(l1) {
            Some(h) => h,
            None => return Err(ParseError::Syntax { field: Field::TestHandler, line: slice_to_vec(l1) }),
        };
        let l2 = match Self::read_next_line(lines, pos, Field::TestHandler) {
            Ok(l) => l,
            Err(e) => return Err(e),
        };
        let h2 = match read_test_handler(l2) {
            Some(h) => h,
            None => return Err(ParseError::Syntax { field: Field::TestHandler, line: slice_to_vec(l2) }),
        };
        if h1.0 == h2.0 {
            Err(ParseError::DuplicateBranch)
        } else if h1.0 {
            Ok((h1.1, h2.1))
        } else {
            Ok((h2.1, h1.1))
        }
    }

    fn read_routing(lines: &[&[u8]], pos: &mut usize) -> (r: Result<(u64, u32, u32), ParseError>)
        ensures
            match r {
                Ok(t) => routing(lines_view(lines), *old(pos) as int) == Ok::<
                    (u64, u32, u32),
                    ParseFailure,
                >(t) && *final(pos) == *old(pos) + 3 && *final(pos) <= lines@.len(),
                Err(e) => routing(lines_view(lines), *old(pos) as int) == Err::<
                    (u64, u32, u32),
                    ParseFailure,
                >(e@),
            },
    {
        let l = match Self::read_next_line(lines, pos, Field::Test) {
            Ok(l) => l,
            Err(e) => return Err(e),
        };
        let d = match read_test(l) {
            Some(d) => d,
            None => return Err(ParseError::Syntax { field: Field::Test, line: slice_to_vec(l) }),
        };
        match Self::read_branches(lines, pos) {
            Ok(b) => Ok((d, b.0, b.1)),
            Err(e) => Err(e),
        }
    }

    fn read_record(lines: &[&[u8]], pos: &mut usize) -> (r: Result<MonkeyInfo, ParseError>)
        ensures
            match r {
                Ok(m) => record(lines_view(lines), *old(pos) as int) == Ok::<
                    MonkeyState,
                    ParseFailure,
                >(m@) && *final(pos) == *old(pos) + 6 && *final(pos) <= lines@.len(),
                Err(e) => record(lines_view(lines), *old(pos) as int) == Err::<
                    MonkeyState,
                    ParseFailure,
                >(e@),
            },
    {
        let l0 = match Self::read_next_line(lines, pos, Field::Monkey) {
            Ok(l) => l,
            Err(e) => return Err(e),
        };
        let id = match read_monkey_line(l0) {
            Some(id) => id,
            None => return Err(ParseError::Syntax { field: Field::Monkey, line: slice_to_vec(l0) }),
        };
        let l1 = match Self::read_next_line(lines, pos, Field::StartingItems) {
            Ok(l) => l,
            Err(e) => return Err(e),
        };
        let items = match read_starting_items(l1) {
            Some(v) => v,
            None => return Err(
                ParseError::Syntax { field: Field::StartingItems, line: slice_to_vec(l1) },
            ),
        };
        let l2 = match Self::read_next_line(lines, pos, Field::Operation) {
            Ok(l) => l,
            Err(e) => return Err(e),
        };
        let expression = match read_operation(l2) {
            Some(e) => e,
            None => return Err(ParseError::Syntax { field: Field::Operation, line: slice_to_vec(l2) }),
        };
        match Self::read_routing(lines, pos) {
            Ok(t) => Ok(
                MonkeyInfo {
                    id,
                    items,
                    expression,
                    test: t.0,
                    on_true: t.1,
                    on_false: t.2,
                    inspection_count: 0,
                },
            ),
            Err(e) => Err(e),
        }
    }

    /// Reads the next record from position `*pos`, skipping blank lines before it;
    /// `None` where only blank lines are left.
    pub fn read(lines: &[&[u8]], pos: &mut usize) -> (r: Result<Option<MonkeyInfo>, ParseError>)
        requires
            *old(pos) <= lines@.len(),
        ensures
            match r {
                Ok(None) => {
                    &&& records_from(lines_view(lines), *old(pos) as int) == Ok::<
                        Seq<MonkeyState>,
                        ParseFailure,
                    >(seq![])
                    &&& forall|k: int|
                        *old(pos) <= k < lines@.len() ==> is_blank(#[trigger] lines@[k]@)
                    &&& *final(pos) == lines@.len()
                },
                Ok(Some(m)) => {
                    &&& *old(pos) + 6 <= *final(pos) <= lines@.len()
                    &&& forall|k: int|
                        *old(pos) <= k < *final(pos) - 6 ==> is_blank(#[trigger] lines@[k]@)
                    &&& !is_blank(lines@[*final(pos) - 6]@)
                    &&& record(lines_view(lines), *final(pos) - 6) == Ok::<
                        MonkeyState,
                        ParseFailure,
                    >(m@)
                    &&& records_from(lines_view(lines), *old(pos) as int) == prepend_record(
                        m@,
                        records_from(lines_view(lines), *final(pos) as int),
                    )
                },
                Err(e) => records_from(lines_view(lines), *old(pos) as int) == Err::<
                    Seq<MonkeyState>,
                    ParseFailure,
                >(e@),
            },
    {
        let ghost ls = lines_view(lines);
        let ghost start = *pos as int;
        while *pos < lines.len() && is_blank_line(lines[*pos])
            invariant
                ls == lines_view(lines),
                start <= *pos <= lines@.len(),
                records_from(ls, start) == records_from(ls, *pos as int),
                forall|k: int| start <= k < *pos ==> is_blank(#[trigger] lines@[k]@),
            decreases lines@.len() - *pos,
        {
            assert(ls[*pos as int] == lines@[*pos as int]@);
            *pos = *pos + 1;
        }
        if *pos >= lines.len() {
            return Ok(None);
        }
        assert(ls[*pos as int] == lines@[*pos as int]@);
        match Self::read_record(lines, pos) {
            Ok(m) => Ok(Some(m)),
            Err(e) => Err(e),
        }
    }

    /// Reads every record of a text.
    pub fn read_all(input: &[u8]) -> (r: Result<Vec<MonkeyInfo>, ParseError>)
        ensures
            match r {
                Ok(v) => parse_text(input@) == Ok::<Seq<MonkeyState>, ParseFailure>(
                    v@.map_values(|m: MonkeyInfo| m@),
                ),
                Err(e) => parse_text(input@) == Err::<Seq<MonkeyState>, ParseFailure>(e@),
            },
    {
        let lines = split_into_lines(input);
        let ghost ls = lines@.map_values(|l: &[u8]| l@);
        let mut monkey_infos: Vec<MonkeyInfo> = Vec::new();
        let mut pos: usize = 0;
        loop
            invariant
                ls == lines@.map_values(|l: &[u8]| l@),
                ls == split_lines(input@),
                pos <= lines@.len(),
                parse_text(input@) == prepend_all(
                    monkey_infos@.map_values(|m: MonkeyInfo| m@),
                    records_from(ls, pos as int),
                ),
            decreases lines@.len() - pos,
        {
            let all = lines.as_slice();
            assert(lines_view(all) =~= ls);
            match Self::read(all, &mut pos) {
                Err(e) => {
                    return Err(e);
                },
                Ok(None) => {
                    assert(monkey_infos@.map_values(|m: MonkeyInfo| m@) + seq![] =~= monkey_infos@.map_values(|m: MonkeyInfo| m@));
                    return Ok(monkey_infos);
                },
                Ok(Some(m)) => {
                    let ghost before = monkey_infos@.map_values(|m: MonkeyInfo| m@);
                    monkey_infos.push(m);
                    proof {
                        assert(monkey_infos@.map_values(|m: MonkeyInfo| m@) =~= before.push(m@));
                        match records_from(ls, pos as int) {
                            Ok(rest) => {
                                assert(before + (seq![m@] + rest) =~= before.push(m@) + rest);
                            },
                            Err(_) => {},
                        }
                    }
                },
            }
        }
    }
}

pub open spec fn prepend_all(a: Seq<MonkeyState>, r: Result<Seq<MonkeyState>, ParseFailure>) -> Result<
    Seq<MonkeyState>,
    ParseFailure,
> {
    match r {
        Ok(rest) => Ok(a + rest),
        Err(e) => Err(e),
    }
}

/// Every record read from position `i` on has a positive test divisor and a zero counter.
pub proof fn lemma_records_fresh(ls: Seq<Seq<u8>>, i: int)
    requires
        records_from(ls, i) is Ok,
    ensures
        forall|q: int|
            0 <= q < records_from(ls, i)->Ok_0.len() ==> {
                &&& (#[trigger] records_from(ls, i)->Ok_0[q]).test > 0
                &&& records_from(ls, i)->Ok_0[q].count == 0
            },
    decreases ls.len() - i,
{
    if i < 0 || i >= ls.len() {
    } else if is_blank(ls[i]) {
        lemma_records_fresh(ls, i + 1);
    } else {
        lemma_records_fresh(ls, i + 6);
        let m = record(ls, i)->Ok_0;
        let rest = records_from(ls, i + 6)->Ok_0;
        assert(records_from(ls, i)->Ok_0 == seq![m] + rest);
        assert forall|q: int| 0 <= q < records_from(ls, i)->Ok_0.len() implies {
            &&& (#[trigger] records_from(ls, i)->Ok_0[q]).test > 0
            &&& records_from(ls, i)->Ok_0[q].count == 0
        } by {
            if q > 0 {
                assert(records_from(ls, i)->Ok_0[q] == rest[q - 1]);
            }
        }
    }
}

/// A record whose two branch lines name the same outcome is never accepted: reading
/// it fails, and it fails on the branches as soon as every earlier line of the record
/// has its form.
pub proof fn lemma_same_branches_rejected(ls: Seq<Seq<u8>>, i: int)
    requires
        0 <= i,
        i + 5 < ls.len(),
        exists|c: bool, t1: u32, t2: u32|
            handler_line(ls[i + 4]) == Some((c, t1)) && handler_line(ls[i + 5]) == Some((c, t2)),
    ensures
        record(ls, i) is Err,
        branches(ls, i + 4) == Err::<(u32, u32), ParseFailure>(ParseFailure::DuplicateBranch),
        monkey_line(ls[i]) is Some && items_line(ls[i + 1]) is Some && operation_line(ls[i + 2])
            is Some && test_line(ls[i + 3]) is Some ==> record(ls, i) == Err::<
            MonkeyState,
            ParseFailure,
        >(ParseFailure::DuplicateBranch),
{
}

} // verus!
