use rookrustpad::day11::{part1, part2, DayError, ErrorKind};
use rookrustpad::expression::Expression;
use rookrustpad::monkey::{MonkeyInfo, WorryPolicy};
use rookrustpad::parser::{Field, MonkeyInfoParser, ParseError};
use rookrustpad::simulation::Monkees;

const EXAMPLE: &str = "Monkey 0:
  Starting items: 79, 98
  Operation: new = old * 19
  Test: divisible by 23
    If true: throw to monkey 2
    If false: throw to monkey 3

Monkey 1:
  Starting items: 54, 65, 75, 74
  Operation: new = old + 6
  Test: divisible by 19
    If true: throw to monkey 2
    If false: throw to monkey 0

Monkey 2:
  Starting items: 79, 60, 97
  Operation: new = old * old
  Test: divisible by 13
    If true: throw to monkey 1
    If false: throw to monkey 3

Monkey 3:
  Starting items: 74
  Operation: new = old + 3
  Test: divisible by 17
    If true: throw to monkey 0
    If false: throw to monkey 1
";

fn total(m: &Monkees) -> usize {
    (0..m.len()).map(|j| m.items_at(j).len()).sum()
}

#[test]
fn example_part1_score() {
    assert_eq!(part1(EXAMPLE.as_bytes()).unwrap(), 10605);
}

#[test]
fn example_part1_counters() {
    let mut m = Monkees::load(EXAMPLE.as_bytes()).unwrap();
    assert!(m.run_rounds(20, &WorryPolicy::DivideBy(3)));
    assert_eq!(m.inspection_counts(), vec![101, 95, 7, 105]);
    assert_eq!(m.get_monkey_business(), 10605);
}

#[test]
fn example_part2_score() {
    assert_eq!(part2(EXAMPLE.as_bytes()).unwrap(), 2713310158);
}

#[test]
fn example_first_round_queues() {
    let mut m = Monkees::load(EXAMPLE.as_bytes()).unwrap();
    assert!(m.run_round(&WorryPolicy::DivideBy(3)));
    assert_eq!(m.items_at(0), vec![20, 23, 27, 26]);
    assert_eq!(m.items_at(1), vec![2080, 25, 167, 207, 401, 1046]);
    assert!(m.items_at(2).is_empty());
    assert!(m.items_at(3).is_empty());
    assert_eq!(m.inspection_counts(), vec![2, 4, 3, 5]);
}

#[test]
fn rounds_conserve_items() {
    let mut m = Monkees::load(EXAMPLE.as_bytes()).unwrap();
    assert_eq!(total(&m), 10);
    for _ in 0..50 {
        assert!(m.run_round(&WorryPolicy::Modulo(96577)));
        assert_eq!(total(&m), 10);
        assert_eq!(m.total_item_count(), Some(10));
    }
}

#[test]
fn identical_runs_agree() {
    let mut a = Monkees::load(EXAMPLE.as_bytes()).unwrap();
    let mut b = Monkees::load(EXAMPLE.as_bytes()).unwrap();
    assert!(a.run_rounds(300, &WorryPolicy::Modulo(96577)));
    assert!(b.run_rounds(300, &WorryPolicy::Modulo(96577)));
    assert_eq!(a.inspection_counts(), b.inspection_counts());
    for j in 0..a.len() {
        assert_eq!(a.items_at(j), b.items_at(j));
    }
}

#[test]
fn modulus_is_product_of_divisors() {
    let m = Monkees::load(EXAMPLE.as_bytes()).unwrap();
    let modulus = m.get_modulus().unwrap();
    assert_eq!(modulus, 23 * 19 * 13 * 17);
    for v in [0u64, 1, 79, 6241, 96576, 96577, 123456789, u64::MAX] {
        for d in [23u64, 19, 13, 17] {
            assert_eq!((v % modulus) % d == 0, v % d == 0);
        }
    }
}

#[test]
fn modulus_overflow_is_none() {
    let text = "Monkey 0:
Starting items: 1
Operation: new = old + 1
Test: divisible by 4294967311
If true: throw to monkey 1
If false: throw to monkey 1

Monkey 1:
Starting items: 2
Operation: new = old + 1
Test: divisible by 4294967357
If true: throw to monkey 0
If false: throw to monkey 0
";
    let m = Monkees::load(text.as_bytes()).unwrap();
    assert_eq!(m.get_modulus(), None);
    assert_eq!(part2(text.as_bytes()).unwrap_err().kind(), ErrorKind::Capacity);
}

#[test]
fn duplicate_true_branches_are_structural() {
    let text = "Monkey 0:
  Starting items: 79, 98
  Operation: new = old * 19
  Test: divisible by 23
    If true: throw to monkey 2
    If true: throw to monkey 3
";
    let err = part1(text.as_bytes()).unwrap_err();
    assert!(matches!(err, DayError::Parse(ParseError::DuplicateBranch)));
    assert_eq!(err.kind(), ErrorKind::Structure);
}

#[test]
fn duplicate_false_branches_are_structural() {
    let text = "Monkey 0:
  Starting items: 79
  Operation: new = old * 19
  Test: divisible by 23
    If false: throw to monkey 2
    If false: throw to monkey 3
";
    assert_eq!(part2(text.as_bytes()).unwrap_err().kind(), ErrorKind::Structure);
}

#[test]
fn truncated_after_items_names_operation() {
    let text = "Monkey 0:\n  Starting items: 79, 98\n";
    let err = part1(text.as_bytes()).unwrap_err();
    assert_eq!(err.kind(), ErrorKind::EndOfInput);
    match err {
        DayError::Parse(ParseError::EndOfInput { field }) => {
            assert_eq!(field, Field::Operation);
            assert_eq!(field.name(), "operation");
        }
        _ => panic!("expected an end of input"),
    }
}

#[test]
fn truncated_without_final_newline() {
    let text = "Monkey 0:\n  Starting items: 79, 98";
    match MonkeyInfoParser::read_all(text.as_bytes()) {
        Err(ParseError::EndOfInput { field }) => assert_eq!(field, Field::Operation),
        _ => panic!("expected an end of input"),
    }
}

#[test]
fn truncated_before_second_branch() {
    let text = "Monkey 0:
  Starting items: 79
  Operation: new = old * 19
  Test: divisible by 23
    If true: throw to monkey 2";
    match MonkeyInfoParser::read_all(text.as_bytes()) {
        Err(ParseError::EndOfInput { field }) => assert_eq!(field.name(), "test handler"),
        _ => panic!("expected an end of input"),
    }
}

#[test]
fn bad_operation_line_is_syntax_error() {
    let text = "Monkey 0:
  Starting items: 79
  Operation: new = old - 19
  Test: divisible by 23
    If true: throw to monkey 2
    If false: throw to monkey 3
";
    let err = part1(text.as_bytes()).unwrap_err();
    assert_eq!(err.kind(), ErrorKind::Parse);
    match err {
        DayError::Parse(ParseError::Syntax { field, line }) => {
            assert_eq!(field, Field::Operation);
            assert_eq!(line, b"  Operation: new = old - 19".to_vec());
        }
        _ => panic!("expected a syntax error"),
    }
}

#[test]
fn zero_divisor_is_syntax_error() {
    let text = "Monkey 0:
  Starting items: 79
  Operation: new = old * 19
  Test: divisible by 0
    If true: throw to monkey 0
    If false: throw to monkey 0
";
    match MonkeyInfoParser::read_all(text.as_bytes()) {
        Err(ParseError::Syntax { field, .. }) => assert_eq!(field, Field::Test),
        _ => panic!("expected a syntax error"),
    }
}

#[test]
fn bad_first_line_is_syntax_error() {
    match MonkeyInfoParser::read_all(b"Ape 0:\n") {
        Err(ParseError::Syntax { field, line }) => {
            assert_eq!(field, Field::Monkey);
            assert_eq!(field.name(), "monkey");
            assert_eq!(line, b"Ape 0:".to_vec());
        }
        _ => panic!("expected a syntax error"),
    }
}

#[test]
fn bad_item_is_syntax_error() {
    let text = "Monkey 0:\n  Starting items: 79, x8\n";
    match MonkeyInfoParser::read_all(text.as_bytes()) {
        Err(ParseError::Syntax { field, .. }) => assert_eq!(field.name(), "starting items"),
        _ => panic!("expected a syntax error"),
    }
}

#[test]
fn parses_example_records() {
    let v = MonkeyInfoParser::read_all(EXAMPLE.as_bytes()).unwrap();
    assert_eq!(v.len(), 4);
    assert_eq!(v[1].id, 1);
    assert_eq!(v[1].items, vec![54, 65, 75, 74]);
    assert_eq!(v[1].test, 19);
    assert_eq!(v[1].on_true, 2);
    assert_eq!(v[1].on_false, 0);
    assert_eq!(v[1].inspection_count, 0);
    assert_eq!(v[2].expression.eval(7), 49);
    assert_eq!(v[0].expression.eval(2), 38);
    assert_eq!(v[3].expression.eval(2), 5);
}

#[test]
fn branch_lines_in_either_order() {
    let text = "\n\n  Monkey 7:  \r\n\tStarting items: 5\r\n Operation: new = 2 + old\nTest: divisible by 3\nIf false: throw to monkey 4\nIf true: throw to monkey 9\n\n\n";
    let v = MonkeyInfoParser::read_all(text.as_bytes()).unwrap();
    assert_eq!(v.len(), 1);
    assert_eq!(v[0].id, 7);
    assert_eq!(v[0].items, vec![5]);
    assert_eq!(v[0].on_true, 9);
    assert_eq!(v[0].on_false, 4);
    assert_eq!(v[0].expression.eval(10), 12);
}

#[test]
fn empty_text_has_no_records() {
    assert!(MonkeyInfoParser::read_all(b"").unwrap().is_empty());
    assert!(MonkeyInfoParser::read_all(b"\n  \n").unwrap().is_empty());
}

#[test]
fn read_advances_past_a_record() {
    let lines: Vec<&[u8]> = EXAMPLE.as_bytes().split(|b| *b == b'\n').collect();
    let mut pos: usize = 0;
    let first = MonkeyInfoParser::read(&lines, &mut pos).unwrap().unwrap();
    assert_eq!(first.id, 0);
    assert_eq!(pos, 6);
    let second = MonkeyInfoParser::read(&lines, &mut pos).unwrap().unwrap();
    assert_eq!(second.id, 1);
    assert_eq!(pos, 13);
}

#[test]
fn missing_target_is_structural() {
    let text = "Monkey 0:
  Starting items: 79
  Operation: new = old * 19
  Test: divisible by 23
    If true: throw to monkey 1
    If false: throw to monkey 5

Monkey 1:
  Starting items: 1
  Operation: new = old + 1
  Test: divisible by 2
    If true: throw to monkey 0
    If false: throw to monkey 0
";
    let err = part1(text.as_bytes()).unwrap_err();
    assert!(matches!(err, DayError::MissingTarget));
    assert_eq!(err.kind(), ErrorKind::Structure);
}

#[test]
fn single_agent_cannot_be_scored() {
    let text = "Monkey 0:
  Starting items: 79
  Operation: new = old * 19
  Test: divisible by 23
    If true: throw to monkey 0
    If false: throw to monkey 0
";
    assert!(matches!(part1(text.as_bytes()), Err(DayError::TooFewMonkeys)));
}

#[test]
fn ids_are_sorted_and_later_definition_wins() {
    let mk = |id: u32, item: u64| MonkeyInfo {
        id,
        items: vec![item],
        expression: Expression::Old,
        test: 2,
        on_true: 5,
        on_false: 1,
        inspection_count: 0,
    };
    let m = Monkees::new(vec![mk(5, 10), mk(1, 20), mk(5, 30), mk(3, 40)]);
    assert_eq!(m.ids(), vec![1, 3, 5]);
    assert_eq!(m.items_at(2), vec![30]);
    assert!(m.has_valid_targets());
    let mut bad = mk(2, 50);
    bad.on_false = 4;
    let m = Monkees::new(vec![mk(5, 10), bad, mk(1, 20)]);
    assert_eq!(m.ids(), vec![1, 2, 5]);
    assert!(!m.has_valid_targets());
}

#[test]
fn item_thrown_forward_is_inspected_in_same_round() {
    let text = "Monkey 0:
Starting items: 4
Operation: new = old + 0
Test: divisible by 2
If true: throw to monkey 1
If false: throw to monkey 1

Monkey 1:
Starting items:  7
Operation: new = old * 1
Test: divisible by 2
If true: throw to monkey 0
If false: throw to monkey 0
";
    let mut m = Monkees::load(text.as_bytes()).unwrap();
    assert!(m.run_round(&WorryPolicy::DivideBy(1)));
    assert_eq!(m.inspection_counts(), vec![1, 2]);
    assert_eq!(m.items_at(0), vec![7, 4]);
}

#[test]
fn self_throw_waits_for_next_round() {
    let mut info = MonkeyInfo {
        id: 0,
        items: vec![3, 4],
        expression: Expression::Old,
        test: 2,
        on_true: 0,
        on_false: 1,
        inspection_count: 0,
    };
    assert_eq!(info.get_new_monkey_id(4), 0);
    assert_eq!(info.get_new_monkey_id(3), 1);
    assert!(info.inspect_items());
    assert_eq!(info.inspection_count, 2);
    let throws = info.test_and_get_throws();
    assert_eq!(throws, vec![(1, 3), (0, 4)]);
    assert!(info.items.is_empty());
}

#[test]
fn worry_policies() {
    assert_eq!(WorryPolicy::DivideBy(3).apply(500), 166);
    assert_eq!(WorryPolicy::Modulo(96577).apply(96578), 1);
    let mut info = MonkeyInfo {
        id: 0,
        items: vec![9, 10, 2],
        expression: Expression::Old,
        test: 2,
        on_true: 0,
        on_false: 0,
        inspection_count: 0,
    };
    info.manage_worry(&WorryPolicy::DivideBy(3));
    assert_eq!(info.items, vec![3, 3, 0]);
}

#[test]
fn expression_values() {
    let e = Expression::Add(
        Box::new(Expression::Multiply(Box::new(Expression::Old), Box::new(Expression::Old))),
        Box::new(Expression::Number(3)),
    );
    assert_eq!(e.eval(5), 28);
    assert_eq!(Expression::Number(42).eval(7), 42);
    assert_eq!(Expression::Old.eval(7), 7);
    let sq = Expression::Multiply(Box::new(Expression::Old), Box::new(Expression::Old));
    assert_eq!(sq.checked_eval(1u64 << 32), None);
    assert_eq!(sq.checked_eval((1u64 << 32) - 1), Some(((1u64 << 32) - 1) * ((1u64 << 32) - 1)));
    assert_eq!(e.checked_eval(5), Some(28));
    let big = Expression::Add(Box::new(Expression::Old), Box::new(Expression::Number(1)));
    assert_eq!(big.checked_eval(u64::MAX), None);
    assert_eq!(big.checked_eval(u64::MAX - 1), Some(u64::MAX));
}

#[test]
fn business_takes_two_largest() {
    let mk = |id: u32, count: u32| MonkeyInfo {
        id,
        items: vec![],
        expression: Expression::Old,
        test: 2,
        on_true: 0,
        on_false: 0,
        inspection_count: count,
    };
    let m = Monkees::new(vec![mk(0, 7), mk(1, 100000), mk(2, 3), mk(3, 100000)]);
    assert_eq!(m.get_monkey_business(), 10_000_000_000);
}

const SQUARING: &str = "Monkey 0:
  Starting items: 4294967296
  Operation: new = old * old
  Test: divisible by 3
    If true: throw to monkey 0
    If false: throw to monkey 0

Monkey 1:
  Starting items: 1
  Operation: new = old + 1
  Test: divisible by 2
    If true: throw to monkey 1
    If false: throw to monkey 1
";

#[test]
fn overflowing_inspection_is_detected() {
    let mut m = Monkees::load(SQUARING.as_bytes()).unwrap();
    assert!(!m.run_round(&WorryPolicy::Modulo(3)));
    assert_eq!(m.items_at(0), vec![4294967296]);
    assert_eq!(m.inspection_counts(), vec![0, 0]);
    assert_eq!(part1(SQUARING.as_bytes()).unwrap_err().kind(), ErrorKind::Capacity);
    assert_eq!(part2(SQUARING.as_bytes()).unwrap_err().kind(), ErrorKind::Capacity);
}

#[test]
fn overflowing_inspection_leaves_agent_unchanged() {
    let mut info = MonkeyInfo {
        id: 0,
        items: vec![2, 4294967296],
        expression: Expression::Multiply(Box::new(Expression::Old), Box::new(Expression::Old)),
        test: 3,
        on_true: 0,
        on_false: 0,
        inspection_count: 7,
    };
    assert!(!info.inspect_items());
    assert_eq!(info.items, vec![2, 4294967296]);
    assert_eq!(info.inspection_count, 7);
    let mut full = MonkeyInfo {
        id: 0,
        items: vec![1, 2],
        expression: Expression::Old,
        test: 3,
        on_true: 0,
        on_false: 0,
        inspection_count: u32::MAX - 1,
    };
    assert!(!full.inspect_items());
    full.items.pop();
    assert!(full.inspect_items());
    assert_eq!(full.inspection_count, u32::MAX);
}

#[test]
fn modulo_run_keeps_true_outcomes() {
    let text = "Monkey 0:
  Starting items: 7
  Operation: new = old * old
  Test: divisible by 3
    If true: throw to monkey 1
    If false: throw to monkey 0

Monkey 1:
  Starting items: 5
  Operation: new = old + 4
  Test: divisible by 5
    If true: throw to monkey 0
    If false: throw to monkey 1
";
    let mut reduced = Monkees::load(text.as_bytes()).unwrap();
    let modulus = reduced.get_modulus().unwrap();
    assert_eq!(modulus, 15);
    assert!(reduced.run_rounds(3, &WorryPolicy::Modulo(modulus)));
    let mut plain = Monkees::load(text.as_bytes()).unwrap();
    assert!(plain.run_rounds(3, &WorryPolicy::DivideBy(1)));
    assert_eq!(reduced.inspection_counts(), plain.inspection_counts());
    for j in 0..2 {
        let r = reduced.items_at(j);
        let p = plain.items_at(j);
        assert_eq!(r.len(), p.len());
        for k in 0..r.len() {
            assert_eq!(r[k], p[k] % modulus);
        }
    }
}
