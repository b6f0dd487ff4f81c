use advent2022::monkey::{Monkey, Operation, ParseError, Test};
use advent2022::troop::{
    inspect_item, monkey_business, parse_monkeys, run_monkeys, run_operation, TroopError,
};

const TEST_DATA: &str = "Monkey 0:
    Starting items: 79, 98
    Operation: new = old * 19
    Test: divisible by 23
        If true: throw to monkey 2
        If false: throw to monkey 3

Monkey 1:
    Starting items: 54, 65, 75, 74
    Operation: new = old + 6
    Test: divisible by 19
        If true: throw to monkey 2
        If false: throw to monkey 0

Monkey 2:
    Starting items: 79, 60, 97
    Operation: new = old * old
    Test: divisible by 13
        If true: throw to monkey 1
        If false: throw to monkey 3

Monkey 3:
    Starting items: 74
    Operation: new = old + 3
    Test: divisible by 17
        If true: throw to monkey 0
        If false: throw to monkey 1";

fn sample_lines() -> Vec<&'static str> {
    TEST_DATA.lines().collect()
}

#[test]
fn test_parse_operation() {
    for line in TEST_DATA.lines() {
        if line.starts_with("Operation:") {
            println!("{:?}", Operation::parse(line).unwrap());
        }
    }
}

#[test]
fn test_parse_test() {
    let it = TEST_DATA.lines();
    let mut iter = it.peekable();
    loop {
        let line = iter.peek();
        if let Some(line_str) = line {
            if line_str.trim().starts_with("Test") {
                let test_lines = iter.by_ref().take(3).collect::<Vec<_>>();
                println!("{:?}", Test::parse(&test_lines).unwrap());
            } else {
                iter.next();
            }
        } else {
            break;
        }
    }
}

#[test]
fn test_parse_monkeys() {
    let mut monkeys = parse_monkeys(&sample_lines()).unwrap();

    let mut total = vec![0; monkeys.len()];
    for _rounds in 0..10000 {
        let passes = run_monkeys(&mut monkeys, 1).unwrap();
        total = passes.into_iter().enumerate().map(|(i, p)| total[i] + p).collect();
    }
    let mut monkey_business = total.clone();
    monkey_business.sort_by(|a, b| b.cmp(a));

    println!("{:?}, {}", total, monkey_business[0] * monkey_business[1]);
    assert_eq!(total, vec![52166, 47830, 1938, 52013]);
    assert_eq!(monkey_business[0] * monkey_business[1], 2713310158);
}

#[test]
fn twenty_rounds_with_relief() {
    let mut monkeys = parse_monkeys(&sample_lines()).unwrap();
    let mut total = vec![0; monkeys.len()];
    for _ in 0..20 {
        let passes = run_monkeys(&mut monkeys, 3).unwrap();
        total = passes.into_iter().enumerate().map(|(i, p)| total[i] + p).collect();
    }
    assert_eq!(total, vec![101, 95, 7, 105]);
    assert_eq!(monkeys[0].items, vec![10, 12, 14, 26, 34]);
    assert_eq!(monkeys[1].items, vec![245, 93, 53, 199, 115]);
    assert_eq!(monkeys[2].items, Vec::<i64>::new());
    assert_eq!(monkeys[3].items, Vec::<i64>::new());
}

#[test]
fn first_round_moves_the_items() {
    let mut monkeys = parse_monkeys(&sample_lines()).unwrap();
    let inspected = run_monkeys(&mut monkeys, 3).unwrap();
    assert_eq!(inspected, vec![2, 4, 3, 5]);
    assert_eq!(monkeys[0].items, vec![20, 23, 27, 26]);
    assert_eq!(monkeys[1].items, vec![2080, 25, 167, 207, 401, 1046]);
    assert!(monkeys[2].items.is_empty());
    assert!(monkeys[3].items.is_empty());
}

#[test]
fn parsed_monkey_has_all_parts() {
    let lines = sample_lines();
    let m = Monkey::parse(&lines[0..6]).unwrap();
    assert_eq!(
        m,
        Monkey {
            id: 0,
            items: vec![79, 98],
            operation: Operation::Mul(19),
            test: Test { divisible_by: 23, pass_true: 2, pass_false: 3 },
        }
    );
    assert_eq!(parse_monkeys(&lines).unwrap().len(), 4);
}

#[test]
fn operation_forms() {
    assert_eq!(Operation::parse("Operation: new = old * old"), Ok(Operation::Sqr));
    assert_eq!(Operation::parse("Operation: new = old + old"), Ok(Operation::Add(2)));
    assert_eq!(Operation::parse("  Operation: new = old + -7"), Ok(Operation::Add(-7)));
    assert_eq!(Operation::parse("Operation: new = old * 19"), Ok(Operation::Mul(19)));
}

#[test]
fn operation_errors() {
    assert_eq!(Operation::parse("Operation: new is old"), Err(ParseError::Malformed));
    assert_eq!(Operation::parse("Operator: new = old + 1"), Err(ParseError::NotAnOperation));
    assert_eq!(Operation::parse("Operation: new = new + 1"), Err(ParseError::NotInTermsOfOld));
    assert_eq!(Operation::parse("Operation: new = old - 1"), Err(ParseError::UnknownOperator));
    assert_eq!(Operation::parse("Operation: new = old + x"), Err(ParseError::BadNumber));
    assert_eq!(Operation::parse("Operation: new = old +"), Err(ParseError::Incomplete));
    assert_eq!(Operation::parse("Operation: new = "), Err(ParseError::Incomplete));
}

#[test]
fn test_errors() {
    let good = ["Test: divisible by 23", "If true: throw to monkey 2", "If false: throw to monkey 3"];
    assert_eq!(Test::parse(&good), Ok(Test { divisible_by: 23, pass_true: 2, pass_false: 3 }));
    assert_eq!(Test::parse(&good[0..2]), Err(ParseError::WrongLineCount));
    assert_eq!(
        Test::parse(&["Test: divisible 23", good[1], good[2]]),
        Err(ParseError::Malformed)
    );
    assert_eq!(
        Test::parse(&[good[0], "If false: throw to monkey 2", good[2]]),
        Err(ParseError::Malformed)
    );
    assert_eq!(
        Test::parse(&[good[0], good[1], "If false: throw to monkey -3"]),
        Err(ParseError::BadNumber)
    );
}

#[test]
fn monkey_errors() {
    let lines = sample_lines();
    assert_eq!(Monkey::parse(&lines[1..7]), Err(ParseError::NoMonkey));
    assert_eq!(Monkey::parse(&lines[0..5]), Err(ParseError::Incomplete));
    let mut bad = lines[0..6].to_vec();
    bad[1] = "  Items: 1, 2";
    assert_eq!(Monkey::parse(&bad), Err(ParseError::NoItems));
    bad[1] = "  Starting items: 1, two";
    assert_eq!(Monkey::parse(&bad), Err(ParseError::BadNumber));
    bad[1] = lines[1];
    bad[0] = "Monkey 0";
    assert_eq!(Monkey::parse(&bad), Err(ParseError::Malformed));
    assert_eq!(parse_monkeys(&lines[0..5]), Err(ParseError::Incomplete));
}

#[test]
fn run_operation_values() {
    assert_eq!(run_operation(&Operation::Add(6), 54), 60);
    assert_eq!(run_operation(&Operation::Mul(19), 79), 1501);
    assert_eq!(run_operation(&Operation::Sqr, 79), 6241);
}

#[test]
fn inspect_rounds_toward_zero() {
    let test = Test { divisible_by: 23, pass_true: 2, pass_false: 3 };
    assert_eq!(inspect_item(&Operation::Mul(19), &test, 79, 3, 96577), Some((3, 500)));
    assert_eq!(inspect_item(&Operation::Add(-10), &test, 3, 2, 96577), Some((3, -3)));
    assert_eq!(inspect_item(&Operation::Add(0), &test, 46, 1, 96577), Some((2, 46)));
    assert_eq!(inspect_item(&Operation::Sqr, &test, i64::MAX, 1, 96577), None);
    assert_eq!(inspect_item(&Operation::Add(1), &test, 1, 0, 96577), None);
}

#[test]
fn round_errors() {
    let mut none: Vec<Monkey> = Vec::new();
    assert_eq!(run_monkeys(&mut none, 1), Err(TroopError::NoMonkeys));
    let mut lost = vec![Monkey {
        id: 0,
        items: vec![1],
        operation: Operation::Add(1),
        test: Test { divisible_by: 2, pass_true: 5, pass_false: 0 },
    }];
    assert_eq!(run_monkeys(&mut lost, 1), Err(TroopError::NoSuchMonkey));
    let mut big = vec![Monkey {
        id: 0,
        items: vec![i64::MAX],
        operation: Operation::Add(1),
        test: Test { divisible_by: 2, pass_true: 0, pass_false: 0 },
    }];
    assert_eq!(run_monkeys(&mut big, 1), Err(TroopError::Arithmetic));
}

#[test]
fn monkey_business_of_the_sample() {
    let mut monkeys = parse_monkeys(&sample_lines()).unwrap();
    assert_eq!(monkey_business(&mut monkeys, 20, 3), Ok(10605));
    let mut worried = parse_monkeys(&sample_lines()).unwrap();
    assert_eq!(monkey_business(&mut worried, 10000, 1), Ok(2713310158));
    let mut still = parse_monkeys(&sample_lines()).unwrap();
    assert_eq!(monkey_business(&mut still, 0, 1), Ok(0));
    assert_eq!(still, parse_monkeys(&sample_lines()).unwrap());
    let mut alone = parse_monkeys(&sample_lines()[0..6]).unwrap();
    assert_eq!(monkey_business(&mut alone, 0, 1), Err(TroopError::NoMonkeys));
    assert_eq!(monkey_business(&mut alone, 1, 1), Err(TroopError::NoSuchMonkey));
}
