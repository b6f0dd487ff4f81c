use advent2022::packets::order::compare;
use advent2022::packets::reader::{
    compare_lines, count_not_after, divider_places, get_number, parse, score,
};
use advent2022::packets::{append_to, promote, Arena, Index, Node, PacketError};
use std::cmp::Ordering;

const SAMPLE: &str = "[1,1,3,1,1]
[1,1,5,1,1]

[[1],[2,3,4]]
[[1],4]

[9]
[[8,7,6]]

[[4,4],4,4]
[[4,4],4,4,4]

[7,7,7,7]
[7,7,7]

[]
[3]

[[[]]]
[[]]

[1,[2,[3,[4,[5,6,7]]]],8,9]
[1,[2,[3,[4,[5,6,0]]]],8,9]";

#[test]
fn test_arena() {
    let mut arena: Arena<Node> = Arena::new();

    let mut l = Vec::new();
    l.push(arena.insert(Node::Int(1)));
    let mut l2 = Vec::new();
    l2.push(arena.insert(Node::Int(2)));
    l.push(arena.insert(Node::List(l2)));
    l.push(arena.insert(Node::Int(3)));
    let id = arena.insert(Node::List(l));
    assert_eq!(id.i, 4);
    assert!(matches!(arena.get(Index { i: 0 }), Node::Int(1)));
    *arena.get_mut(Index { i: 0 }) = Node::Int(7);
    assert!(matches!(arena.get(Index { i: 0 }), Node::Int(7)));
}

#[test]
fn main_test_parse() {
    let mut arena: Arena<Node> = Arena::new();
    let idx = parse("[1,[2,3,[4]],5,[6,7],8,9,10]", &mut arena).unwrap();
    assert_eq!(idx.i, 0);
    assert_eq!(arena.items.len(), 14);
    match arena.get(idx) {
        Node::List(l) => assert_eq!(
            l.iter().map(|m| m.i).collect::<Vec<_>>(),
            vec![1, 2, 7, 8, 11, 12, 13]
        ),
        Node::Int(_) => panic!("the root is a list"),
    }
    assert!(matches!(arena.get(Index { i: 13 }), Node::Int(10)));
}

#[test]
fn test_basic_compare() {
    let mut arena: Arena<Node> = Arena::new();
    let idx = parse("[1,2,3,4]", &mut arena).unwrap();
    let idx2 = parse("[1,2,3,4,5]", &mut arena).unwrap();
    let result = compare(idx, idx2, &mut arena).unwrap();
    assert_eq!(result, Ordering::Less);
}

#[test]
fn test_empty_compare() {
    let mut arena: Arena<Node> = Arena::new();
    let idx = parse("[[[]]]", &mut arena).unwrap();
    let idx2 = parse("[[]]", &mut arena).unwrap();
    let result = compare(idx, idx2, &mut arena).unwrap();
    assert_eq!(result, Ordering::Greater);
}

#[test]
fn test_promote_compare() {
    let mut arena: Arena<Node> = Arena::new();
    let idx = parse("[1,2,3]", &mut arena).unwrap();
    let idx2 = parse("[1,2,[4]]", &mut arena).unwrap();
    let result = compare(idx, idx2, &mut arena).unwrap();
    assert_eq!(result, Ordering::Less);
}

#[test]
fn test_from_samples() {
    let test_cases = vec![("[9]", "[[8,7,6]]", Ordering::Greater)];

    for (lhs, rhs, expected_result) in test_cases {
        let mut arena: Arena<Node> = Arena::new();
        let idx = parse(lhs, &mut arena).unwrap();
        let idx2 = parse(rhs, &mut arena).unwrap();
        let result = compare(idx, idx2, &mut arena).unwrap();
        assert_eq!(result, expected_result, "{} {} {:?}", lhs, rhs, expected_result);
    }
}

#[test]
fn all_sample_pairs() {
    let test_cases = vec![
        ("[1,1,3,1,1]", "[1,1,5,1,1]", Ordering::Less),
        ("[[1],[2,3,4]]", "[[1],4]", Ordering::Less),
        ("[9]", "[[8,7,6]]", Ordering::Greater),
        ("[[4,4],4,4]", "[[4,4],4,4,4]", Ordering::Less),
        ("[7,7,7,7]", "[7,7,7]", Ordering::Greater),
        ("[]", "[3]", Ordering::Less),
        ("[[[]]]", "[[]]", Ordering::Greater),
        ("[1,[2,[3,[4,[5,6,7]]]],8,9]", "[1,[2,[3,[4,[5,6,0]]]],8,9]", Ordering::Greater),
        ("[[1],2]", "[1,2]", Ordering::Equal),
    ];
    for (lhs, rhs, expected) in test_cases {
        assert_eq!(compare_lines(lhs, rhs), Ok(expected), "{} {}", lhs, rhs);
    }
}

#[test]
fn test_score() {
    let lines = SAMPLE.lines().collect::<Vec<_>>();
    assert_eq!(score(&lines).unwrap(), 13);
}

#[test]
fn failing_test() {
    let line1 = "[[[[1,8,3,7],9,7,[],[6,3,5,2,9]],3,4,[],[9]]]";
    let line2 = "[[[[1],8,6,[]],9],[[7,[2,8,0,9]],[[4,2,5,5],5],0],[3,[[3,1,8],10,[],0,5],6,[]],[[9,[2,8,0,0,1],[],[1,1,8]],[9,9,[2,9,1,1,1],4,2],[[1],8,[0,5,6,7,8]],[7,7,[4,6,10,10],[4,0,9]],3]]";
    let mut arena: Arena<Node> = Arena::new();
    let idx = parse(line1, &mut arena).unwrap();
    let idx2 = parse(line2, &mut arena).unwrap();
    let result = compare(idx, idx2, &mut arena).unwrap();
    assert_eq!(result, Ordering::Greater);
}

#[test]
fn test_sort() {
    let mut lines = SAMPLE.lines().filter(|l| !l.is_empty()).collect::<Vec<_>>();
    lines.push("[[2]]");
    lines.push("[[6]]");
    lines.sort_by(|lhs, rhs| compare_lines(lhs, rhs).unwrap());

    let places = lines
        .iter()
        .enumerate()
        .filter(|(_, s)| *s == &"[[2]]" || *s == &"[[6]]")
        .map(|(i, _)| i + 1)
        .collect::<Vec<_>>();
    assert_eq!(places, vec![10, 14]);
}

#[test]
fn numbers_in_a_line() {
    let chars = "[12,345]".chars().collect::<Vec<_>>();
    assert_eq!(get_number(&chars, 1), Ok((12, 3)));
    assert_eq!(get_number(&chars, 4), Ok((345, 7)));
    assert_eq!(get_number(&chars, 0), Err(PacketError::BadNumber));
    let open = "[12".chars().collect::<Vec<_>>();
    assert_eq!(get_number(&open, 1), Err(PacketError::Unterminated));
    let big = "[99999999999]".chars().collect::<Vec<_>>();
    assert_eq!(get_number(&big, 1), Err(PacketError::BadNumber));
}

#[test]
fn reading_errors() {
    let mut arena: Arena<Node> = Arena::new();
    assert_eq!(parse("", &mut arena).err(), Some(PacketError::NoRootList));
    assert_eq!(parse("abc", &mut arena).err(), Some(PacketError::NoRootList));
    assert_eq!(parse("1,[2]", &mut arena).err(), Some(PacketError::NumberOutsideList));
    assert_eq!(parse("[1", &mut arena).err(), Some(PacketError::Unterminated));
    assert_eq!(parse("[\u{0663}]", &mut arena).err(), Some(PacketError::BadNumber));
}

#[test]
fn appending_and_promoting() {
    let mut arena: Arena<Node> = Arena::new();
    let one = arena.insert(Node::Int(1));
    let list = arena.insert(Node::List(Vec::new()));
    assert_eq!(append_to(one, list, &mut arena), Ok(()));
    assert_eq!(append_to(list, one, &mut arena), Err(PacketError::NotAList));
    let wrapped = promote(one, &mut arena);
    assert_eq!(wrapped.i, 2);
    assert_eq!(compare(list, wrapped, &mut arena), Ok(Ordering::Equal));
    assert_eq!(compare(one, list, &mut arena), Ok(Ordering::Equal));
    assert_eq!(arena.items.len(), 4);
}

#[test]
fn score_errors() {
    assert_eq!(score(&["[1]"]), Err(PacketError::Incomplete));
    assert_eq!(score(&["[1]", "[1]"]), Err(PacketError::NonOrdered));
    assert_eq!(score(&["[1]", "x"]), Err(PacketError::NoRootList));
    assert_eq!(score(&["[2]", "[1]", "", "[1]", "[2]"]), Ok(2));
    assert_eq!(score(&[]), Ok(0));
}

#[test]
fn dividers_of_the_sample() {
    let lines = SAMPLE.lines().collect::<Vec<_>>();
    assert_eq!(divider_places(&lines), Ok((10, 14)));
    assert_eq!(divider_places(&[]), Ok((1, 2)));
    assert_eq!(divider_places(&["[[2]]", "", "[7]"]), Ok((2, 3)));
    assert_eq!(divider_places(&["[1]", "oops"]), Err(PacketError::NoRootList));
    assert_eq!(count_not_after(&lines, "[[6]]"), Ok(12));
}
