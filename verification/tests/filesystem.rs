use advent2022::filesystem::{parse_line, report, walk_dirs, FsError, ParsedLine, Report};

const TEST_DATA: &str = "$ cd /
$ ls
dir a
14848514 b.txt
8504156 c.dat
dir d
$ cd a
$ ls
dir e
29116 f
2557 g
62596 h.lst
$ cd e
$ ls
584 i
$ cd ..
$ cd ..
$ cd d
$ ls
4060174 j
8033020 d.log
5626152 d.ext
7214296 k";

fn sample() -> Vec<&'static str> {
    TEST_DATA.lines().collect()
}

#[test]
fn test_parse() {
    let mut it = TEST_DATA.lines();
    let mut pl = parse_line(it.next().unwrap()).unwrap();
    assert_eq!(pl, ParsedLine::Cd("/".to_string()));
    pl = parse_line(it.next().unwrap()).unwrap();
    assert_eq!(pl, ParsedLine::Ls);
    pl = parse_line(it.next().unwrap()).unwrap();
    assert_eq!(pl, ParsedLine::Dir("a".to_string()));
    pl = parse_line(it.next().unwrap()).unwrap();
    assert_eq!(pl, ParsedLine::File(14848514));
}

#[test]
fn test_sum() {
    let dir_sizes = walk_dirs(&sample()).unwrap();
    let mut total_size = 0;
    for (_dir, size) in dir_sizes {
        if size <= 100000 {
            total_size += size;
        }
    }
    assert_eq!(total_size, 95437);
}

#[test]
fn sizes_of_the_sample() {
    let dir_sizes = walk_dirs(&sample()).unwrap();
    let path = |names: &[&str]| names.iter().map(|n| n.to_string()).collect::<Vec<_>>();
    assert_eq!(
        dir_sizes,
        vec![
            (path(&["/"]), 48381165),
            (path(&["/", "a"]), 94853),
            (path(&["/", "a", "e"]), 584),
            (path(&["/", "d"]), 24933642),
        ]
    );
    let largest = dir_sizes.iter().map(|(_, s)| *s).max().unwrap();
    let unused = 70000000 - largest;
    let smallest_sufficient =
        dir_sizes.iter().map(|(_, s)| *s).filter(|s| unused + *s > 30000000).min().unwrap();
    assert_eq!(smallest_sufficient, 24933642);
}

#[test]
fn session_errors() {
    assert_eq!(parse_line(""), Err(FsError::Incomplete));
    assert_eq!(parse_line("dir"), Err(FsError::Incomplete));
    assert_eq!(parse_line("$"), Err(FsError::Incomplete));
    assert_eq!(parse_line("$ cd"), Err(FsError::Incomplete));
    assert_eq!(parse_line("$ rm x"), Err(FsError::Unrecognised));
    assert_eq!(parse_line("big file"), Err(FsError::BadNumber));
    assert_eq!(walk_dirs(&["$ cd .."]), Err(FsError::CannotCd));
    assert_eq!(walk_dirs(&["$ cd /", "$ cd ..", "$ cd .."]), Err(FsError::CannotCd));
    assert_eq!(
        walk_dirs(&["$ cd /", "18446744073709551615 a", "1 b"]),
        Err(FsError::TooLarge)
    );
    assert_eq!(walk_dirs(&["12 a"]), Ok(vec![]));
}

#[test]
fn report_of_the_sample() {
    let dir_sizes = walk_dirs(&sample()).unwrap();
    assert_eq!(
        report(&dir_sizes, 100000, 70000000, 30000000),
        Ok(Report { total_small: 95437, unused: 21618835, smallest_sufficient: 24933642 })
    );
    assert_eq!(report(&dir_sizes, 100000, 48381164, 0), Err(FsError::TooLarge));
    assert_eq!(
        report(&dir_sizes, 100000, 70000000, 70000000),
        Err(FsError::NothingSuffices)
    );
    assert_eq!(report(&vec![], 1, 2, 3), Err(FsError::NothingSuffices));
    let huge = vec![(vec!["a".to_string()], usize::MAX), (vec!["b".to_string()], 1)];
    assert_eq!(report(&huge, usize::MAX, usize::MAX, 0), Err(FsError::TooLarge));
}
