//! A terminal session that walks a file system: what each line says, and
//! the total size of the files below each directory.
use crate::number::{parse_usize, usize_of};
use crate::text::{chars_of, is_str, split_words, str_views, string_from, views, words};
use vstd::prelude::*;

verus! {

#[derive(PartialEq, Debug)]
pub enum ParsedLine {
    Cd(String),
    Ls,
    File(usize),
    Dir(String),
}

/// What a line of the session says, as a mathematical value.
pub enum Entry {
    Cd(Seq<char>),
    Ls,
    File(usize),
    Dir(Seq<char>),
}

impl View for ParsedLine {
    type V = Entry;

    open spec fn view(&self) -> Entry {
        match self {
            ParsedLine::Cd(d) => Entry::Cd(d@),
            ParsedLine::Ls => Entry::Ls,
            ParsedLine::File(n) => Entry::File(*n),
            ParsedLine::Dir(d) => Entry::Dir(d@),
        }
    }
}

#[derive(Clone, Copy, Debug, PartialEq, Eq, Structural)]
pub enum FsError {
    /// A word that the line must have is missing.
    Incomplete,
    /// The command is neither `ls` nor `cd`.
    Unrecognised,
    /// The size of a file cannot be read.
    BadNumber,
    /// `cd ..` was given at the top.
    CannotCd,
    /// A total leaves the range of sizes.
    TooLarge,
    /// No directory is large enough to make the room that is needed.
    NothingSuffices,
}

/// What a line says: `dir <name>`, `$ ls`, `$ cd <name>`, or `<size> <name>`.
pub open spec fn entry_of(line: Seq<char>) -> Result<Entry, FsError> {
    let w = words(line);
    if w.len() == 0 {
        Err(FsError::Incomplete)
    } else if w[0] == "dir"@ {
        if w.len() < 2 {
            Err(FsError::Incomplete)
        } else {
            Ok(Entry::Dir(w[1]))
        }
    } else if w[0] == "$"@ {
        if w.len() < 2 {
            Err(FsError::Incomplete)
        } else if w[1] == "ls"@ {
            Ok(Entry::Ls)
        } else if w[1] == "cd"@ {
            if w.len() < 3 {
                Err(FsError::Incomplete)
            } else {
                Ok(Entry::Cd(w[2]))
            }
        } else {
            Err(FsError::Unrecognised)
        }
    } else {
        match usize_of(w[0]) {
            Some(n) => Ok(Entry::File(n)),
            None => Err(FsError::BadNumber),
        }
    }
}

pub fn parse_line(line: &str) -> (r: Result<ParsedLine, FsError>)
    ensures
        match r {
            Ok(p) => entry_of(line@) == Ok::<Entry, FsError>(p@),
            Err(e) => entry_of(line@) == Err::<Entry, FsError>(e),
        },
{
    let cs = chars_of(line);
    let split = split_words(&cs);
    let ghost w = words(line@);
    assert(views(split@) == w);
    if split.len() == 0 {
        return Err(FsError::Incomplete);
    }
    assert(split@[0]@ == w[0]);
    if is_str(&split[0], "dir") {
        if split.len() < 2 {
            return Err(FsError::Incomplete);
        }
        assert(split@[1]@ == w[1]);
        Ok(ParsedLine::Dir(string_from(&split[1])))
    } else if is_str(&split[0], "$") {
        if split.len() < 2 {
            return Err(FsError::Incomplete);
        }
        assert(split@[1]@ == w[1]);
        if is_str(&split[1], "ls") {
            Ok(ParsedLine::Ls)
        } else if is_str(&split[1], "cd") {
            if split.len() < 3 {
                return Err(FsError::Incomplete);
            }
            assert(split@[2]@ == w[2]);
            Ok(ParsedLine::Cd(string_from(&split[2])))
        } else {
            Err(FsError::Unrecognised)
        }
    } else {
        match parse_usize(&split[0]) {
            Some(n) => Ok(ParsedLine::File(n)),
            None => Err(FsError::BadNumber),
        }
    }
}

/// A path: the names of the directories from the top down.
pub type Path = Seq<Seq<char>>;

/// The names of a path that is held as strings.
pub open spec fn path_view(v: Seq<String>) -> Path {
    Seq::new(v.len(), |i: int| v[i]@)
}

/// The sizes that are held for paths of strings.
pub open spec fn sizes_view(v: Seq<(Vec<String>, usize)>) -> Seq<(Path, usize)> {
    Seq::new(v.len(), |i: int| (path_view(v[i].0@), v[i].1))
}

/// The place at or after `i` of the first entry for `path`.
pub open spec fn place_of(sizes: Seq<(Path, usize)>, path: Path, i: int) -> Option<int>
    decreases sizes.len() - i,
{
    if i < 0 || i >= sizes.len() {
        None
    } else if sizes[i].0 == path {
        Some(i)
    } else {
        place_of(sizes, path, i + 1)
    }
}

/// The sizes after `size` was added for `path`: to its entry where it has
/// one, else as a new entry at the end.
pub open spec fn credited(sizes: Seq<(Path, usize)>, path: Path, size: usize) -> Option<
    Seq<(Path, usize)>,
> {
    match place_of(sizes, path, 0) {
        Some(j) => if sizes[j].1 + size > usize::MAX {
            None
        } else {
            Some(sizes.update(j, (path, (sizes[j].1 + size) as usize)))
        },
        None => Some(sizes.push((path, size))),
    }
}

/// The sizes after `size` was added for the `k` shortest paths that lead
/// toward `cwd`, the shortest first.
pub open spec fn credited_above(sizes: Seq<(Path, usize)>, cwd: Path, k: int, size: usize) -> Option<
    Seq<(Path, usize)>,
>
    decreases k,
{
    if k <= 0 || k > cwd.len() {
        Some(sizes)
    } else {
        match credited_above(sizes, cwd, k - 1, size) {
            None => None,
            Some(before) => credited(before, cwd.take(k), size),
        }
    }
}

/// Where a session stands: the current directory and the sizes found.
pub struct Session {
    pub cwd: Path,
    pub sizes: Seq<(Path, usize)>,
}

/// The session after one more line.
pub open spec fn after_line(s: Session, line: Seq<char>) -> Result<Session, FsError> {
    match entry_of(line) {
        Err(e) => Err(e),
        Ok(Entry::Cd(dir)) => if dir == ".."@ {
            if s.cwd.len() > 0 {
                Ok(Session { cwd: s.cwd.drop_last(), sizes: s.sizes })
            } else {
                Err(FsError::CannotCd)
            }
        } else {
            Ok(Session { cwd: s.cwd.push(dir), sizes: s.sizes })
        },
        Ok(Entry::File(size)) => match credited_above(s.sizes, s.cwd, s.cwd.len() as int, size) {
            Some(sizes) => Ok(Session { cwd: s.cwd, sizes }),
            None => Err(FsError::TooLarge),
        },
        Ok(_) => Ok(s),
    }
}

/// The session after the first `n` lines.
pub open spec fn after_lines(lines: Seq<Seq<char>>, n: int) -> Result<Session, FsError>
    decreases n,
{
    if n <= 0 || n > lines.len() {
        Ok(Session { cwd: seq![], sizes: seq![] })
    } else {
        match after_lines(lines, n - 1) {
            Err(e) => Err(e),
            Ok(s) => after_line(s, lines[n - 1]),
        }
    }
}

proof fn lemma_after_lines_fails(lines: Seq<Seq<char>>, k: int, n: int)
    requires
        0 <= k <= n <= lines.len(),
        after_lines(lines, k) is Err,
    ensures
        after_lines(lines, n) == after_lines(lines, k),
    decreases n - k,
{
    if k < n {
        lemma_after_lines_fails(lines, k, n - 1);
    }
}

fn same_path(a: &Vec<String>, b: &Vec<String>) -> (r: bool)
    ensures
        r == (path_view(a@) == path_view(b@)),
{
    if a.len() != b.len() {
        assert(path_view(a@).len() != path_view(b@).len());
        return false;
    }
    let mut i: usize = 0;
    while i < a.len()
        invariant
            i <= a.len(),
            a.len() == b.len(),
            forall|j: int| 0 <= j < i ==> a@[j]@ == b@[j]@,
        decreases a.len() - i,
    {
        if a[i] != b[i] {
            assert(path_view(a@)[i as int] != path_view(b@)[i as int]);
            return false;
        }
        i += 1;
    }
    assert(path_view(a@) =~= path_view(b@));
    true
}

fn path_above(cwd: &Vec<String>, k: usize) -> (out: Vec<String>)
    requires
        k <= cwd.len(),
    ensures
        path_view(out@) == path_view(cwd@).take(k as int),
{
    let mut out: Vec<String> = Vec::new();
    let mut i: usize = 0;
    while i < k
        invariant
            i <= k <= cwd.len(),
            out@.len() == i,
            forall|j: int| 0 <= j < i ==> out@[j]@ == cwd@[j]@,
        decreases k - i,
    {
        out.push(cwd[i].clone());
        i += 1;
    }
    assert(path_view(out@) =~= path_view(cwd@).take(k as int));
    out
}

fn credit(sizes: &mut Vec<(Vec<String>, usize)>, path: Vec<String>, size: usize) -> (ok: bool)
    ensures
        match credited(sizes_view(old(sizes)@), path_view(path@), size) {
            Some(after) => ok && sizes_view(final(sizes)@) == after,
            None => !ok,
        },
{
    let ghost before = sizes_view(sizes@);
    let ghost p = path_view(path@);
    let mut j: usize = 0;
    while j < sizes.len()
        invariant
            j <= sizes.len(),
            before == sizes_view(sizes@),
            sizes@ == old(sizes)@,
            p == path_view(path@),
            place_of(before, p, 0) == place_of(before, p, j as int),
        decreases sizes.len() - j,
    {
        assert(before[j as int].0 == path_view(sizes@[j as int].0@));
        if same_path(&sizes[j].0, &path) {
            let held = sizes[j].1;
            match held.checked_add(size) {
                Some(total) => {
                    sizes[j].1 = total;
                    assert(sizes_view(sizes@) =~= before.update(j as int, (p, total)));
                    return true;
                },
                None => {
                    return false;
                },
            }
        }
        j += 1;
    }
    sizes.push((path, size));
    assert(sizes_view(sizes@) =~= before.push((p, size)));
    true
}

/// Follows a session and adds the size of each file to every directory
/// above it. Gives the directories that hold files, each with its total, in
/// the order in which their first files were met.
pub fn walk_dirs(lines: &[&str]) -> (r: Result<Vec<(Vec<String>, usize)>, FsError>)
    ensures
        match r {
            Ok(sizes) => after_lines(str_views(lines@), lines@.len() as int) matches Ok(s)
                && s.sizes == sizes_view(sizes@),
            Err(e) => after_lines(str_views(lines@), lines@.len() as int) matches Err(f) && e == f,
        },
{
    let ghost text = str_views(lines@);
    let mut dir_sizes: Vec<(Vec<String>, usize)> = Vec::new();
    let mut current_dir: Vec<String> = Vec::new();
    let mut i: usize = 0;
    assert(sizes_view(dir_sizes@) =~= seq![]);
    assert(path_view(current_dir@) =~= seq![]);
    while i < lines.len()
        invariant
            i <= lines@.len(),
            text == str_views(lines@),
            after_lines(text, i as int) == Ok::<Session, FsError>(
                Session { cwd: path_view(current_dir@), sizes: sizes_view(dir_sizes@) },
            ),
        decreases lines@.len() - i,
    {
        assert(text[i as int] == lines@[i as int]@);
        let ghost now = Session { cwd: path_view(current_dir@), sizes: sizes_view(dir_sizes@) };
        let pl = match parse_line(lines[i]) {
            Ok(pl) => pl,
            Err(e) => {
                proof {
                    lemma_after_lines_fails(text, i + 1, text.len() as int);
                }
                return Err(e);
            },
        };
        match pl {
            ParsedLine::Cd(dir) => {
                let up = String::from_str("..");
                if dir == up {
                    if current_dir.len() > 0 {
                        current_dir.pop();
                        assert(path_view(current_dir@) =~= now.cwd.drop_last());
                    } else {
                        proof {
                            lemma_after_lines_fails(text, i + 1, text.len() as int);
                        }
                        return Err(FsError::CannotCd);
                    }
                } else {
                    current_dir.push(dir);
                    assert(path_view(current_dir@) =~= now.cwd.push(dir@));
                }
            },
            ParsedLine::Ls => {},
            ParsedLine::File(size) => {
                let mut k: usize = 0;
                while k < current_dir.len()
                    invariant
                        k <= current_dir.len(),
                        i < lines@.len(),
                        text == str_views(lines@),
                        now.cwd == path_view(current_dir@),
                        after_lines(text, i as int) == Ok::<Session, FsError>(now),
                        entry_of(text[i as int]) == Ok::<Entry, FsError>(Entry::File(size)),
                        credited_above(now.sizes, now.cwd, k as int, size) == Some(
                            sizes_view(dir_sizes@),
                        ),
                    decreases current_dir.len() - k,
                {
                    let entry = path_above(&current_dir, k + 1);
                    if !credit(&mut dir_sizes, entry, size) {
                        proof {
                            lemma_credited_above_fails(
                                now.sizes,
                                now.cwd,
                                k + 1,
                                now.cwd.len() as int,
                                size,
                            );
                            lemma_after_lines_fails(text, i + 1, text.len() as int);
                        }
                        return Err(FsError::TooLarge);
                    }
                    k += 1;
                }
            },
            ParsedLine::Dir(_) => {},
        }
        i += 1;
    }
    Ok(dir_sizes)
}

proof fn lemma_credited_above_fails(
    sizes: Seq<(Path, usize)>,
    cwd: Path,
    k: int,
    n: int,
    size: usize,
)
    requires
        0 <= k <= n <= cwd.len(),
        credited_above(sizes, cwd, k, size) is None,
    ensures
        credited_above(sizes, cwd, n, size) is None,
    decreases n - k,
{
    if k < n {
        lemma_credited_above_fails(sizes, cwd, k, n - 1, size);
    }
}

/// The sum of the first `n` sizes that are `limit` at most.
pub open spec fn sum_of_small(sizes: Seq<(Path, usize)>, n: int, limit: usize) -> int
    decreases n,
{
    if n <= 0 || n > sizes.len() {
        0
    } else {
        sum_of_small(sizes, n - 1, limit) + if sizes[n - 1].1 <= limit {
            sizes[n - 1].1 as int
        } else {
            0
        }
    }
}

/// Whether `m` is the greatest of the sizes, or 0 where there is none.
pub open spec fn is_largest(sizes: Seq<(Path, usize)>, m: usize) -> bool {
    &&& forall|i: int| 0 <= i < sizes.len() ==> (#[trigger] sizes[i]).1 <= m
    &&& m == 0 || exists|i: int| 0 <= i < sizes.len() && (#[trigger] sizes[i]).1 == m
}

/// Whether `m` is the least of the sizes that leave more than `needed`
/// together with `unused`.
pub open spec fn is_smallest_sufficient(
    sizes: Seq<(Path, usize)>,
    unused: usize,
    needed: usize,
    m: usize,
) -> bool {
    &&& unused + m > needed
    &&& exists|i: int| 0 <= i < sizes.len() && (#[trigger] sizes[i]).1 == m
    &&& forall|i: int|
        0 <= i < sizes.len() && unused + (#[trigger] sizes[i]).1 > needed ==> m <= sizes[i].1
}

/// What is to be known of a disk: the sum of the small directories, the
/// room that is unused, and the smallest directory that would free enough.
#[derive(Clone, Copy, Debug, PartialEq, Eq, Structural)]
pub struct Report {
    pub total_small: usize,
    pub unused: usize,
    pub smallest_sufficient: usize,
}

/// Sums the directories of `limit` at most, takes the largest directory for
/// what is used of `capacity`, and finds the smallest directory that leaves
/// more than `needed` unused when it is removed.
pub fn report(sizes: &Vec<(Vec<String>, usize)>, limit: usize, capacity: usize, needed: usize) -> (r:
    Result<Report, FsError>)
    ensures
        match r {
            Ok(rep) => {
                &&& rep.total_small == sum_of_small(sizes_view(sizes@), sizes@.len() as int, limit)
                &&& is_largest(sizes_view(sizes@), (capacity - rep.unused) as usize)
                &&& rep.unused <= capacity
                &&& is_smallest_sufficient(
                    sizes_view(sizes@),
                    rep.unused,
                    needed,
                    rep.smallest_sufficient,
                )
            },
            Err(FsError::TooLarge) => sum_of_small(sizes_view(sizes@), sizes@.len() as int, limit)
                > usize::MAX || exists|i: int|
                0 <= i < sizes@.len() && (#[trigger] sizes_view(sizes@)[i]).1 > capacity,
            Err(FsError::NothingSuffices) => exists|m: usize|
                #![trigger is_largest(sizes_view(sizes@), m)]
                is_largest(sizes_view(sizes@), m) && m <= capacity && forall|i: int|
                    0 <= i < sizes@.len() ==> capacity - m + (#[trigger] sizes_view(sizes@)[i]).1
                        <= needed,
            Err(_) => false,
        },
{
    let ghost all = sizes_view(sizes@);
    let mut total_size: usize = 0;
    let mut largest: usize = 0;
    let mut i: usize = 0;
    while i < sizes.len()
        invariant
            i <= sizes@.len(),
            all == sizes_view(sizes@),
            total_size == sum_of_small(all, i as int, limit),
            is_largest(all.take(i as int), largest),
        decreases sizes@.len() - i,
    {
        let size = sizes[i].1;
        assert(all[i as int].1 == size);
        let ghost before = largest;
        if size <= limit {
            match total_size.checked_add(size) {
                Some(t) => {
                    total_size = t;
                },
                None => {
                    proof {
                        lemma_sum_grows(all, i + 1, all.len() as int, limit);
                    }
                    return Err(FsError::TooLarge);
                },
            }
        }
        if size > largest {
            largest = size;
        }
        proof {
            let seen = all.take(i as int);
            let now = all.take(i + 1);
            assert(now[i as int].1 == size);
            assert forall|j: int| 0 <= j < now.len() implies (#[trigger] now[j]).1 <= largest by {
                if j < i {
                    assert(seen[j].1 <= before);
                }
            }
            if largest != 0 && largest == before {
                let j = choose|j: int| 0 <= j < seen.len() && (#[trigger] seen[j]).1 == before;
                assert(now[j].1 == largest);
            }
        }
        i += 1;
    }
    assert(all.take(i as int) =~= all);
    if largest > capacity {
        return Err(FsError::TooLarge);
    }
    let unused = capacity - largest;
    let mut smallest: Option<usize> = None;
    let mut i: usize = 0;
    while i < sizes.len()
        invariant
            i <= sizes@.len(),
            all == sizes_view(sizes@),
            match smallest {
                Some(m) => is_smallest_sufficient(all.take(i as int), unused, needed, m),
                None => forall|j: int| 0 <= j < i ==> unused + (#[trigger] all[j]).1 <= needed,
            },
        decreases sizes@.len() - i,
    {
        let size = sizes[i].1;
        assert(all[i as int].1 == size);
        let ghost seen = all.take(i as int);
        let ghost now = all.take(i + 1);
        let ghost before = smallest;
        let sufficient = match unused.checked_add(size) {
            Some(t) => t > needed,
            None => true,
        };
        if sufficient {
            smallest = match smallest {
                Some(m) => if size < m {
                    Some(size)
                } else {
                    Some(m)
                },
                None => Some(size),
            };
        }
        proof {
            assert(now[i as int].1 == size);
            match smallest {
                Some(m) => {
                    assert forall|j: int|
                        0 <= j < now.len() && unused + (#[trigger] now[j]).1 > needed implies m
                        <= now[j].1 by {
                        if j < i {
                            assert(seen[j] == now[j]);
                            assert(all[j] == now[j]);
                        }
                    }
                    if m != size || !sufficient {
                        let old_m = before->0;
                        let j = choose|j: int|
                            0 <= j < seen.len() && (#[trigger] seen[j]).1 == old_m;
                        assert(now[j].1 == m);
                    }
                },
                None => {},
            }
        }
        i += 1;
    }
    assert(all.take(i as int) =~= all);
    match smallest {
        Some(m) => Ok(Report { total_small: total_size, unused, smallest_sufficient: m }),
        None => {
            assert(is_largest(all, largest));
            Err(FsError::NothingSuffices)
        },
    }
}

proof fn lemma_sum_grows(sizes: Seq<(Path, usize)>, k: int, n: int, limit: usize)
    requires
        0 <= k <= n <= sizes.len(),
    ensures
        sum_of_small(sizes, k, limit) <= sum_of_small(sizes, n, limit),
    decreases n - k,
{
    if k < n {
        lemma_sum_grows(sizes, k, n - 1, limit);
    }
}

} // verus!
