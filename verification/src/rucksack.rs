//! Rucksacks and the items in them: the two compartments of a rucksack, the
//! item that both hold, the item that a group shares, and what an item is
//! worth.
use crate::text::chars_of;
use vstd::prelude::*;
use vstd::string::StringSliceAdditionalSpecFns;
use vstd::utf8::{decode_utf8, encode_utf8, is_char_boundary};

verus! {

/// The two halves of a rucksack, cut at the middle of its bytes in UTF-8.
pub open spec fn halves(s: Seq<char>) -> (Seq<char>, Seq<char>) {
    let bytes = encode_utf8(s);
    let mid = bytes.len() as int / 2;
    (decode_utf8(bytes.subrange(0, mid)), decode_utf8(bytes.subrange(mid, bytes.len() as int)))
}

/// The rucksack has an even number of bytes, and no character lies across
/// their middle.
pub open spec fn evenly_packed(s: Seq<char>) -> bool {
    let bytes = encode_utf8(s);
    bytes.len() % 2 == 0 && is_char_boundary(bytes, bytes.len() as int / 2)
}

/// The items that both `a` and `b` hold.
pub open spec fn common(a: Seq<char>, b: Seq<char>) -> Set<char> {
    a.to_set().intersect(b.to_set())
}

/// The items that each of the first `n` rucksacks holds.
pub open spec fn shared(rucksacks: Seq<Seq<char>>, n: int) -> Set<char>
    decreases n,
{
    if n <= 1 || n > rucksacks.len() {
        if rucksacks.len() > 0 {
            rucksacks[0].to_set()
        } else {
            Set::empty()
        }
    } else {
        shared(rucksacks, n - 1).intersect(rucksacks[n - 1].to_set())
    }
}

/// What an item is worth: 1 to 26 for `a` to `z`, 27 to 52 for `A` to `Z`.
pub open spec fn priority(c: char) -> int {
    if 'a' <= c && c <= 'z' {
        1 + (c as int - 'a' as int)
    } else {
        27 + (c as int - 'A' as int)
    }
}

pub open spec fn is_letter(c: char) -> bool {
    ('a' <= c && c <= 'z') || ('A' <= c && c <= 'Z')
}

/// The views of a list of strings.
pub open spec fn string_views(v: Seq<String>) -> Seq<Seq<char>> {
    Seq::new(v.len(), |i: int| v[i]@)
}

pub fn split_rucksack(rucksack: &str) -> (r: (&str, &str))
    requires
        evenly_packed(rucksack@),
    ensures
        (r.0@, r.1@) == halves(rucksack@),
{
    let capacity = rucksack.as_bytes().len();
    assert(capacity == encode_utf8(rucksack@).len());
    let r = rucksack.split_at(capacity / 2);
    proof {
        vstd::utf8::encode_utf8_decode_utf8(r.0@);
        vstd::utf8::encode_utf8_decode_utf8(r.1@);
        assert(r.0.spec_bytes() == encode_utf8(r.0@));
        assert(r.1.spec_bytes() == encode_utf8(r.1@));
    }
    r
}

fn holds(items: &Vec<char>, c: char) -> (r: bool)
    ensures
        r == items@.contains(c),
{
    let mut i: usize = 0;
    while i < items.len()
        invariant
            i <= items.len(),
            forall|j: int| 0 <= j < i ==> items@[j] != c,
        decreases items.len() - i,
    {
        if items[i] == c {
            return true;
        }
        i += 1;
    }
    false
}

/// The items of `s`, each once, in the order in which they first occur.
pub fn set_from_string(s: &str) -> (h: Vec<char>)
    ensures
        h@.no_duplicates(),
        h@.to_set() == s@.to_set(),
{
    let cs = chars_of(s);
    distinct(&cs)
}

fn distinct(cs: &Vec<char>) -> (h: Vec<char>)
    ensures
        h@.no_duplicates(),
        h@.to_set() == cs@.to_set(),
{
    let mut h: Vec<char> = Vec::new();
    let mut i: usize = 0;
    assert(h@.to_set() =~= cs@.take(0).to_set());
    while i < cs.len()
        invariant
            i <= cs.len(),
            h@.no_duplicates(),
            h@.to_set() == cs@.take(i as int).to_set(),
        decreases cs.len() - i,
    {
        let c = cs[i];
        let ghost before = h@;
        if !holds(&h, c) {
            h.push(c);
        }
        proof {
            let seen = cs@.take(i as int);
            let now = cs@.take(i + 1);
            assert(now =~= seen.push(c));
            assert forall|x: char| h@.to_set().contains(x) <==> now.to_set().contains(x) by {
                if h@.contains(x) {
                    let j = choose|j: int| 0 <= j < h@.len() && h@[j] == x;
                    if j < before.len() {
                        assert(before.contains(x));
                        assert(seen.to_set().contains(x));
                        let k = choose|k: int| 0 <= k < seen.len() && seen[k] == x;
                        assert(now[k] == x);
                    } else {
                        assert(now[i as int] == x);
                    }
                }
                if now.contains(x) {
                    let j = choose|j: int| 0 <= j < now.len() && now[j] == x;
                    if j < i {
                        assert(seen[j] == x);
                        assert(seen.to_set().contains(x));
                        assert(before.contains(x));
                        let k = choose|k: int| 0 <= k < before.len() && before[k] == x;
                        assert(h@[k] == x);
                    } else {
                        if before.contains(c) {
                            let k = choose|k: int| 0 <= k < before.len() && before[k] == c;
                            assert(h@[k] == x);
                        } else {
                            assert(h@[before.len() as int] == x);
                        }
                    }
                }
            }
            assert(h@.to_set() =~= now.to_set());
        }
        i += 1;
    }
    assert(cs@.take(cs@.len() as int) =~= cs@);
    h
}

/// The items of `a` that `b` holds too.
fn both(a: &Vec<char>, b: &Vec<char>) -> (out: Vec<char>)
    requires
        a@.no_duplicates(),
    ensures
        out@.no_duplicates(),
        out@.to_set() == a@.to_set().intersect(b@.to_set()),
{
    let mut out: Vec<char> = Vec::new();
    let mut i: usize = 0;
    while i < a.len()
        invariant
            i <= a.len(),
            a@.no_duplicates(),
            out@.no_duplicates(),
            forall|x: char| out@.contains(x) <==> a@.take(i as int).contains(x) && b@.contains(x),
        decreases a.len() - i,
    {
        let c = a[i];
        let ghost before = out@;
        let ghost seen = a@.take(i as int);
        let ghost now = a@.take(i + 1);
        assert(now =~= seen.push(c));
        if holds(b, c) {
            assert(!before.contains(c)) by {
                if seen.contains(c) {
                    let k = choose|k: int| 0 <= k < seen.len() && seen[k] == c;
                    assert(a@[k] == a@[i as int]);
                }
            }
            out.push(c);
        }
        proof {
            assert forall|x: char| out@.contains(x) <==> now.contains(x) && b@.contains(x) by {
                if out@.contains(x) {
                    let j = choose|j: int| 0 <= j < out@.len() && out@[j] == x;
                    if j < before.len() {
                        assert(before.contains(x));
                        let k = choose|k: int| 0 <= k < seen.len() && seen[k] == x;
                        assert(now[k] == x);
                    } else {
                        assert(now[i as int] == x);
                    }
                }
                if now.contains(x) && b@.contains(x) {
                    let j = choose|j: int| 0 <= j < now.len() && now[j] == x;
                    if j < i {
                        assert(seen[j] == x);
                        assert(before.contains(x));
                        let k = choose|k: int| 0 <= k < before.len() && before[k] == x;
                        assert(out@[k] == x);
                    } else {
                        assert(out@[before.len() as int] == x);
                    }
                }
            }
        }
        i += 1;
    }
    assert(a@.take(a@.len() as int) =~= a@);
    assert(out@.to_set() =~= a@.to_set().intersect(b@.to_set()));
    out
}

/// The item that both compartments of a rucksack hold, if there is one.
pub fn check_rucksack(rucksack: &str) -> (r: Option<char>)
    requires
        evenly_packed(rucksack@),
        common(halves(rucksack@).0, halves(rucksack@).1).len() <= 1,
    ensures
        match r {
            None => common(halves(rucksack@).0, halves(rucksack@).1) == Set::<char>::empty(),
            Some(c) => common(halves(rucksack@).0, halves(rucksack@).1) == set![c],
        },
{
    let (compartment_1, compartment_2) = split_rucksack(rucksack);
    let (unique_items_1, unique_items_2) = (
        set_from_string(compartment_1),
        set_from_string(compartment_2),
    );
    let found = both(&unique_items_1, &unique_items_2);
    proof {
        found@.unique_seq_to_set();
    }
    if found.len() == 0 {
        assert(found@.to_set() =~= Set::<char>::empty());
        None
    } else {
        assert(found@.to_set() =~= set![found@[0]]) by {
            assert(found@.len() == 1);
            assert forall|x: char| found@.contains(x) implies x == found@[0] by {
                let j = choose|j: int| 0 <= j < found@.len() && found@[j] == x;
            }
            assert(found@.contains(found@[0]));
        }
        Some(found[0])
    }
}

/// The one item that every rucksack of a group holds.
pub fn find_common_in_group(rucksacks: &[String]) -> (r: char)
    requires
        rucksacks@.len() > 0,
        shared(string_views(rucksacks@), rucksacks@.len() as int).len() == 1,
    ensures
        shared(string_views(rucksacks@), rucksacks@.len() as int) == set![r],
{
    let ghost text = string_views(rucksacks@);
    let mut s = set_from_string(rucksacks[0].as_str());
    let mut i: usize = 1;
    while i < rucksacks.len()
        invariant
            1 <= i <= rucksacks@.len(),
            text == string_views(rucksacks@),
            s@.no_duplicates(),
            s@.to_set() == shared(text, i as int),
        decreases rucksacks@.len() - i,
    {
        let item = set_from_string(rucksacks[i].as_str());
        assert(text[i as int] == rucksacks@[i as int]@);
        s = both(&s, &item);
        i += 1;
    }
    proof {
        s@.unique_seq_to_set();
        assert(s@.to_set() =~= set![s@[0]]) by {
            assert forall|x: char| s@.contains(x) implies x == s@[0] by {
                let j = choose|j: int| 0 <= j < s@.len() && s@[j] == x;
            }
            assert(s@.contains(s@[0]));
        }
    }
    s[0]
}

pub fn score(c: &char) -> (r: u32)
    requires
        is_letter(*c),
    ensures
        r == priority(*c),
{
    let n: u32 = *c as u32;
    if 97 <= n && n <= 122 {
        1 + (n - 97)
    } else {
        27 + (n - 65)
    }
}

/// The items that the two compartments of a rucksack share.
pub open spec fn misplaced(line: Seq<char>) -> Set<char> {
    common(halves(line).0, halves(line).1)
}

/// What the shared item of a rucksack is worth, or 0 where there is none.
pub open spec fn misplaced_worth(line: Seq<char>) -> int {
    if misplaced(line).len() == 0 {
        0
    } else {
        priority(misplaced(line).choose())
    }
}

/// The `g`-th group of three rucksacks.
pub open spec fn group(lines: Seq<Seq<char>>, g: int) -> Seq<Seq<char>> {
    lines.subrange(3 * g, 3 * g + 3)
}

/// Every rucksack is evenly packed and has at most one item in both
/// compartments, every group of three shares exactly one item, and these
/// items are letters.
pub open spec fn sortable(lines: Seq<Seq<char>>) -> bool {
    &&& forall|i: int|
        0 <= i < lines.len() ==> evenly_packed(#[trigger] lines[i]) && misplaced(lines[i]).len()
            <= 1 && forall|c: char| #[trigger] misplaced(lines[i]).contains(c) ==> is_letter(c)
    &&& forall|g: int|
        0 <= g && 3 * g + 3 <= lines.len() ==> shared(#[trigger] group(lines, g), 3).len() == 1
            && forall|c: char| #[trigger] shared(group(lines, g), 3).contains(c) ==> is_letter(c)
}

/// The worth of the shared items of the first `n` rucksacks.
pub open spec fn worth_of_misplaced(lines: Seq<Seq<char>>, n: int) -> int
    decreases n,
{
    if n <= 0 || n > lines.len() {
        0
    } else {
        worth_of_misplaced(lines, n - 1) + misplaced_worth(lines[n - 1])
    }
}

/// The worth of the items that the first `n` groups of three share.
pub open spec fn worth_of_badges(lines: Seq<Seq<char>>, n: int) -> int
    decreases n,
{
    if n <= 0 || 3 * n > lines.len() {
        0
    } else {
        worth_of_badges(lines, n - 1) + priority(shared(group(lines, n - 1), 3).choose())
    }
}

proof fn lemma_only_member(s: Set<char>, c: char)
    requires
        s == set![c],
    ensures
        s.choose() == c,
        s.len() == 1,
{
    assert(s.contains(c));
    assert(s.contains(s.choose()));
}

/// Adds up what the shared items of all rucksacks are worth, and what the
/// items are worth that the groups of three share.
pub fn total_priorities(lines: &[String]) -> (r: (u32, u32))
    requires
        sortable(string_views(lines@)),
        lines@.len() * 52 <= u32::MAX,
    ensures
        r.0 == worth_of_misplaced(string_views(lines@), lines@.len() as int),
        r.1 == worth_of_badges(string_views(lines@), lines@.len() as int / 3),
{
    let ghost text = string_views(lines@);
    let mut total_score: u32 = 0;
    let mut total_score_2: u32 = 0;
    let mut group_lines: Vec<String> = Vec::new();
    let mut i: usize = 0;
    while i < lines.len()
        invariant
            i <= lines@.len(),
            text == string_views(lines@),
            sortable(text),
            lines@.len() * 52 <= u32::MAX,
            total_score <= 52 * i,
            total_score_2 <= 52 * (i / 3),
            total_score == worth_of_misplaced(text, i as int),
            total_score_2 == worth_of_badges(text, i as int / 3),
            group_lines@.len() == i % 3,
            string_views(group_lines@) == text.subrange(i - i % 3, i as int),
        decreases lines@.len() - i,
    {
        let str_line = &lines[i];
        assert(text[i as int] == str_line@);
        assert(evenly_packed(text[i as int]) && misplaced(text[i as int]).len() <= 1);
        match check_rucksack(str_line.as_str()) {
            Some(duplicate) => {
                proof {
                    lemma_only_member(misplaced(text[i as int]), duplicate);
                    assert(misplaced(text[i as int]).contains(duplicate));
                }
                total_score += score(&duplicate);
            },
            None => {
                assert(misplaced(text[i as int]).len() == 0);
            },
        }
        let ghost held = group_lines@;
        group_lines.push(str_line.clone());
        assert(string_views(group_lines@) =~= text.subrange(i - i % 3, i + 1)) by {
            assert forall|j: int| 0 <= j < group_lines@.len() implies string_views(
                group_lines@,
            )[j] == text.subrange(i - i % 3, i + 1)[j] by {
                if j < held.len() {
                    assert(string_views(held)[j] == text.subrange(i - i % 3, i as int)[j]);
                }
            }
        }
        if group_lines.len() == 3 {
            let ghost g = i as int / 3;
            assert(i - i % 3 == 3 * g && i + 1 == 3 * g + 3);
            assert(string_views(group_lines@) == group(text, g));
            assert(shared(group(text, g), 3).len() == 1);
            let found = find_common_in_group(group_lines.as_slice());
            proof {
                lemma_only_member(shared(group(text, g), 3), found);
                assert(shared(group(text, g), 3).contains(found));
                assert((i + 1) / 3 == g + 1);
            }
            total_score_2 += score(&found);
            group_lines = Vec::new();
            assert(string_views(group_lines@) =~= text.subrange(i + 1, i + 1));
        } else {
            assert((i + 1) / 3 == i / 3);
            assert((i + 1) % 3 == i % 3 + 1);
        }
        i += 1;
    }
    (total_score, total_score_2)
}

} // verus!
