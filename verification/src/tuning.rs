//! Finding the first run of distinct characters in a stream.
use crate::text::chars_of;
use std::collections::HashSet;
use std::collections::VecDeque;
use vstd::prelude::*;

verus! {

broadcast use vstd::std_specs::hash::group_hash_axioms;

/// Keeps the most recent characters of a stream, `capacity` of them at most
/// once that many have come.
pub struct Detector {
    queue: VecDeque<char>,
    capacity: usize,
}

/// The codes of the characters of `q`, each once.
pub open spec fn codes(q: Seq<char>) -> Set<u32> {
    Set::new(|v: u32| exists|i: int| 0 <= i < q.len() && #[trigger] q[i] as u32 == v)
}

/// The queue after `c` has come: where it held `capacity` characters, the
/// oldest has left.
pub open spec fn pushed(queue: Seq<char>, capacity: usize, c: char) -> Seq<char> {
    if queue.len() == capacity && queue.len() > 0 {
        queue.skip(1).push(c)
    } else {
        queue.push(c)
    }
}

/// Whether the characters of the queue are `capacity` distinct ones.
pub open spec fn all_distinct(queue: Seq<char>, capacity: usize) -> bool {
    codes(queue).len() == capacity
}

/// Feeds the characters of `s` from index `i` on, and stops after the first
/// that leaves `capacity` distinct characters in the queue. Gives the number
/// of characters of `s` that had come by then, if it stopped, and the queue
/// as it is left.
pub open spec fn scan(queue: Seq<char>, capacity: usize, s: Seq<char>, i: int) -> (
    Option<usize>,
    Seq<char>,
)
    decreases s.len() - i,
{
    if i < 0 || i >= s.len() {
        (None, queue)
    } else {
        let q = pushed(queue, capacity, s[i]);
        if all_distinct(q, capacity) {
            (Some((i + 1) as usize), q)
        } else {
            scan(q, capacity, s, i + 1)
        }
    }
}

/// The last `capacity` characters of the first `i` of `s`, or all `i`
/// where there are fewer.
pub open spec fn window(s: Seq<char>, i: int, capacity: usize) -> Seq<char> {
    if i <= capacity {
        s.take(i)
    } else {
        s.subrange(i - capacity, i)
    }
}

/// A detector that begins empty holds, after each character, the window
/// that ends there. So it stops after the first character whose window is
/// made of distinct characters, and not at all where no window is.
pub proof fn lemma_scan_windows(s: Seq<char>, capacity: usize, i: int)
    requires
        capacity >= 1,
        0 <= i <= s.len() <= usize::MAX,
    ensures
        match scan(window(s, i, capacity), capacity, s, i).0 {
            Some(k) => i < k <= s.len() && all_distinct(window(s, k as int, capacity), capacity)
                && forall|j: int| i < j < k ==> !all_distinct(#[trigger] window(s, j, capacity), capacity),
            None => forall|j: int|
                i < j <= s.len() ==> !all_distinct(#[trigger] window(s, j, capacity), capacity),
        },
    decreases s.len() - i,
{
    if i < s.len() {
        let q = pushed(window(s, i, capacity), capacity, s[i]);
        assert(q =~= window(s, i + 1, capacity));
        if !all_distinct(q, capacity) {
            lemma_scan_windows(s, capacity, i + 1);
            assert(scan(window(s, i, capacity), capacity, s, i) == scan(
                window(s, i + 1, capacity),
                capacity,
                s,
                i + 1,
            ));
            match scan(window(s, i, capacity), capacity, s, i).0 {
                Some(k) => {
                    assert forall|j: int| i < j < k implies !all_distinct(
                        #[trigger] window(s, j, capacity),
                        capacity,
                    ) by {
                        if j == i + 1 {
                        }
                    }
                },
                None => {
                    assert forall|j: int| i < j <= s.len() implies !all_distinct(
                        #[trigger] window(s, j, capacity),
                        capacity,
                    ) by {
                        if j == i + 1 {
                        }
                    }
                },
            }
        } else {
            assert(scan(window(s, i, capacity), capacity, s, i).0 == Some((i + 1) as usize));
        }
    }
}

impl Detector {
    /// The characters that the detector holds, oldest first.
    pub closed spec fn held(&self) -> Seq<char> {
        self.queue@
    }

    /// The length of the run that the detector looks for.
    pub closed spec fn length(&self) -> usize {
        self.capacity
    }

    pub fn new(length: usize) -> (d: Self)
        ensures
            d.held() == Seq::<char>::empty(),
            d.length() == length,
    {
        Detector { queue: VecDeque::new(), capacity: length }
    }

    pub fn push_and_check(&mut self, c: char) -> (r: bool)
        ensures
            final(self).length() == old(self).length(),
            final(self).held() == pushed(old(self).held(), old(self).length(), c),
            r == all_distinct(final(self).held(), final(self).length()),
    {
        if self.queue.len() == self.capacity {
            let gone = self.queue.pop_front();
            assert(gone is Some ==> self.queue@ =~= old(self).queue@.skip(1));
        }
        self.queue.push_back(c);
        let mut seen: HashSet<u32> = HashSet::new();
        let mut i: usize = 0;
        assert(seen@ =~= codes(self.queue@.take(0)));
        while i < self.queue.len()
            invariant
                i <= self.queue@.len(),
                seen@ == codes(self.queue@.take(i as int)),
            decreases self.queue@.len() - i,
        {
            let code: u32 = self.queue[i] as u32;
            seen.insert(code);
            proof {
                let before = self.queue@.take(i as int);
                let now = self.queue@.take(i + 1);
                assert(now[i as int] as u32 == code);
                assert forall|v: u32| codes(now).contains(v) <==> codes(before).insert(
                    code,
                ).contains(v) by {
                    if codes(now).contains(v) {
                        let j = choose|j: int| 0 <= j < now.len() && #[trigger] now[j] as u32 == v;
                        if j < i {
                            assert(before[j] as u32 == v);
                        }
                    }
                    if codes(before).contains(v) {
                        let j = choose|j: int|
                            0 <= j < before.len() && #[trigger] before[j] as u32 == v;
                        assert(now[j] as u32 == v);
                    }
                }
                assert(codes(now) =~= codes(before).insert(code));
            }
            i += 1;
        }
        assert(self.queue@.take(self.queue@.len() as int) =~= self.queue@);
        let set_length = seen.len();
        set_length == self.capacity
    }

    /// Feeds the characters of `input` until a run of distinct characters is
    /// complete, and returns how many characters had come by then. Nothing is
    /// fed where `input` has fewer bytes than the run is long.
    pub fn detect(&mut self, input: &str) -> (r: Option<usize>)
        ensures
            final(self).length() == old(self).length(),
            input.len() < old(self).length() ==> r is None
                && final(self).held() == old(self).held(),
            input.len() >= old(self).length() ==> (r, final(self).held()) == scan(
                old(self).held(),
                old(self).length(),
                input@,
                0,
            ),
    {
        if input.len() < self.capacity {
            return None;
        }
        let chars = chars_of(input);
        let mut i: usize = 0;
        while i < chars.len()
            invariant
                i <= chars.len(),
                chars@ == input@,
                input.len() >= old(self).length(),
                self.length() == old(self).length(),
                scan(old(self).held(), old(self).length(), input@, 0) == scan(
                    self.held(),
                    self.length(),
                    input@,
                    i as int,
                ),
            decreases chars.len() - i,
        {
            if self.push_and_check(chars[i]) {
                return Some(i + 1);
            }
            i += 1;
        }
        None
    }
}

} // verus!
