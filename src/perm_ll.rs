//! A linked ordering over a fixed universe of ids `0..length`, with O(1)
//! insertion next to a known id.
use vstd::prelude::*;

verus! {

/// A permutation linked list: each id links to its successor, if it has one.
pub struct PLinkedList {
    first: usize,
    last: usize,
    links: Vec<Option<usize>>,
    order: Ghost<Seq<usize>>,
}

impl View for PLinkedList {
    type V = Seq<usize>;

    /// The ids placed so far, from head to tail.
    closed spec fn view(&self) -> Seq<usize> {
        self.order@
    }
}

impl PLinkedList {
    /// The size of the id universe.
    pub closed spec fn capacity(&self) -> nat {
        self.links@.len()
    }

    /// The links follow the ordering, and ids not yet placed link nowhere.
    pub closed spec fn wf(&self) -> bool {
        let s = self.order@;
        &&& s.len() >= 1
        &&& s.no_duplicates()
        &&& forall|k: int| 0 <= k < s.len() ==> (#[trigger] s[k]) < self.links@.len()
        &&& self.first == s[0]
        &&& self.last == s.last()
        &&& forall|k: int|
            0 <= k < s.len() - 1 ==> self.links@[#[trigger] s[k] as int] == Some(s[k + 1])
        &&& self.links@[self.last as int] == None::<usize>
        &&& forall|id: usize|
            id < self.links@.len() && !s.contains(id) ==> self.links@[id as int] == None::<usize>
    }

    /// A well-formed list is not empty, holds no id twice, and holds only
    /// ids below its capacity.
    pub proof fn lemma_wf_facts(&self)
        requires
            self.wf(),
        ensures
            self@.len() >= 1,
            self@.no_duplicates(),
            forall|k: int| 0 <= k < self@.len() ==> #[trigger] self@[k] < self.capacity(),
    {
    }

    /// A list over ids `0..length` that holds `first` alone.
    pub fn new(length: usize, first: usize) -> (r: Self)
        requires
            first < length,
        ensures
            r.wf(),
            r@ == seq![first],
            r.capacity() == length,
    {
        let links: Vec<Option<usize>> = vec![None; length];
        let ghost o = seq![first];
        let r = Self { first, last: first, links, order: Ghost(o) };
        assert(r.order@.no_duplicates());
        r
    }

    /// The id that follows `cur`, if `cur` is placed and not the tail.
    pub fn get_succ(&self, cur: usize) -> (r: Option<usize>)
        requires
            self.wf(),
            cur < self.capacity(),
        ensures
            !self@.contains(cur) ==> r == None::<usize>,
            forall|k: int|
                0 <= k < self@.len() && #[trigger] self@[k] == cur ==> r == (if k + 1 < self@.len() {
                    Some(self@[k + 1])
                } else {
                    None::<usize>
                }),
    {
        self.links[cur]
    }

    /// Splices `next` in right after `cur`.
    #[verifier::rlimit(100)]
    pub fn insert_after(&mut self, cur: usize, next: usize)
        requires
            old(self).wf(),
            old(self)@.contains(cur),
            next < old(self).capacity(),
            !old(self)@.contains(next),
        ensures
            final(self).wf(),
            final(self).capacity() == old(self).capacity(),
            forall|k: int|
                0 <= k < old(self)@.len() && #[trigger] old(self)@[k] == cur ==> final(self)@
                    == old(self)@.insert(k + 1, next),
    {
        let ghost s = self.order@;
        let ghost k = s.index_of(cur);
        let cur_succ = self.links[cur];
        self.links.set(cur, Some(next));
        self.links.set(next, cur_succ);
        if cur == self.last {
            self.last = next;
        }
        self.order = Ghost(s.insert(k + 1, next));
        proof {
            let t = self.order@;
            assert forall|j: int| 0 <= j < s.len() && s[j] == cur implies j == k by {
                if j != k {
                    assert(s.no_duplicates());
                }
            }
            lemma_insert_keeps_distinct(s, k + 1, next);
            assert forall|j: int| 0 <= j < t.len() - 1 implies self.links@[#[trigger] t[j] as int]
                == Some(t[j + 1]) by {
                if j < k {
                    assert(t[j] != cur && t[j] != next);
                } else if j == k {
                } else if j == k + 1 {
                } else {
                    assert(t[j] == s[j - 1]);
                    assert(s[j - 1] != cur);
                }
            }
            assert forall|id: usize| id < self.links@.len() && !t.contains(id) implies self.links@[
                id as int] == None::<usize> by {
                if s.contains(id) {
                    lemma_insert_keeps_members(s, k + 1, next, id);
                }
                assert(t[k + 1] == next);
            }
            if cur == old(self).last {
                assert(k == s.len() - 1);
                assert(self.last == t.last());
            } else {
                assert(k < s.len() - 1);
                assert(t.last() == s.last());
                assert(s.contains(old(self).last));
            }
        }
    }

    /// Appends `new` after the tail.
    pub fn insert_at_end(&mut self, new: usize)
        requires
            old(self).wf(),
            new < old(self).capacity(),
            !old(self)@.contains(new),
        ensures
            final(self).wf(),
            final(self).capacity() == old(self).capacity(),
            final(self)@ == old(self)@.push(new),
    {
        let ghost s = self.order@;
        let last = self.last;
        self.links.set(last, Some(new));
        self.last = new;
        self.order = Ghost(s.push(new));
        proof {
            let t = self.order@;
            assert forall|a: int, b: int| 0 <= a < t.len() && 0 <= b < t.len() && a != b
                implies t[a] != t[b] by {
                if a == s.len() {
                    assert(s.contains(t[b]));
                } else if b == s.len() {
                    assert(s.contains(t[a]));
                }
            }
            assert forall|j: int| 0 <= j < t.len() - 1 implies self.links@[#[trigger] t[j] as int]
                == Some(t[j + 1]) by {
                if j < s.len() - 1 {
                    assert(t[j] != last);
                }
            }
            assert forall|id: usize| id < self.links@.len() && !t.contains(id) implies self.links@[
                id as int] == None::<usize> by {
                assert(t[s.len() - 1] == last);
                if s.contains(id) {
                    let j = choose|j: int| 0 <= j < s.len() && s[j] == id;
                    assert(t[j] == id);
                }
            }
        }
    }

    /// Makes `new` the head, ahead of the previous head.
    pub fn insert_at_start(&mut self, new: usize)
        requires
            old(self).wf(),
            new < old(self).capacity(),
            !old(self)@.contains(new),
        ensures
            final(self).wf(),
            final(self).capacity() == old(self).capacity(),
            final(self)@ == seq![new] + old(self)@,
    {
        let ghost s = self.order@;
        let first = self.first;
        self.links.set(new, Some(first));
        self.first = new;
        let ghost t = seq![new] + s;
        self.order = Ghost(t);
        proof {
            let t = self.order@;
            assert(t.drop_first() =~= s);
            assert forall|a: int, b: int| 0 <= a < t.len() && 0 <= b < t.len() && a != b
                implies t[a] != t[b] by {
                if a == 0 {
                    assert(s.contains(t[b]));
                } else if b == 0 {
                    assert(s.contains(t[a]));
                }
            }
            assert forall|j: int| 0 <= j < t.len() - 1 implies self.links@[#[trigger] t[j] as int]
                == Some(t[j + 1]) by {
                if j > 0 {
                    assert(t[j] == s[j - 1]);
                }
            }
            assert forall|id: usize| id < self.links@.len() && !t.contains(id) implies self.links@[
                id as int] == None::<usize> by {
                if s.contains(id) {
                    let j = choose|j: int| 0 <= j < s.len() && s[j] == id;
                    assert(t[j + 1] == id);
                }
                assert(t[0] == new);
            }
            assert(self.links@[self.last as int] == None::<usize>) by {
                assert(s.contains(self.last));
            }
        }
    }

    /// The head of the list.
    pub fn first(&self) -> (r: usize)
        requires
            self.wf(),
        ensures
            r == self@[0],
    {
        self.first
    }

    /// The tail of the list.
    pub fn last(&self) -> (r: usize)
        requires
            self.wf(),
        ensures
            r == self@.last(),
    {
        self.last
    }

    /// A traversal from head to tail that leaves the list as it is.
    pub fn iter(&self) -> (r: PLinkedListIterator<'_>)
        requires
            self.wf(),
        ensures
            r.wf(),
            r.target() == self,
            r.pos() == 0,
    {
        PLinkedListIterator::new(self)
    }

    /// The ids from head to tail.
    pub fn to_vec(&self) -> (r: Vec<usize>)
        requires
            self.wf(),
        ensures
            r@ == self@,
    {
        let mut out: Vec<usize> = Vec::new();
        let mut it = self.iter();
        loop
            invariant
                it.wf(),
                it.target() == self,
                out@ == self@.subrange(0, it.pos() as int),
            ensures
                out@ == self@,
            decreases self@.len() - it.pos(),
        {
            match it.next() {
                Some(id) => {
                    out.push(id);
                },
                None => {
                    assert(it.pos() == self@.len());
                    assert(out@ =~= self@);
                    break ;
                },
            }
        }
        out
    }
}

/// Walks a `PLinkedList` from head to tail.
pub struct PLinkedListIterator<'a> {
    target: &'a PLinkedList,
    cur: Option<usize>,
    at: Ghost<nat>,
}

impl<'a> PLinkedListIterator<'a> {
    /// The list walked.
    pub closed spec fn target(&self) -> &'a PLinkedList {
        self.target
    }

    /// How many ids have been handed out.
    pub closed spec fn pos(&self) -> nat {
        self.at@
    }

    /// The cursor stands at position `pos` of the list.
    pub closed spec fn wf(&self) -> bool {
        &&& self.target.wf()
        &&& self.at@ <= self.target@.len()
        &&& self.cur == if self.at@ < self.target@.len() {
            Some(self.target@[self.at@ as int])
        } else {
            None::<usize>
        }
    }

    /// A traversal that starts at the head of `target`.
    pub fn new(target: &'a PLinkedList) -> (r: Self)
        requires
            target.wf(),
        ensures
            r.wf(),
            r.target() == target,
            r.pos() == 0,
    {
        Self { target, cur: Some(target.first), at: Ghost(0) }
    }

    /// The next id, or `None` past the tail.
    pub fn next(&mut self) -> (r: Option<usize>)
        requires
            old(self).wf(),
        ensures
            final(self).wf(),
            final(self).target() == old(self).target(),
            old(self).pos() < old(self).target()@.len() ==> r == Some(old(self).target()@[old(self).pos() as int])
                && final(self).pos() == old(self).pos() + 1,
            old(self).pos() >= old(self).target()@.len() ==> r == None::<usize> && final(self).pos() == old(self).pos(),
    {
        let rv = self.cur;
        match rv {
            Some(id) => {
                self.cur = self.target.links[id];
                self.at = Ghost((self.at@ + 1) as nat);
            },
            None => {},
        }
        rv
    }
}

/// Inserting an absent element keeps a sequence free of duplicates.
proof fn lemma_insert_keeps_distinct(s: Seq<usize>, i: int, x: usize)
    requires
        s.no_duplicates(),
        !s.contains(x),
        0 <= i <= s.len(),
    ensures
        s.insert(i, x).no_duplicates(),
{
    let t = s.insert(i, x);
    assert forall|a: int, b: int| 0 <= a < t.len() && 0 <= b < t.len() && a != b implies t[a]
        != t[b] by {
        if a == i {
            assert(t[b] == s[if b < i { b } else { b - 1 }]);
        } else if b == i {
            assert(t[a] == s[if a < i { a } else { a - 1 }]);
        } else {
            assert(t[a] == s[if a < i { a } else { a - 1 }]);
            assert(t[b] == s[if b < i { b } else { b - 1 }]);
        }
    }
}

/// Inserting keeps every element that was there.
proof fn lemma_insert_keeps_members(s: Seq<usize>, i: int, x: usize, y: usize)
    requires
        s.contains(y),
        0 <= i <= s.len(),
    ensures
        s.insert(i, x).contains(y),
{
    let j = choose|j: int| 0 <= j < s.len() && s[j] == y;
    let t = s.insert(i, x);
    if j < i {
        assert(t[j] == y);
    } else {
        assert(t[j + 1] == y);
    }
}

} // verus!
