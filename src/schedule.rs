use vstd::prelude::*;

verus! {

/// Launch accounting of the scheduler: which shard goes out next, and how
/// many launched shards are not yet handed to the relay.
#[derive(Clone, Copy, Debug)]
pub struct Window {
    total: u64,
    ceiling: u64,
    next_launch: u64,
    outstanding: u64,
}

impl Window {
    pub closed spec fn total(&self) -> nat {
        self.total as nat
    }

    pub closed spec fn ceiling(&self) -> nat {
        self.ceiling as nat
    }

    /// Position of the next shard to launch; every earlier one was launched.
    pub closed spec fn next_launch(&self) -> nat {
        self.next_launch as nat
    }

    /// Launched shards whose results have not been handed on yet.
    pub closed spec fn outstanding(&self) -> nat {
        self.outstanding as nat
    }

    pub closed spec fn wf(&self) -> bool {
        &&& self.next_launch <= self.total
        &&& self.outstanding <= self.ceiling
        &&& self.outstanding <= self.next_launch
        &&& self.ceiling >= 1
    }

    /// A window over `total` shards with at most `ceiling` of them
    /// outstanding at once.
    pub fn new(total: u64, ceiling: u64) -> (r: Window)
        requires
            ceiling >= 1,
        ensures
            r.wf(),
            r.total() == total,
            r.ceiling() == ceiling,
            r.next_launch() == 0,
            r.outstanding() == 0,
    {
        Window { total, ceiling, next_launch: 0, outstanding: 0 }
    }

    /// Launches the next shard in enumeration order whenever a slot is free
    /// and shards remain, whichever earlier shards are still outstanding.
    pub fn launch(&mut self) -> (r: Option<u64>)
        requires
            old(self).wf(),
        ensures
            final(self).wf(),
            final(self).total() == old(self).total(),
            final(self).ceiling() == old(self).ceiling(),
            r is Some <==> (old(self).outstanding() < old(self).ceiling() && old(self).next_launch()
                < old(self).total()),
            r is Some ==> r->Some_0 == old(self).next_launch() && final(self).next_launch()
                == old(self).next_launch() + 1 && final(self).outstanding() == old(self).outstanding() + 1,
            r is None ==> *final(self) == *old(self),
    {
        if self.outstanding < self.ceiling && self.next_launch < self.total {
            let i = self.next_launch;
            self.next_launch = self.next_launch + 1;
            self.outstanding = self.outstanding + 1;
            Some(i)
        } else {
            None
        }
    }

    /// Records that the result of one outstanding shard was handed on.
    pub fn finish(&mut self)
        requires
            old(self).wf(),
            old(self).outstanding() > 0,
        ensures
            final(self).wf(),
            final(self).total() == old(self).total(),
            final(self).ceiling() == old(self).ceiling(),
            final(self).next_launch() == old(self).next_launch(),
            final(self).outstanding() == old(self).outstanding() - 1,
    {
        self.outstanding = self.outstanding - 1;
    }

    pub fn outstanding_count(&self) -> (r: u64)
        ensures
            r == self.outstanding(),
    {
        self.outstanding
    }

    /// Whether every shard was launched and every result handed on.
    pub fn is_done(&self) -> (r: bool)
        ensures
            r == (self.next_launch() == self.total() && self.outstanding() == 0),
    {
        self.next_launch == self.total && self.outstanding == 0
    }
}

/// The buffer of the ordered policy: completed results wait here until
/// every earlier shard has been handed on.
pub struct Reorder<T> {
    bound: u64,
    next: u64,
    held: Vec<(u64, T)>,
    emitted: Ghost<Seq<u64>>,
}

impl<T> Reorder<T> {
    /// Shards `0..bound()` are the ones whose results the buffer takes.
    pub closed spec fn bound(&self) -> nat {
        self.bound as nat
    }

    /// The positions whose results wait in the buffer.
    pub closed spec fn held_set(&self) -> Set<nat> {
        Set::new(|i: nat| self.holds(i))
    }

    /// Position of the next result to hand on.
    pub closed spec fn next_index(&self) -> nat {
        self.next as nat
    }

    /// Whether the result of shard `i` waits in the buffer.
    pub closed spec fn holds(&self, i: nat) -> bool {
        exists|j: int| 0 <= j < self.held@.len() && self.held@[j].0 == i
    }

    /// The result of shard `i` that waits in the buffer.
    pub closed spec fn held_item(&self, i: nat) -> T {
        let j = choose|j: int| 0 <= j < self.held@.len() && self.held@[j].0 == i;
        self.held@[j].1
    }

    /// The positions handed on so far, in the order they left.
    pub closed spec fn emitted(&self) -> Seq<u64> {
        self.emitted@
    }

    pub closed spec fn wf(&self) -> bool {
        &&& forall|j: int|
            0 <= j < self.held@.len() ==> self.next <= #[trigger] self.held@[j].0 < self.bound
        &&& forall|j: int, k: int|
            0 <= j < self.held@.len() && 0 <= k < self.held@.len() && j != k
                ==> #[trigger] self.held@[j].0 != #[trigger] self.held@[k].0
        &&& self.emitted@ == Seq::new(self.next as nat, |i: int| i as u64)
    }

    /// An empty buffer for the results of shards `0..bound`.
    pub fn new(bound: u64) -> (r: Reorder<T>)
        ensures
            r.wf(),
            r.bound() == bound,
            r.next_index() == 0,
            forall|i: nat| !r.holds(i),
            r.emitted() == Seq::<u64>::empty(),
    {
        let r = Reorder { bound, next: 0, held: Vec::new(), emitted: Ghost(Seq::empty()) };
        assert(r.emitted@ =~= Seq::new(0, |i: int| i as u64));
        r
    }

    pub fn next_index_value(&self) -> (r: u64)
        ensures
            r == self.next_index(),
    {
        self.next
    }

    /// Puts the completed result of shard `index` in the buffer.
    pub fn insert(&mut self, index: u64, item: T)
        requires
            old(self).wf(),
            old(self).next_index() <= index < old(self).bound(),
            !old(self).holds(index as nat),
        ensures
            final(self).wf(),
            final(self).bound() == old(self).bound(),
            final(self).next_index() == old(self).next_index(),
            final(self).emitted() == old(self).emitted(),
            forall|i: nat| #[trigger]
                final(self).holds(i) <==> (old(self).holds(i) || i == index),
            final(self).held_item(index as nat) == item,
            forall|i: nat|
                old(self).holds(i) ==> #[trigger] final(self).held_item(i) == old(self).held_item(i),
    {
        let ghost old_held = self.held@;
        self.held.push((index, item));
        proof {
            let n = old_held.len() as int;
            assert(self.held@[n].0 == index);
            assert forall|i: nat| #[trigger] self.holds(i) <==> (old(self).holds(i) || i
                == index) by {
                if old(self).holds(i) {
                    let j = choose|j: int| 0 <= j < old_held.len() && old_held[j].0 == i;
                    assert(self.held@[j].0 == i);
                }
                if self.holds(i) && i != index {
                    let j = choose|j: int| 0 <= j < self.held@.len() && self.held@[j].0 == i;
                    assert(old_held[j].0 == i);
                }
            }
            let jj = choose|j: int| 0 <= j < self.held@.len() && self.held@[j].0 == index;
            assert(jj == n);
            assert forall|i: nat| old(self).holds(i) implies #[trigger] self.held_item(i) == old(self).held_item(i) by {
                let j = choose|j: int| 0 <= j < old_held.len() && old_held[j].0 == i;
                let k = choose|j: int| 0 <= j < self.held@.len() && self.held@[j].0 == i;
                assert(self.held@[j].0 == i);
                assert(k == j);
            }
        }
    }

    /// Hands on the result of the next shard in enumeration order if it
    /// waits in the buffer; a later result never leaves before it.
    pub fn pop_ready(&mut self) -> (r: Option<(u64, T)>)
        requires
            old(self).wf(),
        ensures
            final(self).wf(),
            final(self).bound() == old(self).bound(),
            r is Some <==> old(self).holds(old(self).next_index()),
            r is Some ==> ({
                let (i, item) = r->Some_0;
                &&& i == old(self).next_index()
                &&& item == old(self).held_item(old(self).next_index())
                &&& final(self).next_index() == old(self).next_index() + 1
                &&& final(self).emitted() == old(self).emitted().push(i)
                &&& forall|k: nat| #[trigger]
                    final(self).holds(k) <==> (old(self).holds(k) && k != i)
                &&& forall|k: nat|
                    final(self).holds(k) ==> #[trigger] final(self).held_item(k) == old(self).held_item(k)
            }),
            r is None ==> *final(self) == *old(self),
    {
        let mut j: usize = 0;
        while j < self.held.len()
            invariant
                self.wf(),
                *self == *old(self),
                j <= self.held@.len(),
                forall|k: int| 0 <= k < j ==> (#[trigger] self.held@[k]).0 != self.next,
            decreases self.held@.len() - j,
        {
            if self.held[j].0 == self.next {
                let ghost old_held = self.held@;
                let i = self.next;
                let (_, item) = self.held.remove(j);
                self.next = self.next + 1;
                self.emitted = Ghost(self.emitted@.push(i));
                proof {
                    let jj = choose|k: int| 0 <= k < old_held.len() && old_held[k].0 == i;
                    assert(jj == j);
                    assert(self.emitted@ =~= Seq::new(self.next as nat, |k: int| k as u64));
                    assert forall|k: nat| #[trigger] self.holds(k) <==> (old(self).holds(k) && k
                        != i) by {
                        if old(self).holds(k) && k != i {
                            let m = choose|m: int| 0 <= m < old_held.len() && old_held[m].0 == k;
                            if m < j {
                                assert(self.held@[m].0 == k);
                            } else {
                                assert(self.held@[m - 1].0 == k);
                            }
                        }
                        if self.holds(k) {
                            let m = choose|m: int| 0 <= m < self.held@.len() && self.held@[m].0 == k;
                            if m < j {
                                assert(old_held[m].0 == k);
                            } else {
                                assert(old_held[m + 1].0 == k);
                            }
                        }
                    }
                    assert forall|k: nat| self.holds(k) implies #[trigger] self.held_item(k)
                        == old(self).held_item(k) by {
                        let m = choose|m: int| 0 <= m < self.held@.len() && self.held@[m].0 == k;
                        let o = choose|m: int| 0 <= m < old_held.len() && old_held[m].0 == k;
                        if m < j {
                            assert(old_held[m].0 == k);
                            assert(o == m);
                        } else {
                            assert(old_held[m + 1].0 == k);
                            assert(o == m + 1);
                        }
                    }
                }
                return Some((i, item));
            }
            j = j + 1;
        }
        None
    }

    /// Whether the result of shard `index` waits in the buffer.
    pub fn holds_index(&self, index: u64) -> (r: bool)
        ensures
            r == self.holds(index as nat),
    {
        let mut j: usize = 0;
        while j < self.held.len()
            invariant
                j <= self.held@.len(),
                forall|k: int| 0 <= k < j ==> (#[trigger] self.held@[k]).0 != index,
            decreases self.held@.len() - j,
        {
            if self.held[j].0 == index {
                return true;
            }
            j = j + 1;
        }
        false
    }

    pub fn bound_value(&self) -> (r: u64)
        ensures
            r == self.bound(),
    {
        self.bound
    }

    /// Puts the completed result of shard `index` in the buffer and hands
    /// on, in enumeration order, every result that is then next in line.
    pub fn complete(&mut self, index: u64, item: T) -> (out: Vec<(u64, T)>)
        requires
            old(self).wf(),
            old(self).next_index() <= index < old(self).bound(),
            !old(self).holds(index as nat),
        ensures
            final(self).wf(),
            final(self).bound() == old(self).bound(),
            ({
                let d = drain(
                    old(self).bound(),
                    old(self).next_index(),
                    old(self).held_set().insert(index as nat),
                );
                &&& final(self).next_index() == d.0
                &&& final(self).held_set() == d.1
                &&& out@.len() == d.2.len()
                &&& forall|i: int| 0 <= i < out@.len() ==> (#[trigger] out@[i]).0 == d.2[i]
            }),
            forall|i: int|
                0 <= i < out@.len() ==> (#[trigger] out@[i]).1 == if out@[i].0 == index {
                    item
                } else {
                    old(self).held_item(out@[i].0 as nat)
                },
            forall|k: nat|
                final(self).holds(k) ==> #[trigger] final(self).held_item(k) == if k == index {
                    item
                } else {
                    old(self).held_item(k)
                },
    {
        let ghost n = old(self).bound();
        let ghost start = old(self).next_index();
        let ghost h0 = old(self).held_set().insert(index as nat);
        let ghost old_self = *old(self);
        let ghost orig = |k: nat| if k == index {
            item
        } else {
            old_self.held_item(k)
        };
        self.insert(index, item);
        assert(self.held_set() =~= h0);
        let mut out: Vec<(u64, T)> = Vec::new();
        loop
            invariant
                self.wf(),
                self.bound() == n,
                n == old(self).bound(),
                h0 == old(self).held_set().insert(index as nat),
                start == old(self).next_index(),
                forall|k: nat| self.holds(k) ==> #[trigger] self.held_item(k) == orig(k),
                forall|i: int| 0 <= i < out@.len() ==> (#[trigger] out@[i]).1 == orig(
                    out@[i].0 as nat,
                ),
                ({
                    let d0 = drain(n, start, h0);
                    let d = drain(n, self.next_index(), self.held_set());
                    &&& d.0 == d0.0
                    &&& d.1 == d0.1
                    &&& d0.2 == out@.map_values(|p: (u64, T)| p.0 as nat) + d.2
                }),
            ensures
                !self.held_set().contains(self.next_index()),
            decreases n - self.next_index(),
        {
            let ghost before = *self;
            match self.pop_ready() {
                Some(p) => {
                    proof {
                        let i = p.0 as nat;
                        assert(self.held_set() =~= before.held_set().remove(i));
                        assert(before.held_set().contains(i));
                        assert(i < n);
                        let ghost old_out = out@;
                        assert((old_out.push(p)).map_values(|q: (u64, T)| q.0 as nat)
                            =~= old_out.map_values(|q: (u64, T)| q.0 as nat) + seq![i]);
                    }
                    out.push(p);
                },
                None => {
                    proof {
                        assert(!before.held_set().contains(before.next_index()));
                        assert(self.held_set() =~= before.held_set());
                    }
                    break;
                },
            }
        }
        proof {
            let d = drain(n, self.next_index(), self.held_set());
            assert(d.2 =~= Seq::<nat>::empty());
            assert(out@.map_values(|p: (u64, T)| p.0 as nat) + d.2 =~= out@.map_values(
                |p: (u64, T)| p.0 as nat,
            ));
        }
        out
    }
}

/// The ordered relay handing on results while the next one in line waits:
/// from position `next` with the results of `held` waiting, among `n`
/// shards. Gives the next position after, the results still waiting, and the
/// positions handed on, in order. Each step is one `pop_ready` that returns
/// a result.
pub open spec fn drain(n: nat, next: nat, held: Set<nat>) -> (nat, Set<nat>, Seq<nat>)
    decreases n - next,
{
    if next < n && held.contains(next) {
        let r = drain(n, next + 1, held.remove(next));
        (r.0, r.1, seq![next] + r.2)
    } else {
        (next, held, Seq::empty())
    }
}

/// The ordered relay after the results of the positions `c` completed in
/// that order, starting from `Reorder::new(n)`, each handed to `complete`.
pub open spec fn feed(n: nat, c: Seq<nat>) -> (nat, Set<nat>, Seq<nat>)
    decreases c.len(),
{
    if c.len() == 0 {
        (0, Set::empty(), Seq::empty())
    } else {
        let p = feed(n, c.drop_last());
        let d = drain(n, p.0, p.1.insert(c.last()));
        (d.0, d.1, p.2 + d.2)
    }
}

proof fn lemma_drain(n: nat, next: nat, held: Set<nat>)
    requires
        next <= n,
        forall|x: nat| #[trigger] held.contains(x) ==> next <= x < n,
    ensures
        ({
            let (nx, h, o) = drain(n, next, held);
            &&& next <= nx <= n
            &&& o == Seq::new((nx - next) as nat, |i: int| (next + i) as nat)
            &&& forall|x: nat| #[trigger] h.contains(x) <==> (held.contains(x) && x >= nx)
            &&& forall|x: nat| next <= x < nx ==> #[trigger] held.contains(x)
            &&& !(nx < n && h.contains(nx))
        }),
    decreases n - next,
{
    if next < n && held.contains(next) {
        let held2 = held.remove(next);
        lemma_drain(n, next + 1, held2);
        let (nx, h, o) = drain(n, next + 1, held2);
        assert(drain(n, next, held).2 =~= Seq::new((nx - next) as nat, |i: int| (next + i) as nat));
    } else {
        assert(drain(n, next, held).2 =~= Seq::new(0, |i: int| (next + i) as nat));
    }
}

proof fn lemma_feed(n: nat, c: Seq<nat>)
    requires
        c.no_duplicates(),
        forall|i: int| 0 <= i < c.len() ==> #[trigger] c[i] < n,
    ensures
        ({
            let (nx, h, o) = feed(n, c);
            &&& nx <= n
            &&& o == Seq::new(nx, |i: int| i as nat)
            &&& forall|x: nat| #[trigger] h.contains(x) <==> (c.contains(x) && x >= nx)
            &&& forall|x: nat| x < nx ==> #[trigger] c.contains(x)
            &&& !(nx < n && h.contains(nx))
        }),
    decreases c.len(),
{
    if c.len() == 0 {
        assert(feed(n, c).2 =~= Seq::new(0, |i: int| i as nat));
    } else {
        let c0 = c.drop_last();
        let last = c.last();
        assert forall|i: int, j: int| 0 <= i < c0.len() && 0 <= j < c0.len() && i != j
            implies c0[i] != c0[j] by {
            assert(c0[i] == c[i] && c0[j] == c[j]);
        }
        assert forall|i: int| 0 <= i < c0.len() implies #[trigger] c0[i] < n by {
            assert(c0[i] == c[i]);
        }
        lemma_feed(n, c0);
        let (px, ph, po) = feed(n, c0);
        assert(!c0.contains(last)) by {
            if c0.contains(last) {
                let j = choose|j: int| 0 <= j < c0.len() && c0[j] == last;
                assert(c[j] == c[c.len() - 1]);
            }
        }
        assert(last < n);
        assert(last >= px);
        let held = ph.insert(last);
        lemma_drain(n, px, held);
        let (nx, h, o) = drain(n, px, held);
        assert forall|x: nat| c.contains(x) <==> (c0.contains(x) || x == last) by {
            if c.contains(x) {
                let j = choose|j: int| 0 <= j < c.len() && c[j] == x;
                if j < c.len() - 1 {
                    assert(c0[j] == x);
                }
            }
            if c0.contains(x) {
                let j = choose|j: int| 0 <= j < c0.len() && c0[j] == x;
                assert(c[j] == x);
            }
            if x == last {
                assert(c[c.len() - 1] == x);
            }
        }
        assert(feed(n, c).0 == nx && feed(n, c).1 == h);
        assert(feed(n, c).2 =~= Seq::new(nx, |i: int| i as nat));
        assert forall|x: nat| #[trigger] h.contains(x) <==> (c.contains(x) && x >= nx) by {
            if h.contains(x) {
                assert(held.contains(x) && x >= nx);
            }
            if c.contains(x) && x >= nx {
                assert(held.contains(x));
            }
        }
        assert forall|x: nat| x < nx implies #[trigger] c.contains(x) by {
            if x < px {
                assert(c0.contains(x));
            } else {
                assert(held.contains(x));
            }
        }
    }
}

/// Under the ordered policy, whatever order the results of the first `n`
/// shards complete in, the relay hands them on in enumeration order, and
/// all of them.
pub proof fn lemma_ordered_output(n: nat, c: Seq<nat>)
    requires
        c.len() == n,
        c.no_duplicates(),
        forall|i: int| 0 <= i < c.len() ==> #[trigger] c[i] < n,
    ensures
        feed(n, c).2 == Seq::new(n, |i: int| i as nat),
{
    lemma_feed(n, c);
    let (nx, h, o) = feed(n, c);
    if nx < n {
        lemma_distinct_below_n_cover(n, c, nx);
        assert(h.contains(nx));
    }
}

/// `n` distinct positions below `n` are all the positions below `n`.
proof fn lemma_distinct_below_n_cover(n: nat, c: Seq<nat>, x: nat)
    requires
        c.len() == n,
        c.no_duplicates(),
        forall|i: int| 0 <= i < c.len() ==> #[trigger] c[i] < n,
        x < n,
    ensures
        c.contains(x),
{
    let s = c.to_set();
    c.unique_seq_to_set();
    assert(s.len() == n);
    let full = Set::new(|y: nat| y < n);
    assert(s.subset_of(full));
    lemma_nat_range_set_len(n);
    assert(full.finite());
    if !c.contains(x) {
        assert(!s.contains(x));
        let s2 = full.remove(x);
        assert(s.subset_of(s2));
        vstd::set_lib::lemma_len_subset(s, s2);
    }
}

proof fn lemma_nat_range_set_len(n: nat)
    ensures
        Set::new(|y: nat| y < n).finite(),
        Set::new(|y: nat| y < n).len() == n,
    decreases n,
{
    if n == 0 {
        assert(Set::new(|y: nat| y < n) =~= Set::<nat>::empty());
    } else {
        lemma_nat_range_set_len((n - 1) as nat);
        assert(Set::new(|y: nat| y < n) =~= Set::new(|y: nat| y < n - 1).insert((n - 1) as nat));
    }
}

} // verus!
