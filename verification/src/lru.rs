//! Least-recently-used order over a fixed set of registers.
use vstd::prelude::*;

verus! {

/// The registers `0..n` in order of use, kept as a ring of links so that
/// every operation takes constant time.
pub struct Lru {
    /// The register used just before each register
    prev: Vec<u8>,
    /// The register used just after each register
    next: Vec<u8>,
    /// The register used last
    head: u8,
    order: Ghost<Seq<u8>>,
    place: Ghost<Seq<int>>,
}

impl View for Lru {
    type V = Seq<u8>;

    /// The registers from the one used last to the one used longest ago.
    closed spec fn view(&self) -> Seq<u8> {
        self.order@
    }
}

/// The order `s` after register `r` has been used: `r` in front, the
/// others as they were.
pub open spec fn touched(s: Seq<u8>, r: u8) -> Seq<u8> {
    seq![r] + s.remove(s.index_of(r))
}

/// True when `s` holds each of the registers `0..s.len()` once.
pub open spec fn is_permutation(s: Seq<u8>) -> bool {
    &&& forall|k: int| 0 <= k < s.len() ==> (#[trigger] s[k]) < s.len()
    &&& forall|j: int, k: int| 0 <= j < k < s.len() ==> s[j] != s[k]
}

/// The position after the one at `k` in a ring of `n`.
spec fn ring_next(k: int, n: int) -> int {
    if k == n - 1 {
        0
    } else {
        k + 1
    }
}

/// The position before the one at `k` in a ring of `n`.
spec fn ring_prev(k: int, n: int) -> int {
    if k == 0 {
        n - 1
    } else {
        k - 1
    }
}

/// The links `prev` and `next` close the order `order` into a ring, and
/// `place` gives the position of each register in it.
spec fn linked(order: Seq<u8>, place: Seq<int>, prev: Seq<u8>, next: Seq<u8>) -> bool {
    let n = order.len() as int;
    &&& 1 <= n <= 256
    &&& prev.len() == n
    &&& next.len() == n
    &&& place.len() == n
    &&& forall|k: int| 0 <= k < n ==> (#[trigger] order[k]) < n && place[order[k] as int] == k
    &&& forall|r: int| 0 <= r < n ==> 0 <= (#[trigger] place[r]) < n && order[place[r]] == r
    &&& forall|r: int|
        0 <= r < n ==> (#[trigger] next[r]) < n && place[next[r] as int] == ring_next(place[r], n)
    &&& forall|r: int|
        0 <= r < n ==> (#[trigger] prev[r]) < n && place[prev[r] as int] == ring_prev(place[r], n)
}

/// The positions after register `r` has moved to the front.
spec fn moved(place: Seq<int>, r: int) -> Seq<int> {
    Seq::new(
        place.len(),
        |x: int|
            if x == r {
                0
            } else if place[x] < place[r] {
                place[x] + 1
            } else {
                place[x]
            },
    )
}

/// Moving a register to the front of the order keeps the positions in
/// step with it.
proof fn lemma_moved(order: Seq<u8>, place: Seq<int>, prev: Seq<u8>, next: Seq<u8>, r: u8)
    requires
        linked(order, place, prev, next),
        r < order.len(),
    ensures
        order.index_of(r) == place[r as int],
        touched(order, r).len() == order.len(),
        touched(order, r)[0] == r,
        forall|k: int|
            0 <= k < order.len() ==> (#[trigger] touched(order, r)[k]) < order.len() && moved(
                place,
                r as int,
            )[touched(order, r)[k] as int] == k,
        forall|x: int|
            0 <= x < order.len() ==> 0 <= (#[trigger] moved(place, r as int)[x]) < order.len()
                && touched(order, r)[moved(place, r as int)[x]] == x,
{
    let n = order.len() as int;
    let p = place[r as int];
    let q = order.index_of(r);
    assert(order[p] == r);
    assert(0 <= q < n && order[q] == r);
    assert(place[order[q] as int] == q);
    let after = touched(order, r);
    let spot = moved(place, r as int);
    assert forall|k: int| 0 <= k < n implies (#[trigger] after[k]) < n && spot[after[k] as int]
        == k by {
        if k == 0 {
        } else if k <= p {
            assert(after[k] == order[k - 1]);
        } else {
            assert(after[k] == order[k]);
        }
    }
    assert forall|x: int| 0 <= x < n implies 0 <= (#[trigger] spot[x]) < n && after[spot[x]]
        == x by {
        if x == r {
        } else if place[x] < p {
            assert(after[place[x] + 1] == order[place[x]]);
        } else {
            assert(order[place[x]] == x);
            assert(after[place[x]] == order[place[x]]);
        }
    }
}

/// Taking a register out of the ring and putting it back in front of the
/// head yields the ring of the order in which it was used last.
proof fn lemma_relink(order: Seq<u8>, place: Seq<int>, prev: Seq<u8>, next: Seq<u8>, r: u8)
    requires
        linked(order, place, prev, next),
        r < order.len(),
        r != order[0],
        prev[order[0] as int] != r,
    ensures
        ({
            let h = order[0] as int;
            let t = prev[h] as int;
            let a = prev[r as int] as int;
            let b = next[r as int] as int;
            linked(
                touched(order, r),
                moved(place, r as int),
                prev.update(b, a as u8).update(h, r).update(r as int, t as u8),
                next.update(a, b as u8).update(t, r).update(r as int, h as u8),
            )
        }),
{
    lemma_moved(order, place, prev, next, r);
    let n = order.len() as int;
    let p = place[r as int];
    let h = order[0] as int;
    let t = prev[h] as int;
    let a = prev[r as int] as int;
    let b = next[r as int] as int;
    let spot = moved(place, r as int);
    let prev2 = prev.update(b, a as u8).update(h, r).update(r as int, t as u8);
    let next2 = next.update(a, b as u8).update(t, r).update(r as int, h as u8);
    assert(place[h] == 0);
    assert(place[t] == n - 1);
    assert(0 < p < n - 1) by {
        if p == n - 1 {
            assert(order[place[t]] == t);
        }
    }
    assert(place[a] == p - 1);
    assert(place[b] == p + 1);
    assert forall|x: int| 0 <= x < n implies (#[trigger] next2[x]) < n && spot[next2[x] as int]
        == ring_next(spot[x], n) by {
        if x == r {
        } else if x == t {
        } else if x == a {
        } else {
            let y = next[x] as int;
            assert(place[y] == ring_next(place[x], n));
            assert(order[place[x]] == x);
            assert(order[place[y]] == y);
        }
    }
    assert forall|x: int| 0 <= x < n implies (#[trigger] prev2[x]) < n && spot[prev2[x] as int]
        == ring_prev(spot[x], n) by {
        if x == r {
        } else if x == h {
        } else if x == b {
        } else {
            let y = prev[x] as int;
            assert(place[y] == ring_prev(place[x], n));
            assert(order[place[x]] == x);
            assert(order[place[y]] == y);
        }
    }
}

/// Turning the ring so that its last register becomes the head yields the
/// ring of the order in which that register was used last.
proof fn lemma_rotate(order: Seq<u8>, place: Seq<int>, prev: Seq<u8>, next: Seq<u8>, r: u8)
    requires
        linked(order, place, prev, next),
        r < order.len(),
        place[r as int] == order.len() - 1,
    ensures
        linked(touched(order, r), moved(place, r as int), prev, next),
{
    lemma_moved(order, place, prev, next, r);
    let n = order.len() as int;
    let spot = moved(place, r as int);
    assert forall|x: int| 0 <= x < n implies (#[trigger] next[x]) < n && spot[next[x] as int]
        == ring_next(spot[x], n) by {
        let y = next[x] as int;
        assert(place[y] == ring_next(place[x], n));
        assert(order[place[x]] == x);
        assert(order[place[y]] == y);
    }
    assert forall|x: int| 0 <= x < n implies (#[trigger] prev[x]) < n && spot[prev[x] as int]
        == ring_prev(spot[x], n) by {
        let y = prev[x] as int;
        assert(place[y] == ring_prev(place[x], n));
        assert(order[place[x]] == x);
        assert(order[place[y]] == y);
    }
}

impl Lru {
    /// The links agree with the order, and the order holds every register
    /// once.
    pub closed spec fn wf(&self) -> bool {
        &&& linked(self.order@, self.place@, self.prev@, self.next@)
        &&& self.head == self.order@[0]
    }

    /// A well-formed order holds each register once.
    pub proof fn lemma_permutation(&self)
        requires
            self.wf(),
        ensures
            1 <= self@.len() <= 256,
            is_permutation(self@),
    {
        assert forall|j: int, k: int| 0 <= j < k < self@.len() implies self@[j] != self@[k] by {
            assert(self.place@[self.order@[j] as int] == j);
            assert(self.place@[self.order@[k] as int] == k);
        }
    }

    /// The order over `n` registers in which register 0 was used last and
    /// register `n - 1` longest ago.
    pub fn new(n: usize) -> (r: Lru)
        requires
            1 <= n <= 256,
        ensures
            r.wf(),
            r@.len() == n,
            forall|k: int| 0 <= k < n ==> r@[k] == k,
    {
        let mut r = Lru {
            prev: Vec::with_capacity(n),
            next: Vec::with_capacity(n),
            head: 0,
            order: Ghost(Seq::empty()),
            place: Ghost(Seq::empty()),
        };
        r.reset(n);
        r
    }

    /// Starts over with `n` registers, of which register 0 was used last
    /// and register `n - 1` longest ago. Storage is kept.
    pub fn reset(&mut self, n: usize)
        requires
            1 <= n <= 256,
        ensures
            final(self).wf(),
            final(self)@.len() == n,
            forall|k: int| 0 <= k < n ==> final(self)@[k] == k,
    {
        self.prev.clear();
        self.next.clear();
        let mut i: usize = 0;
        while i < n
            invariant
                1 <= n <= 256,
                i <= n,
                self.prev@.len() == i,
                self.next@.len() == i,
                forall|k: int|
                    0 <= k < i ==> #[trigger] self.next@[k] == (if k + 1 == n {
                        0
                    } else {
                        k + 1
                    }),
                forall|k: int|
                    0 <= k < i ==> #[trigger] self.prev@[k] == (if k == 0 {
                        n - 1
                    } else {
                        k - 1
                    }),
            decreases n - i,
        {
            let up: usize = if i + 1 == n {
                0
            } else {
                i + 1
            };
            let down: usize = if i == 0 {
                n - 1
            } else {
                i - 1
            };
            self.next.push(up as u8);
            self.prev.push(down as u8);
            i = i + 1;
        }
        self.head = 0;
        proof {
            self.order = Ghost(Seq::new(n as nat, |k: int| k as u8));
            self.place = Ghost(Seq::new(n as nat, |k: int| k));
        }
    }

    /// Marks register `r` as used last.
    pub fn poke(&mut self, r: u8)
        requires
            old(self).wf(),
            r < old(self)@.len(),
        ensures
            final(self).wf(),
            final(self)@ == touched(old(self)@, r),
            final(self)@.len() == old(self)@.len(),
            final(self)@[0] == r,
    {
        proof {
            lemma_moved(self.order@, self.place@, self.prev@, self.next@, r);
        }
        let h: u8 = self.head;
        if r == h {
            proof {
                assert(self.place@[r as int] == 0);
                assert(self.order@[0] == r);
                assert(touched(self.order@, r) =~= self.order@);
            }
            return ;
        }
        let t: u8 = self.prev[h as usize];
        if t != r {
            let a: u8 = self.prev[r as usize];
            let b: u8 = self.next[r as usize];
            proof {
                lemma_relink(self.order@, self.place@, self.prev@, self.next@, r);
            }
            self.next[a as usize] = b;
            self.prev[b as usize] = a;
            self.next[t as usize] = r;
            self.prev[h as usize] = r;
            self.next[r as usize] = h;
            self.prev[r as usize] = t;
        } else {
            proof {
                assert(self.place@[t as int] == self.order@.len() - 1);
                lemma_rotate(self.order@, self.place@, self.prev@, self.next@, r);
            }
        }
        self.head = r;
        proof {
            self.order = Ghost(touched(old(self).order@, r));
            self.place = Ghost(moved(old(self).place@, r as int));
        }
    }

    /// Returns the register used longest ago, and marks it as used last.
    pub fn pop(&mut self) -> (r: u8)
        requires
            old(self).wf(),
        ensures
            final(self).wf(),
            r == old(self)@.last(),
            r < old(self)@.len(),
            final(self)@ == touched(old(self)@, r),
            final(self)@.len() == old(self)@.len(),
            final(self)@[0] == r,
    {
        let r: u8 = self.prev[self.head as usize];
        proof {
            assert(r == self.order@[self.order@.len() - 1]);
        }
        self.poke(r);
        r
    }

    /// Returns the number of registers.
    pub fn len(&self) -> (n: usize)
        requires
            self.wf(),
        ensures
            n == self@.len(),
    {
        self.prev.len()
    }
}

} // verus!
