//! Minimum of the last `size` values pushed, in amortized constant time.
use std::collections::VecDeque;
use vstd::prelude::*;

verus! {

/// Minimum of a sequence of bytes; 0 for the empty sequence.
pub open spec fn seq_min(s: Seq<u8>) -> u8
    decreases s.len(),
{
    if s.len() == 0 {
        0
    } else if s.len() == 1 {
        s[0]
    } else {
        let m = seq_min(s.drop_last());
        if s.last() < m {
            s.last()
        } else {
            m
        }
    }
}

/// The last `min(size, len)` values of `history`.
pub open spec fn window_of(history: Seq<u8>, size: nat) -> Seq<u8> {
    if history.len() <= size {
        history
    } else {
        history.subrange(history.len() - size, history.len() as int)
    }
}

/// `seq_min` is a lower bound that occurs in the sequence.
pub proof fn lemma_seq_min(s: Seq<u8>)
    ensures
        forall|i: int| 0 <= i < s.len() ==> seq_min(s) <= #[trigger] s[i],
        s.len() > 0 ==> exists|i: int| 0 <= i < s.len() && s[i] == seq_min(s),
    decreases s.len(),
{
    if s.len() == 1 {
        assert(s[0] == seq_min(s));
    } else if s.len() > 1 {
        lemma_seq_min(s.drop_last());
        let m = seq_min(s.drop_last());
        assert forall|i: int| 0 <= i < s.len() implies seq_min(s) <= #[trigger] s[i] by {
            if i < s.len() - 1 {
                assert(s[i] == s.drop_last()[i]);
            }
        }
        if s.last() >= m {
            let j = choose|j: int| 0 <= j < s.drop_last().len() && s.drop_last()[j] == m;
            assert(s[j] == m);
        } else {
            assert(s[s.len() - 1] == seq_min(s));
        }
    }
}

/// A lower bound that occurs in a sequence is its minimum.
pub proof fn lemma_seq_min_unique(s: Seq<u8>, x: u8, k: int)
    requires
        0 <= k < s.len(),
        s[k] == x,
        forall|i: int| 0 <= i < s.len() ==> x <= #[trigger] s[i],
    ensures
        seq_min(s) == x,
{
    lemma_seq_min(s);
    let j = choose|j: int| 0 <= j < s.len() && s[j] == seq_min(s);
    assert(seq_min(s) <= s[k]);
    assert(x <= s[j]);
}

/// Tracks the minimum over the last `size` pushed values.
///
/// The queue holds `(insertion time, value)` pairs whose values grow strictly
/// from front to back; the front is the current minimum.
pub struct SlidingWindowMinimum {
    /// How long a value stays in the window.
    size: u8,
    queue: VecDeque<(u8, u8)>,
    /// The current insertion time, counted modulo 256.
    cur_time: u8,
    /// Every value pushed so far.
    history: Ghost<Seq<u8>>,
    /// Position in `history` of each queue entry.
    positions: Ghost<Seq<int>>,
}

impl SlidingWindowMinimum {
    /// Every value pushed so far, oldest first.
    pub closed spec fn history(&self) -> Seq<u8> {
        self.history@
    }

    /// How many of the latest values the window spans.
    pub closed spec fn size(&self) -> nat {
        self.size as nat
    }

    /// The values the window currently spans.
    pub open spec fn window(&self) -> Seq<u8> {
        window_of(self.history(), self.size())
    }

    pub closed spec fn wf(&self) -> bool {
        let n = self.history@.len();
        &&& self.cur_time as int == n % 256
        &&& entries_ok(self.history@, self.positions@, self.queue@, window_start(n, self.size as nat), n)
        &&& covered(self.history@, self.positions@, self.queue@, window_start(n, self.size as nat), n)
    }

    /// An empty window spanning the last `size` values.
    pub fn new(size: u8) -> (r: Self)
        ensures
            r.wf(),
            r.size() == size,
            r.history() == Seq::<u8>::empty(),
    {
        SlidingWindowMinimum {
            size,
            queue: VecDeque::new(),
            cur_time: 0,
            history: Ghost(Seq::empty()),
            positions: Ghost(Seq::empty()),
        }
    }

    /// Drops the entries at the back that are not below `value`.
    fn pop_dominated(&mut self, value: u8)
        requires
            entries_ok(old(self).history@, old(self).positions@, old(self).queue@,
                window_start(old(self).history@.len(), old(self).size as nat), old(self).history@.len()),
            covered(old(self).history@, old(self).positions@, old(self).queue@,
                window_start(old(self).history@.len(), old(self).size as nat), old(self).history@.len()),
        ensures
            final(self).history@ == old(self).history@,
            final(self).size == old(self).size,
            final(self).cur_time == old(self).cur_time,
            entries_ok(final(self).history@, final(self).positions@, final(self).queue@,
                window_start(old(self).history@.len(), old(self).size as nat), old(self).history@.len()),
            final(self).queue@.len() > 0 ==> final(self).queue@.last().1 < value,
            forall|i: int|
                window_start(old(self).history@.len(), old(self).size as nat) <= i < old(self).history@.len()
                    ==> value <= #[trigger] old(self).history@[i] || covered_pt(old(self).history@, final(self).positions@, final(self).queue@, i),
    {
        let ghost h = self.history@;
        let ghost n = h.len();
        let ghost lo = window_start(n, self.size as nat);
        while self.queue.len() > 0 && self.queue[self.queue.len() - 1].1 >= value
            invariant
                self.history@ == h,
                self.size == old(self).size,
                self.cur_time == old(self).cur_time,
                entries_ok(h, self.positions@, self.queue@, lo, n),
                forall|i: int|
                    lo <= i < n ==> value <= #[trigger] h[i] || covered_pt(h, self.positions@, self.queue@, i),
            decreases self.queue.len(),
        {
            let ghost q = self.queue@;
            let ghost p = self.positions@;
            self.queue.pop_back();
            self.positions = Ghost(p.drop_last());
            assert forall|i: int| lo <= i < n implies value <= #[trigger] h[i] || covered_pt(h, self.positions@, self.queue@, i) by {
                if value > h[i] {
                    let k = choose|k: int| #[trigger] covers_at(h, p, q, i, k);
                    assert(k != p.len() - 1);
                    assert(self.queue@[k] == q[k]);
                    assert(self.positions@[k] == p[k]);
                    assert(covers_at(h, self.positions@, self.queue@, i, k));
                }
            }
        }
    }

    /// Drops the entries at the front that have left the window.
    fn pop_expired(&mut self)
        requires
            old(self).history@.len() > 0,
            old(self).cur_time as int == (old(self).history@.len() - 1) % 256,
            entries_ok(old(self).history@, old(self).positions@, old(self).queue@,
                window_start((old(self).history@.len() - 1) as nat, old(self).size as nat), old(self).history@.len()),
            covered(old(self).history@, old(self).positions@, old(self).queue@,
                window_start((old(self).history@.len() - 1) as nat, old(self).size as nat), old(self).history@.len()),
        ensures
            final(self).history@ == old(self).history@,
            final(self).size == old(self).size,
            final(self).cur_time == old(self).cur_time,
            entries_ok(final(self).history@, final(self).positions@, final(self).queue@,
                window_start(old(self).history@.len(), old(self).size as nat), old(self).history@.len()),
            covered(final(self).history@, final(self).positions@, final(self).queue@,
                window_start(old(self).history@.len(), old(self).size as nat), old(self).history@.len()),
    {
        let ghost h = self.history@;
        let ghost n1 = h.len();
        let ghost n = n1 - 1;
        let ghost lo0 = window_start(n as nat, self.size as nat);
        let ghost lo1 = window_start(n1, self.size as nat);
        proof {
            let p = self.positions@;
            let q = self.queue@;
            assert(lo1 <= lo0 + 1);
            assert forall|k: int| 1 <= k < p.len() implies lo1 <= #[trigger] p[k] by {
                assert(p[0] < p[k]);
            }
            assert forall|i: int| lo1 <= i < n1 implies #[trigger] covered_pt(h, p, q, i) by {
                assert(lo0 <= i);
                assert(covered_pt(h, p, q, i));
                let k = choose|k: int| #[trigger] covers_at(h, p, q, i, k);
                assert(covers_at(h, p, q, i, k));
            }
            assert(covered(h, p, q, lo1, n1));
        }
        while self.queue.len() > 0 && self.cur_time.wrapping_sub(self.queue[0].0) >= self.size
            invariant
                self.history@ == h,
                self.size == old(self).size,
                self.cur_time == old(self).cur_time,
                self.cur_time as int == n % 256,
                n1 == h.len(),
                n1 > 0,
                n == n1 - 1,
                lo0 == window_start(n as nat, self.size as nat),
                lo1 == window_start(n1, self.size as nat),
                lo0 <= lo1,
                entries_ok(h, self.positions@, self.queue@, lo0, n1),
                forall|k: int| 1 <= k < self.positions@.len() ==> lo1 <= #[trigger] self.positions@[k],
                covered(h, self.positions@, self.queue@, lo1, n1),
            decreases self.queue.len(),
        {
            let ghost q = self.queue@;
            let ghost p = self.positions@;
            proof {
                assert(q[0].0 as int == p[0] % 256);
                assert(lo0 <= p[0] < n1);
                if n > self.size {
                    assert(lo0 == n - self.size);
                }
                lemma_tag_distance(n as int, p[0]);
                assert(p[0] < lo1);
            }
            self.queue.pop_front();
            self.positions = Ghost(p.subrange(1, p.len() as int));
            proof {
                lemma_drop_front(h, p, q, lo0, lo1, n1);
                assert(self.queue@ =~= q.subrange(1, q.len() as int));
            }
        }
        proof {
            let p = self.positions@;
            if p.len() > 0 {
                assert(lo1 <= p[0]);
            }
        }
    }

    /// Records one more value.
    #[verifier::rlimit(40)]
    pub fn push(&mut self, value: u8)
        requires
            old(self).wf(),
        ensures
            final(self).wf(),
            final(self).size() == old(self).size(),
            final(self).history() == old(self).history().push(value),
    {
        let ghost h0 = self.history@;
        let ghost n = h0.len();
        let ghost lo0 = window_start(n, self.size as nat);
        self.pop_dominated(value);
        let ghost pm = self.positions@;
        let ghost qm = self.queue@;
        let i = self.cur_time;
        self.queue.push_back((i, value));
        self.history = Ghost(h0.push(value));
        self.positions = Ghost(self.positions@.push(n as int));
        let ghost h1 = self.history@;
        proof {
            let p = self.positions@;
            let q = self.queue@;
            assert(h1[n as int] == value);
            assert forall|k: int| 0 <= k < p.len() implies lo0 <= #[trigger] p[k] < n + 1
                && (q[k]).0 as int == p[k] % 256 && q[k].1 == h1[p[k]] by {
                if k < p.len() - 1 {
                    assert(h1[p[k]] == h0[p[k]]);
                }
            }
            assert forall|i: int| lo0 <= i < n + 1 implies #[trigger] covered_pt(h1, p, q, i) by {
                let last = p.len() - 1;
                if i == n {
                    assert(covers_at(h1, p, q, i, last));
                } else {
                    assert(h1[i] == h0[i]);
                    if value <= h0[i] {
                        assert(covers_at(h1, p, q, i, last));
                    } else {
                        let k = choose|k: int| #[trigger] covers_at(h0, pm, qm, i, k);
                        assert(p[k] == pm[k] && q[k] == qm[k]);
                        assert(covers_at(h1, p, q, i, k));
                    }
                }
            }
        }
        self.pop_expired();
        self.cur_time = self.cur_time.wrapping_add(1);
    }

    /// The minimum of the values in the window; 0 while it is empty.
    #[verifier::rlimit(40)]
    pub fn get_min(&self) -> (r: u8)
        requires
            self.wf(),
        ensures
            r == seq_min(self.window()),
    {
        if self.queue.len() == 0 {
            proof {
                let n = self.history@.len();
                let lo = window_start(n, self.size as nat);
                if lo < n {
                    assert(covered_pt(self.history@, self.positions@, self.queue@, lo));
                    let k = choose|k: int| #[trigger] covers_at(self.history@, self.positions@, self.queue@, lo, k);
                }
                assert(self.window().len() == 0);
            }
            0
        } else {
            let r = self.queue[0].1;
            proof {
                let h = self.history@;
                let n = h.len();
                let lo = window_start(n, self.size as nat);
                let p = self.positions@;
                let q = self.queue@;
                let w = self.window();
                assert(w =~= h.subrange(lo, n as int));
                assert forall|j: int| 0 <= j < w.len() implies r <= #[trigger] w[j] by {
                    assert(w[j] == h[lo + j]);
                    assert(covered_pt(h, p, q, lo + j));
                    let k = choose|k: int| #[trigger] covers_at(h, p, q, lo + j, k);
                    if k > 0 {
                        assert(q[0].1 < q[k].1);
                    }
                }
                assert(w[p[0] - lo] == r);
                lemma_seq_min_unique(w, r, p[0] - lo);
            }
            r
        }
    }
}

/// Dropping the front entry, which lies before `lo1`, keeps the entries in order
/// and every position from `lo1` on covered.
proof fn lemma_drop_front(h: Seq<u8>, p: Seq<int>, q: Seq<(u8, u8)>, lo0: int, lo1: int, n1: nat)
    requires
        p.len() > 0,
        p[0] < lo1,
        lo0 <= lo1,
        entries_ok(h, p, q, lo0, n1),
        forall|k: int| 1 <= k < p.len() ==> lo1 <= #[trigger] p[k],
        covered(h, p, q, lo1, n1),
    ensures
        entries_ok(h, p.subrange(1, p.len() as int), q.subrange(1, q.len() as int), lo0, n1),
        forall|k: int|
            1 <= k < p.len() - 1 ==> lo1 <= #[trigger] p.subrange(1, p.len() as int)[k],
        covered(h, p.subrange(1, p.len() as int), q.subrange(1, q.len() as int), lo1, n1),
{
    let p1 = p.subrange(1, p.len() as int);
    let q1 = q.subrange(1, q.len() as int);
    assert forall|a: int, b: int| 0 <= a < b < p1.len() implies #[trigger] p1[a] < #[trigger] p1[b]
        && q1[a].1 < q1[b].1 by {
        assert(p1[a] == p[a + 1] && p1[b] == p[b + 1]);
        assert(q1[a] == q[a + 1] && q1[b] == q[b + 1]);
    }
    assert forall|k: int| 0 <= k < p1.len() implies lo0 <= #[trigger] p1[k] < n1 by {
        assert(p1[k] == p[k + 1]);
    }
    assert forall|k: int| 0 <= k < p1.len() implies (#[trigger] q1[k]).0 as int == p1[k] % 256
        && q1[k].1 == h[p1[k]] by {
        assert(p1[k] == p[k + 1]);
        assert(q1[k] == q[k + 1]);
    }
    assert forall|k: int| 1 <= k < p1.len() implies lo1 <= #[trigger] p1[k] by {
        assert(p1[k] == p[k + 1]);
    }
    assert forall|i: int| lo1 <= i < n1 implies #[trigger] covered_pt(h, p1, q1, i) by {
        assert(covered_pt(h, p, q, i));
        let k = choose|k: int| #[trigger] covers_at(h, p, q, i, k);
        assert(k != 0);
        assert(p1[k - 1] == p[k]);
        assert(q1[k - 1] == q[k]);
        assert(covers_at(h, p1, q1, i, k - 1));
    }
}

/// Tags taken modulo 256 give the true distance between two close positions.
proof fn lemma_tag_distance(n: int, p: int)
    requires
        0 <= p <= n,
        n - p < 256,
    ensures
        vstd::wrapping::u8_specs::wrapping_sub((n % 256) as u8, (p % 256) as u8) == n - p,
{
    vstd::arithmetic::div_mod::lemma_fundamental_div_mod(n, 256);
    vstd::arithmetic::div_mod::lemma_fundamental_div_mod(p, 256);
    let qn = n / 256;
    let qp = p / 256;
    assert(0 <= n % 256 < 256);
    assert(0 <= p % 256 < 256);
    assert(256 * qn - 256 * qp == 256 * (qn - qp)) by (nonlinear_arith);
    if qn - qp >= 2 {
        assert(256 * (qn - qp) >= 512) by (nonlinear_arith) requires qn - qp >= 2;
    }
    if qn - qp < 0 {
        assert(256 * (qn - qp) <= -256) by (nonlinear_arith) requires qn - qp < 0;
    }
}

/// First position of the window over `n` values spanning `size` of them.
pub open spec fn window_start(n: nat, size: nat) -> int {
    if n <= size { 0 } else { n - size }
}

/// Queue entries sit at increasing positions in `[lo, hi)` with increasing values,
/// tagged with their position modulo 256.
pub closed spec fn entries_ok(h: Seq<u8>, p: Seq<int>, q: Seq<(u8, u8)>, lo: int, hi: nat) -> bool {
    &&& p.len() == q.len()
    &&& hi <= h.len()
    &&& forall|k: int| 0 <= k < p.len() ==> lo <= #[trigger] p[k] < hi
    &&& forall|k: int|
        0 <= k < p.len() ==> (#[trigger] q[k]).0 as int == p[k] % 256 && q[k].1 == h[p[k]]
    &&& forall|a: int, b: int|
        0 <= a < b < p.len() ==> #[trigger] p[a] < #[trigger] p[b] && q[a].1 < q[b].1
}

/// Entry `k` sits at or after position `i` and is not larger than the value there.
pub open spec fn covers_at(h: Seq<u8>, p: Seq<int>, q: Seq<(u8, u8)>, i: int, k: int) -> bool {
    0 <= k < p.len() && i <= p[k] && q[k].1 <= h[i]
}

/// Some entry covers position `i`.
pub open spec fn covered_pt(h: Seq<u8>, p: Seq<int>, q: Seq<(u8, u8)>, i: int) -> bool {
    exists|k: int| #[trigger] covers_at(h, p, q, i, k)
}

/// Each value at a position in `[lo, hi)` has an entry at or after it that is not larger.
pub closed spec fn covered(h: Seq<u8>, p: Seq<int>, q: Seq<(u8, u8)>, lo: int, hi: nat) -> bool {
    forall|i: int| lo <= i < hi ==> #[trigger] covered_pt(h, p, q, i)
}

} // verus!
