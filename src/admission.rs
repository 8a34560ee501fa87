use vstd::prelude::*;

verus! {

pub struct GateView {
    pub capacity: nat,
    pub holders: Seq<u64>,
    pub waiting: Seq<u64>,
}

/// At most `capacity` requests hold a permit, none holds two, none both holds and waits, and
/// a request waits only while every permit is held.
pub open spec fn gate_wf(g: GateView) -> bool {
    &&& g.holders.len() <= g.capacity
    &&& g.holders.no_duplicates()
    &&& g.waiting.no_duplicates()
    &&& forall|i: int, j: int|
        0 <= i < g.holders.len() && 0 <= j < g.waiting.len() ==> g.holders[i] != g.waiting[j]
    &&& g.waiting.len() > 0 ==> g.holders.len() == g.capacity
}

/// Bounds how many requests are handled at once. A request that arrives while every permit
/// is held waits in line, in order of arrival, until a permit is released; none is turned
/// away.
pub struct AdmissionGate {
    capacity: usize,
    holders: Vec<u64>,
    waiting: Vec<u64>,
}

impl View for AdmissionGate {
    type V = GateView;

    closed spec fn view(&self) -> GateView {
        GateView {
            capacity: self.capacity as nat,
            holders: self.holders@,
            waiting: self.waiting@,
        }
    }
}

impl AdmissionGate {
    /// A gate with `capacity` permits, none held.
    pub fn new(capacity: usize) -> (r: AdmissionGate)
        ensures
            r@ == (GateView {
                capacity: capacity as nat,
                holders: Seq::empty(),
                waiting: Seq::empty(),
            }),
            gate_wf(r@),
    {
        let r = AdmissionGate { capacity, holders: Vec::new(), waiting: Vec::new() };
        assert(r@.holders =~= Seq::<u64>::empty());
        assert(r@.waiting =~= Seq::<u64>::empty());
        r
    }

    pub fn capacity(&self) -> (r: usize)
        ensures
            r == self@.capacity,
    {
        self.capacity
    }

    /// How many requests hold a permit.
    pub fn in_flight(&self) -> (r: usize)
        ensures
            r == self@.holders.len(),
    {
        self.holders.len()
    }

    /// How many requests wait for a permit.
    pub fn queued(&self) -> (r: usize)
        ensures
            r == self@.waiting.len(),
    {
        self.waiting.len()
    }

    /// Whether request `id` holds a permit or waits for one.
    pub fn contains(&self, id: u64) -> (r: bool)
        ensures
            r == (self@.holders.contains(id) || self@.waiting.contains(id)),
    {
        index_of(&self.holders, id).is_some() || index_of(&self.waiting, id).is_some()
    }

    /// Whether request `id` holds a permit.
    pub fn holds(&self, id: u64) -> (r: bool)
        ensures
            r == self@.holders.contains(id),
    {
        index_of(&self.holders, id).is_some()
    }

    /// Request `id` arrives. It takes a permit at once if one is free, and the result is
    /// `true`; otherwise it joins the end of the line, and the result is `false`.
    pub fn arrive(&mut self, id: u64) -> (admitted: bool)
        requires
            gate_wf(old(self)@),
            !old(self)@.holders.contains(id),
            !old(self)@.waiting.contains(id),
        ensures
            gate_wf(final(self)@),
            final(self)@.capacity == old(self)@.capacity,
            admitted == (old(self)@.holders.len() < old(self)@.capacity),
            admitted ==> final(self)@.holders == old(self)@.holders.push(id) && final(self)@.waiting
                == old(self)@.waiting,
            !admitted ==> final(self)@.holders == old(self)@.holders && final(self)@.waiting
                == old(self)@.waiting.push(id),
    {
        if self.holders.len() < self.capacity {
            self.holders.push(id);
            proof {
                let h = self.holders@;
                assert(h.no_duplicates()) by {
                    assert forall|i: int, j: int|
                        0 <= i < h.len() && 0 <= j < h.len() && i != j implies h[i] != h[j] by {
                        if i < h.len() - 1 && j < h.len() - 1 {
                            assert(h[i] == old(self)@.holders[i]);
                            assert(h[j] == old(self)@.holders[j]);
                        } else if i == h.len() - 1 {
                            assert(old(self)@.holders[j] == h[j]);
                        } else {
                            assert(old(self)@.holders[i] == h[i]);
                        }
                    }
                }
                assert forall|i: int, j: int|
                    0 <= i < h.len() && 0 <= j < self@.waiting.len() implies h[i]
                    != self@.waiting[j] by {
                    if i < h.len() - 1 {
                        assert(h[i] == old(self)@.holders[i]);
                    }
                }
            }
            true
        } else {
            self.waiting.push(id);
            proof {
                let w = self.waiting@;
                assert(w.no_duplicates()) by {
                    assert forall|i: int, j: int|
                        0 <= i < w.len() && 0 <= j < w.len() && i != j implies w[i] != w[j] by {
                        if i < w.len() - 1 && j < w.len() - 1 {
                            assert(w[i] == old(self)@.waiting[i]);
                            assert(w[j] == old(self)@.waiting[j]);
                        } else if i == w.len() - 1 {
                            assert(old(self)@.waiting[j] == w[j]);
                        } else {
                            assert(old(self)@.waiting[i] == w[i]);
                        }
                    }
                }
                assert forall|i: int, j: int|
                    0 <= i < self@.holders.len() && 0 <= j < w.len() implies self@.holders[i]
                    != w[j] by {
                    if j < w.len() - 1 {
                        assert(w[j] == old(self)@.waiting[j]);
                    }
                }
            }
            false
        }
    }

    /// Request `id` gives back its permit. If a request waits, the first in line takes the
    /// permit, and the result names it.
    pub fn release(&mut self, id: u64) -> (next: Option<u64>)
        requires
            gate_wf(old(self)@),
            old(self)@.holders.contains(id),
        ensures
            gate_wf(final(self)@),
            final(self)@.capacity == old(self)@.capacity,
            exists|k: int|
                0 <= k < old(self)@.holders.len() && old(self)@.holders[k] == id && match next {
                    Some(w) => old(self)@.waiting.len() > 0 && w == old(self)@.waiting[0]
                        && final(self)@.holders == old(self)@.holders.remove(k).push(w)
                        && final(self)@.waiting == old(self)@.waiting.drop_first(),
                    None => old(self)@.waiting.len() == 0 && final(self)@.holders == old(
                        self,
                    )@.holders.remove(k) && final(self)@.waiting == old(self)@.waiting,
                },
    {
        let k = match index_of(&self.holders, id) {
            Some(k) => k,
            None => {
                return None;
            },
        };
        self.holders.remove(k);
        let ghost h0 = old(self)@.holders;
        let ghost w0 = old(self)@.waiting;
        proof {
            let h = self.holders@;
            assert forall|i: int| 0 <= i < h.len() implies h[i] == (if i < k {
                h0[i]
            } else {
                h0[i + 1]
            }) by {}
            assert(h.no_duplicates()) by {
                assert forall|i: int, j: int|
                    0 <= i < h.len() && 0 <= j < h.len() && i != j implies h[i] != h[j] by {
                    let a = if i < k {
                        i
                    } else {
                        i + 1
                    };
                    let b = if j < k {
                        j
                    } else {
                        j + 1
                    };
                    assert(h[i] == h0[a] && h[j] == h0[b]);
                }
            }
        }
        if self.waiting.len() == 0 {
            proof {
                let h = self.holders@;
                assert forall|i: int, j: int|
                    0 <= i < h.len() && 0 <= j < self@.waiting.len() implies h[i]
                    != self@.waiting[j] by {}
            }
            return None;
        }
        let w = self.waiting.remove(0);
        self.holders.push(w);
        proof {
            let h1 = h0.remove(k as int);
            let h = self.holders@;
            let ws = self.waiting@;
            assert(h == h1.push(w));
            assert(ws == w0.drop_first());
            assert forall|i: int| 0 <= i < h1.len() implies h1[i] == (if i < k {
                h0[i]
            } else {
                h0[i + 1]
            }) && h1[i] != w by {
                let a = if i < k {
                    i
                } else {
                    i + 1
                };
                assert(h1[i] == h0[a]);
                assert(w0[0] == w);
            }
            assert(h.no_duplicates()) by {
                assert forall|i: int, j: int|
                    0 <= i < h.len() && 0 <= j < h.len() && i != j implies h[i] != h[j] by {
                    if i < h.len() - 1 && j < h.len() - 1 {
                        assert(h[i] == h1[i] && h[j] == h1[j]);
                    } else if i == h.len() - 1 {
                        assert(h[j] == h1[j]);
                    } else {
                        assert(h[i] == h1[i]);
                    }
                }
            }
            assert(ws.no_duplicates()) by {
                assert forall|i: int, j: int|
                    0 <= i < ws.len() && 0 <= j < ws.len() && i != j implies ws[i] != ws[j] by {
                    assert(ws[i] == w0[i + 1] && ws[j] == w0[j + 1]);
                }
            }
            assert forall|i: int, j: int| 0 <= i < h.len() && 0 <= j < ws.len() implies h[i]
                != ws[j] by {
                assert(ws[j] == w0[j + 1]);
                if i < h.len() - 1 {
                    let a = if i < k {
                        i
                    } else {
                        i + 1
                    };
                    assert(h[i] == h0[a]);
                } else {
                    assert(h[i] == w0[0]);
                }
            }
        }
        Some(w)
    }
}

/// The position of `id` in `v`, if it is there.
pub fn index_of(v: &Vec<u64>, id: u64) -> (r: Option<usize>)
    ensures
        match r {
            Some(k) => k < v@.len() && v@[k as int] == id,
            None => !v@.contains(id),
        },
{
    let mut i: usize = 0;
    while i < v.len()
        invariant
            i <= v@.len(),
            forall|j: int| 0 <= j < i ==> v@[j] != id,
        decreases v@.len() - i,
    {
        if v[i] == id {
            return Some(i);
        }
        i = i + 1;
    }
    None
}

/// In a consistent gate, which `new` makes and `arrive` and `release` keep, the requests that
/// hold permits are distinct and no more than the capacity.
pub proof fn lemma_gate_bound(g: GateView)
    requires
        gate_wf(g),
    ensures
        g.holders.len() <= g.capacity,
        g.holders.no_duplicates(),
        g.holders.to_set().len() == g.holders.len(),
{
    g.holders.unique_seq_to_set();
}

} // verus!
