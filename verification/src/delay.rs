//! Ring buffer of historical states for delayed feedback.
//!
//! The delayed dynamics read, at step `k`, the state that the integrator held
//! exactly `delay_step` steps earlier. The buffer keeps the last `delay_step`
//! pushed states in a fixed-capacity vector: the state of step `k` lives in
//! slot `k % delay_step`, appended while the buffer is filling and
//! overwritten in place once it is full. Reading must happen before the
//! current step's state is pushed; the contracts pin that order down.

use vstd::arithmetic::div_mod::{
    lemma_fundamental_div_mod, lemma_mod_bound, lemma_mod_sub_multiples_vanish,
};
use vstd::prelude::*;

verus! {

/// Fixed-capacity ring store of the most recently pushed states.
pub struct DelayBuffer<T> {
    data: Vec<T>,
    cap: usize,
    history: Ghost<Seq<T>>,
}

impl<T> DelayBuffer<T> {
    /// The capacity, i.e. the delay in steps.
    pub closed spec fn capacity(self) -> nat {
        self.cap as nat
    }

    /// Every state ever pushed, in step order: the state of step `k` is
    /// `self.pushed()[k]`.
    pub closed spec fn pushed(self) -> Seq<T> {
        self.history@
    }

    /// The buffer keeps the last `capacity()` pushed states, each in the
    /// slot given by its step number modulo the capacity.
    pub closed spec fn wf(self) -> bool {
        let n = self.history@.len() as int;
        let cap = self.cap as int;
        &&& self.cap >= 1
        &&& self.data@.len() as int == if n <= cap {
            n
        } else {
            cap
        }
        &&& forall|j: int|
            0 <= j < n && n - cap <= j ==> self.data@[j % cap] == #[trigger] self.history@[j]
    }

    /// An empty buffer for a delay of `delay_step` steps.
    pub fn new(delay_step: usize) -> (r: DelayBuffer<T>)
        requires
            delay_step >= 1,
        ensures
            r.wf(),
            r.capacity() == delay_step,
            r.pushed() == Seq::<T>::empty(),
    {
        DelayBuffer { data: Vec::new(), cap: delay_step, history: Ghost(Seq::empty()) }
    }

    /// Records the state of step `k`. While fewer than `capacity()` states
    /// have been recorded the state is appended; afterwards it overwrites
    /// slot `k % capacity()`, the slot of the oldest recorded state.
    pub fn push(&mut self, x: T, k: usize)
        requires
            old(self).wf(),
            k as nat == old(self).pushed().len(),
        ensures
            final(self).wf(),
            final(self).capacity() == old(self).capacity(),
            final(self).pushed() == old(self).pushed().push(x),
    {
        let ghost n = k as int;
        let ghost cap = self.cap as int;
        if k < self.cap {
            self.data.push(x);
        } else {
            let idx = k % self.cap;
            proof {
                lemma_mod_bound(n, cap);
            }
            self.data[idx] = x;
        }
        proof {
            self.history@ = self.history@.push(x);
            assert forall|j: int| 0 <= j < n + 1 && n + 1 - cap <= j implies self.data@[j % cap]
                == self.history@[j] by {
                lemma_mod_bound(j, cap);
                if j == n {
                    lemma_mod_bound(n, cap);
                    if n < cap {
                        vstd::arithmetic::div_mod::lemma_small_mod(n as nat, cap as nat);
                    }
                } else {
                    // An older surviving entry: its slot differs from `n % cap`
                    // because the step numbers differ by less than `cap`.
                    if j % cap == n % cap {
                        lemma_fundamental_div_mod(j, cap);
                        lemma_fundamental_div_mod(n, cap);
                        assert(false) by (nonlinear_arith)
                            requires
                                j == cap * (j / cap) + j % cap,
                                n == cap * (n / cap) + n % cap,
                                j % cap == n % cap,
                                0 < n - j < cap,
                        ;
                    }
                    if n < cap {
                        vstd::arithmetic::div_mod::lemma_small_mod(j as nat, cap as nat);
                    }
                }
            }
        }
    }

    /// The delayed state for step `k`: the state pushed at step
    /// `k - capacity()`, i.e. exactly `capacity()` steps earlier. Valid once
    /// the buffer is full, and only before the state of step `k` itself is
    /// pushed.
    pub fn read(&self, k: usize) -> (r: &T)
        requires
            self.wf(),
            k as nat == self.pushed().len(),
            k as nat >= self.capacity(),
        ensures
            *r == self.pushed()[k - self.capacity()],
    {
        let idx = k % self.cap;
        proof {
            let n = k as int;
            let cap = self.cap as int;
            lemma_mod_bound(n, cap);
            lemma_mod_sub_multiples_vanish(n, cap);
            assert((n - cap) % cap == n % cap);
            assert(self.data@[n % cap] == self.history@[n - cap]);
        }
        &self.data[idx]
    }
}

} // verus!
