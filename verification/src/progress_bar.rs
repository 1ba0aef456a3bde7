//! The progress counter: how far an operation has come, and when the bar is
//! full. Drawing it is left to the caller.

use vstd::prelude::*;
use vstd::string::StringExecFns;

verus! {

/// A bar of forty ticks over a total amount of work.
pub struct ProgressBar {
    pub header: String,
    pub current: u64,
    pub total: u64,
}

impl ProgressBar {
    /// A fresh bar for `t` units of work, labelled `h`.
    pub fn new(t: u64, h: &str) -> (r: Self)
        ensures
            r.header@ == h@,
            r.current == 0,
            r.total == t,
    {
        Self { header: String::from_str(h), current: 0, total: t }
    }

    /// Advance by `a` units; gives `Some` exactly when the bar is full.
    pub fn tick(&mut self, a: u64) -> (r: Option<()>)
        requires
            old(self).total >= 1,
            old(self).current == old(self).total || old(self).current + a <= old(self).total,
            old(self).total <= u64::MAX / 40,
        ensures
            final(self).header == old(self).header,
            final(self).total == old(self).total,
            final(self).current == if old(self).current == old(self).total {
                old(self).current as int
            } else {
                old(self).current + a
            },
            r is Some <==> final(self).current == final(self).total,
    {
        if self.current == self.total {
            return Some(());
        }
        let size: u64 = 40;
        self.current = self.current + a;
        proof {
            assert(self.current * size <= self.total * size) by (nonlinear_arith)
                requires
                    self.current <= self.total,
                    size >= 0,
            ;
            assert(self.total * 40 <= u64::MAX) by (nonlinear_arith)
                requires
                    self.total <= u64::MAX / 40,
            ;
        }
        let fill = (self.current * size) / self.total;
        proof {
            vstd::arithmetic::div_mod::lemma_fundamental_div_mod(
                self.current * size as int,
                self.total as int,
            );
            if self.current == self.total {
                vstd::arithmetic::div_mod::lemma_div_multiples_vanish(
                    size as int,
                    self.total as int,
                );
            }
            if fill == size {
                assert(self.current * size >= self.total * size) by (nonlinear_arith)
                    requires
                        self.total >= 1,
                        fill == (self.current * size as int) / self.total as int,
                        fill == size,
                        self.current * size as int == self.total as int * ((self.current
                            * size as int) / self.total as int) + (self.current * size as int)
                            % self.total as int,
                        (self.current * size as int) % self.total as int >= 0,
                ;
                assert(self.current >= self.total) by (nonlinear_arith)
                    requires
                        self.current * size >= self.total * size,
                        size >= 1,
                ;
            }
        }
        if fill == size {
            return Some(());
        }
        proof {
            if self.current == self.total {
                assert(fill == size);
            }
        }
        None
    }

    /// Move the bar to position `a`, then report whether it is full.
    pub fn set_tick(&mut self, a: u64) -> (r: Option<()>)
        requires
            old(self).total >= 1,
            a <= old(self).total,
            old(self).total <= u64::MAX / 40,
        ensures
            final(self).header == old(self).header,
            final(self).total == old(self).total,
            final(self).current == a,
            r is Some <==> a == old(self).total,
    {
        self.current = a;
        self.tick(0)
    }

    /// Move the bar to its end; always reports it full.
    pub fn complete(&mut self) -> (r: Option<()>)
        requires
            old(self).total >= 1,
            old(self).total <= u64::MAX / 40,
        ensures
            final(self).header == old(self).header,
            final(self).total == old(self).total,
            final(self).current == final(self).total,
            r is Some,
    {
        self.current = self.total - 1;
        self.tick(1)
    }
}

} // verus!
