//! A buffer of characters as a sink for text.
use vstd::prelude::*;
use crate::ring::{after_pushes, lemma_push_run_step, pushed_all, written};
use crate::storage::Storage;
use crate::wheel::WheelBuf;

verus! {

/// The error type of `core::fmt`, declared so that the sink can have the
/// signature of a formatter's `write_str`. Nothing is claimed of its values:
/// it is carried, never made or read here.
#[verifier::external_type_specification]
#[verifier::external_body]
pub struct ExFmtError(core::fmt::Error);

impl<C> WheelBuf<C, char> where C: Storage<char> {
    /// Pushes the characters of `s`, first to last. Like a push, this always
    /// succeeds: the buffer keeps the newest characters that fit. Text that
    /// is not empty needs a buffer with at least one slot.
    pub fn write_str(&mut self, s: &str) -> (r: Result<(), core::fmt::Error>)
        requires
            old(self).wf(),
            s@.len() > 0 ==> old(self).storage().len() >= 1,
        ensures
            r is Ok,
            final(self).wf(),
            final(self).storage().len() == old(self).storage().len(),
            final(self)@ == pushed_all(old(self)@, old(self).storage().len(), s@),
            final(self).storage() == written(old(self).storage(), old(self).indices(), s@),
            final(self).indices() == after_pushes(
                old(self).storage().len(),
                old(self).indices(),
                s@.len(),
            ),
    {
        let ghost cap = self.storage().len();
        for c in it: s.chars()
            invariant
                it.seq() == s@,
                self.wf(),
                self.storage().len() == cap,
                cap == old(self).storage().len(),
                s@.len() > 0 ==> cap >= 1,
                self@ == pushed_all(old(self)@, cap, s@.take(it.index() as int)),
                self.storage() == written(
                    old(self).storage(),
                    old(self).indices(),
                    s@.take(it.index() as int),
                ),
                self.indices() == after_pushes(cap, old(self).indices(), it.index() as nat),
        {
            proof {
                lemma_push_run_step(
                    old(self).storage(),
                    old(self).indices(),
                    s@,
                    it.index() as int,
                );
            }
            self.push(c);
        }
        assert(s@.take(s@.len() as int) == s@);
        Ok(())
    }
}

} // verus!
