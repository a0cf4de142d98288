//! Chips: a table with its own constraints and its part in the lookup argument.

use vstd::prelude::*;
use crate::babybear::Felt;
use crate::builder;
use crate::builder::{BuilderSpec, ConstraintBuilder};
use crate::ext::Ext;
use crate::lookup::Interaction;
use crate::permutation;
use crate::program::Window;
use crate::recording::Recording;

verus! {

/// The constraints of a table.
pub trait Air: Sized {
    /// The values that [`Air::eval`] asserts to be zero on a row, in order.
    spec fn constraints(&self, env: Window, public_values: Seq<Felt>) -> Seq<Ext>;

    /// Whether the constraints can be evaluated on tables of these widths.
    spec fn fits(&self, prep_width: nat, main_width: nat, public_values: nat) -> bool;

    /// The most instructions that the constraints take.
    spec fn size(&self) -> nat;

    /// What asserting the constraints makes of a recording.
    spec fn record(&self, s: Recording, public_values: Seq<Felt>) -> Recording;

    /// Asserts the constraints.
    fn eval<B: ConstraintBuilder>(&self, b: &mut B, public_values: &Vec<Felt>)
        requires
            old(b).inv(),
            self.fits(
                old(b).prep_width_spec(),
                old(b).main_width_spec(),
                public_values@.len(),
            ),
        ensures
            B::is_recording() ==> final(b).recording() == self.record(
                old(b).recording(),
                public_values@,
            ),
            builder::within(*final(b), *old(b), self.size()),
            builder::asserted(
                *final(b),
                *old(b),
                |env: Window| self.constraints(env, public_values@),
            ),
    ;
}

/// References to the elements.
pub open spec fn refs<'a>(ints: Seq<Interaction>) -> Seq<&'a Interaction> {
    Seq::new(ints.len(), |i: int| &ints[i])
}

/// A table and the interactions that stay within the shard.
pub struct Chip<A> {
    pub air: A,
    pub local_sends: Vec<Interaction>,
    pub local_receives: Vec<Interaction>,
    /// How many interactions share a column of the permutation trace.
    pub logup_batch_size: usize,
}

impl<A> Chip<A> {
    pub open spec fn sends(&self) -> Seq<&Interaction> {
        refs(self.local_sends@)
    }

    pub open spec fn receives(&self) -> Seq<&Interaction> {
        refs(self.local_receives@)
    }

    pub open spec fn perm_width(&self) -> nat {
        permutation::trace_width(
            self.local_sends@.len() + self.local_receives@.len(),
            self.logup_batch_size as nat,
        )
    }

    /// The number of extension elements in a row of the permutation trace.
    pub fn permutation_width(&self) -> (r: usize)
        requires
            self.local_sends@.len() + self.local_receives@.len() > 0 ==> self.logup_batch_size > 0,
            self.local_sends@.len() + self.local_receives@.len() < usize::MAX,
        ensures
            r == self.perm_width(),
    {
        permutation::local_permutation_trace_width(
            self.local_sends.len() + self.local_receives.len(),
            self.logup_batch_size,
        )
    }

    pub fn sends_refs(&self) -> (r: Vec<&Interaction>)
        ensures
            r@ == self.sends(),
    {
        to_refs(&self.local_sends)
    }

    pub fn receives_refs(&self) -> (r: Vec<&Interaction>)
        ensures
            r@ == self.receives(),
    {
        to_refs(&self.local_receives)
    }
}

fn to_refs(ints: &Vec<Interaction>) -> (r: Vec<&Interaction>)
    ensures
        r@ == refs(ints@),
{
    let mut r: Vec<&Interaction> = Vec::new();
    let mut i: usize = 0;
    while i < ints.len()
        invariant
            i <= ints@.len(),
            r@ == refs(ints@).take(i as int),
        decreases ints@.len() - i,
    {
        r.push(&ints[i]);
        i = i + 1;
        assert(r@ =~= refs(ints@).take(i as int));
    }
    assert(refs(ints@).take(i as int) =~= refs(ints@));
    r
}

} // verus!
