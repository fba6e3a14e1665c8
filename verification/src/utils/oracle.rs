//! The randomness oracle: a fixed tape of random field elements and integers that
//! prover and verifier read in the same order.
use vstd::prelude::*;
use rand::RngExt;
use crate::algebra;
use crate::field::Field;
use crate::utils::poly;

verus! {

/// Length of each tape.
pub const RANDOM_ORACLE_LEN: usize = 100_000;

/// Two tapes of random values with a reading position on each.
pub struct RandomOracle<F: Field> {
    fields: Vec<F>,
    ints: Vec<usize>,
    fields_idx: usize,
    ints_idx: usize,
}

/// `rand`'s standard uniform sampling of a `u64`: any value may come back.
#[verifier::external_body]
fn sample_u64(rng: &mut rand::rngs::ThreadRng) -> u64 {
    rng.random::<u64>()
}

impl<F: Field> RandomOracle<F> {
    /// The tape of field elements.
    pub closed spec fn fields(self) -> Seq<F> {
        self.fields@
    }

    /// The tape of integers.
    pub closed spec fn ints(self) -> Seq<usize> {
        self.ints@
    }

    /// How many field elements have been read.
    pub closed spec fn fields_pos(self) -> nat {
        self.fields_idx as nat
    }

    /// How many integers have been read.
    pub closed spec fn ints_pos(self) -> nat {
        self.ints_idx as nat
    }

    /// The tapes have their full length and hold canonical elements, and the
    /// positions lie on them.
    pub open spec fn wf(self) -> bool {
        &&& self.fields().len() == RANDOM_ORACLE_LEN
        &&& self.ints().len() == RANDOM_ORACLE_LEN
        &&& self.fields_pos() <= RANDOM_ORACLE_LEN
        &&& self.ints_pos() <= RANDOM_ORACLE_LEN
        &&& algebra::all_valid(self.fields())
    }

    /// At least `n` field elements are unread.
    pub open spec fn has_fields(self, n: int) -> bool {
        self.wf() && self.fields_pos() + n <= RANDOM_ORACLE_LEN
    }

    /// At least `n` integers are unread.
    pub open spec fn has_ints(self, n: int) -> bool {
        self.wf() && self.ints_pos() + n <= RANDOM_ORACLE_LEN
    }

    /// The next `n` unread field elements, as far as the tape goes.
    pub open spec fn upcoming(self, n: nat) -> Seq<F> {
        Seq::new(n, |i: int| self.fields()[self.fields_pos() + i])
    }

    /// The next `n` unread integers, as far as the tape goes.
    pub open spec fn upcoming_ints(self, n: nat) -> Seq<usize> {
        Seq::new(n, |i: int| self.ints()[self.ints_pos() + i])
    }

    /// `later` is this oracle after reading `n` field elements and `k` integers.
    pub open spec fn advanced(self, later: Self, n: int, k: int) -> bool {
        &&& later.fields() == self.fields()
        &&& later.ints() == self.ints()
        &&& later.fields_pos() == self.fields_pos() + n
        &&& later.ints_pos() == self.ints_pos() + k
    }

    /// Fills both tapes from `rng`.
    pub fn new(rng: &mut rand::rngs::ThreadRng) -> (r: Self)
        ensures
            r.wf(),
            r.fields_pos() == 0,
            r.ints_pos() == 0,
    {
        let mut fields: Vec<F> = Vec::new();
        let mut ints: Vec<usize> = Vec::new();
        let mut i: usize = 0;
        while i < RANDOM_ORACLE_LEN
            invariant
                i <= RANDOM_ORACLE_LEN,
                fields@.len() == i,
                algebra::all_valid(fields@),
            decreases RANDOM_ORACLE_LEN - i,
        {
            fields.push(F::sample(rng));
            i += 1;
        }
        let mut k: usize = 0;
        while k < RANDOM_ORACLE_LEN
            invariant
                k <= RANDOM_ORACLE_LEN,
                ints@.len() == k,
            decreases RANDOM_ORACLE_LEN - k,
        {
            let v: u64 = sample_u64(rng);
            ints.push(
                #[verifier::truncate]
                (v as usize),
            );
            k += 1;
        }
        RandomOracle { fields, ints, fields_idx: 0, ints_idx: 0 }
    }

    /// Reads one field element.
    pub fn next_field(&mut self) -> (r: F)
        requires
            old(self).has_fields(1),
        ensures
            r == old(self).fields()[old(self).fields_pos() as int],
            r.valid(),
            final(self).wf(),
            old(self).advanced(*final(self), 1, 0),
    {
        let res = self.fields[self.fields_idx];
        proof {
            assert(self.fields()[self.fields_pos() as int].valid());
        }
        self.fields_idx += 1;
        res
    }

    /// Reads `n` field elements.
    pub fn next_n_fields(&mut self, n: usize) -> (r: Vec<F>)
        requires
            old(self).has_fields(n as int),
        ensures
            r@ == old(self).upcoming(n as nat),
            algebra::all_valid(r@),
            final(self).wf(),
            old(self).advanced(*final(self), n as int, 0),
    {
        let end: usize = self.fields_idx + n;
        let res = poly::copy_slice(vstd::slice::slice_subrange(self.fields.as_slice(), self.fields_idx, end));
        proof {
            assert forall|i: int| 0 <= i < res@.len() implies (#[trigger] res@[i]).valid() by {
                assert(self.fields()[self.fields_pos() + i].valid());
            }
        }
        self.fields_idx = end;
        res
    }

    /// Reads one integer.
    pub fn next_int(&mut self) -> (r: usize)
        requires
            old(self).has_ints(1),
        ensures
            r == old(self).ints()[old(self).ints_pos() as int],
            final(self).wf(),
            old(self).advanced(*final(self), 0, 1),
    {
        let res: usize = self.ints[self.ints_idx];
        self.ints_idx += 1;
        res
    }

    /// Reads `n` integers.
    pub fn next_n_ints(&mut self, n: usize) -> (r: Vec<usize>)
        requires
            old(self).has_ints(n as int),
        ensures
            r@ == old(self).upcoming_ints(n as nat),
            final(self).wf(),
            old(self).advanced(*final(self), 0, n as int),
    {
        let end: usize = self.ints_idx + n;
        let mut res: Vec<usize> = Vec::new();
        let mut i: usize = self.ints_idx;
        while i < end
            invariant
                self.ints_idx <= i <= end,
                end <= self.ints@.len(),
                res@ == self.ints@.subrange(self.ints_idx as int, i as int),
            decreases end - i,
        {
            res.push(self.ints[i]);
            assert(self.ints@.subrange(self.ints_idx as int, i + 1) =~= self.ints@.subrange(
                self.ints_idx as int,
                i as int,
            ).push(self.ints@[i as int]));
            i += 1;
        }
        assert(res@ =~= self.upcoming_ints(n as nat));
        self.ints_idx = end;
        res
    }

    /// The next `n` integers, without reading them.
    pub fn peek_ints(&self, n: usize) -> (r: Vec<usize>)
        requires
            self.has_ints(n as int),
        ensures
            r@ == self.upcoming_ints(n as nat),
    {
        let mut res: Vec<usize> = Vec::new();
        let mut i: usize = 0;
        while i < n
            invariant
                i <= n,
                self.has_ints(n as int),
                res@.len() == i,
                forall|k: int| 0 <= k < i ==> #[trigger] res@[k] == self.ints()[self.ints_pos() + k],
            decreases n - i,
        {
            res.push(self.ints[self.ints_idx + i]);
            i += 1;
        }
        assert(res@ =~= self.upcoming_ints(n as nat));
        res
    }

    /// Returns to the start of both tapes.
    pub fn restart(&mut self)
        requires
            old(self).wf(),
        ensures
            final(self).wf(),
            final(self).fields() == old(self).fields(),
            final(self).ints() == old(self).ints(),
            final(self).fields_pos() == 0,
            final(self).ints_pos() == 0,
    {
        self.fields_idx = 0;
        self.ints_idx = 0;
    }
}

/// Draws come in order and none is drawn twice: reading `n` field elements and then `m` is
/// reading `n + m` at once, and so for integers.
pub proof fn law_draws_in_order<F: Field>(
    first: RandomOracle<F>,
    later: RandomOracle<F>,
    n: nat,
    m: nat,
    k: nat,
    l: nat,
)
    requires
        first.advanced(later, n as int, k as int),
    ensures
        first.upcoming(n + m) == first.upcoming(n) + later.upcoming(m),
        first.upcoming_ints(k + l) == first.upcoming_ints(k) + later.upcoming_ints(l),
        first.has_fields((n + m) as int) && later.wf() ==> later.has_fields(m as int),
        first.has_ints((k + l) as int) && later.wf() ==> later.has_ints(l as int),
{
    assert(first.upcoming(n + m) =~= first.upcoming(n) + later.upcoming(m));
    assert(first.upcoming_ints(k + l) =~= first.upcoming_ints(k) + later.upcoming_ints(l));
}

} // verus!
