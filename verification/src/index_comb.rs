//! A restartable generator that enumerates every tuple of indices within
//! given per-dimension bounds, in mixed-radix counting order with dimension 0
//! as the least-significant (fastest-moving) digit.

use vstd::prelude::*;

verus! {

/// Number of tuples enumerated for these bounds: the product of all bounds.
pub open spec fn total_count(bounds: Seq<usize>) -> nat
    decreases bounds.len(),
{
    if bounds.len() == 0 {
        1
    } else {
        (bounds[0] as nat) * total_count(bounds.drop_first())
    }
}

/// A digit tuple is valid when it has one digit per dimension, each strictly
/// below its bound.
pub open spec fn valid_digits(bounds: Seq<usize>, digits: Seq<usize>) -> bool {
    &&& digits.len() == bounds.len()
    &&& forall|i: int| 0 <= i < digits.len() ==> (digits[i] as nat) < (bounds[i] as nat)
}

/// The position of a digit tuple in mixed-radix counting order: digit 0 is
/// the least significant.
pub open spec fn rank_of(bounds: Seq<usize>, digits: Seq<usize>) -> nat
    decreases digits.len(),
{
    if digits.len() == 0 || bounds.len() == 0 {
        0
    } else {
        (digits[0] as nat) + (bounds[0] as nat) * rank_of(
            bounds.drop_first(),
            digits.drop_first(),
        )
    }
}

/// The digit tuple at position `k` of the enumeration (digit 0 fastest).
pub open spec fn tuple_at(bounds: Seq<usize>, k: nat) -> Seq<usize>
    decreases bounds.len(),
{
    if bounds.len() == 0 {
        Seq::empty()
    } else {
        seq![(k % (bounds[0] as nat)) as usize].add(
            tuple_at(bounds.drop_first(), k / (bounds[0] as nat)),
        )
    }
}

/// The bounds have at least one tuple exactly when no dimension is empty.
pub proof fn lemma_total_count_positive(bounds: Seq<usize>)
    ensures
        total_count(bounds) > 0 <==> (forall|i: int| 0 <= i < bounds.len() ==> bounds[i] > 0),
    decreases bounds.len(),
{
    if bounds.len() > 0 {
        let rest = bounds.drop_first();
        lemma_total_count_positive(rest);
        if bounds[0] > 0 && total_count(rest) > 0 {
            assert((bounds[0] as nat) * total_count(rest) > 0) by (nonlinear_arith)
                requires
                    bounds[0] as nat > 0,
                    total_count(rest) > 0,
            ;
            assert forall|i: int| 0 <= i < bounds.len() implies bounds[i] > 0 by {
                if i > 0 {
                    assert(rest[i - 1] == bounds[i]);
                }
            }
        }
        if forall|i: int| 0 <= i < bounds.len() ==> bounds[i] > 0 {
            assert(forall|i: int| 0 <= i < rest.len() ==> rest[i] == bounds[i + 1] && rest[i] > 0);
            assert((bounds[0] as nat) * total_count(rest) > 0) by (nonlinear_arith)
                requires
                    bounds[0] as nat > 0,
                    total_count(rest) > 0,
            ;
        }
    }
}

/// A valid digit tuple ranks strictly below the total count.
pub proof fn lemma_rank_below_total(bounds: Seq<usize>, digits: Seq<usize>)
    requires
        valid_digits(bounds, digits),
    ensures
        rank_of(bounds, digits) < total_count(bounds),
    decreases digits.len(),
{
    if digits.len() == 0 {
    } else {
        let b0 = bounds[0] as nat;
        let rest_b = bounds.drop_first();
        let rest_d = digits.drop_first();
        assert(valid_digits(rest_b, rest_d));
        lemma_rank_below_total(rest_b, rest_d);
        assert((digits[0] as nat) + b0 * rank_of(rest_b, rest_d) < b0 * total_count(rest_b))
            by (nonlinear_arith)
            requires
                (digits[0] as nat) < b0,
                rank_of(rest_b, rest_d) < total_count(rest_b),
        ;
    }
}

/// For `k` below the total count, the tuple at `k` is a valid digit tuple.
pub proof fn lemma_tuple_at_valid(bounds: Seq<usize>, k: nat)
    requires
        k < total_count(bounds),
    ensures
        valid_digits(bounds, tuple_at(bounds, k)),
    decreases bounds.len(),
{
    if bounds.len() > 0 {
        let b0 = bounds[0] as nat;
        let rest = bounds.drop_first();
        assert(b0 > 0 && k / b0 < total_count(rest)) by (nonlinear_arith)
            requires
                k < b0 * total_count(rest),
                0 <= k,
        ;
        lemma_tuple_at_valid(rest, k / b0);
        let t = tuple_at(bounds, k);
        assert(t[0] as nat == k % b0);
        assert(k % b0 < b0) by (nonlinear_arith)
            requires
                b0 > 0,
                0 <= k,
        ;
        assert(forall|i: int| 1 <= i < t.len() ==> t[i] == tuple_at(rest, k / b0)[i - 1]);
    }
}

/// Ranking the tuple at `k` recovers `k`: the enumeration visits position `k`
/// exactly at step `k`.
pub proof fn lemma_rank_of_tuple_at(bounds: Seq<usize>, k: nat)
    requires
        k < total_count(bounds),
    ensures
        rank_of(bounds, tuple_at(bounds, k)) == k,
    decreases bounds.len(),
{
    if bounds.len() == 0 {
        assert(total_count(bounds) == 1);
    } else {
        let b0 = bounds[0] as nat;
        let rest = bounds.drop_first();
        assert(b0 > 0 && k / b0 < total_count(rest)) by (nonlinear_arith)
            requires
                k < b0 * total_count(rest),
                0 <= k,
        ;
        lemma_rank_of_tuple_at(rest, k / b0);
        let t = tuple_at(bounds, k);
        assert(t.drop_first() =~= tuple_at(rest, k / b0));
        assert(k % b0 + b0 * (k / b0) == k) by (nonlinear_arith)
            requires
                b0 > 0,
                0 <= k,
        ;
    }
}

/// The tuple at the rank of a valid digit tuple is that tuple itself: every
/// valid tuple is visited.
pub proof fn lemma_tuple_at_rank_of(bounds: Seq<usize>, digits: Seq<usize>)
    requires
        valid_digits(bounds, digits),
    ensures
        tuple_at(bounds, rank_of(bounds, digits)) =~= digits,
    decreases digits.len(),
{
    if digits.len() > 0 {
        let b0 = bounds[0] as nat;
        let d0 = digits[0] as nat;
        let rest_b = bounds.drop_first();
        let rest_d = digits.drop_first();
        assert(valid_digits(rest_b, rest_d));
        lemma_tuple_at_rank_of(rest_b, rest_d);
        let r = rank_of(bounds, digits);
        assert(r == d0 + b0 * rank_of(rest_b, rest_d));
        assert(r % b0 == d0 && r / b0 == rank_of(rest_b, rest_d)) by (nonlinear_arith)
            requires
                r == d0 + b0 * rank_of(rest_b, rest_d),
                0 <= rank_of(rest_b, rest_d),
                d0 < b0,
        ;
    }
}

/// The generator completeness law: for bounds with every dimension at least 1,
/// the positions `0 .. total_count` enumerate the valid digit tuples exactly
/// once each, and every valid tuple appears, at the position given by its
/// mixed-radix rank (digit 0 least significant, so dimension 0 moves fastest).
pub proof fn lemma_combinations_complete(bounds: Seq<usize>)
    requires
        forall|i: int| 0 <= i < bounds.len() ==> bounds[i] >= 1,
    ensures
        forall|k: nat|
            k < total_count(bounds) ==> valid_digits(bounds, #[trigger] tuple_at(bounds, k)),
        forall|k1: nat, k2: nat|
            k1 < total_count(bounds) && k2 < total_count(bounds) && #[trigger] tuple_at(
                bounds,
                k1,
            ) == #[trigger] tuple_at(bounds, k2) ==> k1 == k2,
        forall|digits: Seq<usize>|
            valid_digits(bounds, digits) ==> #[trigger] rank_of(bounds, digits) < total_count(
                bounds,
            ) && tuple_at(bounds, rank_of(bounds, digits)) == digits,
{
    assert forall|k: nat| k < total_count(bounds) implies valid_digits(
        bounds,
        #[trigger] tuple_at(bounds, k),
    ) by {
        lemma_tuple_at_valid(bounds, k);
    }
    assert forall|k1: nat, k2: nat|
        k1 < total_count(bounds) && k2 < total_count(bounds) && #[trigger] tuple_at(bounds, k1)
            == #[trigger] tuple_at(bounds, k2) implies k1 == k2 by {
        lemma_rank_of_tuple_at(bounds, k1);
        lemma_rank_of_tuple_at(bounds, k2);
    }
    assert forall|digits: Seq<usize>| valid_digits(bounds, digits) implies #[trigger] rank_of(
        bounds,
        digits,
    ) < total_count(bounds) && tuple_at(bounds, rank_of(bounds, digits)) == digits by {
        lemma_rank_below_total(bounds, digits);
        lemma_tuple_at_rank_of(bounds, digits);
    }
}

/// The enumeration state: treats `indices` as a mixed-radix number whose
/// least-significant digit is at index 0.
#[derive(Debug)]
pub struct IndexCombinations {
    pub bounds: Vec<usize>,
    pub indices: Vec<usize>,
    pub started: bool,
}

impl IndexCombinations {
    /// The digits stay one per bound and strictly below their bound; a bound
    /// of 0 keeps a digit of 0.
    pub open spec fn wf(self) -> bool {
        &&& self.indices@.len() == self.bounds@.len()
        &&& forall|i: int|
            0 <= i < self.indices@.len() ==> (if self.bounds@[i] == 0 {
                self.indices@[i] == 0
            } else {
                (self.indices@[i] as nat) < (self.bounds@[i] as nat)
            })
    }

    /// How many tuples have been handed out so far: the current digits rank,
    /// plus one once the starting tuple itself has been returned.
    pub open spec fn pos(self) -> nat {
        rank_of(self.bounds@, self.indices@) + (if self.started {
            1nat
        } else {
            0nat
        })
    }

    /// Produces the next tuple: the all-zero tuple on the first call, then
    /// each successor in counting order (incrementing digit 0 and carrying
    /// upward on overflow), and `None` once every digit has carried out.
    /// Bounds with an empty dimension enumerate no tuple at all.
    #[verifier::loop_isolation(false)]
    pub fn next(&mut self) -> (r: Option<Vec<usize>>)
        requires
            old(self).wf(),
        ensures
            final(self).wf(),
            final(self).bounds@ == old(self).bounds@,
            total_count(old(self).bounds@) == 0 ==> r is None && *final(self) == *old(self),
            total_count(old(self).bounds@) > 0 && old(self).pos() < total_count(old(self).bounds@)
                ==> {
                &&& r matches Some(v) && v@ == tuple_at(old(self).bounds@, old(self).pos())
                &&& final(self).indices@ == tuple_at(old(self).bounds@, old(self).pos())
                &&& final(self).started
                &&& final(self).pos() == old(self).pos() + 1
            },
            total_count(old(self).bounds@) > 0 && old(self).pos() >= total_count(
                old(self).bounds@,
            ) ==> {
                &&& r is None
                &&& final(self).started
                &&& forall|i: int| 0 <= i < final(self).indices@.len() ==> final(self).indices@[i] == 0
            },
    {
        let n = self.bounds.len();
        let mut z: usize = 0;
        while z < n
            invariant
                z <= n,
                *self == *old(self),
                forall|j: int| 0 <= j < z ==> self.bounds@[j] > 0,
            decreases n - z,
        {
            if self.bounds[z] == 0 {
                proof {
                    lemma_total_count_positive(self.bounds@);
                }
                return None;
            }
            z += 1;
        }
        proof {
            lemma_total_count_positive(self.bounds@);
            lemma_rank_below_total(self.bounds@, self.indices@);
        }
        if !self.started {
            self.started = true;
            proof {
                lemma_tuple_at_rank_of(self.bounds@, self.indices@);
            }
            let out = copy_indices(&self.indices);
            return Some(out);
        }
        let ghost entry = self.indices@;
        let mut i: usize = 0;
        while i < n
            invariant
                i <= n,
                self.indices@.len() == n,
                self.bounds@ == old(self).bounds@,
                self.started == old(self).started,
                forall|j: int| 0 <= j < i ==> entry[j] == self.bounds@[j] - 1,
                forall|j: int| 0 <= j < i ==> self.indices@[j] == 0,
                forall|j: int| i <= j < n ==> self.indices@[j] == entry[j],
            decreases n - i,
        {
            if self.indices[i] == self.bounds[i] - 1 {
                self.indices.set(i, 0);
                i += 1;
            } else {
                let di = self.indices[i];
                self.indices.set(i, di + 1);
                proof {
                    lemma_rank_increment(self.bounds@, entry, self.indices@, i as int);
                    lemma_rank_below_total(self.bounds@, self.indices@);
                    lemma_tuple_at_rank_of(self.bounds@, self.indices@);
                }
                let out = copy_indices(&self.indices);
                return Some(out);
            }
        }
        proof {
            lemma_rank_all_max(self.bounds@, entry);
        }
        return None;
    }
}

/// Constructs a fresh enumeration over the given bounds, positioned before
/// the all-zero tuple.
pub fn given_bounds(bounds: Vec<usize>) -> (r: IndexCombinations)
    ensures
        r.bounds@ == bounds@,
        r.indices@.len() == bounds@.len(),
        forall|i: int| 0 <= i < r.indices@.len() ==> r.indices@[i] == 0,
        !r.started,
        r.wf(),
        r.pos() == 0,
{
    let mut indices: Vec<usize> = Vec::new();
    let n = bounds.len();
    let mut i: usize = 0;
    while i < n
        invariant
            i <= n,
            indices@.len() == i,
            forall|j: int| 0 <= j < i ==> indices@[j] == 0,
        decreases n - i,
    {
        indices.push(0);
        i += 1;
    }
    let r = IndexCombinations { bounds, indices, started: false };
    proof {
        lemma_rank_zero(r.bounds@, r.indices@);
    }
    r
}

/// An all-zero digit tuple has rank 0.
proof fn lemma_rank_zero(bounds: Seq<usize>, digits: Seq<usize>)
    requires
        digits.len() == bounds.len(),
        forall|i: int| 0 <= i < digits.len() ==> digits[i] == 0,
    ensures
        rank_of(bounds, digits) == 0,
    decreases digits.len(),
{
    if digits.len() > 0 {
        let rest_b = bounds.drop_first();
        let rest_d = digits.drop_first();
        assert(forall|i: int| 0 <= i < rest_d.len() ==> rest_d[i] == digits[i + 1]);
        lemma_rank_zero(rest_b, rest_d);
        assert((bounds[0] as nat) * 0 == 0) by (nonlinear_arith);
    }
}

/// Carrying: if the digits below position `i` are all at their maximum, and
/// the new tuple zeroes them while raising digit `i` by one, the rank rises
/// by exactly one.
proof fn lemma_rank_increment(bounds: Seq<usize>, d: Seq<usize>, e: Seq<usize>, i: int)
    requires
        valid_digits(bounds, d),
        0 <= i < d.len(),
        forall|j: int| 0 <= j < i ==> d[j] == bounds[j] - 1,
        (d[i] as nat) + 1 < (bounds[i] as nat),
        e.len() == d.len(),
        forall|j: int| 0 <= j < i ==> e[j] == 0,
        e[i] == d[i] + 1,
        forall|j: int| i < j < d.len() ==> e[j] == d[j],
    ensures
        valid_digits(bounds, e),
        rank_of(bounds, e) == rank_of(bounds, d) + 1,
    decreases i,
{
    let b0 = bounds[0] as nat;
    if i == 0 {
        assert(e.drop_first() =~= d.drop_first());
    } else {
        let rest_b = bounds.drop_first();
        let rest_d = d.drop_first();
        let rest_e = e.drop_first();
        assert(valid_digits(rest_b, rest_d));
        lemma_rank_increment(rest_b, rest_d, rest_e, i - 1);
        let rd = rank_of(rest_b, rest_d);
        assert(rank_of(bounds, d) == (b0 - 1) + b0 * rd);
        assert(rank_of(bounds, e) == 0 + b0 * (rd + 1));
        assert(b0 * (rd + 1) == b0 * rd + b0) by (nonlinear_arith);
    }
}

/// When every digit is at its maximum, the rank is the last position.
proof fn lemma_rank_all_max(bounds: Seq<usize>, d: Seq<usize>)
    requires
        valid_digits(bounds, d),
        forall|j: int| 0 <= j < d.len() ==> d[j] == bounds[j] - 1,
    ensures
        rank_of(bounds, d) + 1 == total_count(bounds),
    decreases d.len(),
{
    if d.len() > 0 {
        let b0 = bounds[0] as nat;
        let rest_b = bounds.drop_first();
        let rest_d = d.drop_first();
        assert(valid_digits(rest_b, rest_d));
        lemma_rank_all_max(rest_b, rest_d);
        let rd = rank_of(rest_b, rest_d);
        assert((b0 - 1) + b0 * rd + 1 == b0 * (rd + 1)) by (nonlinear_arith);
    }
}

/// Copies a digit vector so the caller receives an independent tuple.
fn copy_indices(v: &Vec<usize>) -> (r: Vec<usize>)
    ensures
        r@ == v@,
{
    let mut r: Vec<usize> = Vec::new();
    let n = v.len();
    let mut i: usize = 0;
    while i < n
        invariant
            i <= n,
            n == v@.len(),
            r@ =~= v@.subrange(0, i as int),
        decreases n - i,
    {
        r.push(v[i]);
        i += 1;
    }
    proof {
        assert(r@ =~= v@);
    }
    r
}

} // verus!
