//! Sequence numbers and route metrics of the routing protocol.

use vstd::prelude::*;
use vstd::std_specs::cmp::{PartialOrdSpec, PartialOrdSpecImpl};
use vstd::std_specs::ops::{AddSpec, AddSpecImpl, SubSpec, SubSpecImpl};
use std::cmp::Ordering;

verus! {

/// The metric of a destination that cannot be reached.
pub const UNREACHABLE: u32 = 0xffff_ffff;

/// A sequence number on a circle of `2^16` values.
#[derive(Clone, Copy, PartialEq, Eq, Structural, Debug)]
pub struct SeqNo(pub u16);

/// How far `b` lies ahead of `a` on the circle.
pub open spec fn seq_distance(a: SeqNo, b: SeqNo) -> int {
    (b.0 - a.0) % 0x1_0000
}

/// `a` is older than `b`: `b` lies ahead of `a`, by less than half of the circle.
pub open spec fn seq_older(a: SeqNo, b: SeqNo) -> bool {
    0 < seq_distance(a, b) < 0x8000
}

/// `a` counts as newer than `b`: it is another number and not an older one. Of two numbers that
/// lie exactly opposite each counts as newer than the other.
pub open spec fn seq_newer(a: SeqNo, b: SeqNo) -> bool {
    a != b && !seq_older(a, b)
}

/// The number that lies `step` ahead of `a`.
pub open spec fn seq_forward(a: SeqNo, step: SeqNo) -> SeqNo {
    SeqNo(((a.0 + step.0) % 0x1_0000) as u16)
}

/// The number that lies `step` behind `a`.
pub open spec fn seq_back(a: SeqNo, step: SeqNo) -> SeqNo {
    SeqNo(((a.0 - step.0) % 0x1_0000) as u16)
}

impl AddSpecImpl for SeqNo {
    open spec fn obeys_add_spec() -> bool {
        true
    }

    open spec fn add_req(self, rhs: SeqNo) -> bool {
        true
    }

    open spec fn add_spec(self, rhs: SeqNo) -> SeqNo {
        seq_forward(self, rhs)
    }
}

impl std::ops::Add for SeqNo {
    type Output = SeqNo;

    /// Moves forward on the circle.
    fn add(self, rhs: SeqNo) -> (result: SeqNo) {
        SeqNo(self.0.wrapping_add(rhs.0))
    }
}

impl SubSpecImpl for SeqNo {
    open spec fn obeys_sub_spec() -> bool {
        true
    }

    open spec fn sub_req(self, rhs: SeqNo) -> bool {
        true
    }

    open spec fn sub_spec(self, rhs: SeqNo) -> SeqNo {
        seq_back(self, rhs)
    }
}

impl std::ops::Sub for SeqNo {
    type Output = SeqNo;

    /// Moves backward on the circle.
    fn sub(self, rhs: SeqNo) -> (result: SeqNo) {
        SeqNo(self.0.wrapping_sub(rhs.0))
    }
}

impl std::ops::AddAssign for SeqNo {
    /// Moves forward on the circle.
    fn add_assign(&mut self, rhs: SeqNo)
        ensures
            *final(self) == seq_forward(*old(self), rhs),
    {
        *self = *self + rhs;
    }
}

impl std::ops::SubAssign for SeqNo {
    /// Moves backward on the circle.
    fn sub_assign(&mut self, rhs: SeqNo)
        ensures
            *final(self) == seq_back(*old(self), rhs),
    {
        *self = *self - rhs;
    }
}

impl PartialOrdSpecImpl for SeqNo {
    open spec fn obeys_partial_cmp_spec() -> bool {
        true
    }

    open spec fn partial_cmp_spec(&self, other: &SeqNo) -> Option<Ordering> {
        if *self == *other {
            Some(Ordering::Equal)
        } else if seq_older(*self, *other) {
            Some(Ordering::Less)
        } else {
            Some(Ordering::Greater)
        }
    }
}

impl PartialOrd for SeqNo {
    /// Compares on the circle: the number that is less than half a turn ahead is the newer one.
    fn partial_cmp(&self, other: &SeqNo) -> (result: Option<Ordering>) {
        if self.0 == other.0 {
            Some(Ordering::Equal)
        } else if other.0.wrapping_sub(self.0) < 0x8000 {
            Some(Ordering::Less)
        } else {
            Some(Ordering::Greater)
        }
    }
}

/// The sequence number that follows `seq`.
pub open spec fn next_seq(seq: SeqNo) -> SeqNo {
    seq_forward(seq, SeqNo(1))
}

/// A metric together with the sequence number under which it was announced.
#[derive(Clone, Copy, PartialEq, Eq, Structural, Debug)]
pub struct SeqMetric {
    pub seq: SeqNo,
    pub metric: u32,
}

/// What makes an announcement safe to follow once `bound` has been followed: a newer sequence
/// number, or the same one with a metric that is not larger. A retraction under the same number
/// always passes.
pub open spec fn is_feasible(announced: SeqMetric, bound: SeqMetric) -> bool {
    seq_newer(announced.seq, bound.seq) || (announced.seq == bound.seq && (announced.metric
        <= bound.metric || announced.metric == UNREACHABLE))
}

impl SeqMetric {
    /// Whether this announcement may be followed once `rhs` has been followed.
    pub fn feasible(&self, rhs: &SeqMetric) -> (result: bool)
        ensures
            result == is_feasible(*self, *rhs),
    {
        if self.seq > rhs.seq {
            return true;
        }
        if self.seq == rhs.seq && (self.metric <= rhs.metric || self.metric == UNREACHABLE) {
            return true;
        }
        false
    }
}

/// A sequence number is older than each of the `2^15 - 1` numbers that follow it.
pub proof fn lemma_seq_older_after_add(a: SeqNo, step: SeqNo)
    requires
        0 < step.0 < 0x8000,
    ensures
        seq_older(a, seq_forward(a, step)),
        seq_newer(seq_forward(a, step), a),
{
}

/// Going forward and back again by the same step gives the number back, in either order.
pub proof fn lemma_seq_add_sub_inverse(a: SeqNo, step: SeqNo)
    ensures
        seq_back(seq_forward(a, step), step) == a,
        seq_forward(seq_back(a, step), step) == a,
{
}

/// Two different numbers are ordered one way and not the other, unless they lie opposite on the
/// circle: then each is newer than the other.
pub proof fn lemma_seq_order_antisymmetric(a: SeqNo, b: SeqNo)
    requires
        a != b,
    ensures
        seq_older(a, b) <==> !seq_newer(a, b),
        seq_distance(a, b) != 0x8000 ==> (seq_older(a, b) <==> seq_newer(b, a)),
        seq_distance(a, b) == 0x8000 ==> seq_newer(a, b) && seq_newer(b, a),
{
}

/// An announcement may always be followed again, and so may its retraction under the same number.
pub proof fn lemma_feasible_reflexive(bound: SeqMetric)
    ensures
        is_feasible(bound, bound),
        is_feasible((SeqMetric { seq: bound.seq, metric: UNREACHABLE }), bound),
{
}

/// Under one sequence number, no announcement with a larger reachable metric is feasible: a node
/// never follows a route that is worse than the one it announced under that number.
pub proof fn lemma_feasible_never_worse(announced: SeqMetric, bound: SeqMetric)
    requires
        announced.seq == bound.seq,
        bound.metric < announced.metric < UNREACHABLE,
    ensures
        !is_feasible(announced, bound),
{
}

/// Numbers are compared by how far one has to go from the first to the second, upwards and round the
/// circle: by nothing where they are the same, by less than half of it where the first one is older,
/// and by half or more where it is newer.
pub proof fn lemma_order_on_circle(a: SeqNo, b: SeqNo)
    ensures
        b.0 >= a.0 ==> seq_distance(a, b) == b.0 - a.0,
        b.0 < a.0 ==> seq_distance(a, b) == 65536 - (a.0 - b.0),
        a.0 < b.0 ==> (seq_older(a, b) <==> b.0 - a.0 < 32768),
        a.0 > b.0 ==> (seq_older(a, b) <==> a.0 - b.0 > 32768),
        a.0 < b.0 ==> (seq_newer(a, b) <==> b.0 - a.0 >= 32768),
        a.0 > b.0 ==> (seq_newer(a, b) <==> a.0 - b.0 <= 32768),
        a.0 == b.0 ==> !seq_older(a, b) && !seq_newer(a, b),
{
}

/// The next number is one larger, and zero after the largest.
pub proof fn lemma_next_seq(seq: SeqNo)
    ensures
        seq.0 < 65535 ==> next_seq(seq).0 == seq.0 + 1,
        seq.0 == 65535 ==> next_seq(seq).0 == 0,
        seq_newer(next_seq(seq), seq),
{
}

/// Going forward by a step leads as far as the step says, and going back by it leads as far the other
/// way.
pub proof fn lemma_steps_cover_distance(a: SeqNo, step: SeqNo)
    ensures
        seq_distance(a, seq_forward(a, step)) == step.0,
        seq_distance(seq_back(a, step), a) == step.0,
{
}

/// A newer number makes every announcement feasible and an older one none; under the same number one
/// is feasible that is not worse, or that is a retraction.
pub proof fn lemma_feasibility(announced: SeqMetric, bound: SeqMetric)
    ensures
        seq_newer(announced.seq, bound.seq) ==> is_feasible(announced, bound),
        seq_older(announced.seq, bound.seq) ==> !is_feasible(announced, bound),
        announced.seq == bound.seq ==> (is_feasible(announced, bound) <==> announced.metric
            <= bound.metric || announced.metric == 4294967295),
{
}

/// Moving forward and back by the same step leads to where one was; a step ahead of a number lies just
/// that far ahead of it.
pub proof fn lemma_steps_undo_each_other(a: SeqNo, step: SeqNo)
    ensures
        SubSpec::sub_spec(AddSpec::add_spec(a, step), step) == a,
        AddSpec::add_spec(SubSpec::sub_spec(a, step), step) == a,
        seq_distance(a, AddSpec::add_spec(a, step)) == step.0,
        seq_distance(SubSpec::sub_spec(a, step), a) == step.0,
{
}

/// Numbers compare as equal where they are the same, and as less where less than half of the circle
/// leads from the first to the second; in all other cases as greater.
pub proof fn lemma_comparison(a: SeqNo, b: SeqNo)
    ensures
        PartialOrdSpec::partial_cmp_spec(&a, &b) == Some(Ordering::Equal) <==> a.0 == b.0,
        PartialOrdSpec::partial_cmp_spec(&a, &b) == Some(Ordering::Less) <==> (a.0 < b.0 && b.0 - a.0 < 32768) || (a.0
            > b.0 && a.0 - b.0 > 32768),
        PartialOrdSpec::partial_cmp_spec(&a, &b) is Some,
{
}

} // verus!
