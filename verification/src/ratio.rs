//! Shares of a whole, kept as the two counts they are made of.

use vstd::prelude::*;

verus! {

/// A share as the contracts see it: `num` out of `den`. With a `den` of zero the share is
/// undefined.
pub struct Share {
    pub num: nat,
    pub den: nat,
}

impl Share {
    /// This share is no larger than `other`. An undefined share counts as smaller than every
    /// defined one, and as level with another undefined one.
    pub open spec fn at_most(self, other: Share) -> bool {
        self.den == 0 || (other.den != 0 && self.num * other.den <= other.num * self.den)
    }

    /// Of two shares, one is at most the other.
    pub proof fn lemma_at_most_total(a: Share, b: Share)
        ensures
            a.at_most(b) || b.at_most(a),
    {
    }

    /// `at_most` carries over a middle share.
    pub proof fn lemma_at_most_transitive(a: Share, b: Share, c: Share)
        requires
            a.at_most(b),
            b.at_most(c),
        ensures
            a.at_most(c),
    {
        if a.den != 0 {
            let (an, ad) = (a.num as int, a.den as int);
            let (bn, bd) = (b.num as int, b.den as int);
            let (cn, cd) = (c.num as int, c.den as int);
            assert(an * cd <= cn * ad) by (nonlinear_arith)
                requires
                    an * bd <= bn * ad,
                    bn * cd <= cn * bd,
                    0 <= an,
                    0 <= bn,
                    0 <= cn,
                    0 < ad,
                    0 < bd,
                    0 < cd,
            {
                assert(an * bd * cd <= bn * ad * cd);
                assert(bn * cd * ad <= cn * bd * ad);
                assert(bn * ad * cd == bn * cd * ad);
                assert((an * cd) * bd <= (cn * ad) * bd);
            }
        }
    }
}

/// A share: `num` out of `den`.
#[derive(Clone, Copy, Debug, PartialEq, Eq, Structural)]
pub struct Ratio {
    pub num: usize,
    pub den: usize,
}

impl View for Ratio {
    type V = Share;

    open spec fn view(&self) -> Share {
        Share { num: self.num as nat, den: self.den as nat }
    }
}

impl Ratio {
    /// Decides whether this share is at most `other`.
    pub fn is_at_most(self, other: Ratio) -> (b: bool)
        ensures
            b == self@.at_most(other@),
    {
        if self.den == 0 {
            return true;
        }
        if other.den == 0 {
            return false;
        }
        let left = wide_product(self.num, other.den);
        let right = wide_product(other.num, self.den);
        left <= right
    }
}

/// The product of two counts, in a type wide enough for it.
fn wide_product(a: usize, b: usize) -> (p: u128)
    ensures
        p == a * b,
{
    assert(a * b <= 0xffff_ffff_ffff_ffff * 0xffff_ffff_ffff_ffff) by (nonlinear_arith)
        requires
            0 <= a <= 0xffff_ffff_ffff_ffff,
            0 <= b <= 0xffff_ffff_ffff_ffff,
    ;
    (a as u128) * (b as u128)
}

} // verus!
