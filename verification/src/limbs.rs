//! Natural numbers of any size, written in limbs of 64 bits, lowest limb
//! first: what it takes to add fractions without rounding.

use vstd::prelude::*;

verus! {

/// The weight of the limb at position `k`: the `k`-th power of two to the
/// sixty-fourth.
pub open spec fn radix(k: nat) -> int
    decreases k,
{
    if k == 0 {
        1
    } else {
        0x1_0000_0000_0000_0000 * radix((k - 1) as nat)
    }
}

/// The number that the limbs write.
pub open spec fn value(limbs: Seq<u64>) -> int
    decreases limbs.len(),
{
    if limbs.len() == 0 {
        0
    } else {
        value(limbs.drop_last()) + limbs.last() * radix((limbs.len() - 1) as nat)
    }
}

/// Every limb has a weight.
pub proof fn lemma_radix_positive(k: nat)
    ensures
        radix(k) > 0,
    decreases k,
{
    if k > 0 {
        lemma_radix_positive((k - 1) as nat);
    }
}

/// A number of so many limbs is below the weight of the next limb.
pub proof fn lemma_value_bound(limbs: Seq<u64>)
    ensures
        0 <= value(limbs) < radix(limbs.len()),
    decreases limbs.len(),
{
    lemma_radix_positive(limbs.len());
    if limbs.len() > 0 {
        lemma_value_bound(limbs.drop_last());
        let r = radix((limbs.len() - 1) as nat);
        assert(0 <= limbs.last() * r) by (nonlinear_arith)
            requires
                limbs.last() >= 0,
                r >= 0,
        ;
        assert(limbs.last() * r <= 0xffff_ffff_ffff_ffff * r) by (nonlinear_arith)
            requires
                limbs.last() <= 0xffff_ffff_ffff_ffff,
                r >= 0,
        ;
    }
}

/// One more limb adds its value times its weight.
pub proof fn lemma_value_push(limbs: Seq<u64>, limb: u64)
    ensures
        value(limbs.push(limb)) == value(limbs) + limb * radix(limbs.len()),
{
    assert(limbs.push(limb).drop_last() =~= limbs);
}

/// The first limbs of a number and one more: the limb adds its value times
/// its weight.
proof fn lemma_take_step(a: Seq<u64>, i: int)
    requires
        0 <= i < a.len(),
    ensures
        value(a.take(i + 1)) == value(a.take(i)) + a[i] * radix(i as nat),
{
    assert(a.take(i + 1).drop_last() =~= a.take(i));
}

/// Returns the product of the number `a` and `m`, in one limb more than
/// `a` has.
pub fn times(a: &Vec<u64>, m: u64) -> (r: Vec<u64>)
    ensures
        r@.len() == a@.len() + 1,
        value(r@) == value(a@) * m,
{
    let mut out: Vec<u64> = Vec::new();
    let mut carry: u64 = 0;
    let mut i: usize = 0;
    proof {
        assert(a@.take(0) =~= Seq::<u64>::empty());
        assert(0 * radix(0) == 0);
        assert(0 * (m as int) == 0);
    }
    while i < a.len()
        invariant
            i <= a@.len(),
            out@.len() == i,
            value(out@) + carry * radix(i as nat) == value(a@.take(i as int)) * m,
        decreases a@.len() - i,
    {
        let limb = a[i];
        assert(limb * m + carry <= 0xffff_ffff_ffff_ffff * 0xffff_ffff_ffff_ffff
            + 0xffff_ffff_ffff_ffff) by (nonlinear_arith)
            requires
                0 <= limb <= 0xffff_ffff_ffff_ffff,
                0 <= m <= 0xffff_ffff_ffff_ffff,
                0 <= carry <= 0xffff_ffff_ffff_ffff,
        ;
        let t: u128 = (limb as u128) * (m as u128) + (carry as u128);
        let low: u64 = (t % 0x1_0000_0000_0000_0000) as u64;
        let high: u64 = (t / 0x1_0000_0000_0000_0000) as u64;
        proof {
            let r = radix(i as nat);
            let before = value(a@.take(i as int));
            let done = value(out@);
            lemma_take_step(a@, i as int);
            lemma_value_push(out@, low);
            assert(radix((i + 1) as nat) == 0x1_0000_0000_0000_0000 * r);
            assert(done + low * r + high * (0x1_0000_0000_0000_0000 * r) == (before + limb * r)
                * m) by (nonlinear_arith)
                requires
                    done + carry * r == before * m,
                    limb * m + carry == low + high * 0x1_0000_0000_0000_0000,
            ;
        }
        out.push(low);
        carry = high;
        i += 1;
    }
    proof {
        assert(a@.take(i as int) =~= a@);
        lemma_value_push(out@, carry);
    }
    out.push(carry);
    out
}

/// Returns the sum of the numbers `a` and `b`, which have as many limbs as
/// each other, in one limb more.
pub fn plus(a: &Vec<u64>, b: &Vec<u64>) -> (r: Vec<u64>)
    requires
        a@.len() == b@.len(),
    ensures
        r@.len() == a@.len() + 1,
        value(r@) == value(a@) + value(b@),
{
    let mut out: Vec<u64> = Vec::new();
    let mut carry: u64 = 0;
    let mut i: usize = 0;
    proof {
        assert(a@.take(0) =~= Seq::<u64>::empty());
        assert(b@.take(0) =~= Seq::<u64>::empty());
        assert(0 * radix(0) == 0);
    }
    while i < a.len()
        invariant
            i <= a@.len(),
            a@.len() == b@.len(),
            out@.len() == i,
            carry <= 1,
            value(out@) + carry * radix(i as nat) == value(a@.take(i as int)) + value(
                b@.take(i as int),
            ),
        decreases a@.len() - i,
    {
        let x = a[i];
        let y = b[i];
        let t: u128 = (x as u128) + (y as u128) + (carry as u128);
        let low: u64 = (t % 0x1_0000_0000_0000_0000) as u64;
        let high: u64 = (t / 0x1_0000_0000_0000_0000) as u64;
        proof {
            let r = radix(i as nat);
            let done = value(out@);
            let va = value(a@.take(i as int));
            let vb = value(b@.take(i as int));
            lemma_take_step(a@, i as int);
            lemma_take_step(b@, i as int);
            lemma_value_push(out@, low);
            assert(radix((i + 1) as nat) == 0x1_0000_0000_0000_0000 * r);
            assert(done + low * r + high * (0x1_0000_0000_0000_0000 * r) == va + x * r + vb + y
                * r) by (nonlinear_arith)
                requires
                    done + carry * r == va + vb,
                    x + y + carry == low + high * 0x1_0000_0000_0000_0000,
            ;
        }
        out.push(low);
        carry = high;
        i += 1;
    }
    proof {
        assert(a@.take(i as int) =~= a@);
        assert(b@.take(i as int) =~= b@);
        lemma_value_push(out@, carry);
    }
    out.push(carry);
    out
}

/// Returns the number `a` less the number `b`, which has as many limbs as
/// `a`, in as many limbs again; `None` if `b` is the larger.
pub fn minus(a: &Vec<u64>, b: &Vec<u64>) -> (r: Option<Vec<u64>>)
    requires
        a@.len() == b@.len(),
    ensures
        match r {
            Some(d) => d@.len() == a@.len() && value(d@) == value(a@) - value(b@),
            None => value(a@) < value(b@),
        },
{
    let mut out: Vec<u64> = Vec::new();
    let mut borrow: u64 = 0;
    let mut i: usize = 0;
    proof {
        assert(a@.take(0) =~= Seq::<u64>::empty());
        assert(b@.take(0) =~= Seq::<u64>::empty());
        assert(0 * radix(0) == 0);
    }
    while i < a.len()
        invariant
            i <= a@.len(),
            a@.len() == b@.len(),
            out@.len() == i,
            borrow <= 1,
            value(out@) + value(b@.take(i as int)) == value(a@.take(i as int)) + borrow * radix(
                i as nat,
            ),
        decreases a@.len() - i,
    {
        let x = a[i];
        let y = b[i];
        let t: u128 = (x as u128) + 0x1_0000_0000_0000_0000 - (y as u128) - (borrow as u128);
        let low: u64 = (t % 0x1_0000_0000_0000_0000) as u64;
        let next: u64 = if t < 0x1_0000_0000_0000_0000 {
            1
        } else {
            0
        };
        proof {
            let r = radix(i as nat);
            let done = value(out@);
            let va = value(a@.take(i as int));
            let vb = value(b@.take(i as int));
            lemma_take_step(a@, i as int);
            lemma_take_step(b@, i as int);
            lemma_value_push(out@, low);
            assert(radix((i + 1) as nat) == 0x1_0000_0000_0000_0000 * r);
            assert(done + low * r + vb + y * r == va + x * r + next * (0x1_0000_0000_0000_0000
                * r)) by (nonlinear_arith)
                requires
                    done + vb == va + borrow * r,
                    low + y + borrow == x + next * 0x1_0000_0000_0000_0000,
            ;
        }
        out.push(low);
        borrow = next;
        i += 1;
    }
    proof {
        assert(a@.take(i as int) =~= a@);
        assert(b@.take(i as int) =~= b@);
        lemma_value_bound(out@);
        assert(1 * radix(i as nat) == radix(i as nat));
        assert(0 * radix(i as nat) == 0);
    }
    if borrow == 0 {
        Some(out)
    } else {
        None
    }
}

} // verus!
