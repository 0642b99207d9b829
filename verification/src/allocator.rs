//! Shared ground for the two allocator tiers: alignment arithmetic, the
//! `Layout` of an allocation request, and the footprint of the free-list
//! node header that the linked-list tier writes into free memory.
use vstd::arithmetic::div_mod::{
    lemma_fundamental_div_mod, lemma_mod_division_less_than_divisor, lemma_mod_multiples_basic,
    lemma_mod_self_0, lemma_small_mod,
};
use vstd::prelude::*;

pub mod fixed_size_block;
pub mod linked_list;

verus! {

/// Byte size of the header record the linked-list tier embeds at the start
/// of every free region: a byte length plus an optional reference to the
/// next free node, 16 bytes on a 64-bit target.
pub const HEADER_SIZE: usize = 16;

/// Required alignment of that header record (one machine word).
pub const HEADER_ALIGN: usize = 8;

/// Mathematical "n is a power of two" (1, 2, 4, 8, ...).
pub open spec fn is_power_of_two(n: int) -> bool
    decreases n,
{
    if n <= 0 {
        false
    } else if n == 1 {
        true
    } else {
        n % 2 == 0 && is_power_of_two(n / 2)
    }
}

/// `addr` rounded up to the next multiple of `align`.
pub open spec fn align_up_spec(addr: int, align: int) -> int
    recommends
        align >= 1,
{
    addr + (align - addr % align) % align
}

/// Rounding up to a multiple of `align` moves an address forward by less
/// than `align` and lands on a multiple of `align`; an already aligned
/// address stays put.
pub proof fn lemma_align_up(addr: int, align: int)
    requires
        0 <= addr,
        1 <= align,
    ensures
        addr <= align_up_spec(addr, align) < addr + align,
        align_up_spec(addr, align) % align == 0,
        addr % align == 0 ==> align_up_spec(addr, align) == addr,
{
    let r = addr % align;
    let q = addr / align;
    lemma_mod_division_less_than_divisor(addr, align);
    lemma_fundamental_div_mod(addr, align);
    if r == 0 {
        lemma_mod_self_0(align);
        assert(align_up_spec(addr, align) == addr);
        assert(addr == q * align) by (nonlinear_arith)
            requires
                addr == align * q + 0,
        ;
        lemma_mod_multiples_basic(q, align);
    } else {
        lemma_small_mod((align - r) as nat, align as nat);
        assert(align_up_spec(addr, align) == addr + align - r);
        assert(addr + align - r == (q + 1) * align) by (nonlinear_arith)
            requires
                addr == align * q + r,
        ;
        lemma_mod_multiples_basic(q + 1, align);
    }
}

/// If `a` divides `x` and `b` divides `a`, then `b` divides `x`.
pub proof fn lemma_mod_transitive(x: int, a: int, b: int)
    requires
        1 <= a,
        1 <= b,
        x % a == 0,
        a % b == 0,
    ensures
        x % b == 0,
{
    lemma_fundamental_div_mod(x, a);
    lemma_fundamental_div_mod(a, b);
    let k = x / a;
    let m = a / b;
    assert(x == (b * m) * k);
    assert((b * m) * k == (m * k) * b) by (nonlinear_arith);
    lemma_mod_multiples_basic(m * k, b);
}

/// A power of two is at least 1.
pub proof fn lemma_pow2_pos(a: int)
    requires
        is_power_of_two(a),
    ensures
        a >= 1,
{
}

/// The smaller of two powers of two divides the larger.
pub proof fn lemma_pow2_divides(a: int, b: int)
    requires
        is_power_of_two(a),
        is_power_of_two(b),
        a <= b,
    ensures
        b % a == 0,
    decreases b,
{
    if a == b {
        lemma_mod_self_0(a);
    } else {
        assert(b % 2 == 0 && is_power_of_two(b / 2));
        assert(a < b);
        assert(a <= b / 2) by {
            if a > b / 2 {
                // a and b/2 are powers of two with b/2 < a < b = 2*(b/2);
                // show this is impossible: a would be a multiple of b/2
                // strictly between b/2 and 2*(b/2).
                lemma_pow2_divides_helper(b / 2, a);
            }
        }
        lemma_pow2_divides(a, b / 2);
        // b == 2 * (b / 2), and a divides b / 2.
        lemma_fundamental_div_mod(b / 2, a);
        let k = (b / 2) / a;
        assert(b == 2 * (a * k));
        assert(2 * (a * k) == (2 * k) * a) by (nonlinear_arith);
        lemma_mod_multiples_basic(2 * k, a);
    }
}

/// No power of two lies strictly between a power of two `p` and `2 * p`.
proof fn lemma_pow2_divides_helper(p: int, a: int)
    requires
        is_power_of_two(p),
        is_power_of_two(a),
        p < a,
    ensures
        a >= 2 * p,
    decreases a,
{
    if p == 1 {
        assert(a % 2 == 0);
    } else {
        assert(a % 2 == 0 && is_power_of_two(a / 2));
        lemma_pow2_divides_helper(p / 2, a / 2);
    }
}

/// A (size, alignment) pair describing an allocation request, the shape the
/// global allocation entrypoints receive from every kernel component.
#[derive(Debug, Clone, Copy, PartialEq, Eq, Structural)]
pub struct Layout {
    pub size: usize,
    pub align: usize,
}

impl Layout {
    /// What every well-formed request satisfies: the alignment is a power
    /// of two and the size, rounded up to that alignment, stays within an
    /// `isize` (the contract of the language's layout type).
    pub open spec fn wf(self) -> bool {
        &&& is_power_of_two(self.align as int)
        &&& align_up_spec(self.size as int, self.align as int) <= isize::MAX as int
    }

    /// Builds a well-formed layout, rejecting exactly the (size, align)
    /// pairs that break `wf`.
    pub fn from_size_align(size: usize, align: usize) -> (r: Option<Layout>)
        ensures
            match r {
                Some(l) => l.size == size && l.align == align && l.wf(),
                None => !(Layout { size, align }).wf(),
            },
    {
        if !power_of_two(align) {
            return None;
        }
        proof {
            lemma_align_up(size as int, align as int);
        }
        let rem = size % align;
        let rounded = if rem == 0 {
            size
        } else {
            proof {
                lemma_small_mod((align - rem) as nat, align as nat);
            }
            match size.checked_add(align - rem) {
                Some(s) => s,
                None => {
                    return None;
                },
            }
        };
        if rounded <= (isize::MAX as usize) {
            Some(Layout { size, align })
        } else {
            None
        }
    }
}

/// Executable power-of-two test, agreeing with `is_power_of_two`.
pub fn power_of_two(n: usize) -> (b: bool)
    ensures
        b == is_power_of_two(n as int),
{
    if n == 0 {
        return false;
    }
    let mut m: usize = n;
    while m % 2 == 0
        invariant
            1 <= m,
            is_power_of_two(n as int) == is_power_of_two(m as int),
        decreases m,
    {
        m = m / 2;
    }
    m == 1
}

/// `addr` rounded up to the next multiple of `align`, when that stays
/// within the address space.
pub fn align_up(addr: usize, align: usize) -> (r: usize)
    requires
        1 <= align,
        align_up_spec(addr as int, align as int) <= usize::MAX as int,
    ensures
        r as int == align_up_spec(addr as int, align as int),
{
    let rem = addr % align;
    if rem == 0 {
        proof {
            lemma_mod_self_0(align as int);
        }
        addr
    } else {
        proof {
            lemma_small_mod((align - rem) as nat, align as nat);
        }
        addr + (align - rem)
    }
}

} // verus!
