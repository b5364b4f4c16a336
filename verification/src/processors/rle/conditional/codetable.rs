//! # Code table
//!
//! The codes of a fixed bit width and the ranks that they stand for. With
//! a width of `bits` there are two to the power of `bits` codes, the
//! lowest byte values, and as many ranks have a code. A rank and its code
//! are the same number, so that the most frequent symbols of a context
//! are written as the lowest values.
use vstd::prelude::*;

verus! {

/// The number of codes of a width: two to the power of `bits`.
pub open spec fn code_limit(bits: nat) -> nat
    decreases bits,
{
    if bits == 0 {
        1
    } else {
        2 * code_limit((bits - 1) as nat)
    }
}

/// The code of `rank`, where it has one.
pub open spec fn code_of(bits: nat, rank: nat) -> Option<u8> {
    if rank < code_limit(bits) {
        Some(rank as u8)
    } else {
        None
    }
}

/// The rank that `code` stands for, where it is a code.
pub open spec fn rank_of_code(bits: nat, code: u8) -> Option<nat> {
    if code < code_limit(bits) {
        Some(code as nat)
    } else {
        None
    }
}

/// The widths up to eight bits and their numbers of codes.
pub proof fn lemma_code_limit(bits: nat)
    requires
        bits <= 8,
    ensures
        1 <= code_limit(bits) <= 256,
        bits == 8 ==> code_limit(bits) == 256,
        bits >= 1 ==> code_limit(bits) >= 2,
{
    reveal_with_fuel(code_limit, 10);
}

/// Codes and ranks are a bijection: the code of a rank stands for that
/// rank, and the rank of a code has that code.
pub proof fn lemma_code_bijection(bits: nat)
    requires
        bits <= 8,
    ensures
        forall|rank: nat| #[trigger]
            code_of(bits, rank) matches Some(code) ==> rank_of_code(bits, code) == Some(rank),
        forall|code: u8| #[trigger]
            rank_of_code(bits, code) matches Some(rank) ==> code_of(bits, rank) == Some(code),
        forall|rank: nat| code_of(bits, rank) is Some <==> rank < code_limit(bits),
        forall|code: u8| rank_of_code(bits, code) is Some <==> code < code_limit(bits),
{
    lemma_code_limit(bits);
}

/// A table of the codes of one bit width.
#[derive(Debug)]
pub struct CodeTable {
    bits: usize,
    limit: usize,
}

impl View for CodeTable {
    type V = nat;

    /// The bit width.
    closed spec fn view(&self) -> nat {
        self.bits as nat
    }
}

impl CodeTable {
    /// The width is between one and eight bits, and the number of codes
    /// goes with it.
    #[verifier::type_invariant]
    spec fn well_formed(self) -> bool {
        &&& 1 <= self.bits <= 8
        &&& self.limit == code_limit(self.bits as nat)
    }

    /// The table of the full width of a byte.
    pub fn new() -> (r: Self)
        ensures
            r@ == 8,
    {
        Self::with_bitlength(8)
    }

    /// The table of the width `length`.
    pub fn with_bitlength(length: usize) -> (r: Self)
        requires
            0 < length <= 8,
        ensures
            r@ == length,
    {
        let mut limit: usize = 1;
        let mut i: usize = 0;
        while i < length
            invariant
                i <= length <= 8,
                limit == code_limit(i as nat),
            decreases length - i,
        {
            proof {
                lemma_code_limit(i as nat);
            }
            limit = 2 * limit;
            i += 1;
        }
        CodeTable { bits: length, limit }
    }

    /// The bit width.
    pub fn bitlength(&self) -> (r: usize)
        ensures
            r == self@,
            1 <= r <= 8,
    {
        proof {
            use_type_invariant(self);
        }
        self.bits
    }

    /// The code of `rank`, where it has one.
    pub fn encode(&self, rank: usize) -> (r: Option<u8>)
        ensures
            r == code_of(self@, rank as nat),
    {
        proof {
            use_type_invariant(self);
            lemma_code_limit(self.bits as nat);
        }
        if rank < self.limit {
            Some(rank as u8)
        } else {
            None
        }
    }

    /// The rank that `code` stands for, where it is a code.
    pub fn decode(&self, code: u8) -> (r: Option<usize>)
        ensures
            match r {
                Some(rank) => rank_of_code(self@, code) == Some(rank as nat),
                None => rank_of_code(self@, code) is None,
            },
    {
        proof {
            use_type_invariant(self);
        }
        if (code as usize) < self.limit {
            Some(code as usize)
        } else {
            None
        }
    }
}

} // verus!
