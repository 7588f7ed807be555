//! Bit-level model of packed rows and masks.
//!
//! A row of a chunk is one `u8`, most significant bit first: column 0 is
//! the leftmost cell and lives in bit 7 of the byte. Everything the rest
//! of the crate states about rows goes through [`bit`], and the lemmas
//! here are the only bit-vector reasoning in the crate.

use vstd::prelude::*;

verus! {

/// True when column `n` (0 = leftmost, held in the most significant bit)
/// of the packed row is set.
pub open spec fn bit(row: u8, n: u8) -> bool
    recommends
        n < 8,
{
    row & (128u8 >> n) != 0
}

/// Setting one column leaves every other column alone.
pub proof fn lemma_bit_or_mask(b: u8, n: u8, m: u8)
    by (bit_vector)
    requires
        n < 8,
        m < 8,
    ensures
        bit(b | (128u8 >> n), m) == (m == n || bit(b, m)),
{
}

/// Clearing one column leaves every other column alone.
pub proof fn lemma_bit_and_not_mask(b: u8, n: u8, m: u8)
    by (bit_vector)
    requires
        n < 8,
        m < 8,
    ensures
        bit(b & !(128u8 >> n), m) == (m != n && bit(b, m)),
{
}

/// Flipping one column leaves every other column alone.
pub proof fn lemma_bit_xor_mask(b: u8, n: u8, m: u8)
    by (bit_vector)
    requires
        n < 8,
        m < 8,
    ensures
        bit(b ^ (128u8 >> n), m) == (if m == n {
            !bit(b, m)
        } else {
            bit(b, m)
        }),
{
}

/// A row is zero exactly when none of its eight columns is set.
pub proof fn lemma_row_zero(b: u8)
    by (bit_vector)
    ensures
        (b == 0) <==> (!bit(b, 0) && !bit(b, 1) && !bit(b, 2) && !bit(b, 3) && !bit(b, 4)
            && !bit(b, 5) && !bit(b, 6) && !bit(b, 7)),
{
}

/// Two rows that agree on all eight columns are the same byte.
pub proof fn lemma_row_ext(a: u8, b: u8)
    by (bit_vector)
    requires
        bit(a, 0) == bit(b, 0),
        bit(a, 1) == bit(b, 1),
        bit(a, 2) == bit(b, 2),
        bit(a, 3) == bit(b, 3),
        bit(a, 4) == bit(b, 4),
        bit(a, 5) == bit(b, 5),
        bit(a, 6) == bit(b, 6),
        bit(a, 7) == bit(b, 7),
    ensures
        a == b,
{
}

/// No column of the zero row is set.
pub proof fn lemma_bit_zero(m: u8)
    by (bit_vector)
    ensures
        !bit(0u8, m),
{
}

/// A row is nonzero exactly when some column in range is set.
pub proof fn lemma_row_nonzero(b: u8)
    ensures
        (b != 0) <==> (exists|m: u8| m < 8 && bit(b, m)),
{
    if b != 0 {
        lemma_row_zero(b);
        assert(exists|m: u8| m < 8 && bit(b, m)) by {
            if bit(b, 0) {
                assert(0u8 < 8 && bit(b, 0));
            } else if bit(b, 1) {
                assert(1u8 < 8 && bit(b, 1));
            } else if bit(b, 2) {
                assert(2u8 < 8 && bit(b, 2));
            } else if bit(b, 3) {
                assert(3u8 < 8 && bit(b, 3));
            } else if bit(b, 4) {
                assert(4u8 < 8 && bit(b, 4));
            } else if bit(b, 5) {
                assert(5u8 < 8 && bit(b, 5));
            } else if bit(b, 6) {
                assert(6u8 < 8 && bit(b, 6));
            } else {
                assert(7u8 < 8 && bit(b, 7));
            }
        }
    }
    if exists|m: u8| m < 8 && bit(b, m) {
        let m = choose|m: u8| m < 8 && bit(b, m);
        assert(b != 0) by (bit_vector)
            requires
                m < 8,
                bit(b, m),
        ;
    }
}

/// Reads column `n` of a packed row; columns count from the left.
pub fn get_bit_at(input: u8, n: u8) -> (r: bool)
    requires
        n < 8,
    ensures
        r == bit(input, n),
{
    input & (128u8 >> n) != 0
}

/// Returns the row with column `n` set, other columns unchanged.
pub fn or_bit(b: u8, n: u8) -> (r: u8)
    requires
        n < 8,
    ensures
        forall|m: u8| m < 8 ==> bit(r, m) == (m == n || bit(b, m)),
{
    let r = b | (128u8 >> n);
    proof {
        assert forall|m: u8| m < 8 implies bit(r, m) == (m == n || bit(b, m)) by {
            lemma_bit_or_mask(b, n, m);
        }
    }
    r
}

/// Returns the row with column `n` cleared, other columns unchanged.
pub fn and_not_bit(b: u8, n: u8) -> (r: u8)
    requires
        n < 8,
    ensures
        forall|m: u8| m < 8 ==> bit(r, m) == (m != n && bit(b, m)),
{
    let r = b & !(128u8 >> n);
    proof {
        assert forall|m: u8| m < 8 implies bit(r, m) == (m != n && bit(b, m)) by {
            lemma_bit_and_not_mask(b, n, m);
        }
    }
    r
}

/// Returns the row with column `n` flipped, other columns unchanged.
pub fn xor_bit(b: u8, n: u8) -> (r: u8)
    requires
        n < 8,
    ensures
        forall|m: u8| m < 8 ==> bit(r, m) == (if m == n {
            !bit(b, m)
        } else {
            bit(b, m)
        }),
        r == b ^ (128u8 >> n),
{
    let r = b ^ (128u8 >> n);
    proof {
        assert forall|m: u8| m < 8 implies bit(r, m) == (if m == n {
            !bit(b, m)
        } else {
            bit(b, m)
        }) by {
            lemma_bit_xor_mask(b, n, m);
        }
    }
    r
}

} // verus!
