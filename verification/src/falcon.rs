//! Sizes of the scheme and the shapes of its keys.

use vstd::prelude::*;

verus! {

/// Length in bytes of a signature's header.
pub const HEAD_LEN: usize = 1;

/// Length in bytes of the salt that precedes a signature.
pub const SALT_LEN: usize = 40;

/// Length in bytes of the seed that a keystream generator is made from.
pub const SEED_LEN: usize = 56;

/// The base-two logarithm of a supported ring degree, as a mathematical
/// function: defined for the powers of two from 2 to 1024.
pub open spec fn spec_logn(n: int) -> Option<int> {
    if n == 2 {
        Some(1)
    } else if n == 4 {
        Some(2)
    } else if n == 8 {
        Some(3)
    } else if n == 16 {
        Some(4)
    } else if n == 32 {
        Some(5)
    } else if n == 64 {
        Some(6)
    } else if n == 128 {
        Some(7)
    } else if n == 256 {
        Some(8)
    } else if n == 512 {
        Some(9)
    } else if n == 1024 {
        Some(10)
    } else {
        None
    }
}

/// Base-two logarithm of a ring degree; `None` for anything that is not a
/// power of two between 2 and 1024.
pub fn logn(n: usize) -> (r: Option<usize>)
    ensures
        match r {
            Some(k) => spec_logn(n as int) == Some(k as int),
            None => spec_logn(n as int).is_none(),
        },
{
    match n {
        2 => Some(1),
        4 => Some(2),
        8 => Some(3),
        16 => Some(4),
        32 => Some(5),
        64 => Some(6),
        128 => Some(7),
        256 => Some(8),
        512 => Some(9),
        1024 => Some(10),
        _ => None,
    }
}

/// Public key of the scheme: for now only the ring degree it belongs to.
#[derive(Clone, Debug)]
pub struct PublicKey {
    pub n: usize,
}

/// Secret key of the scheme: for now only the ring degree it belongs to.
#[derive(Clone, Debug)]
pub struct SecretKey {
    pub n: usize,
}

} // verus!
