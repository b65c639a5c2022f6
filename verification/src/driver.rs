//! Selection of the key representation and hash function.
//!
//! The operator chooses one representation and one hash function through
//! mutually exclusive switches; with no switch set, the dynamic bit vector
//! and the FNV hasher are the defaults.  The rules below decide the choice
//! from the raw switch values and reject conflicting combinations.

use vstd::prelude::*;

verus! {

/// The key representation to expand with.
#[derive(Clone, Copy, Debug, PartialEq, Eq, Structural)]
pub enum Representation {
    ValueSequence,
    HashOnly,
    Bitmask,
    BitVector,
}

/// The hash function to run the deduplicating store with.  A performance
/// knob, except in the hash-only representation, where the digest itself is
/// the key.
#[derive(Clone, Copy, Debug, PartialEq, Eq, Structural)]
pub enum Hashing {
    Fnv,
    Fx,
    Std,
    AHash,
}

/// Which representation a combination of switches selects, if any.
pub open spec fn representation_of(
    vec_expander: bool,
    hash_only_expander: bool,
    bit_vec_expander: bool,
    bit_man_expander: bool,
) -> Option<Representation> {
    if vec_expander && !hash_only_expander && !bit_vec_expander && !bit_man_expander {
        Some(Representation::ValueSequence)
    } else if !vec_expander && hash_only_expander && !bit_vec_expander && !bit_man_expander {
        Some(Representation::HashOnly)
    } else if !vec_expander && !hash_only_expander && !bit_man_expander {
        Some(Representation::BitVector)
    } else if !vec_expander && !hash_only_expander && !bit_vec_expander && bit_man_expander {
        Some(Representation::Bitmask)
    } else {
        None
    }
}

/// Which hash function a combination of switches selects, if any.
pub open spec fn hashing_of(
    fnv_hasher: bool,
    fx_hasher: bool,
    std_hasher: bool,
    aes_hasher: bool,
) -> Option<Hashing> {
    if !fx_hasher && !std_hasher && !aes_hasher {
        Some(Hashing::Fnv)
    } else if !fnv_hasher && fx_hasher && !std_hasher && !aes_hasher {
        Some(Hashing::Fx)
    } else if !fnv_hasher && !fx_hasher && std_hasher && !aes_hasher {
        Some(Hashing::Std)
    } else if !fnv_hasher && !fx_hasher && !std_hasher && aes_hasher {
        Some(Hashing::AHash)
    } else {
        None
    }
}

/// Decide the representation and hash function from the raw switch values:
/// the choice both switch groups select, or nothing when either group holds
/// a conflicting combination.
pub fn select_strategy(
    vec_expander: bool,
    hash_only_expander: bool,
    bit_vec_expander: bool,
    bit_man_expander: bool,
    fnv_hasher: bool,
    fx_hasher: bool,
    std_hasher: bool,
    aes_hasher: bool,
) -> (r: Option<(Representation, Hashing)>)
    ensures
        ({
            let rep = representation_of(
                vec_expander,
                hash_only_expander,
                bit_vec_expander,
                bit_man_expander,
            );
            let hash = hashing_of(fnv_hasher, fx_hasher, std_hasher, aes_hasher);
            match r {
                Some(choice) => rep == Some(choice.0) && hash == Some(choice.1),
                None => rep is None || hash is None,
            }
        }),
{
    let rep: Option<Representation> = if vec_expander && !hash_only_expander && !bit_vec_expander
        && !bit_man_expander {
        Some(Representation::ValueSequence)
    } else if !vec_expander && hash_only_expander && !bit_vec_expander && !bit_man_expander {
        Some(Representation::HashOnly)
    } else if !vec_expander && !hash_only_expander && !bit_man_expander {
        Some(Representation::BitVector)
    } else if !vec_expander && !hash_only_expander && !bit_vec_expander && bit_man_expander {
        Some(Representation::Bitmask)
    } else {
        None
    };
    let hash: Option<Hashing> = if !fx_hasher && !std_hasher && !aes_hasher {
        Some(Hashing::Fnv)
    } else if !fnv_hasher && fx_hasher && !std_hasher && !aes_hasher {
        Some(Hashing::Fx)
    } else if !fnv_hasher && !fx_hasher && std_hasher && !aes_hasher {
        Some(Hashing::Std)
    } else if !fnv_hasher && !fx_hasher && !std_hasher && aes_hasher {
        Some(Hashing::AHash)
    } else {
        None
    };
    match (rep, hash) {
        (Some(r0), Some(h0)) => Some((r0, h0)),
        _ => None,
    }
}

} // verus!
