//! The closed enumeration of lexical and grammatical categories, and its
//! bidirectional mapping onto the raw integer identities used by the CST
//! layer.

use vstd::prelude::*;

verus! {

/// Every category a tree element can have. The first six are token kinds
/// (leaves), the last three are node kinds (internal).
#[allow(non_camel_case_types)]
#[derive(Clone, Copy, Debug, PartialEq, Eq, Structural, Hash, PartialOrd, Ord)]
pub enum SyntaxKind {
    WHITESPACE,
    NUMBER,
    ADD,
    SUB,
    MUL,
    DIV,
    ROOT,
    OPERATION,
    ERROR,
}

/// The stable integer identity of a kind.
pub open spec fn spec_kind_to_raw(k: SyntaxKind) -> u16 {
    match k {
        SyntaxKind::WHITESPACE => 0,
        SyntaxKind::NUMBER => 1,
        SyntaxKind::ADD => 2,
        SyntaxKind::SUB => 3,
        SyntaxKind::MUL => 4,
        SyntaxKind::DIV => 5,
        SyntaxKind::ROOT => 6,
        SyntaxKind::OPERATION => 7,
        SyntaxKind::ERROR => 8,
    }
}

/// True of exactly the integers that `kind_to_raw` produces.
pub open spec fn is_valid_raw(r: u16) -> bool {
    r <= 8
}

impl SyntaxKind {
    /// The forward conversion: kind to raw integer identity.
    pub fn to_raw(self) -> (r: u16)
        ensures
            r == spec_kind_to_raw(self),
    {
        match self {
            SyntaxKind::WHITESPACE => 0,
            SyntaxKind::NUMBER => 1,
            SyntaxKind::ADD => 2,
            SyntaxKind::SUB => 3,
            SyntaxKind::MUL => 4,
            SyntaxKind::DIV => 5,
            SyntaxKind::ROOT => 6,
            SyntaxKind::OPERATION => 7,
            SyntaxKind::ERROR => 8,
        }
    }

    /// The inverse conversion. It is defined only over identities that the
    /// forward map produces; any other input is a caller error.
    pub fn from_raw(r: u16) -> (k: SyntaxKind)
        requires
            is_valid_raw(r),
        ensures
            spec_kind_to_raw(k) == r,
    {
        if r == 0 {
            SyntaxKind::WHITESPACE
        } else if r == 1 {
            SyntaxKind::NUMBER
        } else if r == 2 {
            SyntaxKind::ADD
        } else if r == 3 {
            SyntaxKind::SUB
        } else if r == 4 {
            SyntaxKind::MUL
        } else if r == 5 {
            SyntaxKind::DIV
        } else if r == 6 {
            SyntaxKind::ROOT
        } else if r == 7 {
            SyntaxKind::OPERATION
        } else {
            SyntaxKind::ERROR
        }
    }
}

/// The two conversions are mutually inverse: raw identities round-trip.
pub proof fn lemma_raw_round_trip(k: SyntaxKind, r: u16)
    ensures
        is_valid_raw(spec_kind_to_raw(k)),
        is_valid_raw(r) ==> exists|k2: SyntaxKind| spec_kind_to_raw(k2) == r,
        forall|k1: SyntaxKind, k2: SyntaxKind|
            spec_kind_to_raw(k1) == spec_kind_to_raw(k2) ==> k1 == k2,
{
    if is_valid_raw(r) {
        let k2 = choose_kind_for(r);
        assert(spec_kind_to_raw(k2) == r);
    }
}

/// The kind whose raw identity is `r`, for a valid `r`.
pub open spec fn choose_kind_for(r: u16) -> SyntaxKind {
    if r == 0 {
        SyntaxKind::WHITESPACE
    } else if r == 1 {
        SyntaxKind::NUMBER
    } else if r == 2 {
        SyntaxKind::ADD
    } else if r == 3 {
        SyntaxKind::SUB
    } else if r == 4 {
        SyntaxKind::MUL
    } else if r == 5 {
        SyntaxKind::DIV
    } else if r == 6 {
        SyntaxKind::ROOT
    } else if r == 7 {
        SyntaxKind::OPERATION
    } else {
        SyntaxKind::ERROR
    }
}

} // verus!
