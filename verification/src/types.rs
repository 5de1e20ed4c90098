//! Common types used across this crate, with meaning not defined within a
//! specific module.

use std::collections::{HashMap, HashSet};
use vstd::prelude::*;

verus! {

/// A set of code point values.
pub type CodePointSet = HashSet<u32>;

/// A mapping from code points to their case-mapped form (uppercase or lowercase
/// as stated in context).
pub type CaseMap = HashMap<u32, u32>;

/// An enum denoting a Rust numeric type.
#[derive(Copy, Clone, PartialEq, Eq, Debug, Structural)]
pub enum NumericType {
    U8,
    U16,
    U32,
}

/// The lowercase and uppercase forms of a code point, with its flags.
pub struct MappedCodePoint {
    pub lower: u32,
    pub upper: u32,
    pub flags: Flags,
}

/// A bit-packed set of boolean properties of a code point.
#[derive(Copy, Clone, Debug, Hash, Eq, PartialEq, Structural)]
pub struct Flags(pub u8);

/// Flag indicating a code point is treated as a JavaScript spacing character.
pub const FLAG_SPACE: u8 = 1 << 0;

/// Flag indicating a code point may appear at the start of an identifier.
pub const FLAG_UNICODE_ID_START: u8 = 1 << 1;

/// Flag indicating a code point may appear in an identifier only after the
/// first code point in the identifier.
pub const FLAG_UNICODE_ID_CONTINUE_ONLY: u8 = 1 << 2;

/// No flag is set where no bit is set.
pub proof fn lemma_no_flags()
    ensures
        !Flags(0).is_space(),
        !Flags(0).is_unicode_id_start(),
        !Flags(0).is_unicode_id_continue_only(),
{
    assert(0u8 & (1u8 << 0) == 0 && 0u8 & (1u8 << 1) == 0 && 0u8 & (1u8 << 2) == 0)
        by (bit_vector);
}

impl Flags {
    /// Whether the spacing bit is set.
    pub open spec fn spec_is_space(&self) -> bool {
        self.0 & FLAG_SPACE != 0
    }

    /// Whether the identifier-start bit is set.
    pub open spec fn spec_is_unicode_id_start(&self) -> bool {
        self.0 & FLAG_UNICODE_ID_START != 0
    }

    /// Whether the identifier-continue-only bit is set.
    pub open spec fn spec_is_unicode_id_continue_only(&self) -> bool {
        self.0 & FLAG_UNICODE_ID_CONTINUE_ONLY != 0
    }

    #[verifier::when_used_as_spec(spec_is_space)]
    pub fn is_space(&self) -> (set: bool)
        ensures
            set == self.spec_is_space(),
    {
        self.0 & FLAG_SPACE != 0
    }

    #[verifier::when_used_as_spec(spec_is_unicode_id_start)]
    pub fn is_unicode_id_start(&self) -> (set: bool)
        ensures
            set == self.spec_is_unicode_id_start(),
    {
        self.0 & FLAG_UNICODE_ID_START != 0
    }

    #[verifier::when_used_as_spec(spec_is_unicode_id_continue_only)]
    pub fn is_unicode_id_continue_only(&self) -> (set: bool)
        ensures
            set == self.spec_is_unicode_id_continue_only(),
    {
        self.0 & FLAG_UNICODE_ID_CONTINUE_ONLY != 0
    }

    /// Sets the spacing bit and leaves every other bit as it was.
    pub fn set_space(&mut self)
        ensures
            final(self).0 == old(self).0 | FLAG_SPACE,
            final(self).is_space(),
            final(self).is_unicode_id_start() == old(self).is_unicode_id_start(),
            final(self).is_unicode_id_continue_only() == old(self).is_unicode_id_continue_only(),
    {
        let bits: u8 = self.0;
        assert((bits | 1u8) & 1u8 != 0 && (bits | 1u8) & 2u8 == bits & 2u8 && (bits | 1u8) & 4u8
            == bits & 4u8) by (bit_vector);
        assert(1u8 << 0 == 1u8 && 1u8 << 1 == 2u8 && 1u8 << 2 == 4u8) by (bit_vector);
        self.0 = bits | FLAG_SPACE;
    }

    /// Sets the identifier-start bit and leaves every other bit as it was.
    pub fn set_unicode_id_start(&mut self)
        ensures
            final(self).0 == old(self).0 | FLAG_UNICODE_ID_START,
            final(self).is_unicode_id_start(),
            final(self).is_space() == old(self).is_space(),
            final(self).is_unicode_id_continue_only() == old(self).is_unicode_id_continue_only(),
    {
        let bits: u8 = self.0;
        assert((bits | 2u8) & 2u8 != 0 && (bits | 2u8) & 1u8 == bits & 1u8 && (bits | 2u8) & 4u8
            == bits & 4u8) by (bit_vector);
        assert(1u8 << 0 == 1u8 && 1u8 << 1 == 2u8 && 1u8 << 2 == 4u8) by (bit_vector);
        self.0 = bits | FLAG_UNICODE_ID_START;
    }

    /// Sets the identifier-continue-only bit and leaves every other bit as it
    /// was.
    pub fn set_unicode_id_continue_only(&mut self)
        ensures
            final(self).0 == old(self).0 | FLAG_UNICODE_ID_CONTINUE_ONLY,
            final(self).is_unicode_id_continue_only(),
            final(self).is_space() == old(self).is_space(),
            final(self).is_unicode_id_start() == old(self).is_unicode_id_start(),
    {
        let bits: u8 = self.0;
        assert((bits | 4u8) & 4u8 != 0 && (bits | 4u8) & 1u8 == bits & 1u8 && (bits | 4u8) & 2u8
            == bits & 2u8) by (bit_vector);
        assert(1u8 << 0 == 1u8 && 1u8 << 1 == 2u8 && 1u8 << 2 == 4u8) by (bit_vector);
        self.0 = bits | FLAG_UNICODE_ID_CONTINUE_ONLY;
    }
}

} // verus!
