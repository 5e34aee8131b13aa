//! Nesting levels.
//!
//! The Objective-C runtime renders the same encoding differently depending
//! on how deeply it is nested inside other encodings: at the top level (and
//! directly inside an array) a struct or union is written with its full
//! field list, while inside another container, or behind more than one
//! pointer, only its name is written. Every piece of code that walks an
//! encoding (the formatter and both comparators) consults the same level
//! transitions defined here, which keeps their notions of "expanded" and
//! "opaque" in agreement.

use vstd::prelude::*;

verus! {

/// How deeply a sub-encoding sits inside compound encodings.
#[derive(Clone, Copy, Debug, PartialEq, Eq, Hash, Structural)]
pub enum NestingLevel {
    /// Top level: containers are rendered in expanded form.
    Top,
    /// Directly behind the first pointer: containers are still expanded.
    Within,
    /// Anywhere deeper: containers are rendered in opaque form.
    Bottom,
}

/// The two single-child indirections of the grammar.
#[derive(Clone, Copy, Debug, PartialEq, Eq, Hash, Structural)]
pub enum IndirectionKind {
    /// A pointer, written `^`.
    Pointer,
    /// An atomic, written `A`.
    Atomic,
}

/// The two container kinds of the grammar.
#[derive(Clone, Copy, Debug, PartialEq, Eq, Hash, Structural)]
pub enum ContainerKind {
    /// A struct, written `{name=fields}`.
    Struct,
    /// A union, written `(name=fields)`.
    Union,
}

impl ContainerKind {
    /// The byte that opens this container.
    pub open spec fn spec_start_byte(self) -> u8 {
        match self {
            ContainerKind::Struct => 123u8,
            ContainerKind::Union => 40u8,
        }
    }

    /// The byte that closes this container.
    pub open spec fn spec_end_byte(self) -> u8 {
        match self {
            ContainerKind::Struct => 125u8,
            ContainerKind::Union => 41u8,
        }
    }

    #[verifier::when_used_as_spec(spec_start_byte)]
    pub fn start_byte(self) -> (r: u8)
        ensures
            r == self.spec_start_byte(),
    {
        match self {
            ContainerKind::Struct => 123u8,
            ContainerKind::Union => 40u8,
        }
    }

    #[verifier::when_used_as_spec(spec_end_byte)]
    pub fn end_byte(self) -> (r: u8)
        ensures
            r == self.spec_end_byte(),
    {
        match self {
            ContainerKind::Struct => 125u8,
            ContainerKind::Union => 41u8,
        }
    }
}

impl ContainerKind {
    /// The kind's name in error messages.
    pub open spec fn spec_chars(self) -> Seq<char> {
        match self {
            ContainerKind::Struct => "struct"@,
            ContainerKind::Union => "union"@,
        }
    }

    /// The kind's name in error messages.
    pub fn as_str(self) -> (r: &'static str)
        ensures
            r@ == self.spec_chars(),
    {
        match self {
            ContainerKind::Struct => "struct",
            ContainerKind::Union => "union",
        }
    }
}

impl IndirectionKind {
    /// The byte that introduces this indirection.
    pub open spec fn spec_prefix_byte(self) -> u8 {
        match self {
            IndirectionKind::Pointer => 94u8,
            IndirectionKind::Atomic => 65u8,
        }
    }

    #[verifier::when_used_as_spec(spec_prefix_byte)]
    pub fn prefix_byte(self) -> (r: u8)
        ensures
            r == self.spec_prefix_byte(),
    {
        match self {
            IndirectionKind::Pointer => 94u8,
            IndirectionKind::Atomic => 65u8,
        }
    }
}

impl NestingLevel {
    /// The level at which a fresh walk of an encoding starts.
    pub open spec fn spec_new() -> NestingLevel {
        NestingLevel::Top
    }

    #[verifier::when_used_as_spec(spec_new)]
    pub fn new() -> (r: NestingLevel)
        ensures
            r == NestingLevel::spec_new(),
    {
        NestingLevel::Top
    }

    /// The level of the element of a bit-field: bit-fields contain only
    /// integral kinds, so the level is left unchanged.
    pub open spec fn spec_bitfield(self) -> NestingLevel {
        self
    }

    #[verifier::when_used_as_spec(spec_bitfield)]
    pub fn bitfield(self) -> (r: NestingLevel)
        ensures
            r == self.spec_bitfield(),
    {
        self
    }

    /// The level of the target of an indirection. The first pointer
    /// preserves expansion; anything beyond it, and any atomic, collapses
    /// containers to their opaque form.
    pub open spec fn spec_indirection(self, kind: IndirectionKind) -> NestingLevel {
        match kind {
            IndirectionKind::Atomic => NestingLevel::Bottom,
            IndirectionKind::Pointer => match self {
                NestingLevel::Top => NestingLevel::Within,
                NestingLevel::Within => NestingLevel::Bottom,
                NestingLevel::Bottom => NestingLevel::Bottom,
            },
        }
    }

    #[verifier::when_used_as_spec(spec_indirection)]
    pub fn indirection(self, kind: IndirectionKind) -> (r: NestingLevel)
        ensures
            r == self.spec_indirection(kind),
    {
        match kind {
            IndirectionKind::Atomic => NestingLevel::Bottom,
            IndirectionKind::Pointer => match self {
                NestingLevel::Top => NestingLevel::Within,
                NestingLevel::Within => NestingLevel::Bottom,
                NestingLevel::Bottom => NestingLevel::Bottom,
            },
        }
    }

    /// The level of the element of an array: arrays are transparent to
    /// nesting, so the level is left unchanged.
    pub open spec fn spec_array(self) -> NestingLevel {
        self
    }

    #[verifier::when_used_as_spec(spec_array)]
    pub fn array(self) -> (r: NestingLevel)
        ensures
            r == self.spec_array(),
    {
        self
    }

    /// Whether a container at this level is rendered with its field list.
    pub open spec fn spec_include_fields(self) -> bool {
        match self {
            NestingLevel::Top => true,
            NestingLevel::Within => true,
            NestingLevel::Bottom => false,
        }
    }

    #[verifier::when_used_as_spec(spec_include_fields)]
    pub fn include_fields(self) -> (r: bool)
        ensures
            r == self.spec_include_fields(),
    {
        match self {
            NestingLevel::Top => true,
            NestingLevel::Within => true,
            NestingLevel::Bottom => false,
        }
    }

    /// The level at which the fields of a container are rendered when the
    /// container is expanded.
    pub open spec fn spec_field_level(self) -> NestingLevel {
        NestingLevel::Bottom
    }

    #[verifier::when_used_as_spec(spec_field_level)]
    pub fn field_level(self) -> (r: NestingLevel)
        ensures
            r == self.spec_field_level(),
    {
        NestingLevel::Bottom
    }
}

} // verus!
