//! The configuration record fixed at store creation: query component
//! positions, reserved sentinel ids, visitor control codes, and the id
//! ranges the store recognises.

use vstd::prelude::*;

verus! {

/// An inclusive pair of ids `(lo, hi)` bounding a region of the id space.
#[derive(Clone, Copy, PartialEq, Eq, Structural, Debug)]
pub struct LinkRange(pub u32, pub u32);

/// Configuration of a store. The three `_part` fields give the positions
/// of the components of a query triple; `null` denotes absence; `any` is
/// the query wildcard; `itself` asks `update` to store the link's own id;
/// the three `_code` fields are visitor control codes; `internal_range`
/// bounds the ids that occupy slots, and `external_range`, when present,
/// bounds ids that are stored as opaque references only.
#[derive(Clone, Copy, Debug)]
pub struct LinksConstants {
    pub index_part: u32,
    pub source_part: u32,
    pub target_part: u32,
    pub break_code: u32,
    pub null: u32,
    pub continue_code: u32,
    pub skip_code: u32,
    pub any: u32,
    pub itself: u32,
    pub internal_range: LinkRange,
    pub external_range: Option<LinkRange>,
}

/// The configuration `full_new` builds: the reserved ids sit at the top
/// of the given internal space, and the usable internal range ends six
/// below its stated end, leaving the reserved values outside it.
pub open spec fn full_spec(
    target_part: u32,
    internal: LinkRange,
    external: Option<LinkRange>,
) -> LinksConstants
    recommends
        internal.1 >= 6,
{
    LinksConstants {
        index_part: 0,
        source_part: 1,
        target_part: target_part,
        break_code: (internal.1 - 1) as u32,
        null: 0,
        continue_code: internal.1,
        skip_code: (internal.1 - 2) as u32,
        any: (internal.1 - 3) as u32,
        itself: (internal.1 - 4) as u32,
        internal_range: LinkRange(internal.0, (internal.1 - 6) as u32),
        external_range: external,
    }
}

impl LinksConstants {
    /// Fully specified configuration: explicit target position and ranges.
    pub fn full_new(target_part: u32, internal: LinkRange, external: Option<LinkRange>) -> (c:
        LinksConstants)
        requires
            internal.1 >= 6,
        ensures
            c == full_spec(target_part, internal, external),
    {
        LinksConstants {
            index_part: 0,
            source_part: 1,
            target_part: target_part,
            break_code: internal.1 - 1,
            null: 0,
            continue_code: internal.1,
            skip_code: internal.1 - 2,
            any: internal.1 - 3,
            itself: internal.1 - 4,
            internal_range: LinkRange(internal.0, internal.1 - 6),
            external_range: external,
        }
    }

    /// Internal ids cover the space below the optional external half;
    /// with `external` set, ids from the midpoint up are treated as
    /// opaque external references.
    pub fn via_external(target_part: u32, external: bool) -> (c: LinksConstants)
        ensures
            external ==> c == full_spec(
                target_part,
                LinkRange(1, u32::MAX / 2),
                Some(LinkRange(u32::MAX / 2, u32::MAX)),
            ),
            !external ==> c == full_spec(target_part, LinkRange(1, u32::MAX), None),
    {
        if external {
            Self::full_new(
                target_part,
                LinkRange(1, u32::MAX / 2),
                Some(LinkRange(u32::MAX / 2, u32::MAX)),
            )
        } else {
            Self::full_new(target_part, LinkRange(1, u32::MAX), None)
        }
    }

    /// Explicit ranges, target at its conventional position.
    pub fn via_ranges(internal: LinkRange, external: Option<LinkRange>) -> (c: LinksConstants)
        requires
            internal.1 >= 6,
        ensures
            c == full_spec(2, internal, external),
    {
        Self::full_new(2, internal, external)
    }

    /// Default ranges, target at its conventional position.
    pub fn via_only_external(external: bool) -> (c: LinksConstants)
        ensures
            external ==> c == full_spec(
                2,
                LinkRange(1, u32::MAX / 2),
                Some(LinkRange(u32::MAX / 2, u32::MAX)),
            ),
            !external ==> c == full_spec(2, LinkRange(1, u32::MAX), None),
    {
        Self::via_external(2, external)
    }

    /// The default configuration: the whole id space is internal and no
    /// external references are recognised.
    pub fn new() -> (c: LinksConstants)
        ensures
            c == full_spec(2, LinkRange(1, u32::MAX), None),
    {
        Self::via_only_external(false)
    }

    /// An identical copy of this configuration.
    pub fn clone(&self) -> (c: LinksConstants)
        ensures
            c == *self,
    {
        *self
    }
}

} // verus!
