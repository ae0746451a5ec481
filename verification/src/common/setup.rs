//! What can be wrong with how a component is connected.

use crate::text::{dec, push_dec};
use vstd::prelude::*;
use vstd::string::*;

verus! {

/// Why a component cannot be built.
#[derive(Clone, Copy, Debug, PartialEq, Eq)]
pub enum BuildError {
    /// An address port is wider than 64 bits.
    AddressTooWide { component: &'static str, port: &'static str, width: u32 },
    /// More transactions may be outstanding than there are IDs.
    TooFewIds { component: &'static str, max: u64, id_width: u32, ids: u64 },
}

impl BuildError {
    /// The text of the error.
    pub open spec fn text(self) -> Seq<char> {
        match self {
            BuildError::AddressTooWide { component, port, width } => component@ + ": "@ + port@
                + " width "@ + dec(width as u64) + " exceeds the 64-bit address limit"@,
            BuildError::TooFewIds { component, max, id_width, ids } => component@
                + ": MAX_OUTSTANDING ("@ + dec(max) + ") exceeds the "@ + dec(id_width as u64)
                + "-bit ID space ("@ + dec(ids) + ")"@,
        }
    }

    /// The error in words.
    pub fn message(&self) -> (r: String)
        ensures
            r@ == self.text(),
    {
        let mut r = String::new();
        match self {
            BuildError::AddressTooWide { component, port, width } => {
                r.append(component);
                r.append(": ");
                r.append(port);
                r.append(" width ");
                push_dec(&mut r, *width as u64);
                r.append(" exceeds the 64-bit address limit");
            },
            BuildError::TooFewIds { component, max, id_width, ids } => {
                r.append(component);
                r.append(": MAX_OUTSTANDING (");
                push_dec(&mut r, *max);
                r.append(") exceeds the ");
                push_dec(&mut r, *id_width as u64);
                r.append("-bit ID space (");
                push_dec(&mut r, *ids);
                r.append(")");
            },
        }
        assert(r@ =~= self.text());
        r
    }
}

/// The first address port that is wider than the 64 bits an address is read
/// as.
pub open spec fn too_wide(component: &'static str, awaddr: u32, araddr: u32) -> Option<
    BuildError,
> {
    if awaddr > 64 {
        Some(BuildError::AddressTooWide { component, port: "awaddr", width: awaddr })
    } else if araddr > 64 {
        Some(BuildError::AddressTooWide { component, port: "araddr", width: araddr })
    } else {
        None
    }
}

/// Looks for an address port that is too wide.
pub fn find_too_wide(component: &'static str, awaddr: u32, araddr: u32) -> (r: Option<BuildError>)
    ensures
        r == too_wide(component, awaddr, araddr),
{
    if awaddr > 64 {
        Some(BuildError::AddressTooWide { component, port: "awaddr", width: awaddr })
    } else if araddr > 64 {
        Some(BuildError::AddressTooWide { component, port: "araddr", width: araddr })
    } else {
        None
    }
}

/// A component is refused where an address port is wider than 64 bits, and the error
/// names the write port before the read port, with its width.
pub proof fn lemma_wide_ports_are_refused(component: &'static str, awaddr: u32, araddr: u32)
    ensures
        match too_wide(component, awaddr, araddr) {
            None => awaddr <= 64 && araddr <= 64,
            Some(BuildError::AddressTooWide { component: c, port, width }) => {
                &&& c == component && width > 64
                &&& width == awaddr && port@ == "awaddr"@ || width == araddr && port@ == "araddr"@
                    && awaddr <= 64
            },
            Some(_) => false,
        },
{
}

} // verus!
