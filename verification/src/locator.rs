//! Device discovery: pick the serial device whose USB descriptor names the
//! expected manufacturer. The shell enumerates the operating system's ports
//! and hands them in as plain values; this module makes the choice.

use vstd::prelude::*;

use crate::text::str_eq;

verus! {

/// Manufacturer string of the measurement hub's USB bridge.
pub const KNOWN_MANUFACTURER: &'static str = "Espressif";

/// One enumerated serial device, as plain values.
pub struct PortCandidate {
    /// The device path to open.
    pub port_name: String,
    /// Whether the transport is USB.
    pub is_usb: bool,
    /// The USB manufacturer descriptor, if the device reports one.
    pub manufacturer: Option<String>,
}

/// The candidate is a USB device that reports exactly the expected
/// manufacturer.
pub open spec fn candidate_matches(c: PortCandidate, expected: Seq<char>) -> bool {
    &&& c.is_usb
    &&& c.manufacturer matches Some(m) && m@ == expected
}

/// The path of the first candidate whose manufacturer matches `expected`
/// (case-sensitively), or nothing when none matches.
pub fn find_device(ports: &Vec<PortCandidate>, expected: &str) -> (r: Option<String>)
    ensures
        match r {
            Some(path) => exists|i: int|
                0 <= i < ports@.len() && candidate_matches(#[trigger] ports@[i], expected@) && path@
                    == ports@[i].port_name@ && (forall|j: int|
                    0 <= j < i ==> !candidate_matches(#[trigger] ports@[j], expected@)),
            None => forall|j: int|
                0 <= j < ports@.len() ==> !candidate_matches(#[trigger] ports@[j], expected@),
        },
{
    let n = ports.len();
    let mut i: usize = 0;
    while i < n
        invariant
            i <= n,
            n == ports@.len(),
            forall|j: int| 0 <= j < i ==> !candidate_matches(#[trigger] ports@[j], expected@),
        decreases n - i,
    {
        let c = &ports[i];
        if c.is_usb {
            match &c.manufacturer {
                Some(m) => {
                    if str_eq(m.as_str(), expected) {
                        return Some(c.port_name.clone());
                    }
                },
                None => {},
            }
        }
        i = i + 1;
    }
    None
}

} // verus!
