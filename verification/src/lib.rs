//! Resolves a curated list of domain names to their IPv4 and IPv6 addresses
//! and renders the results as a hosts-file fragment: header with timestamp
//! and duration, unresolved-domain diagnostics, and column-aligned address
//! sections.
//!
//! The surrounding application performs the DNS lookups and hands the
//! per-domain outcomes to this crate, which classifies them by address
//! family and renders the final document.
use vstd::prelude::*;

pub mod addr;
pub mod clock;
pub mod domains;
pub mod outcome;
pub mod render;
pub mod text;

use crate::clock::RunClock;
use crate::outcome::ResolutionOutcome;
use crate::render::{document_text, render_document};

verus! {

/// Renders the hosts document for the collected outcomes: the header
/// carries the timestamp captured when the run started and the duration
/// measured from that start to now. Apart from that measured duration, the
/// result is exactly the document `render_document` specifies.
pub fn render(
    outcomes: &Vec<ResolutionOutcome>,
    ipv4: bool,
    ipv6: bool,
    single: bool,
    clock: &RunClock,
) -> (r: String)
    ensures
        exists|elapsed: u64|
            r@ == document_text(outcomes@, ipv4, ipv6, single, clock.started, elapsed),
{
    let end = crate::clock::epoch_millis();
    let elapsed = crate::clock::elapsed_millis(clock.start_ms, end);
    let r = render_document(outcomes, ipv4, ipv6, single, &clock.started, elapsed);
    proof {
        assert(r@ == document_text(outcomes@, ipv4, ipv6, single, clock.started, elapsed));
    }
    r
}

} // verus!
