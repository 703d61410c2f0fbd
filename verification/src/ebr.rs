//! Epoch-based reclamation: pinning, and handing over what was unlinked.
//!
//! The epochs themselves are kept by the `flize` crate. Nothing is proved of
//! it here; this module only says how the table uses it.

use vstd::prelude::*;
use flize::Shield;

verus! {

/// `flize::Collector`, the bookkeeper of one reclamation domain. Opaque
/// here: it is only made, and pinned on.
#[verifier::external_type_specification]
#[verifier::external_body]
pub struct ExCollector(flize::Collector);

/// `flize::ThinShield`, which keeps its thread pinned until it is dropped.
/// Opaque here: it is only held, and handed what is retired.
#[verifier::external_type_specification]
#[verifier::external_body]
pub struct ExThinShield<'a>(flize::ThinShield<'a>);

/// `flize::Collector::new` makes a collector with no participant and nothing
/// retired. Nothing is claimed of the value.
pub assume_specification[ flize::Collector::new ]() -> (collector: flize::Collector)
;

/// `flize::Collector::thin_shield` pins the calling thread on the collector
/// and gives the shield that keeps it pinned until it is dropped. Nothing is
/// claimed of the value.
pub assume_specification<'a>[ flize::Collector::thin_shield ](
    collector: &'a flize::Collector,
) -> (shield: flize::ThinShield<'a>)
;

/// The token of a pinned thread. By the documentation of `flize`, what is
/// retired is destroyed only once every thread that was pinned at the time
/// has been unpinned.
pub struct Guard<'a> {
    shield: flize::ThinShield<'a>,
}

/// Ends the life of what reclamation was handed.
fn reclaim<T>(garbage: T) {
}

impl<'a> Guard<'a> {
    /// Pins the calling thread on `collector`.
    pub fn pin(collector: &'a flize::Collector) -> (guard: Guard<'a>) {
        Guard { shield: collector.thin_shield() }
    }

    /// Hands `garbage` to the collector for destruction, on whichever
    /// thread then collects; what is still waiting when the collector itself
    /// is dropped is never destroyed. Calls `Shield::retire` of `flize` on
    /// the guard's shield; it returns nothing, and nothing is claimed of
    /// when the destruction takes place.
    #[verifier::external_body]
    pub(crate) fn retire<T: Send + 'a>(&self, garbage: T) {
        self.shield.retire(move || reclaim(garbage));
    }
}

} // verus!
