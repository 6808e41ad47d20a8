//! Tests of the single-use "current handle" slot.

use netsim::session::CurrentSlot;
use netsim::Endpoint;

#[test]
fn slot_starts_empty() {
    let mut slot = CurrentSlot::new();
    assert_eq!(slot.try_get_current(), None);
}

#[test]
fn retrieval_consumes_the_slot() {
    let mut slot = CurrentSlot::new();
    slot.make_current(Endpoint(4));
    assert_eq!(slot.get_current(), Endpoint(4));
    assert_eq!(slot.try_get_current(), None);
}

#[test]
fn a_new_handle_replaces_the_old() {
    let mut slot = CurrentSlot::new();
    slot.make_current(Endpoint(4));
    slot.make_current(Endpoint(9));
    assert_eq!(slot.try_get_current(), Some(Endpoint(9)));
}
