use zapive::call::{call_update, offer_plan, CallState, CallUpdate, EndReason, OfferPlan};

#[test]
fn status_updates_move_the_call_on_screen() {
    assert_eq!(call_update(CallState::Incoming, "C1", "C1", "accept"), CallUpdate::End(EndReason::Elsewhere));
    assert_eq!(call_update(CallState::Outgoing, "", "C1", "accept"), CallUpdate::MarkActive);
    assert_eq!(call_update(CallState::Connecting, "C1", "C1", "reject"), CallUpdate::End(EndReason::Declined));
    assert_eq!(call_update(CallState::Incoming, "C1", "C1", "timeout"), CallUpdate::End(EndReason::Missed));
    assert_eq!(call_update(CallState::Active, "C1", "C1", "terminate"), CallUpdate::End(EndReason::Ended));
    assert_eq!(call_update(CallState::Active, "C1", "C2", "terminate"), CallUpdate::Ignore);
    assert_eq!(call_update(CallState::Ended, "C1", "C1", "accept"), CallUpdate::Ignore);
    assert_eq!(EndReason::Declined.key(), "call.declined");
}

#[test]
fn old_offers_never_ring_and_busy_lines_decline() {
    assert_eq!(offer_plan(1000, 900, false, false), OfferPlan::FileMissed { record: true });
    assert_eq!(offer_plan(1000, 900, true, false), OfferPlan::FileMissed { record: false });
    assert_eq!(offer_plan(1000, 950, false, true), OfferPlan::RejectBusy);
    assert_eq!(offer_plan(1000, 0, false, false), OfferPlan::Ring);
    assert_eq!(offer_plan(1000, 925, false, false), OfferPlan::Ring);
}
