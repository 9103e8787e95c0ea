//! Calls: the two ringtones a call plays, what the app does with an
//! offer, and how the call on screen moves on the server's status updates.
use vstd::prelude::*;
use crate::text::str_eq;

verus! {

broadcast use vstd::string::group_string_axioms;

/// Which ringtone plays.
#[derive(Clone, Copy, PartialEq, Eq, Structural, Debug)]
pub enum Ring {
    /// The caller's side: one short tone every few seconds.
    Back,
    /// The callee's side: the ringtone, repeating until someone picks up.
    In,
}

/// Where the call on screen stands.
#[derive(Clone, Copy, PartialEq, Eq, Structural, Debug)]
pub enum CallState {
    Incoming,
    Outgoing,
    Connecting,
    Active,
    Ended,
}

/// Why a call ended, as the call screen says it.
#[derive(Clone, Copy, PartialEq, Eq, Structural, Debug)]
pub enum EndReason {
    /// Answered on another of our devices.
    Elsewhere,
    Declined,
    Missed,
    Ended,
}

impl EndReason {
    /// The text key the call screen shows.
    pub fn key(&self) -> (r: &'static str)
        ensures
            r@ == end_key(*self),
    {
        match self {
            EndReason::Elsewhere => "call.elsewhere",
            EndReason::Declined => "call.declined",
            EndReason::Missed => "call.missed",
            EndReason::Ended => "call.ended",
        }
    }
}

/// The text key of an end reason.
pub open spec fn end_key(r: EndReason) -> Seq<char> {
    match r {
        EndReason::Elsewhere => "call.elsewhere"@,
        EndReason::Declined => "call.declined"@,
        EndReason::Missed => "call.missed"@,
        EndReason::Ended => "call.ended"@,
    }
}

/// What a status update does to the call on screen.
#[derive(Clone, Copy, PartialEq, Eq, Structural, Debug)]
pub enum CallUpdate {
    /// It is about another call, or this one already ended.
    Ignore,
    /// The peer picked up.
    MarkActive,
    End(EndReason),
}

/// How the call on screen (whose id is empty until the server names an
/// outgoing call) moves on the server's status `status` for call `id`: an
/// accept while it still rings here was taken on another device; an accept
/// otherwise starts it; a reject ends it declined; anything else ends a
/// ringing call as missed and any other as ended.
pub open spec fn call_update_of(state: CallState, call_id: Seq<char>, id: Seq<char>, status: Seq<char>) -> CallUpdate {
    if (call_id.len() != 0 && call_id != id) || state == CallState::Ended {
        CallUpdate::Ignore
    } else if status == "accept"@ {
        if state == CallState::Incoming {
            CallUpdate::End(EndReason::Elsewhere)
        } else {
            CallUpdate::MarkActive
        }
    } else if status == "reject"@ {
        CallUpdate::End(EndReason::Declined)
    } else if state == CallState::Incoming {
        CallUpdate::End(EndReason::Missed)
    } else {
        CallUpdate::End(EndReason::Ended)
    }
}

/// What a status update does to the call on screen.
pub fn call_update(state: CallState, call_id: &str, id: &str, status: &str) -> (r: CallUpdate)
    ensures
        r == call_update_of(state, call_id@, id@, status@),
{
    if (!call_id.is_empty() && !str_eq(call_id, id)) || state == CallState::Ended {
        return CallUpdate::Ignore;
    }
    if str_eq(status, "accept") {
        if state == CallState::Incoming {
            CallUpdate::End(EndReason::Elsewhere)
        } else {
            CallUpdate::MarkActive
        }
    } else if str_eq(status, "reject") {
        CallUpdate::End(EndReason::Declined)
    } else if state == CallState::Incoming {
        CallUpdate::End(EndReason::Missed)
    } else {
        CallUpdate::End(EndReason::Ended)
    }
}

/// How long after it was made an offer no longer rings, in seconds.
pub const STALE_CALL_SECS: i64 = 75;

/// What the app does with a call offer.
#[derive(Clone, Copy, PartialEq, Eq, Structural, Debug)]
pub enum OfferPlan {
    /// Too old to ring: file it as missed, unless the log already has it.
    FileMissed { record: bool },
    /// Already on a call: log it and turn it down.
    RejectBusy,
    /// Log it and ring.
    Ring,
}

/// What an offer made at `ts` (0 when unknown) comes to at `now`: one
/// older than `STALE_CALL_SECS` never rings (it is filed as missed, unless
/// the log already holds it); while another call is on, it is turned down.
pub open spec fn offer_plan_of(now: i64, ts: i64, logged: bool, in_call: bool) -> OfferPlan {
    if ts > 0 && now - ts > STALE_CALL_SECS {
        OfferPlan::FileMissed { record: !logged }
    } else if in_call {
        OfferPlan::RejectBusy
    } else {
        OfferPlan::Ring
    }
}

/// What an offer comes to.
pub fn offer_plan(now: i64, ts: i64, logged: bool, in_call: bool) -> (r: OfferPlan)
    requires
        ts > 0 ==> i64::MIN <= now - ts <= i64::MAX,
    ensures
        r == offer_plan_of(now, ts, logged, in_call),
{
    if ts > 0 && now - ts > STALE_CALL_SECS {
        OfferPlan::FileMissed { record: !logged }
    } else if in_call {
        OfferPlan::RejectBusy
    } else {
        OfferPlan::Ring
    }
}

/// Once a call ended, no status update changes it; one about another call
/// never does either.
pub proof fn law_an_ended_call_stays_ended(call_id: Seq<char>, id: Seq<char>, status: Seq<char>, state: CallState)
    ensures
        call_update_of(CallState::Ended, call_id, id, status) == CallUpdate::Ignore,
        call_id.len() != 0 && call_id != id ==> call_update_of(state, call_id, id, status) == CallUpdate::Ignore,
{
}

} // verus!
