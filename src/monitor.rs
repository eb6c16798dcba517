use vstd::prelude::*;
use vstd::string::StringSliceAdditionalSpecFns;
use vstd::string::StrSliceExecFns;
use vstd::utf8::encode_utf8;
use crate::decimal::{Reading, DecimalView, decimal_text, pow10, lemma_pow10_pos};
use crate::extract::{ExtractError, extract, has_marker, has_marker_with_literal, captured};
use crate::decimal::denotes;

verus! {

/// What went wrong in a cycle.
#[derive(Debug)]
pub enum Failure {
    /// The page could not be fetched; the description comes from the transport.
    Fetch(String),
    /// The page held no reading.
    Extract(ExtractError),
}

/// What one poll cycle produced.
#[derive(Debug)]
pub enum Outcome {
    Reading(Reading),
    Failure(Failure),
}

/// A cycle's outcome calls for an alert: a reading above the threshold, or any
/// failure, since a monitor that cannot read is itself degraded.
pub open spec fn alert_worthy(o: Outcome, threshold: DecimalView) -> bool {
    match o {
        Outcome::Reading(r) => r@.exceeds(threshold),
        Outcome::Failure(_) => true,
    }
}

/// The alert flag after a cycle. An alert is raised by an alert-worthy outcome
/// and dropped by whatever the next cycle brings, without looking at it.
pub open spec fn next_alerting(alerting: bool, worthy: bool) -> bool {
    !alerting && worthy
}

/// How a raised alert is cleared.
#[derive(Debug, Clone, Copy, PartialEq, Eq, Structural)]
pub enum ClearPolicy {
    /// The cycle after an alert clears it, whatever it brings.
    Toggle,
    /// The alert stays up until a cycle brings an outcome that is not
    /// alert-worthy.
    Level,
}

/// The alert flag after a cycle under `policy`.
pub open spec fn next_alerting_under(policy: ClearPolicy, alerting: bool, worthy: bool) -> bool {
    match policy {
        ClearPolicy::Toggle => next_alerting(alerting, worthy),
        ClearPolicy::Level => worthy,
    }
}

/// A notification goes out exactly when the flag rises.
pub open spec fn notifies(alerting: bool, worthy: bool) -> bool {
    !alerting && worthy
}

/// The alert flag that the poll loop carries from one cycle to the next.
#[derive(Debug, Clone, Copy, PartialEq, Eq, Structural)]
pub struct AlertState {
    pub alerting: bool,
}

impl AlertState {
    /// The state at start-up: not alerting.
    pub fn new() -> (r: AlertState)
        ensures
            !r.alerting,
    {
        AlertState { alerting: false }
    }

    /// Feeds one cycle's outcome to the state; returns the outcome to notify
    /// about, if any.
    pub fn step(&mut self, outcome: Outcome, threshold: &Reading) -> (notice: Option<Outcome>)
        ensures
            final(self).alerting == next_alerting(
                old(self).alerting,
                alert_worthy(outcome, threshold@),
            ),
            notifies(old(self).alerting, alert_worthy(outcome, threshold@)) ==> notice == Some(
                outcome,
            ),
            !notifies(old(self).alerting, alert_worthy(outcome, threshold@)) ==> notice is None,
    {
        if self.alerting {
            self.alerting = false;
            return None;
        }
        let worthy = match &outcome {
            Outcome::Reading(r) => r.exceeds(threshold),
            Outcome::Failure(_) => true,
        };
        if worthy {
            self.alerting = true;
            Some(outcome)
        } else {
            None
        }
    }
}

impl AlertState {
    /// Feeds one cycle's outcome to the state, clearing a raised alert as
    /// `policy` says; returns the outcome to notify about, if any. Under either
    /// policy a notification goes out only when the flag rises.
    pub fn step_with(&mut self, policy: ClearPolicy, outcome: Outcome, threshold: &Reading) -> (notice:
        Option<Outcome>)
        ensures
            final(self).alerting == next_alerting_under(
                policy,
                old(self).alerting,
                alert_worthy(outcome, threshold@),
            ),
            notifies(old(self).alerting, alert_worthy(outcome, threshold@)) ==> notice == Some(
                outcome,
            ),
            !notifies(old(self).alerting, alert_worthy(outcome, threshold@)) ==> notice is None,
    {
        match policy {
            ClearPolicy::Toggle => self.step(outcome, threshold),
            ClearPolicy::Level => {
                let worthy = match &outcome {
                    Outcome::Reading(r) => r.exceeds(threshold),
                    Outcome::Failure(_) => true,
                };
                let was = self.alerting;
                self.alerting = worthy;
                if worthy && !was {
                    Some(outcome)
                } else {
                    None
                }
            },
        }
    }
}

/// The outcome of a cycle whose fetch gave `fetched`: the page's text, or a
/// description of the transport's error.
pub fn outcome_of_fetch(fetched: Result<String, String>) -> (o: Outcome)
    ensures
        fetched matches Err(d) ==> o == Outcome::Failure(Failure::Fetch(d)),
        fetched matches Ok(t) ==> {
            let bytes = encode_utf8(t@);
            &&& (o matches Outcome::Failure(Failure::Extract(ExtractError::PatternNotFound)))
                <==> !has_marker(bytes)
            &&& (o matches Outcome::Failure(Failure::Extract(ExtractError::NumberParseError)))
                <==> has_marker(bytes) && !has_marker_with_literal(bytes)
            &&& o is Reading <==> has_marker_with_literal(bytes)
            &&& !(o matches Outcome::Failure(Failure::Fetch(_)))
            &&& forall|s: int, e: int| #[trigger]
                captured(bytes, s, e) ==> (o matches Outcome::Reading(v) && denotes(
                    bytes.subrange(s, e),
                    v@,
                ))
        },
{
    match fetched {
        Err(d) => Outcome::Failure(Failure::Fetch(d)),
        Ok(t) => match extract(t.as_str()) {
            Ok(v) => Outcome::Reading(v),
            Err(e) => Outcome::Failure(Failure::Extract(e)),
        },
    }
}

/// From a quiet start, an alert-worthy outcome raises the flag and sends one
/// notification; the next outcome, whatever it is, drops the flag and sends
/// nothing; a third alert-worthy outcome sends one more. Three such cycles send
/// exactly two notifications.
pub proof fn lemma_toggle(o1: Outcome, o2: Outcome, o3: Outcome, threshold: DecimalView)
    requires
        alert_worthy(o1, threshold),
        alert_worthy(o3, threshold),
    ensures
        ({
            let w1 = alert_worthy(o1, threshold);
            let w2 = alert_worthy(o2, threshold);
            let w3 = alert_worthy(o3, threshold);
            let a1 = next_alerting(false, w1);
            let a2 = next_alerting(a1, w2);
            let a3 = next_alerting(a2, w3);
            &&& a1 && !a2 && a3
            &&& notifies(false, w1) && !notifies(a1, w2) && notifies(a2, w3)
            &&& (if notifies(false, w1) { 1int } else { 0 }) + (if notifies(a1, w2) { 1int } else { 0 })
                + (if notifies(a2, w3) { 1int } else { 0 }) == 2
        }),
{
}

/// The threshold is strict: from a quiet start, a reading equal in value to the
/// threshold raises no alert, and a reading exactly one above it does.
pub proof fn lemma_threshold_strict(r: Reading, threshold: Reading)
    ensures
        r@.same_value(threshold@) ==> !notifies(false, alert_worthy(Outcome::Reading(r), threshold@)),
        ({
            let q = r@.common_scale(threshold@);
            r@.value_at(q) == threshold@.value_at(q) + pow10(q)
        }) ==> notifies(false, alert_worthy(Outcome::Reading(r), threshold@)),
{
    lemma_pow10_pos(r@.common_scale(threshold@));
}

/// Whatever the outcome, a cycle that starts alerting ends quiet and sends
/// nothing; one that starts quiet ends alerting exactly when it notifies.
pub proof fn lemma_edge_triggered(alerting: bool, o: Outcome, threshold: DecimalView)
    ensures
        alerting ==> !next_alerting(alerting, alert_worthy(o, threshold)) && !notifies(
            alerting,
            alert_worthy(o, threshold),
        ),
        !alerting ==> next_alerting(alerting, alert_worthy(o, threshold)) == notifies(
            alerting,
            alert_worthy(o, threshold),
        ),
{
}

/// The subject line of the notification about `o`, as UTF-8.
pub open spec fn subject_text(o: Outcome) -> Seq<u8> {
    match o {
        Outcome::Reading(r) => encode_utf8("Temperature = "@) + decimal_text(r@) + encode_utf8(
            "!"@,
        ),
        Outcome::Failure(Failure::Fetch(d)) => encode_utf8(d@),
        Outcome::Failure(Failure::Extract(ExtractError::PatternNotFound)) => encode_utf8(
            "Temperature regex failed"@,
        ),
        Outcome::Failure(Failure::Extract(ExtractError::NumberParseError)) => encode_utf8(
            "Cannot parse temperature"@,
        ),
    }
}

/// The subject line of the notification about `o`.
pub fn subject(o: &Outcome) -> (r: Vec<u8>)
    ensures
        r@ == subject_text(*o),
{
    match o {
        Outcome::Reading(v) => {
            let mut r = "Temperature = ".as_bytes_vec();
            let mut digits = v.text();
            r.append(&mut digits);
            let mut tail = "!".as_bytes_vec();
            r.append(&mut tail);
            r
        },
        Outcome::Failure(Failure::Fetch(d)) => d.as_str().as_bytes_vec(),
        Outcome::Failure(Failure::Extract(e)) => e.description().as_bytes_vec(),
    }
}

} // verus!
