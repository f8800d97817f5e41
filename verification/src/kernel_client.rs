//! The kernel-facing side of the service: the port through which it
//! submits governed Requests of its own, the decisions it makes on the
//! kernel's answers, the request paths it signs, and the clock it signs
//! with.

use vstd::prelude::*;

use crate::error::ParserError;
use crate::text::{append_str, chars_of, same, string_of, strs};

verus! {

/// How long a signed request stays valid, in seconds.
pub const SIGNATURE_VALIDITY_SECONDS: i64 = 30;

pub const REQUESTS_PATH: &'static str = "/v1/requests";

/// Sentinel schema versions for actions with no artifact content.
pub const NO_ARTIFACT_SCHEMA_VERSION_ID: &'static str = "00000000-0000-0000-0000-000000000001";

pub const NO_ARTIFACT_PERMISSION_POLICY_SCHEMA_VERSION_ID: &'static str =
    "00000000-0000-0000-0000-000000000002";

/// The status with which the kernel accepts a submitted Request.
pub const CREATED: u16 = 201;

/// The outbound calls this service makes into the kernel.
pub trait KernelPort {
    /// Submits a new governed Request under this service's own identity.
    /// Returns `Ok(())` only on `201 Created`; any other status is
    /// reported as `ParserError::AdmissionNotAccepted`.
    fn submit_request(&self, action: &str, scope: &str) -> Result<(), ParserError>;
}

/// The views of name and value string pairs.
pub open spec fn member_views(members: Seq<(String, String)>) -> Seq<(Seq<char>, Seq<char>)> {
    members.map_values(|m: (String, String)| (m.0@, m.1@))
}

/// What `serde_json::to_vec` writes for the JSON object whose string
/// members are the given name and value pairs.
pub uninterp spec fn json_object(members: Seq<(Seq<char>, Seq<char>)>) -> Seq<u8>;

/// Serializes, with `serde_json::to_vec`, the JSON object whose string
/// members are `members` (collected into a map of names to values);
/// named by `json_object`. The crate documents that serialization fails
/// only for a failing `Serialize` impl or a map with non-string keys,
/// neither of which a map of strings has, so the result is always there.
#[verifier::external_body]
fn encode_object(members: &Vec<(String, String)>) -> (r: Option<Vec<u8>>)
    ensures
        r is Some,
        r matches Some(b) ==> b@ == json_object(member_views(members@)),
{
    let object: std::collections::BTreeMap<&str, &str> = members.iter().map(
        |m| (m.0.as_str(), m.1.as_str()),
    ).collect();
    serde_json::to_vec(&object).ok()
}

/// The members of the Request this service submits under its own
/// identity: its action and scope, pinned to the no-artifact schema
/// versions.
pub open spec fn submission_members(action: Seq<char>, scope: Seq<char>) -> Seq<
    (Seq<char>, Seq<char>),
> {
    seq![
        ("action"@, action),
        ("scope"@, scope),
        ("artifact_schema_version_id"@, NO_ARTIFACT_SCHEMA_VERSION_ID@),
        ("permission_policy_schema_version_id"@, NO_ARTIFACT_PERMISSION_POLICY_SCHEMA_VERSION_ID@),
    ]
}

/// The body of the Request this service submits under its own identity
/// for `action` and `scope`, pinned to the no-artifact schema versions.
pub fn submission_body(action: &str, scope: &str) -> (r: Vec<u8>)
    ensures
        r@ == json_object(submission_members(action@, scope@)),
{
    let mut members: Vec<(String, String)> = Vec::new();
    members.push((string_of(&chars_of("action")), string_of(&chars_of(action))));
    members.push((string_of(&chars_of("scope")), string_of(&chars_of(scope))));
    members.push(
        (
            string_of(&chars_of("artifact_schema_version_id")),
            string_of(&chars_of(NO_ARTIFACT_SCHEMA_VERSION_ID)),
        ),
    );
    members.push(
        (
            string_of(&chars_of("permission_policy_schema_version_id")),
            string_of(&chars_of(NO_ARTIFACT_PERMISSION_POLICY_SCHEMA_VERSION_ID)),
        ),
    );
    assert(member_views(members@) =~= submission_members(action@, scope@));
    encode_object(&members).unwrap()
}

/// What a submission answered with `status` means: accepted only on
/// `201 Created`.
pub fn admission_result(status: u16) -> (r: Result<(), ParserError>)
    ensures
        status == CREATED ==> r is Ok,
        status != CREATED ==> (r matches Err(ParserError::AdmissionNotAccepted(s)) && s == status),
{
    if status == CREATED {
        Ok(())
    } else {
        Err(ParserError::AdmissionNotAccepted(status))
    }
}

/// Whether a subscription for `event_type` still has to be created, given
/// the event types of the active subscriptions.
pub fn subscription_needed(active_event_types: &Vec<String>, event_type: &str) -> (r: bool)
    ensures
        r == !strs(active_event_types@).contains(event_type@),
{
    let wanted = chars_of(event_type);
    let mut i: usize = 0;
    while i < active_event_types.len()
        invariant
            i <= active_event_types.len(),
            wanted@ == event_type@,
            forall|k: int| 0 <= k < i ==> strs(active_event_types@)[k] != event_type@,
        decreases active_event_types.len() - i,
    {
        let have = chars_of(active_event_types[i].as_str());
        if same(&have, &wanted) {
            assert(strs(active_event_types@)[i as int] == event_type@);
            return false;
        }
        i = i + 1;
    }
    true
}

/// The path on which a route is claimed.
pub fn claims_path(route_id: &str) -> (r: String)
    ensures
        r@ == "/v1/routes/"@ + route_id@ + "/claims"@,
{
    let mut out: Vec<char> = Vec::new();
    append_str(&mut out, "/v1/routes/");
    append_str(&mut out, route_id);
    append_str(&mut out, "/claims");
    string_of(&out)
}

/// The path from which a route's Request is read.
pub fn routed_request_path(route_id: &str) -> (r: String)
    ensures
        r@ == "/v1/routes/"@ + route_id@ + "/request"@,
{
    let mut out: Vec<char> = Vec::new();
    append_str(&mut out, "/v1/routes/");
    append_str(&mut out, route_id);
    append_str(&mut out, "/request");
    string_of(&out)
}

/// The path on which a claim is completed.
pub fn complete_path(claim_id: &str) -> (r: String)
    ensures
        r@ == "/v1/claims/"@ + claim_id@ + "/complete"@,
{
    let mut out: Vec<char> = Vec::new();
    append_str(&mut out, "/v1/claims/");
    append_str(&mut out, claim_id);
    append_str(&mut out, "/complete");
    string_of(&out)
}

#[verifier::external_type_specification]
#[verifier::external_body]
pub struct ExSystemTime(std::time::SystemTime);

/// `SystemTime::now`; the clock's reading is not promised.
#[verifier::external_body]
fn system_now() -> (r: std::time::SystemTime) {
    std::time::SystemTime::now()
}

/// `SystemTime::duration_since(UNIX_EPOCH)`, its error (a time before the
/// epoch) made `None`; nothing is promised of the duration.
#[verifier::external_body]
fn since_epoch(t: &std::time::SystemTime) -> (r: Option<core::time::Duration>) {
    t.duration_since(std::time::UNIX_EPOCH).ok()
}

/// `Duration::as_secs`: the whole seconds of a duration, not spelled out.
#[verifier::external_body]
fn whole_seconds(d: &core::time::Duration) -> (r: u64) {
    d.as_secs()
}

/// Whole seconds as an `i64`, saturating at `i64::MAX`.
pub fn seconds_to_i64(secs: u64) -> (r: i64)
    ensures
        r == if secs <= i64::MAX {
            secs as int
        } else {
            i64::MAX as int
        },
{
    if secs <= i64::MAX as u64 {
        secs as i64
    } else {
        i64::MAX
    }
}

/// Unix time in whole seconds from the clock's offset since the epoch
/// (`None` for a clock before the epoch): `0` before the epoch, the
/// seconds saturated at `i64::MAX` after it.
pub open spec fn unix_seconds_of(since_epoch: Option<u64>) -> int {
    match since_epoch {
        None => 0,
        Some(secs) => if secs <= i64::MAX {
            secs as int
        } else {
            i64::MAX as int
        },
    }
}

/// Unix time in whole seconds from the clock's offset since the epoch.
pub fn unix_seconds(since_epoch: Option<u64>) -> (r: i64)
    ensures
        r == unix_seconds_of(since_epoch),
{
    match since_epoch {
        Some(secs) => seconds_to_i64(secs),
        None => 0,
    }
}

/// The current time in whole seconds since the Unix epoch; `0` for a
/// clock before the epoch, `i64::MAX` past the range of `i64`. The clock
/// itself is read outside: the result is `unix_seconds` of its offset.
pub fn unix_time() -> (r: i64)
    ensures
        r >= 0,
        exists|since_epoch: Option<u64>| r == unix_seconds_of(since_epoch),
{
    let now = system_now();
    let offset = match since_epoch(&now) {
        Some(d) => Some(whole_seconds(&d)),
        None => None,
    };
    unix_seconds(offset)
}

} // verus!
