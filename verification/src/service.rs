//! The answers of the locator service.
//!
//! Every request reads the stored table. What the store said is handed in here:
//! the table, or that there is none yet, or the error that came up.

use crate::merge::distinct_codes;
use crate::snapshot::{
    entry_hint, entry_to_pb, first_with_code, first_with_code_is_first, hint_of, published,
    snapshot_to_pb, summary, ColoPb, ColoPbView, LocationHint, Snapshot, SnapshotPb, SnapshotView,
};
use vstd::prelude::*;

verus! {

/// Why a request cannot be answered.
#[derive(Debug)]
pub enum ServiceError {
    /// The store failed.
    Internal(String),
    /// There is no table yet.
    Unavailable(String),
}

/// The answer to `GetLocationHint`.
#[derive(Debug)]
pub struct GetLocationHintResponse {
    pub hint: LocationHint,
    pub known: bool,
}

/// The answer to `GetColoInfo`.
#[derive(Debug)]
pub struct GetColoInfoResponse {
    pub colo: Option<ColoPb>,
    pub known: bool,
}

/// The answer to `ListColos`.
#[derive(Debug)]
pub struct ListColosResponse {
    pub snapshot: SnapshotPb,
    pub colos: Vec<ColoPb>,
}

/// The answer to `GetSnapshot`.
#[derive(Debug)]
pub struct GetSnapshotResponse {
    pub snapshot: SnapshotPb,
}

/// The error that stands in for a table, where the store gave none.
pub open spec fn is_load_error(read: Result<Option<Snapshot>, String>, e: ServiceError) -> bool {
    match (read, e) {
        (Err(cause), ServiceError::Internal(message)) => message@ == "kv read: "@ + cause@,
        (Ok(None), ServiceError::Unavailable(message)) => message@
            == "snapshot not yet populated; cron has not run"@,
        _ => false,
    }
}

/// The table that the store gave.
pub open spec fn table(read: Result<Option<Snapshot>, String>) -> Option<SnapshotView> {
    match read {
        Ok(Some(s)) => Some(s@),
        _ => None,
    }
}

/// The hint for a colo; a colo that is not in the table has none.
pub open spec fn hint_for(s: SnapshotView, colo: Seq<char>) -> LocationHint {
    match first_with_code(s.colos, colo) {
        Some(c) => hint_of(c.nearest_region),
        None => LocationHint::Unspecified,
    }
}

/// The table has the colo.
pub open spec fn knows(s: SnapshotView, colo: Seq<char>) -> bool {
    first_with_code(s.colos, colo) is Some
}

/// What is published of a colo, if the table has it.
pub open spec fn info_for(s: SnapshotView, colo: Seq<char>) -> Option<ColoPbView> {
    match first_with_code(s.colos, colo) {
        Some(c) => Some(published(c)),
        None => None,
    }
}

/// What is published of all colos, in the order of the table.
pub open spec fn listing(s: SnapshotView) -> Seq<ColoPbView> {
    Seq::new(s.colos.len(), |i: int| published(s.colos[i]))
}

/// The table that the store gave, or the error to answer with.
pub fn load_snapshot(read: Result<Option<Snapshot>, String>) -> (r: Result<Snapshot, ServiceError>)
    ensures
        match r {
            Ok(s) => read == Ok::<Option<Snapshot>, String>(Some(s)),
            Err(e) => is_load_error(read, e),
        },
{
    match read {
        Err(cause) => Err(ServiceError::Internal("kv read: ".to_owned().concat(cause.as_str()))),
        Ok(None) => Err(
            ServiceError::Unavailable("snapshot not yet populated; cron has not run".to_owned()),
        ),
        Ok(Some(s)) => Ok(s),
    }
}

/// The hint for one colo.
pub fn get_location_hint(read: Result<Option<Snapshot>, String>, colo: &str) -> (r: Result<
    GetLocationHintResponse,
    ServiceError,
>)
    ensures
        match r {
            Ok(resp) => {
                &&& table(read) is Some
                &&& resp.hint == hint_for(table(read)->0, colo@)
                &&& resp.known == knows(table(read)->0, colo@)
            },
            Err(e) => is_load_error(read, e),
        },
{
    let snap: Snapshot = match load_snapshot(read) {
        Ok(s) => s,
        Err(e) => {
            return Err(e);
        },
    };
    match snap.find(colo) {
        Some(entry) => Ok(GetLocationHintResponse { hint: entry_hint(entry), known: true }),
        None => Ok(GetLocationHintResponse { hint: LocationHint::Unspecified, known: false }),
    }
}

/// What is published of one colo.
pub fn get_colo_info(read: Result<Option<Snapshot>, String>, colo: &str) -> (r: Result<
    GetColoInfoResponse,
    ServiceError,
>)
    ensures
        match r {
            Ok(resp) => {
                &&& table(read) is Some
                &&& match resp.colo {
                    Some(c) => info_for(table(read)->0, colo@) == Some(c@),
                    None => info_for(table(read)->0, colo@) is None,
                }
                &&& resp.known == knows(table(read)->0, colo@)
            },
            Err(e) => is_load_error(read, e),
        },
{
    let snap: Snapshot = match load_snapshot(read) {
        Ok(s) => s,
        Err(e) => {
            return Err(e);
        },
    };
    match snap.find(colo) {
        Some(entry) => Ok(GetColoInfoResponse { colo: Some(entry_to_pb(entry)), known: true }),
        None => Ok(GetColoInfoResponse { colo: None, known: false }),
    }
}

/// What is published of all colos. Consumers call this once, keep the answer, and
/// look up colos there.
pub fn list_colos(read: Result<Option<Snapshot>, String>) -> (r: Result<
    ListColosResponse,
    ServiceError,
>)
    ensures
        match r {
            Ok(resp) => {
                &&& table(read) is Some
                &&& resp.snapshot@ == summary(table(read)->0)
                &&& resp.colos@.len() == listing(table(read)->0).len()
                &&& forall|i: int|
                    0 <= i < resp.colos@.len() ==> (#[trigger] resp.colos@[i])@ == listing(
                        table(read)->0,
                    )[i]
            },
            Err(e) => is_load_error(read, e),
        },
{
    let snap: Snapshot = match load_snapshot(read) {
        Ok(s) => s,
        Err(e) => {
            return Err(e);
        },
    };
    let mut colos: Vec<ColoPb> = Vec::new();
    let mut i: usize = 0;
    while i < snap.colos.len()
        invariant
            i == colos@.len(),
            i <= snap.colos@.len(),
            forall|j: int|
                0 <= j < i ==> (#[trigger] colos@[j])@ == published(snap.colos@[j]@),
        decreases snap.colos@.len() - i,
    {
        colos.push(entry_to_pb(&snap.colos[i]));
        i = i + 1;
    }
    Ok(ListColosResponse { snapshot: snapshot_to_pb(&snap), colos })
}

/// What is published of the table as a whole.
pub fn get_snapshot(read: Result<Option<Snapshot>, String>) -> (r: Result<
    GetSnapshotResponse,
    ServiceError,
>)
    ensures
        match r {
            Ok(resp) => table(read) is Some && resp.snapshot@ == summary(table(read)->0),
            Err(e) => is_load_error(read, e),
        },
{
    match load_snapshot(read) {
        Ok(snap) => Ok(GetSnapshotResponse { snapshot: snapshot_to_pb(&snap) }),
        Err(e) => Err(e),
    }
}

/// The first colo of a listing with a given code.
pub open spec fn first_listed(colos: Seq<ColoPbView>, code: Seq<char>) -> Option<ColoPbView>
    decreases colos.len(),
{
    if colos.len() == 0 {
        None
    } else if colos.first().code == code {
        Some(colos.first())
    } else {
        first_listed(colos.drop_first(), code)
    }
}

/// A consumer that keeps the answer to `ListColos` and looks a colo up there finds
/// what `GetColoInfo` answers.
pub proof fn listing_agrees_with_single_answers(s: SnapshotView, colo: Seq<char>)
    ensures
        first_listed(listing(s), colo) == info_for(s, colo),
        knows(s, colo) <==> info_for(s, colo) is Some,
        knows(s, colo) ==> info_for(s, colo)->0.hint == hint_for(s, colo) && info_for(
            s,
            colo,
        )->0.code == colo,
    decreases s.colos.len(),
{
    if s.colos.len() > 0 {
        let rest = SnapshotView { colos: s.colos.drop_first(), ..s };
        assert(listing(s).drop_first() =~= listing(rest));
        listing_agrees_with_single_answers(rest, colo);
    }
}

/// A colo that the table does not have gets no hint.
pub proof fn unknown_colo_has_no_hint(s: SnapshotView, colo: Seq<char>)
    requires
        forall|i: int| 0 <= i < s.colos.len() ==> (#[trigger] s.colos[i]).code != colo,
    ensures
        !knows(s, colo),
        hint_for(s, colo) == LocationHint::Unspecified,
        info_for(s, colo) is None,
{
    first_with_code_is_first(s.colos, colo);
}

/// A colo that the table has is known, and its hint is that of the region that
/// the table gives for it.
pub proof fn listed_colo_is_known(s: SnapshotView, i: int)
    requires
        0 <= i < s.colos.len(),
        distinct_codes(s.colos),
    ensures
        knows(s, s.colos[i].code),
        hint_for(s, s.colos[i].code) == hint_of(s.colos[i].nearest_region),
        info_for(s, s.colos[i].code) == Some(published(s.colos[i])),
{
    first_with_code_is_first(s.colos, s.colos[i].code);
}

} // verus!
