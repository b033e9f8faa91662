//! The stored table of colos, and the messages it is published in.

use crate::latency::Latency;
use crate::text::same;
use crate::textmap::TextMap;
use vstd::prelude::*;

verus! {

/// The table of colos, as it is stored.
#[derive(Debug, Clone)]
pub struct Snapshot {
    /// The day the table was made, `YYYY-MM-DD`.
    pub version: String,
    pub colos: Vec<ColoEntry>,
}

/// What is known of one colo.
#[derive(Debug, Clone)]
pub struct ColoEntry {
    /// The IATA code of the colo.
    pub code: String,
    pub name: String,
    /// The region in which the status page lists the colo.
    pub cf_region: String,
    /// The region to place a Durable Object in, where one is known.
    pub nearest_region: Option<String>,
    /// The latencies measured from the colo to the regions. They are kept from
    /// one refresh to the next, to weigh a new region against the current one;
    /// they are not published.
    pub regions: TextMap<Latency>,
}

/// The content of a `ColoEntry`.
pub struct ColoView {
    pub code: Seq<char>,
    pub name: Seq<char>,
    pub cf_region: Seq<char>,
    pub nearest_region: Option<Seq<char>>,
    pub regions: Map<Seq<char>, Latency>,
}

/// The content of a `Snapshot`.
pub struct SnapshotView {
    pub version: Seq<char>,
    pub colos: Seq<ColoView>,
}

/// The content of an optional string.
pub open spec fn text_of(s: Option<String>) -> Option<Seq<char>> {
    match s {
        Some(t) => Some(t@),
        None => None,
    }
}

impl View for ColoEntry {
    type V = ColoView;

    open spec fn view(&self) -> ColoView {
        ColoView {
            code: self.code@,
            name: self.name@,
            cf_region: self.cf_region@,
            nearest_region: text_of(self.nearest_region),
            regions: self.regions@,
        }
    }
}

/// The contents of a list of entries.
pub open spec fn colo_views(entries: Seq<ColoEntry>) -> Seq<ColoView> {
    Seq::new(entries.len(), |i: int| entries[i]@)
}

impl View for Snapshot {
    type V = SnapshotView;

    open spec fn view(&self) -> SnapshotView {
        SnapshotView { version: self.version@, colos: colo_views(self.colos@) }
    }
}

/// The first colo in the list with a given code.
pub open spec fn first_with_code(colos: Seq<ColoView>, code: Seq<char>) -> Option<ColoView>
    decreases colos.len(),
{
    if colos.len() == 0 {
        None
    } else if colos.first().code == code {
        Some(colos.first())
    } else {
        first_with_code(colos.drop_first(), code)
    }
}

/// The colos for which a region is known.
pub open spec fn hinted(colos: Seq<ColoView>) -> Seq<ColoView> {
    colos.filter(|c: ColoView| c.nearest_region is Some)
}

/// A first match is in the list, has the code, and comes before all others that
/// have it; without one, no colo of the list has the code.
pub proof fn first_with_code_is_first(colos: Seq<ColoView>, code: Seq<char>)
    ensures
        match first_with_code(colos, code) {
            Some(c) => exists|i: int|
                {
                    &&& 0 <= i < colos.len()
                    &&& #[trigger] colos[i] == c
                    &&& c.code == code
                    &&& forall|j: int| 0 <= j < i ==> (#[trigger] colos[j]).code != code
                },
            None => forall|j: int| 0 <= j < colos.len() ==> (#[trigger] colos[j]).code != code,
        },
    decreases colos.len(),
{
    if colos.len() > 0 && colos.first().code != code {
        let rest = colos.drop_first();
        first_with_code_is_first(rest, code);
        match first_with_code(rest, code) {
            Some(c) => {
                let i = choose|i: int|
                    {
                        &&& 0 <= i < rest.len()
                        &&& #[trigger] rest[i] == c
                        &&& c.code == code
                        &&& forall|j: int| 0 <= j < i ==> (#[trigger] rest[j]).code != code
                    };
                assert(colos[i + 1] == c);
                assert forall|j: int| 0 <= j < i + 1 implies (#[trigger] colos[j]).code != code by {
                    if j > 0 {
                        assert(rest[j - 1] == colos[j]);
                    }
                }
            },
            None => {
                assert forall|j: int| 0 <= j < colos.len() implies (#[trigger] colos[j]).code
                    != code by {
                    if j > 0 {
                        assert(rest[j - 1] == colos[j]);
                    }
                }
            },
        }
    }
}

impl Snapshot {
    /// The first entry for a colo.
    pub fn find(&self, colo: &str) -> (r: Option<&ColoEntry>)
        ensures
            match r {
                Some(e) => first_with_code(self@.colos, colo@) == Some(e@),
                None => first_with_code(self@.colos, colo@) is None,
            },
    {
        let mut i: usize = 0;
        let ghost colos = self@.colos;
        assert(colos.skip(0) =~= colos);
        while i < self.colos.len()
            invariant
                i <= self.colos@.len(),
                colos == self@.colos,
                first_with_code(colos, colo@) == first_with_code(colos.skip(i as int), colo@),
            decreases self.colos@.len() - i,
        {
            assert(colos.skip(i as int).drop_first() =~= colos.skip(i + 1));
            if same(self.colos[i].code.as_str(), colo) {
                return Some(&self.colos[i]);
            }
            i = i + 1;
        }
        None
    }

    /// The number of colos for which a region is known.
    pub fn with_hint_count(&self) -> (r: usize)
        ensures
            r == hinted(self@.colos).len(),
            r <= self.colos@.len(),
    {
        let mut n: usize = 0;
        let mut i: usize = 0;
        let ghost colos = self@.colos;
        let ghost pred = |c: ColoView| c.nearest_region is Some;
        assert(colos.take(0) =~= Seq::<ColoView>::empty());
        assert(colos.take(0).filter(pred).len() == 0);
        while i < self.colos.len()
            invariant
                n <= i <= self.colos@.len(),
                colos == self@.colos,
                pred == (|c: ColoView| c.nearest_region is Some),
                n == colos.take(i as int).filter(pred).len(),
            decreases self.colos@.len() - i,
        {
            proof {
                assert(colos.take(i + 1) =~= colos.take(i as int).push(colos[i as int]));
                colos.take(i as int).lemma_filter_push(colos[i as int], pred);
            }
            if self.colos[i].nearest_region.is_some() {
                n = n + 1;
            }
            i = i + 1;
        }
        assert(colos.take(i as int) =~= colos);
        n
    }
}

/// The regions in which a Durable Object can be placed, as they are published.
#[derive(Clone, Copy, Debug, PartialEq, Eq, Structural)]
pub enum LocationHint {
    Unspecified,
    /// Western North America.
    Wnam,
    /// Eastern North America.
    Enam,
    /// South America.
    Sam,
    /// Western Europe.
    Weur,
    /// Eastern Europe.
    Eeur,
    /// Asia-Pacific.
    Apac,
    /// Oceania.
    Oc,
    /// Africa.
    Afr,
    /// Middle East.
    Me,
}

/// A colo, as it is published.
#[derive(Debug, Clone)]
pub struct ColoPb {
    pub code: String,
    pub name: String,
    pub cf_region: String,
    pub hint: LocationHint,
}

/// The table as a whole, as it is published.
#[derive(Debug, Clone)]
pub struct SnapshotPb {
    pub version: String,
    pub total_colos: i32,
    pub colos_with_hint: i32,
}

/// The content of a `ColoPb`.
pub struct ColoPbView {
    pub code: Seq<char>,
    pub name: Seq<char>,
    pub cf_region: Seq<char>,
    pub hint: LocationHint,
}

/// The content of a `SnapshotPb`.
pub struct SnapshotPbView {
    pub version: Seq<char>,
    pub total_colos: i32,
    pub colos_with_hint: i32,
}

impl View for ColoPb {
    type V = ColoPbView;

    open spec fn view(&self) -> ColoPbView {
        ColoPbView {
            code: self.code@,
            name: self.name@,
            cf_region: self.cf_region@,
            hint: self.hint,
        }
    }
}

impl View for SnapshotPb {
    type V = SnapshotPbView;

    open spec fn view(&self) -> SnapshotPbView {
        SnapshotPbView {
            version: self.version@,
            total_colos: self.total_colos,
            colos_with_hint: self.colos_with_hint,
        }
    }
}

/// The hint for a region; one that is not known by name has no hint.
pub open spec fn hint_of(region: Option<Seq<char>>) -> LocationHint {
    match region {
        None => LocationHint::Unspecified,
        Some(s) => if s == "wnam"@ {
            LocationHint::Wnam
        } else if s == "enam"@ {
            LocationHint::Enam
        } else if s == "sam"@ {
            LocationHint::Sam
        } else if s == "weur"@ {
            LocationHint::Weur
        } else if s == "eeur"@ {
            LocationHint::Eeur
        } else if s == "apac"@ {
            LocationHint::Apac
        } else if s == "oc"@ {
            LocationHint::Oc
        } else if s == "afr"@ {
            LocationHint::Afr
        } else if s == "me"@ {
            LocationHint::Me
        } else {
            LocationHint::Unspecified
        },
    }
}

/// What is published of a colo.
pub open spec fn published(c: ColoView) -> ColoPbView {
    ColoPbView {
        code: c.code,
        name: c.name,
        cf_region: c.cf_region,
        hint: hint_of(c.nearest_region),
    }
}

/// What is published of the table as a whole. Both counts are cut down to 32 bits.
pub open spec fn summary(s: SnapshotView) -> SnapshotPbView {
    SnapshotPbView {
        version: s.version,
        total_colos: s.colos.len() as i32,
        colos_with_hint: hinted(s.colos).len() as i32,
    }
}

/// The hint for a region.
pub fn hint_str_to_pb(s: Option<&str>) -> (r: LocationHint)
    ensures
        r == hint_of(
            match s {
                Some(t) => Some(t@),
                None => None,
            },
        ),
{
    match s {
        None => LocationHint::Unspecified,
        Some(t) => if same(t, "wnam") {
            LocationHint::Wnam
        } else if same(t, "enam") {
            LocationHint::Enam
        } else if same(t, "sam") {
            LocationHint::Sam
        } else if same(t, "weur") {
            LocationHint::Weur
        } else if same(t, "eeur") {
            LocationHint::Eeur
        } else if same(t, "apac") {
            LocationHint::Apac
        } else if same(t, "oc") {
            LocationHint::Oc
        } else if same(t, "afr") {
            LocationHint::Afr
        } else if same(t, "me") {
            LocationHint::Me
        } else {
            LocationHint::Unspecified
        },
    }
}

/// The hint for the region of a colo.
pub fn entry_hint(e: &ColoEntry) -> (r: LocationHint)
    ensures
        r == hint_of(e@.nearest_region),
{
    match &e.nearest_region {
        Some(region) => hint_str_to_pb(Some(region.as_str())),
        None => hint_str_to_pb(None),
    }
}

/// What is published of a colo.
pub fn entry_to_pb(e: &ColoEntry) -> (r: ColoPb)
    ensures
        r@ == published(e@),
        r.code@ == e.code@,
        r.name@ == e.name@,
        r.cf_region@ == e.cf_region@,
{
    ColoPb {
        code: e.code.clone(),
        name: e.name.clone(),
        cf_region: e.cf_region.clone(),
        hint: entry_hint(e),
    }
}

/// What is published of the table as a whole.
pub fn snapshot_to_pb(s: &Snapshot) -> (r: SnapshotPb)
    ensures
        r@ == summary(s@),
{
    SnapshotPb {
        version: s.version.clone(),
        total_colos: #[verifier::truncate] (s.colos.len() as i32),
        colos_with_hint: #[verifier::truncate] (s.with_hint_count() as i32),
    }
}

/// Regions apart have hints apart, where they have one.
pub proof fn hints_tell_regions_apart(a: Seq<char>, b: Seq<char>)
    requires
        hint_of(Some(a)) == hint_of(Some(b)),
        hint_of(Some(a)) != LocationHint::Unspecified,
    ensures
        a == b,
{
}

/// The measured latencies are not published.
pub proof fn latencies_are_not_published(c: ColoView, regions: Map<Seq<char>, Latency>)
    ensures
        published(ColoView { regions, ..c }) == published(c),
{
}

/// The counts of a table that is not of absurd size are its own: no more colos
/// have a hint than there are.
pub proof fn summary_counts(s: SnapshotView)
    requires
        s.colos.len() <= i32::MAX,
    ensures
        summary(s).total_colos == s.colos.len(),
        summary(s).colos_with_hint == hinted(s.colos).len(),
        0 <= summary(s).colos_with_hint <= summary(s).total_colos,
{
    s.colos.lemma_filter_len(|c: ColoView| c.nearest_region is Some);
}

} // verus!
