//! Shared service state: the rotation interval, the candidate URL set with
//! its current selection, and the transient sensor readings, together with
//! every read-modify-write step that the HTTP handlers and the background
//! loops perform on them.

use vstd::prelude::*;

verus! {

/// Last sensor readings merged from the readings file, in thousandths of a
/// unit (milli-degrees, milli-percent); never persisted.
#[derive(Debug, Clone, Copy, PartialEq, Eq, Structural)]
pub struct ThCombine {
    pub temperature_milli: i64,
    pub humidity_milli: i64,
}

/// Shared service state guarded by the caller's single exclusion domain:
/// rotation interval, candidate URL set, current pick, sensor readings.
///
/// The rotation interval is kept in milliseconds; the persisted JSON field
/// `durationSecs` holds the same value in (possibly fractional) seconds.
/// An empty `image_url` means no current selection.
#[derive(Debug, Clone)]
pub struct State {
    pub duration_millis: u64,
    pub image_urls: Vec<String>,
    pub image_url: String,
    pub th_combine: Option<ThCombine>,
}

/// Read-only projection of the current state for the polling clients:
/// a wall-clock timestamp, the current pick (absent when none), and the
/// sensor readings (absent when none were merged yet).
#[derive(Debug, Clone)]
pub struct Snapshot {
    pub date_time: String,
    pub image_url: Option<String>,
    pub th_combine: Option<ThCombine>,
}

/// Read-only listing of the full configuration for the configuration UI.
#[derive(Debug, Clone)]
pub struct Listing {
    pub duration_millis: u64,
    pub image_urls: Vec<String>,
    pub image_url: Option<String>,
}

/// Relies on chrono::Local::now and DateTime::to_rfc3339: the current
/// local wall-clock time as RFC 3339 text; nothing is promised of the
/// clock's reading.
#[verifier::external_body]
fn local_now_rfc3339() -> (r: String) {
    chrono::Local::now().to_rfc3339()
}

/// Relies on rand::random_range: returns a uniform value of the given
/// range; the range `0..bound` is non-empty, so the call cannot panic.
#[verifier::external_body]
fn random_below(bound: usize) -> (r: usize)
    requires
        bound >= 1,
    ensures
        r < bound,
{
    rand::random_range(0..bound)
}

impl State {
    /// The candidate URLs hold no duplicates (set semantics).
    pub open spec fn wf(self) -> bool {
        forall|i: int, j: int|
            0 <= i < j < self.image_urls@.len() ==> self.image_urls@[i]@ != self.image_urls@[j]@
    }

    /// The candidate set holds `u`.
    pub open spec fn urls_contain(self, u: Seq<char>) -> bool {
        exists|i: int| 0 <= i < self.image_urls@.len() && self.image_urls@[i]@ == u
    }

    /// One rotation transition: with a non-empty candidate set, the pick of
    /// index `k` becomes current; with an empty set nothing changes.
    pub open spec fn spec_select(self, k: int) -> State {
        if self.image_urls@.len() > 0 && 0 <= k < self.image_urls@.len() {
            State { image_url: self.image_urls@[k], ..self }
        } else {
            self
        }
    }

    /// The durable configuration this state carries, as mathematics: the
    /// readings are transient and not part of it.
    pub open spec fn model(self) -> crate::json::ConfigModel {
        crate::json::ConfigModel {
            duration_millis: self.duration_millis,
            urls: self.image_urls@.map_values(|u: String| u@),
            url: self.image_url@,
        }
    }

    /// The default configuration used when no valid one can be loaded:
    /// a one-minute interval, no candidates, no selection, no readings.
    pub fn new() -> (s: State)
        ensures
            s.duration_millis == 60000,
            s.image_urls@.len() == 0,
            s.image_url@ == Seq::<char>::empty(),
            s.th_combine is None,
            s.wf(),
    {
        State {
            duration_millis: 60000,
            image_urls: Vec::new(),
            image_url: String::new(),
            th_combine: None,
        }
    }

    /// Whether `url` is already a candidate.
    pub fn contains_url(&self, url: &String) -> (r: bool)
        ensures
            r == self.urls_contain(url@),
    {
        let mut k: usize = 0;
        while k < self.image_urls.len()
            invariant
                k <= self.image_urls@.len(),
                forall|i: int| 0 <= i < k ==> self.image_urls@[i]@ != url@,
            decreases self.image_urls@.len() - k,
        {
            if self.image_urls[k] == *url {
                return true;
            }
            k += 1;
        }
        false
    }

    /// Add a candidate URL; adding one that is already present changes
    /// nothing (set semantics).
    pub fn add_url(&mut self, url: String)
        requires
            old(self).wf(),
        ensures
            final(self).wf(),
            final(self).image_urls@ == spec_add_urls(old(self).image_urls@, url),
            final(self).urls_contain(url@),
            final(self).duration_millis == old(self).duration_millis,
            final(self).image_url == old(self).image_url,
            final(self).th_combine == old(self).th_combine,
    {
        if !self.contains_url(&url) {
            self.image_urls.push(url);
            assert(self.image_urls@[self.image_urls@.len() - 1]@ == url@);
        }
    }

    /// Remove a candidate URL; removing an absent one changes nothing.
    /// The current selection is never cleared, even when it names the
    /// removed URL: a stale selection is the documented behaviour.
    pub fn remove_url(&mut self, url: &String)
        requires
            old(self).wf(),
        ensures
            final(self).wf(),
            !final(self).urls_contain(url@),
            forall|v: Seq<char>|
                v != url@ ==> (final(self).urls_contain(v) == old(self).urls_contain(v)),
            old(self).urls_contain(url@) ==> exists|i: int|
                0 <= i < old(self).image_urls@.len() && old(self).image_urls@[i]@ == url@
                    && final(self).image_urls@ == old(self).image_urls@.remove(i),
            !old(self).urls_contain(url@) ==> final(self).image_urls@ == old(self).image_urls@,
            final(self).duration_millis == old(self).duration_millis,
            final(self).image_url == old(self).image_url,
            final(self).th_combine == old(self).th_combine,
    {
        let mut k: usize = 0;
        while k < self.image_urls.len()
            invariant
                k <= self.image_urls@.len(),
                forall|i: int| 0 <= i < k ==> self.image_urls@[i]@ != url@,
                self.wf(),
                self.duration_millis == old(self).duration_millis,
                self.image_url == old(self).image_url,
                self.th_combine == old(self).th_combine,
                self.image_urls@ == old(self).image_urls@,
            decreases self.image_urls@.len() - k,
        {
            if self.image_urls[k] == *url {
                let ghost pre = self.image_urls@;
                self.image_urls.remove(k);
                proof {
                    assert forall|v: Seq<char>| v != url@ && old(self).urls_contain(v) implies self
                        .urls_contain(v) by {
                        let i = choose|i: int| 0 <= i < pre.len() && pre[i]@ == v;
                        if i < k {
                            assert(self.image_urls@[i]@ == v);
                        } else {
                            assert(self.image_urls@[i - 1]@ == v);
                        }
                    }
                    assert forall|v: Seq<char>| self.urls_contain(v) implies v != url@ && old(
                        self,
                    ).urls_contain(v) by {
                        let j = choose|j: int|
                            0 <= j < self.image_urls@.len() && self.image_urls@[j]@ == v;
                        if j < k {
                            assert(pre[j]@ == v);
                        } else {
                            assert(pre[j + 1]@ == v);
                        }
                    }
                }
                return;
            }
            k += 1;
        }
    }

    /// Apply a partial update from a configuration client: an absent field
    /// leaves the matching part of the state unchanged.
    pub fn patch(&mut self, url: Option<String>, duration_millis: Option<u64>)
        requires
            old(self).wf(),
        ensures
            final(self).wf(),
            match url {
                Some(u) => final(self).image_url == u,
                None => final(self).image_url == old(self).image_url,
            },
            match duration_millis {
                Some(d) => final(self).duration_millis == d,
                None => final(self).duration_millis == old(self).duration_millis,
            },
            final(self).image_urls@ == old(self).image_urls@,
            final(self).th_combine == old(self).th_combine,
    {
        if let Some(u) = url {
            self.image_url = u;
        }
        if let Some(d) = duration_millis {
            self.duration_millis = d;
        }
    }

    /// One cycle of the rotation scheduler: with a non-empty candidate set,
    /// a uniformly random candidate becomes the current selection; with an
    /// empty set nothing changes. Whatever index the generator yields, the
    /// result is one `spec_select` transition of the old state.
    pub fn shuffle_step(&mut self)
        requires
            old(self).wf(),
        ensures
            final(self).wf(),
            old(self).image_urls@.len() > 0 ==> exists|k: int|
                0 <= k < old(self).image_urls@.len() && *final(self) == old(self).spec_select(k),
            old(self).image_urls@.len() > 0 ==> final(self).urls_contain(final(self).image_url@),
            old(self).image_urls@.len() == 0 ==> *final(self) == *old(self),
            final(self).image_urls@ == old(self).image_urls@,
            final(self).duration_millis == old(self).duration_millis,
            final(self).th_combine == old(self).th_combine,
    {
        if self.image_urls.len() > 0 {
            let k = random_below(self.image_urls.len());
            self.image_url = self.image_urls[k].clone();
            assert(*self == old(self).spec_select(k as int));
            assert(self.image_urls@[k as int]@ == self.image_url@);
        }
    }

    /// One cycle of the sensor ingest loop after the readings file was read:
    /// a parsed reading overwrites both transient fields; a read or parse
    /// failure leaves the state unchanged (the loop only retries).
    pub fn ingest_step(&mut self, reading: Option<ThCombine>)
        ensures
            match reading {
                Some(t) => final(self).th_combine == Some(t),
                None => final(self).th_combine == old(self).th_combine,
            },
            final(self).duration_millis == old(self).duration_millis,
            final(self).image_urls@ == old(self).image_urls@,
            final(self).image_url == old(self).image_url,
    {
        if let Some(t) = reading {
            self.th_combine = Some(t);
        }
    }

    /// Project the state for the polling clients, stamping it with the given
    /// wall-clock text; no state is read beyond the pick and the readings.
    pub fn snapshot(&self, date_time: String) -> (r: Snapshot)
        ensures
            r.date_time == date_time,
            self.image_url@.len() == 0 ==> r.image_url is None,
            self.image_url@.len() != 0 ==> r.image_url == Some(self.image_url),
            r.th_combine == self.th_combine,
    {
        let image_url = if self.image_url.as_str().is_empty() {
            None
        } else {
            Some(self.image_url.clone())
        };
        Snapshot { date_time, image_url, th_combine: self.th_combine }
    }

    /// Project the state for the polling clients, stamped with the present
    /// wall-clock time; whatever the clock reads, the projected pick and
    /// readings are the state's own.
    pub fn snapshot_now(&self) -> (r: Snapshot)
        ensures
            self.image_url@.len() == 0 ==> r.image_url is None,
            self.image_url@.len() != 0 ==> r.image_url == Some(self.image_url),
            r.th_combine == self.th_combine,
    {
        self.snapshot(local_now_rfc3339())
    }

    /// Project the full configuration for the configuration UI.
    pub fn listing(&self) -> (r: Listing)
        ensures
            r.duration_millis == self.duration_millis,
            r.image_urls@ == self.image_urls@,
            self.image_url@.len() == 0 ==> r.image_url is None,
            self.image_url@.len() != 0 ==> r.image_url == Some(self.image_url),
    {
        let image_url = if self.image_url.as_str().is_empty() {
            None
        } else {
            Some(self.image_url.clone())
        };
        Listing {
            duration_millis: self.duration_millis,
            image_urls: self.image_urls.clone(),
            image_url,
        }
    }
}

/// The URLs of `urls` hold no duplicates (the candidate-set invariant,
/// stated of the sequence alone).
pub open spec fn urls_distinct(urls: Seq<String>) -> bool {
    forall|i: int, j: int| 0 <= i < j < urls.len() ==> urls[i]@ != urls[j]@
}

/// Whether `urls` holds a URL that reads `v`.
pub open spec fn urls_have(urls: Seq<String>, v: Seq<char>) -> bool {
    exists|i: int| 0 <= i < urls.len() && urls[i]@ == v
}

/// What adding a candidate URL does to the candidate sequence: nothing when
/// an equal URL is present, a push at the end otherwise.
pub open spec fn spec_add_urls(urls: Seq<String>, u: String) -> Seq<String> {
    if urls_have(urls, u@) {
        urls
    } else {
        urls.push(u)
    }
}

/// How many URLs of `urls` read `v`.
pub open spec fn count_matching(urls: Seq<String>, v: Seq<char>) -> nat
    decreases urls.len(),
{
    if urls.len() == 0 {
        0
    } else {
        count_matching(urls.drop_last(), v) + if urls.last()@ == v {
            1nat
        } else {
            0nat
        }
    }
}

/// In a duplicate-free candidate sequence, a URL occurs once if it is
/// present at all, and never more.
proof fn lemma_count_of_distinct(urls: Seq<String>, v: Seq<char>)
    requires
        urls_distinct(urls),
    ensures
        count_matching(urls, v) == if urls_have(urls, v) {
            1nat
        } else {
            0nat
        },
    decreases urls.len(),
{
    if urls.len() > 0 {
        let head = urls.drop_last();
        assert(urls_distinct(head)) by {
            assert(forall|i: int| 0 <= i < head.len() ==> head[i] == urls[i]);
        }
        lemma_count_of_distinct(head, v);
        if urls.last()@ == v {
            assert(!urls_have(head, v)) by {
                assert(forall|i: int|
                    0 <= i < head.len() ==> #[trigger] urls[i]@ != urls[urls.len() - 1]@);
            }
            assert(urls_have(urls, v));
        } else {
            if urls_have(urls, v) {
                let i = choose|i: int| 0 <= i < urls.len() && urls[i]@ == v;
                assert(head[i]@ == v);
            } else {
                assert(!urls_have(head, v)) by {
                    assert(forall|i: int| 0 <= i < head.len() ==> head[i] == urls[i]);
                }
            }
        }
    }
}

/// Adding a URL to the candidate set is idempotent: a second add of the same
/// URL changes nothing, and after the first add the set holds exactly one
/// copy of it.
pub proof fn lemma_add_url_idempotent(urls: Seq<String>, u: String)
    requires
        urls_distinct(urls),
    ensures
        spec_add_urls(spec_add_urls(urls, u), u) == spec_add_urls(urls, u),
        count_matching(spec_add_urls(urls, u), u@) == 1,
{
    let once = spec_add_urls(urls, u);
    assert(urls_have(once, u@)) by {
        if urls_have(urls, u@) {
            let i = choose|i: int| 0 <= i < urls.len() && urls[i]@ == u@;
            assert(once[i]@ == u@);
        } else {
            assert(once[urls.len() as int]@ == u@);
        }
    }
    assert(urls_distinct(once)) by {
        if !urls_have(urls, u@) {
            assert(forall|i: int| 0 <= i < urls.len() ==> once[i] == urls[i]);
            assert(forall|i: int| 0 <= i < urls.len() ==> urls[i]@ != u@) by {
                assert(forall|i: int| 0 <= i < urls.len() && urls[i]@ == u@ ==> urls_have(
                    urls,
                    u@,
                ));
            }
        }
    }
    lemma_count_of_distinct(once, u@);
}

/// Running the rotation scheduler for any number of cycles: each cycle
/// applies one `spec_select` transition with the index it drew.
pub open spec fn spec_run(s: State, ks: Seq<int>) -> State
    decreases ks.len(),
{
    if ks.len() == 0 {
        s
    } else {
        spec_run(s.spec_select(ks[0]), ks.skip(1))
    }
}

/// After any number of rotation cycles over a non-empty candidate set, the
/// current selection made by the last cycle is a member of the set at that
/// instant, and the cycles leave every other part of the state unchanged.
pub proof fn lemma_rotation_membership(s: State, ks: Seq<int>)
    requires
        s.wf(),
        forall|i: int| 0 <= i < ks.len() ==> 0 <= #[trigger] ks[i] < s.image_urls@.len(),
    ensures
        spec_run(s, ks).image_urls == s.image_urls,
        spec_run(s, ks).duration_millis == s.duration_millis,
        spec_run(s, ks).th_combine == s.th_combine,
        ks.len() == 0 ==> spec_run(s, ks) == s,
        s.image_urls@.len() > 0 && ks.len() > 0 ==> spec_run(s, ks).urls_contain(
            spec_run(s, ks).image_url@,
        ),
    decreases ks.len(),
{
    if ks.len() > 0 {
        let s1 = s.spec_select(ks[0]);
        assert(s1.image_urls == s.image_urls);
        lemma_rotation_membership(s1, ks.skip(1));
        if s.image_urls@.len() > 0 && ks.len() == 1 {
            assert(spec_run(s, ks) == s1);
            assert(s1.image_urls@[ks[0]]@ == s1.image_url@);
        }
    }
}

} // verus!
