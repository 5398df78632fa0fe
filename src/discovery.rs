use vstd::prelude::*;

verus! {

/// How many sessions discovery tries: the one the environment names, then the
/// numbered ones `0` to `254`.
pub const CANDIDATE_COUNT: usize = 256;

/// A session to probe for a backend.
#[derive(Clone, Copy, Debug, PartialEq, Eq, Structural)]
pub enum Session {
    /// The session that the process environment already names.
    Ambient,
    /// A numbered session (display `:k`, socket `wayland-k`); probing it first
    /// points the environment at it.
    Numbered(u8),
}

/// The candidate at position `i` of the probing order.
pub open spec fn candidate(i: int) -> Session {
    if i == 0 {
        Session::Ambient
    } else {
        Session::Numbered((i - 1) as u8)
    }
}

/// What discovery asks for next.
#[derive(Clone, Copy, Debug, PartialEq, Eq, Structural)]
pub enum ProbeStep {
    /// Construct a backend on this session and read from it once.
    Probe(Session),
    /// This session works: keep the backend built on it.
    Found(Session),
    /// No candidate worked.
    Exhausted,
}

/// The model of a search: the position of the candidate probed last, and
/// whether the search is over.
pub struct DiscoveryView {
    pub index: nat,
    pub finished: bool,
}

/// The search after the candidate probed last succeeded (`ok`) or failed, and
/// what it asks for next.
pub open spec fn probe_next(d: DiscoveryView, ok: bool) -> (DiscoveryView, ProbeStep) {
    if ok {
        (DiscoveryView { index: d.index, finished: true }, ProbeStep::Found(candidate(d.index as int)))
    } else if d.index + 1 < CANDIDATE_COUNT {
        (
            DiscoveryView { index: (d.index + 1) as nat, finished: false },
            ProbeStep::Probe(candidate(d.index + 1 as int)),
        )
    } else {
        (DiscoveryView { index: d.index, finished: true }, ProbeStep::Exhausted)
    }
}

/// Searches for a live session of one backend, in a fixed order of candidates.
pub struct Discovery {
    index: usize,
    finished: bool,
}

impl View for Discovery {
    type V = DiscoveryView;

    closed spec fn view(&self) -> DiscoveryView {
        DiscoveryView { index: self.index as nat, finished: self.finished }
    }
}

impl Discovery {
    /// A search still under way, on a candidate that exists.
    pub open spec fn wf(&self) -> bool {
        !self@.finished && self@.index < CANDIDATE_COUNT
    }

    /// Starts a search: the first probe is of the session the environment names.
    pub fn start() -> (r: (Discovery, ProbeStep))
        ensures
            r.0.wf(),
            r.0@ == (DiscoveryView { index: 0, finished: false }),
            r.1 == ProbeStep::Probe(candidate(0)),
    {
        (Discovery { index: 0, finished: false }, ProbeStep::Probe(Session::Ambient))
    }

    /// Takes whether the probe that was asked for succeeded.
    pub fn on_probe(&mut self, succeeded: bool) -> (step: ProbeStep)
        requires
            old(self).wf(),
        ensures
            (final(self)@, step) == probe_next(old(self)@, succeeded),
            step is Probe ==> final(self).wf(),
    {
        let i = self.index;
        let session = if i == 0 {
            Session::Ambient
        } else {
            Session::Numbered((i - 1) as u8)
        };
        if succeeded {
            self.finished = true;
            ProbeStep::Found(session)
        } else if i + 1 < CANDIDATE_COUNT {
            self.index = i + 1;
            ProbeStep::Probe(Session::Numbered(i as u8))
        } else {
            self.finished = true;
            ProbeStep::Exhausted
        }
    }

    /// Whether the search is over.
    pub fn is_finished(&self) -> (r: bool)
        ensures
            r == self@.finished,
    {
        self.finished
    }
}

impl Session {
    /// The number of a numbered session; none for the ambient one.
    pub fn number(&self) -> (r: Option<u8>)
        ensures
            r == (match *self {
                Session::Ambient => None,
                Session::Numbered(k) => Some(k),
            }),
    {
        match *self {
            Session::Ambient => None,
            Session::Numbered(k) => Some(k),
        }
    }
}

/// The probes that a search asks for from state `d` on, when probing candidate
/// `j` would succeed exactly where `ok[j]` holds; and how the search ends.
pub open spec fn drive(d: DiscoveryView, ok: Seq<bool>) -> (Seq<Session>, ProbeStep)
    decreases CANDIDATE_COUNT - d.index,
{
    if d.finished || d.index >= CANDIDATE_COUNT {
        (Seq::empty(), ProbeStep::Exhausted)
    } else {
        let (next, step) = probe_next(d, ok[d.index as int]);
        if step is Probe {
            let rest = drive(next, ok);
            (seq![step->Probe_0] + rest.0, rest.1)
        } else {
            (Seq::empty(), step)
        }
    }
}

/// Every probe of a search, the first included, in order; and how it ends.
pub open spec fn search(ok: Seq<bool>) -> (Seq<Session>, ProbeStep) {
    let rest = drive(DiscoveryView { index: 0, finished: false }, ok);
    (seq![candidate(0)] + rest.0, rest.1)
}

proof fn lemma_drive_to_first(ok: Seq<bool>, i: int, k: int)
    requires
        ok.len() == CANDIDATE_COUNT,
        0 <= i <= k < CANDIDATE_COUNT,
        ok[k],
        forall|j: int| 0 <= j < k ==> !ok[j],
    ensures
        drive(DiscoveryView { index: i as nat, finished: false }, ok)
            == (Seq::new((k - i) as nat, |t: int| candidate(i + 1 + t)), ProbeStep::Found(candidate(k))),
    decreases k - i,
{
    if i < k {
        lemma_drive_to_first(ok, i + 1, k);
        let rest = drive(DiscoveryView { index: (i + 1) as nat, finished: false }, ok);
        assert(seq![candidate(i + 1)] + rest.0
            =~= Seq::new((k - i) as nat, |t: int| candidate(i + 1 + t)));
    } else {
        assert(Seq::<Session>::empty() =~= Seq::new(0, |t: int| candidate(i + 1 + t)));
    }
}

proof fn lemma_drive_all_fail(ok: Seq<bool>, i: int)
    requires
        ok.len() == CANDIDATE_COUNT,
        0 <= i < CANDIDATE_COUNT,
        forall|j: int| 0 <= j < CANDIDATE_COUNT ==> !ok[j],
    ensures
        drive(DiscoveryView { index: i as nat, finished: false }, ok) == (
            Seq::new((CANDIDATE_COUNT - 1 - i) as nat, |t: int| candidate(i + 1 + t)),
            ProbeStep::Exhausted,
        ),
    decreases CANDIDATE_COUNT - i,
{
    if i + 1 < CANDIDATE_COUNT {
        lemma_drive_all_fail(ok, i + 1);
        let rest = drive(DiscoveryView { index: (i + 1) as nat, finished: false }, ok);
        assert(seq![candidate(i + 1)] + rest.0 =~= Seq::new(
            (CANDIDATE_COUNT - 1 - i) as nat,
            |t: int| candidate(i + 1 + t),
        ));
    } else {
        assert(Seq::<Session>::empty() =~= Seq::new(0, |t: int| candidate(i + 1 + t)));
    }
}

/// Discovery stops at the first session that works: when candidate `k` is the
/// first whose probe succeeds, the search probes candidates `0` to `k` in order,
/// none after, and ends with candidate `k`. A numbered session is pointed to only
/// by its own probe, so after a success the environment is left as it is.
pub proof fn lemma_discovery_finds_first(ok: Seq<bool>, k: int)
    requires
        ok.len() == CANDIDATE_COUNT,
        0 <= k < CANDIDATE_COUNT,
        ok[k],
        forall|j: int| 0 <= j < k ==> !ok[j],
    ensures
        search(ok) == (Seq::new((k + 1) as nat, |i: int| candidate(i)), ProbeStep::Found(candidate(k))),
{
    lemma_drive_to_first(ok, 0, k);
    let rest = drive(DiscoveryView { index: 0, finished: false }, ok);
    assert(seq![candidate(0)] + rest.0 =~= Seq::new((k + 1) as nat, |i: int| candidate(i)));
}

/// Where no probe succeeds, the search probes every candidate once, in order,
/// and ends exhausted.
pub proof fn lemma_discovery_exhausts(ok: Seq<bool>)
    requires
        ok.len() == CANDIDATE_COUNT,
        forall|j: int| 0 <= j < CANDIDATE_COUNT ==> !ok[j],
    ensures
        search(ok) == (Seq::new(CANDIDATE_COUNT as nat, |i: int| candidate(i)), ProbeStep::Exhausted),
{
    lemma_drive_all_fail(ok, 0);
    let rest = drive(DiscoveryView { index: 0, finished: false }, ok);
    assert(seq![candidate(0)] + rest.0 =~= Seq::new(CANDIDATE_COUNT as nat, |i: int| candidate(i)));
}

} // verus!
