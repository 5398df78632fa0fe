use crate::clipboard::{ClipboardContents, ContentsView, empty_contents, is_blank};
use vstd::prelude::*;

verus! {

/// Pause, in milliseconds, before the first backend of a pass that follows a quiet pass.
pub const PASS_DELAY_MS: u64 = 200;

/// Pause, in milliseconds, between two backends checked within one pass.
pub const CHECK_DELAY_MS: u64 = 20;

/// Pause, in milliseconds, after a broadcast before polling starts again.
pub const BROADCAST_DELAY_MS: u64 = 100;

/// The models of a sequence of clipboard values.
pub open spec fn views(v: Seq<ClipboardContents>) -> Seq<ContentsView> {
    v.map_values(|c: ClipboardContents| c@)
}

/// The first value with bytes at or after position `i`, or the empty value.
pub open spec fn seed_from(reads: Seq<ContentsView>, i: int) -> ContentsView
    decreases reads.len() - i,
{
    if i < 0 || i >= reads.len() {
        empty_contents()
    } else if !is_blank(reads[i]) {
        reads[i]
    } else {
        seed_from(reads, i + 1)
    }
}

/// The value that seeds every backend at startup: the first read, in backend
/// order, that holds bytes; the empty value if none does.
pub open spec fn seed_of(reads: Seq<ContentsView>) -> ContentsView {
    seed_from(reads, 0)
}

/// The positions among the first `n` reads whose bytes differ from `bytes`, in order.
pub open spec fn stale_indices(reads: Seq<ContentsView>, bytes: Seq<u8>, n: int) -> Seq<usize>
    decreases n,
{
    if n <= 0 {
        Seq::empty()
    } else {
        let before = stale_indices(reads, bytes, n - 1);
        if reads[n - 1].0 != bytes {
            before.push((n - 1) as usize)
        } else {
            before
        }
    }
}

/// The backends that reconciliation writes the seed to: those that do not hold it yet.
pub open spec fn reconcile_writes(reads: Seq<ContentsView>) -> Seq<usize> {
    stale_indices(reads, seed_of(reads).0, reads.len() as int)
}

/// What the backends hold once reconciliation has written the seed.
pub open spec fn reconciled(reads: Seq<ContentsView>) -> Seq<ContentsView> {
    Seq::new(
        reads.len(),
        |i: int|
            if reads[i].0 != seed_of(reads).0 {
                seed_of(reads)
            } else {
                reads[i]
            },
    )
}

/// Every position below `n` but `skip`, in order.
pub open spec fn all_but(n: int, skip: int) -> Seq<usize>
    decreases n,
{
    if n <= 0 {
        Seq::empty()
    } else {
        let before = all_but(n - 1, skip);
        if n - 1 != skip {
            before.push((n - 1) as usize)
        } else {
            before
        }
    }
}

/// The model of a synchronizer: how many backends it serves, the value last
/// mirrored to all of them, and the backend it reads next.
pub struct SyncView {
    pub count: nat,
    pub baseline: ContentsView,
    pub cursor: nat,
}

/// Whether a read is a new value to mirror: it holds bytes, and not the baseline's.
pub open spec fn is_change(s: SyncView, v: ContentsView) -> bool {
    !is_blank(v) && v.0 != s.baseline.0
}

/// The state after the backend under the cursor reported `v`.
pub open spec fn observe_next(s: SyncView, v: ContentsView) -> SyncView {
    if is_change(s, v) {
        SyncView { count: s.count, baseline: v, cursor: 0 }
    } else {
        SyncView {
            count: s.count,
            baseline: s.baseline,
            cursor: if s.cursor + 1 < s.count {
                (s.cursor + 1) as nat
            } else {
                0
            },
        }
    }
}

/// The backends to write the new baseline to after the backend under the cursor reported `v`.
pub open spec fn observe_writes(s: SyncView, v: ContentsView) -> Seq<usize> {
    if is_change(s, v) {
        all_but(s.count as int, s.cursor as int)
    } else {
        Seq::empty()
    }
}

/// The pause before the next read.
pub open spec fn observe_delay(s: SyncView, v: ContentsView) -> u64 {
    if is_change(s, v) {
        BROADCAST_DELAY_MS
    } else if s.cursor + 1 < s.count {
        CHECK_DELAY_MS
    } else {
        PASS_DELAY_MS
    }
}

/// The state after a series of reads, each from the backend under the cursor.
pub open spec fn run(s: SyncView, reads: Seq<ContentsView>) -> SyncView
    decreases reads.len(),
{
    if reads.len() == 0 {
        s
    } else {
        run(observe_next(s, reads[0]), reads.drop_first())
    }
}

/// All the writes, in order, that a series of reads leads to.
pub open spec fn run_writes(s: SyncView, reads: Seq<ContentsView>) -> Seq<usize>
    decreases reads.len(),
{
    if reads.len() == 0 {
        Seq::empty()
    } else {
        observe_writes(s, reads[0]) + run_writes(observe_next(s, reads[0]), reads.drop_first())
    }
}

/// What to do after a read: write the baseline to `writes`, then pause for `delay_ms`
/// before reading the backend that `Synchronizer::next_backend` names.
pub struct Step {
    pub writes: Vec<usize>,
    pub delay_ms: u64,
}

/// Mirrors one value across a fixed, ordered set of backends.
pub struct Synchronizer {
    count: usize,
    baseline: ClipboardContents,
    cursor: usize,
}

impl View for Synchronizer {
    type V = SyncView;

    closed spec fn view(&self) -> SyncView {
        SyncView { count: self.count as nat, baseline: self.baseline@, cursor: self.cursor as nat }
    }
}

impl Synchronizer {
    /// At least one backend, and the cursor on one of them.
    pub open spec fn wf(&self) -> bool {
        self@.count > 0 && self@.cursor < self@.count
    }

    /// Starts mirroring from the values that the backends hold, in backend order.
    /// Returns the synchronizer, its baseline the seed and its cursor on the first
    /// backend, and the backends that must be written the seed.
    pub fn reconcile(reads: Vec<ClipboardContents>) -> (r: (Synchronizer, Vec<usize>))
        requires
            reads.len() > 0,
        ensures
            r.0.wf(),
            r.0@ == (SyncView {
                count: reads.len() as nat,
                baseline: seed_of(views(reads@)),
                cursor: 0,
            }),
            r.1@ == reconcile_writes(views(reads@)),
    {
        let ghost v = views(reads@);
        let n = reads.len();
        let mut k: usize = 0;
        while k < n && reads[k].is_empty()
            invariant
                n == reads.len(),
                v == views(reads@),
                k <= n,
                seed_of(v) == seed_from(v, k as int),
                forall|j: int| 0 <= j < k ==> is_blank(#[trigger] v[j]),
            decreases n - k,
        {
            k += 1;
        }
        let mut writes: Vec<usize> = Vec::new();
        if k == n {
            proof {
                assert(seed_of(v).0 =~= Seq::<u8>::empty());
                assert forall|j: int| 0 <= j < n implies (#[trigger] v[j]).0 == seed_of(v).0 by {
                    assert(v[j].0 =~= seed_of(v).0);
                }
                lemma_stale_none(v, seed_of(v).0, n as int);
            }
            (Synchronizer { count: n, baseline: ClipboardContents::empty(), cursor: 0 }, writes)
        } else {
            let mut i: usize = 0;
            while i < n
                invariant
                    n == reads.len(),
                    v == views(reads@),
                    k < n,
                    i <= n,
                    seed_of(v) == v[k as int],
                    writes@ == stale_indices(v, seed_of(v).0, i as int),
                decreases n - i,
            {
                if !reads[i].same_contents(&reads[k]) {
                    writes.push(i);
                }
                i += 1;
            }
            let mut reads = reads;
            let seed = reads.remove(k);
            (Synchronizer { count: n, baseline: seed, cursor: 0 }, writes)
        }
    }

    /// Takes what the backend under the cursor reported. A value with bytes that
    /// differ from the baseline becomes the baseline, is to be written to every
    /// other backend, and polling starts over from the first backend; any other
    /// value moves the cursor on, back to the first backend after the last.
    pub fn observe(&mut self, value: ClipboardContents) -> (step: Step)
        requires
            old(self).wf(),
        ensures
            final(self).wf(),
            final(self)@ == observe_next(old(self)@, value@),
            step.writes@ == observe_writes(old(self)@, value@),
            step.delay_ms == observe_delay(old(self)@, value@),
    {
        let n = self.count;
        let source = self.cursor;
        if !value.is_empty() && !value.same_contents(&self.baseline) {
            let mut writes: Vec<usize> = Vec::new();
            let mut i: usize = 0;
            while i < n
                invariant
                    i <= n,
                    writes@ == all_but(i as int, source as int),
                decreases n - i,
            {
                if i != source {
                    writes.push(i);
                }
                i += 1;
            }
            self.baseline = value;
            self.cursor = 0;
            Step { writes, delay_ms: BROADCAST_DELAY_MS }
        } else if source + 1 < n {
            self.cursor = source + 1;
            Step { writes: Vec::new(), delay_ms: CHECK_DELAY_MS }
        } else {
            self.cursor = 0;
            Step { writes: Vec::new(), delay_ms: PASS_DELAY_MS }
        }
    }

    /// The backend to read next.
    pub fn next_backend(&self) -> (r: usize)
        ensures
            r == self@.cursor,
    {
        self.cursor
    }

    /// The value last mirrored to every backend; it is what a step's writes carry.
    pub fn baseline(&self) -> (r: &ClipboardContents)
        ensures
            r@ == self@.baseline,
    {
        &self.baseline
    }

    /// How many backends are mirrored.
    pub fn backend_count(&self) -> (r: usize)
        ensures
            r == self@.count,
    {
        self.count
    }
}

/// No position holds other bytes than `bytes`, so none is stale.
proof fn lemma_stale_none(v: Seq<ContentsView>, bytes: Seq<u8>, n: int)
    requires
        0 <= n <= v.len(),
        forall|j: int| 0 <= j < n ==> (#[trigger] v[j]).0 == bytes,
    ensures
        stale_indices(v, bytes, n) == Seq::<usize>::empty(),
    decreases n,
{
    if n > 0 {
        lemma_stale_none(v, bytes, n - 1);
    }
}

/// When every position holds the bytes `bytes`, the seed holds them too.
proof fn lemma_seed_uniform(x: Seq<ContentsView>, bytes: Seq<u8>, j: int)
    requires
        0 <= j <= x.len(),
        forall|i: int| 0 <= i < x.len() ==> (#[trigger] x[i]).0 == bytes,
        j < x.len() || bytes.len() == 0,
    ensures
        seed_from(x, j).0 == bytes,
    decreases x.len() - j,
{
    if j == x.len() {
        assert(bytes =~= Seq::<u8>::empty());
    } else if is_blank(x[j]) {
        lemma_seed_uniform(x, bytes, j + 1);
    }
}

/// Reconciliation is idempotent: once the seed has been written, reconciling the
/// backends again picks a seed with the same bytes and writes to no backend.
pub proof fn lemma_reconcile_idempotent(reads: Seq<ContentsView>)
    ensures
        seed_of(reconciled(reads)).0 == seed_of(reads).0,
        reconcile_writes(reconciled(reads)) == Seq::<usize>::empty(),
{
    let x = reconciled(reads);
    let b = seed_of(reads).0;
    assert forall|i: int| 0 <= i < x.len() implies (#[trigger] x[i]).0 == b by {}
    if reads.len() == 0 {
        assert(b =~= Seq::<u8>::empty());
    }
    lemma_seed_uniform(x, b, 0);
    lemma_stale_none(x, b, x.len() as int);
}

/// The seed is taken in backend order: when the first two backends both hold
/// bytes, and not the same ones, the seed is the first backend's value.
pub proof fn lemma_seed_prefers_first(reads: Seq<ContentsView>)
    requires
        reads.len() >= 2,
        !is_blank(reads[0]),
        !is_blank(reads[1]),
        reads[0].0 != reads[1].0,
    ensures
        seed_of(reads) == reads[0],
        seed_of(reads).0 != reads[1].0,
{
}

/// A value with bytes at `i` is found by a scan that starts at or before `i`.
proof fn lemma_seed_filled(reads: Seq<ContentsView>, j: int, i: int)
    requires
        0 <= j <= i < reads.len(),
        !is_blank(reads[i]),
    ensures
        !is_blank(seed_from(reads, j)),
    decreases i - j,
{
    if j < i && is_blank(reads[j]) {
        lemma_seed_filled(reads, j + 1, i);
    }
}

/// An empty read never wins reconciliation over one with bytes: where any
/// backend holds bytes, the seed holds bytes, and every write carries them.
pub proof fn lemma_blank_never_seeds(reads: Seq<ContentsView>, i: int)
    requires
        0 <= i < reads.len(),
        !is_blank(reads[i]),
    ensures
        !is_blank(seed_of(reads)),
        forall|k: int|
            0 <= k < reads.len() ==> !is_blank(#[trigger] reconciled(reads)[k]),
{
    lemma_seed_filled(reads, 0, i);
}

/// In steady state an empty read is no update: the baseline stays, nothing is written.
pub proof fn lemma_blank_read_changes_nothing(s: SyncView, v: ContentsView)
    requires
        is_blank(v),
    ensures
        observe_next(s, v).baseline == s.baseline,
        observe_writes(s, v) == Seq::<usize>::empty(),
{
}

/// Reads that all match the baseline, up to the last backend, write nothing
/// and bring the cursor back to the first backend.
proof fn lemma_quiet_reads(s: SyncView, reads: Seq<ContentsView>)
    requires
        reads.len() > 0,
        s.cursor + reads.len() == s.count,
        forall|i: int| 0 <= i < reads.len() ==> (#[trigger] reads[i]).0 == s.baseline.0,
    ensures
        run(s, reads) == (SyncView { count: s.count, baseline: s.baseline, cursor: 0 }),
        run_writes(s, reads) == Seq::<usize>::empty(),
    decreases reads.len(),
{
    let next = observe_next(s, reads[0]);
    let rest = reads.drop_first();
    if reads.len() > 1 {
        assert forall|i: int| 0 <= i < rest.len() implies (#[trigger] rest[i]).0
            == next.baseline.0 by {
            assert(rest[i] == reads[i + 1]);
        }
        lemma_quiet_reads(next, rest);
    } else {
        assert(rest.len() == 0);
        assert(run(next, rest) == next);
        assert(run_writes(next, rest) == Seq::<usize>::empty());
    }
    assert(run_writes(s, reads) =~= Seq::<usize>::empty());
}

/// No echo: after a broadcast of the baseline, a full pass in which every backend
/// reports the baseline's bytes leaves the synchronizer as it was and writes nothing.
pub proof fn lemma_no_echo(s: SyncView, reads: Seq<ContentsView>)
    requires
        s.count > 0,
        s.cursor == 0,
        reads.len() == s.count,
        forall|i: int| 0 <= i < reads.len() ==> (#[trigger] reads[i]).0 == s.baseline.0,
    ensures
        run(s, reads) == s,
        run_writes(s, reads) == Seq::<usize>::empty(),
{
    lemma_quiet_reads(s, reads);
}

/// Reads that match the baseline followed by one with new bytes broadcast those
/// to every other backend and make them the baseline.
proof fn lemma_change_reads(s: SyncView, reads: Seq<ContentsView>)
    requires
        reads.len() > 0,
        s.cursor + reads.len() <= s.count,
        forall|i: int| 0 <= i < reads.len() - 1 ==> (#[trigger] reads[i]).0 == s.baseline.0,
        is_change(s, reads.last()),
    ensures
        run(s, reads) == (SyncView { count: s.count, baseline: reads.last(), cursor: 0 }),
        run_writes(s, reads) == all_but(s.count as int, s.cursor + reads.len() - 1),
    decreases reads.len(),
{
    let next = observe_next(s, reads[0]);
    let rest = reads.drop_first();
    if reads.len() > 1 {
        assert forall|i: int| 0 <= i < rest.len() - 1 implies (#[trigger] rest[i]).0
            == next.baseline.0 by {
            assert(rest[i] == reads[i + 1]);
        }
        assert(rest.last() == reads.last());
        lemma_change_reads(next, rest);
        assert(run_writes(s, reads) =~= run_writes(next, rest));
    } else {
        assert(rest.len() == 0);
        assert(run(next, rest) == next);
        assert(run_writes(next, rest) == Seq::<usize>::empty());
        assert(run_writes(s, reads) =~= observe_writes(s, reads[0]));
    }
}

/// `all_but(n, skip)` lists every position below `n` but `skip`, each once, in
/// increasing order.
pub proof fn lemma_all_but(n: int, skip: int)
    requires
        0 <= skip < n <= usize::MAX,
    ensures
        all_but(n, skip).len() == n - 1,
        forall|j: int| 0 <= j < n && j != skip ==> #[trigger] all_but(n, skip).contains(j as usize),
        forall|k: int| 0 <= k < n - 1 ==> (#[trigger] all_but(n, skip)[k]) < n && all_but(n, skip)[k] != skip,
        forall|k: int, l: int| 0 <= k < l < n - 1 ==> all_but(n, skip)[k] < all_but(n, skip)[l],
{
    lemma_all_but_below(n, skip);
}

proof fn lemma_all_but_below(n: int, skip: int)
    requires
        0 <= n <= usize::MAX,
        0 <= skip,
    ensures
        all_but(n, skip).len() == if skip < n { n - 1 } else { n },
        forall|j: int| 0 <= j < n && j != skip ==> #[trigger] all_but(n, skip).contains(j as usize),
        forall|k: int| 0 <= k < all_but(n, skip).len() ==> (#[trigger] all_but(n, skip)[k]) < n && all_but(n, skip)[k] != skip,
        forall|k: int, l: int| 0 <= k < l < all_but(n, skip).len() ==> all_but(n, skip)[k] < all_but(n, skip)[l],
    decreases n,
{
    if n > 0 {
        lemma_all_but_below(n - 1, skip);
        let before = all_but(n - 1, skip);
        let cur = all_but(n, skip);
        assert forall|j: int| 0 <= j < n && j != skip implies #[trigger] cur.contains(j as usize) by {
            if j < n - 1 {
                assert(before.contains(j as usize));
                let w = choose|w: int| 0 <= w < before.len() && before[w] == j as usize;
                assert(cur[w] == before[w]);
            } else {
                assert(cur[cur.len() - 1] == j as usize);
            }
        }
    }
}

/// Change propagation: when, from the first backend on, the backends report the
/// baseline's bytes until backend `a` reports new bytes `w`, the new bytes become
/// the baseline, each other backend is written exactly once, and polling starts
/// over from the first backend.
pub proof fn lemma_change_propagates(s: SyncView, reads: Seq<ContentsView>)
    requires
        s.cursor == 0,
        0 < reads.len() <= s.count <= usize::MAX,
        forall|i: int| 0 <= i < reads.len() - 1 ==> (#[trigger] reads[i]).0 == s.baseline.0,
        !is_blank(reads.last()),
        reads.last().0 != s.baseline.0,
    ensures
        run(s, reads) == (SyncView { count: s.count, baseline: reads.last(), cursor: 0 }),
        run_writes(s, reads) == all_but(s.count as int, reads.len() - 1),
        run_writes(s, reads).len() == s.count - 1,
        forall|j: int|
            0 <= j < s.count && j != reads.len() - 1 ==> #[trigger] run_writes(s, reads).contains(j as usize),
        forall|k: int| 0 <= k < s.count - 1 ==> (#[trigger] run_writes(s, reads)[k]) != reads.len() - 1,
        run_writes(s, reads).no_duplicates(),
{
    lemma_change_reads(s, reads);
    lemma_all_but(s.count as int, reads.len() - 1);
}

} // verus!
