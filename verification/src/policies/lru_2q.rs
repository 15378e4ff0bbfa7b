//! A multi-tier LRU-2Q tiering policy.
//!
//! The engine tracks every file it has seen by its path relative to the tier
//! roots. Rank 0 is the hot tier; rank `r >= 1` is `cold_storage[r - 1]`,
//! warmest first. Each tracked file sits in one logical queue: `A1In`
//! (admitted on a first touch), `A1Out` (demoted out of `A1In`, kept as a
//! ghost record for fast re-promotion), or `Am` (touched at least twice).
//! A second touch marks a file for promotion one tier warmer; `rebalance`
//! realizes pending promotions and then demotes least-recently-used files
//! out of every tier that exceeds its byte capacity, coldest tier excepted.

use vstd::prelude::*;

use crate::policy_engine::{
    AccessEvent, ConfigError, EventModel, FsEventKind, PolicyEngine, ReorganizeError,
};

verus! {

/// Which logical 2Q queue a tracked file belongs to.
#[derive(Clone, Copy, PartialEq, Eq, Structural, Debug)]
pub enum QueueKind {
    /// Recently admitted, seen exactly once so far.
    A1In,
    /// Demoted out of `A1In`; a ghost record kept for re-promotion detection.
    A1Out,
    /// Touched at least twice; subject to LRU demotion from the tail.
    Am,
}

/// Bookkeeping for one file, keyed by its tier-relative path.
pub struct TrackedFile {
    pub path: Vec<u8>,
    pub rank: usize,
    pub size: u64,
    pub queue: QueueKind,
    pub recency: u64,
    pub freq: u64,
    pub pending: bool,
}

/// The mathematical image of a `TrackedFile`.
pub struct FileModel {
    pub path: Seq<u8>,
    pub rank: int,
    pub size: int,
    pub queue: QueueKind,
    pub recency: int,
    pub freq: int,
    pub pending: bool,
}

impl View for TrackedFile {
    type V = FileModel;

    open spec fn view(&self) -> FileModel {
        FileModel {
            path: self.path@,
            rank: self.rank as int,
            size: self.size as int,
            queue: self.queue,
            recency: self.recency as int,
            freq: self.freq as int,
            pending: self.pending,
        }
    }
}

/// One planned file move: copy `path` from the tier at `from_rank` to the
/// tier at `to_rank`, commit by atomic rename, then delete the source.
pub struct Migration {
    pub path: Vec<u8>,
    pub from_rank: usize,
    pub to_rank: usize,
}

/// The mathematical image of a `Migration`.
pub struct MigrationModel {
    pub path: Seq<u8>,
    pub from_rank: int,
    pub to_rank: int,
}

impl View for Migration {
    type V = MigrationModel;

    open spec fn view(&self) -> MigrationModel {
        MigrationModel {
            path: self.path@,
            from_rank: self.from_rank as int,
            to_rank: self.to_rank as int,
        }
    }
}

/// The views of a list of byte paths.
pub open spec fn path_views(s: Seq<Vec<u8>>) -> Seq<Seq<u8>> {
    s.map_values(|v: Vec<u8>| v@)
}

/// Root `a` strictly contains root `b`: `a` followed by the path
/// separator is a prefix of `b`. A sibling that merely shares a name
/// prefix (`/warm` beside `/warmer`) contains nothing.
pub open spec fn root_contains(a: Seq<u8>, b: Seq<u8>) -> bool {
    a.len() < b.len() && b.take(a.len() as int) == a && b[a.len() as int] == 47u8
}

/// Two tier roots overlap when they are equal or one contains the other.
pub open spec fn roots_overlap(a: Seq<u8>, b: Seq<u8>) -> bool {
    a == b || root_contains(a, b) || root_contains(b, a)
}

/// A valid configuration: at least one cold tier, no empty root, and no two
/// roots equal or nested.
pub open spec fn config_ok(hot: Seq<u8>, cold: Seq<Seq<u8>>) -> bool {
    &&& cold.len() >= 1
    &&& hot.len() > 0
    &&& forall|i: int| 0 <= i < cold.len() ==> (#[trigger] cold[i]).len() > 0
    &&& forall|i: int| 0 <= i < cold.len() ==> !roots_overlap(hot, #[trigger] cold[i])
    &&& forall|i: int, j: int|
        0 <= i < cold.len() && 0 <= j < cold.len() && i != j ==> !roots_overlap(
            #[trigger] cold[i],
            #[trigger] cold[j],
        )
}

/// Strict byte-wise lexicographic order; the demotion tie-break.
pub open spec fn lex_lt(a: Seq<u8>, b: Seq<u8>) -> bool
    decreases a.len(),
{
    if b.len() == 0 {
        false
    } else if a.len() == 0 {
        true
    } else if a[0] != b[0] {
        a[0] < b[0]
    } else {
        lex_lt(a.drop_first(), b.drop_first())
    }
}

/// `a` comes strictly before `b` in demotion order: older recency first,
/// lexicographically smaller path on equal recency.
pub open spec fn demotes_before(a: FileModel, b: FileModel) -> bool {
    a.recency < b.recency || (a.recency == b.recency && lex_lt(a.path, b.path))
}

/// What a record contributes to one of the engine's tallies.
pub enum Gauge {
    /// The record's size, counted when it sits at the given rank.
    TierBytes(int),
    /// The record's size, always counted.
    AllBytes,
    /// One, counted when the record sits at the given rank.
    TierCount(int),
    /// One, counted when the record sits in the `A1Out` ghost queue.
    A1OutCount,
}

/// The contribution of one record under a gauge.
pub open spec fn weight(w: Gauge, f: FileModel) -> int {
    match w {
        Gauge::TierBytes(r) => if f.rank == r {
            f.size
        } else {
            0
        },
        Gauge::AllBytes => f.size,
        Gauge::TierCount(r) => if f.rank == r {
            1int
        } else {
            0int
        },
        Gauge::A1OutCount => if f.queue == QueueKind::A1Out {
            1int
        } else {
            0int
        },
    }
}

/// The sum of a gauge over the records of `s`; every byte count and queue
/// length below is an instance of it.
pub open spec fn wsum(w: Gauge, s: Seq<FileModel>) -> int
    decreases s.len(),
{
    if s.len() == 0 {
        0
    } else {
        weight(w, s[0]) + wsum(w, s.drop_first())
    }
}

/// Bytes occupied in the tier of rank `r` by the tracked files of `s`.
pub open spec fn occupied(s: Seq<FileModel>, r: int) -> int {
    wsum(Gauge::TierBytes(r), s)
}

/// Bytes occupied over all tiers together.
pub open spec fn total_bytes(s: Seq<FileModel>) -> int {
    wsum(Gauge::AllBytes, s)
}

/// How many tracked files sit at rank `r`.
pub open spec fn count_at(s: Seq<FileModel>, r: int) -> int {
    wsum(Gauge::TierCount(r), s)
}

/// How many records sit in the `A1Out` ghost queue.
pub open spec fn count_a1out(s: Seq<FileModel>) -> int {
    wsum(Gauge::A1OutCount, s)
}

proof fn lemma_wsum_push(w: Gauge, s: Seq<FileModel>, v: FileModel)
    ensures
        wsum(w, s.push(v)) == wsum(w, s) + weight(w, v),
    decreases s.len(),
{
    if s.len() == 0 {
        assert(s.push(v)[0] == v);
        assert(s.push(v).drop_first() =~= Seq::<FileModel>::empty());
        assert(wsum(w, Seq::<FileModel>::empty()) == 0);
    } else {
        assert(s.push(v)[0] == s[0]);
        assert(s.push(v).drop_first() =~= s.drop_first().push(v));
        lemma_wsum_push(w, s.drop_first(), v);
    }
}

proof fn lemma_wsum_update(w: Gauge, s: Seq<FileModel>, i: int, v: FileModel)
    requires
        0 <= i < s.len(),
    ensures
        wsum(w, s.update(i, v)) == wsum(w, s) - weight(w, s[i]) + weight(w, v),
    decreases s.len(),
{
    if i == 0 {
        assert(s.update(0, v)[0] == v);
        assert(s.update(0, v).drop_first() =~= s.drop_first());
    } else {
        assert(s.update(i, v)[0] == s[0]);
        assert(s.update(i, v).drop_first() =~= s.drop_first().update(i - 1, v));
        lemma_wsum_update(w, s.drop_first(), i - 1, v);
    }
}

proof fn lemma_wsum_remove(w: Gauge, s: Seq<FileModel>, i: int)
    requires
        0 <= i < s.len(),
    ensures
        wsum(w, s.remove(i)) == wsum(w, s) - weight(w, s[i]),
    decreases s.len(),
{
    if i == 0 {
        assert(s.remove(0) =~= s.drop_first());
    } else {
        assert(s.remove(i)[0] == s[0]);
        assert(s.remove(i).drop_first() =~= s.drop_first().remove(i - 1));
        lemma_wsum_remove(w, s.drop_first(), i - 1);
    }
}

/// Sums grow one record at a time along a prefix.
proof fn lemma_wsum_take_succ(w: Gauge, s: Seq<FileModel>, i: int)
    requires
        0 <= i < s.len(),
    ensures
        wsum(w, s.take(i + 1)) == wsum(w, s.take(i)) + weight(w, s[i]),
{
    assert(s.take(i + 1) =~= s.take(i).push(s[i]));
    lemma_wsum_push(w, s.take(i), s[i]);
}

/// Sums of non-negative weights are non-negative and pointwise bounded.
proof fn lemma_wsum_nonneg(w: Gauge, s: Seq<FileModel>)
    requires
        forall|i: int| 0 <= i < s.len() ==> weight(w, #[trigger] s[i]) >= 0,
    ensures
        wsum(w, s) >= 0,
    decreases s.len(),
{
    if s.len() > 0 {
        assert(forall|i: int|
            0 <= i < s.drop_first().len() ==> #[trigger] s.drop_first()[i] == s[i + 1]);
        lemma_wsum_nonneg(w, s.drop_first());
    }
}

/// A prefix of a non-negative sum never exceeds the whole.
proof fn lemma_wsum_take_le(w: Gauge, s: Seq<FileModel>, j: int)
    requires
        0 <= j <= s.len(),
        forall|i: int| 0 <= i < s.len() ==> weight(w, #[trigger] s[i]) >= 0,
    ensures
        wsum(w, s.take(j)) <= wsum(w, s),
    decreases s.len() - j,
{
    if j == s.len() {
        assert(s.take(j) =~= s);
    } else {
        lemma_wsum_take_succ(w, s, j);
        lemma_wsum_take_le(w, s, j + 1);
    }
}

/// Pointwise dominance of one gauge over another gives dominance of sums.
proof fn lemma_wsum_le(w1: Gauge, w2: Gauge, s: Seq<FileModel>)
    requires
        forall|i: int| 0 <= i < s.len() ==> weight(w1, #[trigger] s[i]) <= weight(w2, s[i]),
    ensures
        wsum(w1, s) <= wsum(w2, s),
    decreases s.len(),
{
    if s.len() > 0 {
        assert(forall|i: int|
            0 <= i < s.drop_first().len() ==> #[trigger] s.drop_first()[i] == s[i + 1]);
        lemma_wsum_le(w1, w2, s.drop_first());
    }
}

/// A positive sum names a positive summand.
proof fn lemma_wsum_pos_witness(w: Gauge, s: Seq<FileModel>) -> (i: int)
    requires
        wsum(w, s) > 0,
        forall|i: int| 0 <= i < s.len() ==> weight(w, #[trigger] s[i]) >= 0,
    ensures
        0 <= i < s.len(),
        weight(w, s[i]) > 0,
    decreases s.len(),
{
    assert(s.len() > 0);
    if weight(w, s[0]) > 0 {
        0
    } else {
        assert(forall|i: int|
            0 <= i < s.drop_first().len() ==> #[trigger] s.drop_first()[i] == s[i + 1]);
        let j = lemma_wsum_pos_witness(w, s.drop_first());
        j + 1
    }
}

/// One well-formed file record, for a configuration with `cold_len` cold
/// tiers: its rank names an existing tier, its size is a machine integer,
/// and a pending promotion only makes sense from a cold rank, out of `Am`.
pub open spec fn file_ok(f: FileModel, cold_len: int) -> bool {
    &&& 0 <= f.rank <= cold_len
    &&& 0 <= f.size <= u64::MAX
    &&& 0 <= f.recency <= u64::MAX
    &&& 0 <= f.freq <= u64::MAX
    &&& f.pending ==> f.rank >= 1 && f.queue == QueueKind::Am
}

/// The whole index is well-formed: every record is, no two records share a
/// path, and the total tracked bytes fit in a machine word.
pub open spec fn files_ok(s: Seq<FileModel>, cold_len: int) -> bool {
    &&& forall|i: int| 0 <= i < s.len() ==> file_ok(#[trigger] s[i], cold_len)
    &&& forall|i: int, j: int| 0 <= i < j < s.len() ==> s[i].path != s[j].path
    &&& total_bytes(s) <= u64::MAX
}

/// No record of `s` awaits a promotion.
pub open spec fn no_pending_of(s: Seq<FileModel>) -> bool {
    forall|i: int| 0 <= i < s.len() ==> !(#[trigger] s[i]).pending
}

/// Every bounded tier is within its byte capacity; `caps[r]` bounds rank
/// `r`, and the coldest rank, `caps.len()`, is unbounded.
pub open spec fn caps_ok_of(s: Seq<FileModel>, caps: Seq<u64>) -> bool {
    forall|r: int| 0 <= r < caps.len() ==> occupied(s, r) <= #[trigger] caps[r]
}

/// The multi-tier LRU-2Q policy engine.
pub struct Lru2qPolicy {
    /// The hot tier root (rank 0).
    pub hot_storage: Vec<u8>,
    /// Cold tier roots, warmest first; `cold_storage[i]` has rank `i + 1`.
    pub cold_storage: Vec<Vec<u8>>,
    /// Byte capacity of every tier but the coldest: `capacities[r]` bounds
    /// rank `r`, for `r < cold_storage.len()`. The coldest tier absorbs
    /// overflow and is unbounded (data is never deleted to free space).
    pub capacities: Vec<u64>,
    /// Bound on the `A1Out` ghost queue; the oldest ghost record is dropped
    /// from bookkeeping (never from disk) when it is exceeded.
    pub a1out_cap: usize,
    /// The tracked-file index, at most one record per path.
    pub files: Vec<TrackedFile>,
    /// Migrations decided by `reorganize` and not yet handed to the caller.
    pub outbox: Vec<Migration>,
}

impl Lru2qPolicy {
    /// The number of cold tiers; the coldest rank.
    pub open spec fn cold_len(&self) -> int {
        self.cold_storage@.len() as int
    }

    /// The file index as a sequence of mathematical records.
    pub open spec fn fm(&self) -> Seq<FileModel> {
        self.files@.map_values(|f: TrackedFile| f@)
    }

    /// The engine's well-formedness condition.
    pub open spec fn wf(&self) -> bool {
        &&& self.cold_len() >= 1
        &&& self.capacities@.len() == self.cold_len()
        &&& self.a1out_cap >= 1
        &&& files_ok(self.fm(), self.cold_len())
    }

    /// The tier roots and capacities of `self` and `other` agree.
    pub open spec fn same_config(&self, other: &Self) -> bool {
        &&& self.hot_storage@ == other.hot_storage@
        &&& self.cold_storage@ == other.cold_storage@
        &&& self.capacities@ == other.capacities@
        &&& self.a1out_cap == other.a1out_cap
    }

    /// No tracked file awaits a promotion.
    pub open spec fn no_pending(&self) -> bool {
        no_pending_of(self.fm())
    }

    /// Every bounded tier is within its byte capacity.
    pub open spec fn caps_ok(&self) -> bool {
        caps_ok_of(self.fm(), self.capacities@)
    }

    /// The `A1Out` ghost queue is within its bound.
    pub open spec fn a1out_ok(&self) -> bool {
        count_a1out(self.fm()) <= self.a1out_cap
    }

    /// Build the engine over a configuration this policy accepts, with a
    /// byte capacity for every tier but the coldest (index `r` bounds rank
    /// `r`) and a bound on the `A1Out` ghost queue.
    pub fn new(
        hot_storage: Vec<u8>,
        cold_storage: Vec<Vec<u8>>,
        capacities: Vec<u64>,
        a1out_cap: usize,
    ) -> (r: Self)
        requires
            cold_storage@.len() >= 1,
            capacities@.len() == cold_storage@.len(),
            a1out_cap >= 1,
        ensures
            r.wf(),
            r.hot_storage@ == hot_storage@,
            r.cold_storage@ == cold_storage@,
            r.capacities@ == capacities@,
            r.a1out_cap == a1out_cap,
            r.fm() == Seq::<FileModel>::empty(),
            r.outbox@.len() == 0,
    {
        let r = Lru2qPolicy {
            hot_storage,
            cold_storage,
            capacities,
            a1out_cap,
            files: Vec::new(),
            outbox: Vec::new(),
        };
        proof {
            assert(r.fm() =~= Seq::<FileModel>::empty());
        }
        r
    }
}

/// Does root `a` strictly contain root `b` (a path-component prefix)?
fn root_contains_exec(a: &Vec<u8>, b: &Vec<u8>) -> (r: bool)
    ensures
        r == root_contains(a@, b@),
{
    if a.len() >= b.len() {
        return false;
    }
    if b[a.len()] != 47u8 {
        return false;
    }
    let mut i: usize = 0;
    while i < a.len()
        invariant
            i <= a@.len() < b@.len(),
            forall|k: int| 0 <= k < i ==> a@[k] == b@[k],
        decreases a@.len() - i,
    {
        if a[i] != b[i] {
            assert(!root_contains(a@, b@)) by {
                if root_contains(a@, b@) {
                    assert(b@.take(a@.len() as int)[i as int] == a@[i as int]);
                }
            }
            return false;
        }
        i += 1;
    }
    proof {
        assert(b@.take(a@.len() as int) =~= a@);
    }
    true
}

/// Do two tier roots overlap (equal, or one containing the other)?
fn roots_overlap_exec(a: &Vec<u8>, b: &Vec<u8>) -> (r: bool)
    ensures
        r == roots_overlap(a@, b@),
{
    let eq = paths_eq(a, b);
    let ab = root_contains_exec(a, b);
    let ba = root_contains_exec(b, a);
    eq || ab || ba
}

/// Byte-wise equality of two paths.
fn paths_eq(a: &Vec<u8>, b: &Vec<u8>) -> (r: bool)
    ensures
        r == (a@ == b@),
{
    if a.len() != b.len() {
        return false;
    }
    let mut i: usize = 0;
    while i < a.len()
        invariant
            i <= a@.len(),
            a@.len() == b@.len(),
            forall|k: int| 0 <= k < i ==> a@[k] == b@[k],
        decreases a@.len() - i,
    {
        if a[i] != b[i] {
            return false;
        }
        i += 1;
    }
    proof {
        assert(a@ =~= b@);
    }
    true
}

/// Was a committed copy of `p` scanned at rank `r`?
fn committed_at_exec(scan: &Vec<ScanEntry>, p: &Vec<u8>, r: usize) -> (b: bool)
    ensures
        b == committed_at(scan@.map_values(|n: ScanEntry| n@), p@, r as int),
{
    let ghost es = scan@.map_values(|n: ScanEntry| n@);
    let mut k: usize = 0;
    while k < scan.len()
        invariant
            k <= es.len(),
            es == scan@.map_values(|n: ScanEntry| n@),
            forall|j: int|
                0 <= j < k ==> !(!(#[trigger] es[j]).temp && es[j].path == p@ && es[j].rank
                    == r as int),
        decreases es.len() - k,
    {
        if !scan[k].temp && scan[k].rank == r && paths_eq(&scan[k].path, p) {
            proof {
                assert(!es[k as int].temp && es[k as int].path == p@ && es[k as int].rank
                    == r as int);
            }
            return true;
        }
        k += 1;
    }
    proof {
        if committed_at(es, p@, r as int) {
            let w = choose|w: int|
                0 <= w < es.len() && !(#[trigger] es[w]).temp && es[w].path == p@ && es[w].rank
                    == r as int;
            assert(false);
        }
    }
    false
}

/// The warmest rank at which a committed copy of `p` was scanned, or the
/// sentinel `usize::MAX` when none was.
fn min_committed_rank_exec(scan: &Vec<ScanEntry>, p: &Vec<u8>) -> (r: usize)
    ensures
        r as int == min_committed_rank(scan@.map_values(|n: ScanEntry| n@), p@),
{
    let ghost es = scan@.map_values(|n: ScanEntry| n@);
    let mut acc: usize = usize::MAX;
    let mut k: usize = scan.len();
    proof {
        assert(es.skip(es.len() as int) =~= Seq::<ScanModel>::empty());
    }
    while k > 0
        invariant
            k <= es.len(),
            es == scan@.map_values(|n: ScanEntry| n@),
            acc as int == min_committed_rank(es.skip(k as int), p@),
        decreases k,
    {
        k -= 1;
        proof {
            assert(es.skip(k as int)[0] == es[k as int]);
            assert(es.skip(k as int).drop_first() =~= es.skip(k as int + 1));
        }
        if !scan[k].temp && scan[k].rank < acc && paths_eq(&scan[k].path, p) {
            acc = scan[k].rank;
        }
    }
    proof {
        assert(es.skip(0) =~= es);
    }
    acc
}

/// An owned copy of a path.
fn clone_path(p: &Vec<u8>) -> (r: Vec<u8>)
    ensures
        r@ == p@,
{
    let mut r: Vec<u8> = Vec::new();
    let mut i: usize = 0;
    while i < p.len()
        invariant
            i <= p@.len(),
            r@ == p@.take(i as int),
        decreases p@.len() - i,
    {
        r.push(p[i]);
        proof {
            assert(r@ =~= p@.take(i as int + 1));
        }
        i += 1;
    }
    proof {
        assert(p@.take(p@.len() as int) =~= p@);
    }
    r
}

/// An increment that sticks at the largest machine value.
pub open spec fn sat_inc(x: int) -> int {
    if x < u64::MAX {
        x + 1
    } else {
        x
    }
}

/// A touched record: refreshed recency, one more access; a first re-touch
/// out of `A1In` or `A1Out` promotes the record into `Am` and, from a cold
/// rank, marks a promotion one tier warmer as pending.
pub open spec fn touched(f: FileModel, t: int) -> FileModel {
    if f.queue == QueueKind::Am {
        FileModel { recency: t, freq: sat_inc(f.freq), ..f }
    } else {
        FileModel {
            queue: QueueKind::Am,
            recency: t,
            freq: sat_inc(f.freq),
            pending: f.rank >= 1,
            ..f
        }
    }
}

/// The record admitted for a path first seen in an event: the file was just
/// created or touched under the hot root, so it sits at rank 0 in `A1In`.
pub open spec fn admitted(p: Seq<u8>, t: int) -> FileModel {
    FileModel {
        path: p,
        rank: 0,
        size: 0,
        queue: QueueKind::A1In,
        recency: t,
        freq: 1,
        pending: false,
    }
}

/// Does some record of `s` carry the path `p`?
pub open spec fn has_path(s: Seq<FileModel>, p: Seq<u8>) -> bool {
    exists|i: int| 0 <= i < s.len() && (#[trigger] s[i]).path == p
}

/// The index of the record for `p` (unique when the index is well-formed).
pub open spec fn idx_of(s: Seq<FileModel>, p: Seq<u8>) -> int {
    choose|i: int| 0 <= i < s.len() && (#[trigger] s[i]).path == p
}

/// How one event changes the file index: a touch refreshes or admits the
/// record, a removal deletes it, anything else changes nothing.
pub open spec fn step_event(s: Seq<FileModel>, e: EventModel) -> Seq<FileModel> {
    if e.kind == FsEventKind::Remove {
        if has_path(s, e.path) {
            s.remove(idx_of(s, e.path))
        } else {
            s
        }
    } else if e.is_touch() {
        if has_path(s, e.path) {
            s.update(idx_of(s, e.path), touched(s[idx_of(s, e.path)], e.timestamp))
        } else {
            s.push(admitted(e.path, e.timestamp))
        }
    } else {
        s
    }
}

/// How a whole batch changes the file index, first event first.
pub open spec fn step_events(s: Seq<FileModel>, es: Seq<EventModel>) -> Seq<FileModel>
    decreases es.len(),
{
    if es.len() == 0 {
        s
    } else {
        step_events(step_event(s, es[0]), es.drop_first())
    }
}

proof fn lemma_step_events_snoc(s: Seq<FileModel>, es: Seq<EventModel>, e: EventModel)
    ensures
        step_events(s, es.push(e)) == step_event(step_events(s, es), e),
    decreases es.len(),
{
    if es.len() == 0 {
        assert(es.push(e)[0] == e);
        assert(es.push(e).drop_first() =~= Seq::<EventModel>::empty());
        assert(step_events(step_event(s, e), Seq::<EventModel>::empty()) == step_event(s, e));
    } else {
        assert(es.push(e)[0] == es[0]);
        assert(es.push(e).drop_first() =~= es.drop_first().push(e));
        lemma_step_events_snoc(step_event(s, es[0]), es.drop_first(), e);
    }
}

/// In a well-formed index the record found at `i` is the record `idx_of`
/// names.
proof fn lemma_idx_unique(s: Seq<FileModel>, cold_len: int, i: int, p: Seq<u8>)
    requires
        files_ok(s, cold_len),
        0 <= i < s.len(),
        s[i].path == p,
    ensures
        has_path(s, p),
        idx_of(s, p) == i,
{
    assert(has_path(s, p));
    let k = idx_of(s, p);
    assert(0 <= k < s.len() && s[k].path == p);
    if k < i {
        assert(s[k].path != s[i].path);
    } else if k > i {
        assert(s[i].path != s[k].path);
    }
}

/// One event preserves well-formedness of the index.
proof fn lemma_step_event_ok(s: Seq<FileModel>, e: EventModel, cold_len: int)
    requires
        files_ok(s, cold_len),
        cold_len >= 1,
        0 <= e.timestamp <= u64::MAX,
    ensures
        files_ok(step_event(s, e), cold_len),
{
    let s2 = step_event(s, e);
    if e.kind == FsEventKind::Remove && has_path(s, e.path) {
        let i = idx_of(s, e.path);
        assert(0 <= i < s.len() && s[i].path == e.path);
        lemma_wsum_remove(Gauge::AllBytes, s, i);
        assert(forall|j: int|
            0 <= j < s2.len() ==> #[trigger] s2[j] == (if j < i {
                s[j]
            } else {
                s[j + 1]
            }));
    } else if e.is_touch() && has_path(s, e.path) {
        let i = idx_of(s, e.path);
        assert(0 <= i < s.len() && s[i].path == e.path);
        lemma_wsum_update(Gauge::AllBytes, s, i, touched(s[i], e.timestamp));
    } else if e.is_touch() {
        lemma_wsum_push(Gauge::AllBytes, s, admitted(e.path, e.timestamp));
        assert(forall|j: int| 0 <= j < s.len() ==> #[trigger] s2[j] == s[j]);
        assert(s2[s.len() as int] == admitted(e.path, e.timestamp));
    }
}

/// A record after the promotion phase: a pending promotion is realized one
/// tier warmer; any other record is untouched.
pub open spec fn promoted(f: FileModel) -> FileModel {
    if f.pending {
        FileModel { rank: f.rank - 1, pending: false, ..f }
    } else {
        f
    }
}

/// The whole index after the promotion phase.
pub open spec fn promote_all(s: Seq<FileModel>) -> Seq<FileModel> {
    s.map_values(|f: FileModel| promoted(f))
}

/// `f` descends from record `i` of `s`: same identity and statistics, at
/// most demoted relative to that record's promoted position, and with the
/// queue membership demotion dictates — a record demoted out of `A1In`
/// becomes an `A1Out` ghost, any other keeps its queue.
pub open spec fn descent_of(f: FileModel, s: Seq<FileModel>, i: int) -> bool {
    &&& 0 <= i < s.len()
    &&& f.path == s[i].path
    &&& f.size == s[i].size
    &&& f.recency == s[i].recency
    &&& f.freq == s[i].freq
    &&& f.rank >= promoted(s[i]).rank
    &&& (f.rank == promoted(s[i]).rank ==> f.queue == s[i].queue)
    &&& (f.rank > promoted(s[i]).rank ==> f.queue == (if s[i].queue == QueueKind::A1In {
        QueueKind::A1Out
    } else {
        s[i].queue
    }))
}

/// Record `j` of `t` descends from some record of `s`.
pub open spec fn has_descent(t: Seq<FileModel>, s: Seq<FileModel>, j: int) -> bool {
    exists|i: int| descent_of(t[j], s, i)
}

/// Every record of `t` descends from some record of `s`: reorganization
/// invents no file, forges no statistics, and demotion only ever moves a
/// record colder than its promoted position.
pub open spec fn descends_from(t: Seq<FileModel>, s: Seq<FileModel>) -> bool {
    forall|j: int| 0 <= j < t.len() ==> #[trigger] has_descent(t, s, j)
}

proof fn lemma_descends_update(t: Seq<FileModel>, s: Seq<FileModel>, j: int, v: FileModel)
    requires
        descends_from(t, s),
        0 <= j < t.len(),
        v.path == t[j].path,
        v.size == t[j].size,
        v.recency == t[j].recency,
        v.freq == t[j].freq,
        v.rank > t[j].rank,
        v.queue == (if t[j].queue == QueueKind::A1In {
            QueueKind::A1Out
        } else {
            t[j].queue
        }),
    ensures
        descends_from(t.update(j, v), s),
{
    let t2 = t.update(j, v);
    assert forall|k: int| 0 <= k < t2.len() implies #[trigger] has_descent(t2, s, k) by {
        let kk: int = if k == j {
            j
        } else {
            k
        };
        assert(t2[k] == if k == j {
            v
        } else {
            t[k]
        });
        assert(has_descent(t, s, kk));
        let i = choose|i: int| descent_of(t[kk], s, i);
        assert(descent_of(t[kk], s, i));
        assert(descent_of(t2[k], s, i));
    }
}

proof fn lemma_descends_remove(t: Seq<FileModel>, s: Seq<FileModel>, j: int)
    requires
        descends_from(t, s),
        0 <= j < t.len(),
    ensures
        descends_from(t.remove(j), s),
{
    let t2 = t.remove(j);
    assert forall|k: int| 0 <= k < t2.len() implies #[trigger] has_descent(t2, s, k) by {
        let kk: int = if k < j {
            k
        } else {
            k + 1
        };
        assert(t2[k] == t[kk]);
        assert(has_descent(t, s, kk));
        let i = choose|i: int| descent_of(t[kk], s, i);
        assert(descent_of(t[kk], s, i));
        assert(descent_of(t2[k], s, i));
    }
}

/// Every record dropped from the bookkeeping (its path no longer present
/// in `t`) was an older ghost than every surviving `A1Out` record:
/// trimming the ghost queue evicts the oldest records first, smaller path
/// first on equal recency.
pub open spec fn dropped_are_oldest(t: Seq<FileModel>, s: Seq<FileModel>) -> bool {
    forall|i: int, k: int|
        0 <= i < s.len() && 0 <= k < t.len() && !has_path(t, (#[trigger] s[i]).path) && (
        #[trigger] t[k]).queue == QueueKind::A1Out ==> demotes_before(s[i], t[k])
}

/// Record `j` of `t` passed through the tier of rank `q`: after the
/// promotion phase it sat no warmer than `q`, and it ended no warmer.
pub open spec fn reached(t: Seq<FileModel>, s: Seq<FileModel>, j: int, q: int) -> bool {
    has_path(s, t[j].path) && promoted(s[idx_of(s, t[j].path)]).rank <= q <= t[j].rank
}

/// Demotion respects its order: among the records that passed through a
/// bounded tier, every one demoted out of it precedes, in demotion order
/// (older recency first, smaller path on a tie), every one that stayed.
pub open spec fn demoted_in_order(t: Seq<FileModel>, s: Seq<FileModel>, qmax: int) -> bool {
    forall|j: int, k: int, q: int|
        0 <= j < t.len() && 0 <= k < t.len() && 0 <= q < qmax && #[trigger] reached(t, s, j, q)
            && #[trigger] reached(t, s, k, q) && t[j].rank > q && t[k].rank == q
            ==> demotes_before(t[j], t[k])
}

/// The position-wise demotion-order obligation the demotion loops carry.
spec fn demo_pair(t: Seq<FileModel>, s: Seq<FileModel>, j: int, k: int, q: int) -> bool {
    promoted(s[j]).rank <= q && promoted(s[k]).rank <= q && t[j].rank > q && t[k].rank == q
        ==> demotes_before(t[j], t[k])
}

/// The migration that realizes a pending promotion.
pub open spec fn promotion_move_of(f: FileModel) -> MigrationModel {
    MigrationModel { path: f.path, from_rank: f.rank, to_rank: f.rank - 1 }
}

/// The migrations the promotion phase emits, in index order.
pub open spec fn promotion_moves(s: Seq<FileModel>) -> Seq<MigrationModel>
    decreases s.len(),
{
    if s.len() == 0 {
        Seq::empty()
    } else {
        (if s[0].pending {
            seq![promotion_move_of(s[0])]
        } else {
            Seq::<MigrationModel>::empty()
        }) + promotion_moves(s.drop_first())
    }
}

proof fn lemma_promotion_moves_snoc(s: Seq<FileModel>, v: FileModel)
    ensures
        promotion_moves(s.push(v)) == promotion_moves(s) + (if v.pending {
            seq![promotion_move_of(v)]
        } else {
            Seq::<MigrationModel>::empty()
        }),
    decreases s.len(),
{
    if s.len() == 0 {
        assert(s.push(v)[0] == v);
        assert(s.push(v).drop_first() =~= Seq::<FileModel>::empty());
        assert(promotion_moves(Seq::<FileModel>::empty()) == Seq::<MigrationModel>::empty());
        assert(promotion_moves(s.push(v)) =~= promotion_moves(s) + (if v.pending {
            seq![promotion_move_of(v)]
        } else {
            Seq::<MigrationModel>::empty()
        }));
    } else {
        assert(s.push(v)[0] == s[0]);
        assert(s.push(v).drop_first() =~= s.drop_first().push(v));
        lemma_promotion_moves_snoc(s.drop_first(), v);
        let tailv = if v.pending {
            seq![promotion_move_of(v)]
        } else {
            Seq::<MigrationModel>::empty()
        };
        let h0 = if s[0].pending {
            seq![promotion_move_of(s[0])]
        } else {
            Seq::<MigrationModel>::empty()
        };
        assert(promotion_moves(s.push(v)) == h0 + promotion_moves(s.drop_first().push(v)));
        assert(promotion_moves(s.drop_first().push(v)) == promotion_moves(s.drop_first()) + tailv);
        assert(promotion_moves(s) == h0 + promotion_moves(s.drop_first()));
        assert(h0 + (promotion_moves(s.drop_first()) + tailv) =~= (h0 + promotion_moves(
            s.drop_first(),
        )) + tailv);
    }
}

proof fn lemma_promotion_moves_none(s: Seq<FileModel>)
    requires
        no_pending_of(s),
    ensures
        promotion_moves(s) == Seq::<MigrationModel>::empty(),
    decreases s.len(),
{
    if s.len() > 0 {
        assert(forall|i: int|
            0 <= i < s.drop_first().len() ==> #[trigger] s.drop_first()[i] == s[i + 1]);
        lemma_promotion_moves_none(s.drop_first());
        assert(promotion_moves(s) =~= Seq::<MigrationModel>::empty());
    }
}

proof fn lemma_promote_all_id(s: Seq<FileModel>)
    requires
        no_pending_of(s),
    ensures
        promote_all(s) == s,
{
    assert(promote_all(s) =~= s);
}

proof fn lemma_count_a1out_promote_all(s: Seq<FileModel>)
    ensures
        count_a1out(promote_all(s)) == count_a1out(s),
    decreases s.len(),
{
    if s.len() == 0 {
        assert(promote_all(s) =~= Seq::<FileModel>::empty());
    } else {
        assert(promote_all(s)[0] == promoted(s[0]));
        assert(promote_all(s).drop_first() =~= promote_all(s.drop_first()));
        lemma_count_a1out_promote_all(s.drop_first());
    }
}

proof fn lemma_files_ok_remove(s: Seq<FileModel>, cold_len: int, i: int)
    requires
        files_ok(s, cold_len),
        0 <= i < s.len(),
    ensures
        files_ok(s.remove(i), cold_len),
        total_bytes(s.remove(i)) == total_bytes(s) - s[i].size,
{
    lemma_wsum_remove(Gauge::AllBytes, s, i);
    assert(forall|j: int|
        0 <= j < s.remove(i).len() ==> #[trigger] s.remove(i)[j] == (if j < i {
            s[j]
        } else {
            s[j + 1]
        }));
}

proof fn lemma_files_ok_update(s: Seq<FileModel>, cold_len: int, i: int, v: FileModel)
    requires
        files_ok(s, cold_len),
        0 <= i < s.len(),
        file_ok(v, cold_len),
        v.path == s[i].path,
        v.size == s[i].size,
    ensures
        files_ok(s.update(i, v), cold_len),
        total_bytes(s.update(i, v)) == total_bytes(s),
{
    lemma_wsum_update(Gauge::AllBytes, s, i, v);
}

proof fn lemma_lex_lt_total(a: Seq<u8>, b: Seq<u8>)
    requires
        a != b,
    ensures
        lex_lt(a, b) || lex_lt(b, a),
    decreases a.len(),
{
    if a.len() == 0 {
        if b.len() == 0 {
            assert(a =~= b);
        }
    } else if b.len() == 0 {
    } else if a[0] != b[0] {
    } else {
        if a.drop_first() == b.drop_first() {
            assert(a.drop_first().len() == a.len() - 1);
            assert(b.drop_first().len() == b.len() - 1);
            assert(a.len() == b.len());
            assert forall|i: int| 0 <= i < a.len() implies a[i] == b[i] by {
                if i > 0 {
                    assert(a.drop_first()[i - 1] == a[i]);
                    assert(b.drop_first()[i - 1] == b[i]);
                }
            }
            assert(a =~= b);
        }
        lemma_lex_lt_total(a.drop_first(), b.drop_first());
    }
}

proof fn lemma_lex_lt_trans(a: Seq<u8>, b: Seq<u8>, c: Seq<u8>)
    requires
        lex_lt(a, b),
        lex_lt(b, c),
    ensures
        lex_lt(a, c),
    decreases a.len(),
{
    if a.len() == 0 {
    } else {
        if a[0] == b[0] && b[0] == c[0] {
            lemma_lex_lt_trans(a.drop_first(), b.drop_first(), c.drop_first());
        }
    }
}

proof fn lemma_demotes_before_total(a: FileModel, b: FileModel)
    requires
        a.path != b.path,
    ensures
        demotes_before(a, b) || demotes_before(b, a),
{
    if a.recency == b.recency {
        lemma_lex_lt_total(a.path, b.path);
    }
}

proof fn lemma_demotes_before_trans(a: FileModel, b: FileModel, c: FileModel)
    requires
        demotes_before(a, b),
        demotes_before(b, c),
    ensures
        demotes_before(a, c),
{
    if a.recency == b.recency && b.recency == c.recency {
        lemma_lex_lt_trans(a.path, b.path, c.path);
    }
}

/// Strict byte-wise lexicographic comparison of two paths.
fn lex_lt_exec(a: &Vec<u8>, b: &Vec<u8>) -> (r: bool)
    ensures
        r == lex_lt(a@, b@),
{
    let alen = a.len();
    let blen = b.len();
    let m = if alen < blen {
        alen
    } else {
        blen
    };
    proof {
        assert(a@.skip(0) =~= a@);
        assert(b@.skip(0) =~= b@);
    }
    let mut i: usize = 0;
    while i < m
        invariant
            i <= m,
            m <= a@.len(),
            m <= b@.len(),
            m == alen || m == blen,
            alen == a@.len(),
            blen == b@.len(),
            lex_lt(a@, b@) == lex_lt(a@.skip(i as int), b@.skip(i as int)),
        decreases m - i,
    {
        let x = a[i];
        let y = b[i];
        proof {
            assert(a@.skip(i as int)[0] == a@[i as int]);
            assert(b@.skip(i as int)[0] == b@[i as int]);
        }
        if x < y {
            return true;
        }
        if x > y {
            return false;
        }
        proof {
            assert(a@.skip(i as int).drop_first() =~= a@.skip(i as int + 1));
            assert(b@.skip(i as int).drop_first() =~= b@.skip(i as int + 1));
        }
        i += 1;
    }
    proof {
        if alen < blen {
            assert(a@.skip(m as int).len() == 0);
            assert(b@.skip(m as int).len() > 0);
        } else {
            assert(b@.skip(m as int).len() == 0);
        }
    }
    alen < blen
}

/// Does `a` come before `b` in demotion order (older first, smaller path
/// on a tie)?
fn demotes_before_exec(a: &TrackedFile, b: &TrackedFile) -> (r: bool)
    ensures
        r == demotes_before(a@, b@),
{
    if a.recency < b.recency {
        true
    } else if a.recency == b.recency {
        lex_lt_exec(&a.path, &b.path)
    } else {
        false
    }
}

/// Whether a record is in the demotion pool: at the given rank, or (for
/// the ghost-trim pass) in the `A1Out` queue.
pub open spec fn selects(f: FileModel, r: int, in_a1out: bool) -> bool {
    if in_a1out {
        f.queue == QueueKind::A1Out
    } else {
        f.rank == r
    }
}

impl Lru2qPolicy {
    /// Find the index of the record for `p`, if any.
    fn find_file(&self, p: &Vec<u8>) -> (r: Option<usize>)
        ensures
            match r {
                Some(i) => 0 <= i < self.fm().len() && self.fm()[i as int].path == p@,
                None => !has_path(self.fm(), p@),
            },
    {
        let mut i: usize = 0;
        while i < self.files.len()
            invariant
                i <= self.files@.len(),
                forall|k: int| 0 <= k < i ==> (#[trigger] self.fm()[k]).path != p@,
            decreases self.files@.len() - i,
        {
            if paths_eq(&self.files[i].path, p) {
                return Some(i);
            }
            i += 1;
        }
        proof {
            if has_path(self.fm(), p@) {
                let k = idx_of(self.fm(), p@);
                assert(0 <= k < self.fm().len() && self.fm()[k].path == p@);
            }
        }
        None
    }

    /// Apply one event to the bookkeeping, exactly as `step_event` says.
    fn apply_event(&mut self, e: &AccessEvent)
        requires
            old(self).wf(),
        ensures
            final(self).wf(),
            final(self).same_config(old(self)),
            final(self).fm() == step_event(old(self).fm(), e@),
            final(self).outbox@ == old(self).outbox@,
    {
        let ghost pre = self.fm();
        match e.kind {
            FsEventKind::Remove => {
                match self.find_file(&e.path) {
                    Some(i) => {
                        proof {
                            lemma_idx_unique(pre, self.cold_len(), i as int, e.path@);
                        }
                        self.files.remove(i);
                        proof {
                            assert(self.fm() =~= pre.remove(i as int));
                            lemma_step_event_ok(pre, e@, self.cold_len());
                        }
                    },
                    None => {},
                }
            },
            FsEventKind::Other => {},
            FsEventKind::Create | FsEventKind::Modify | FsEventKind::Access => {
                match self.find_file(&e.path) {
                    Some(i) => {
                        proof {
                            lemma_idx_unique(pre, self.cold_len(), i as int, e.path@);
                        }
                        let f = self.files.remove(i);
                        let was_am = matches!(f.queue, QueueKind::Am);
                        let nf = TrackedFile {
                            queue: QueueKind::Am,
                            recency: e.timestamp,
                            freq: if f.freq < u64::MAX {
                                f.freq + 1
                            } else {
                                f.freq
                            },
                            pending: if was_am {
                                f.pending
                            } else {
                                f.rank >= 1
                            },
                            ..f
                        };
                        self.files.insert(i, nf);
                        proof {
                            assert(nf@ == touched(pre[i as int], e@.timestamp));
                            assert(self.fm() =~= pre.update(i as int, touched(pre[i as int], e@.timestamp)));
                            lemma_step_event_ok(pre, e@, self.cold_len());
                        }
                    },
                    None => {
                        let p = clone_path(&e.path);
                        self.files.push(TrackedFile {
                            path: p,
                            rank: 0,
                            size: 0,
                            queue: QueueKind::A1In,
                            recency: e.timestamp,
                            freq: 1,
                            pending: false,
                        });
                        proof {
                            assert(self.fm() =~= pre.push(admitted(e.path@, e@.timestamp)));
                            lemma_step_event_ok(pre, e@, self.cold_len());
                        }
                    },
                }
            },
        }
    }

    /// Feed a batch of events into the bookkeeping. No filesystem work
    /// happens here; the index changes exactly as `step_events` says.
    #[verifier::loop_isolation(false)]
    pub fn ingest_batch(&mut self, events: &[AccessEvent])
        requires
            old(self).wf(),
        ensures
            final(self).wf(),
            final(self).same_config(old(self)),
            final(self).outbox@ == old(self).outbox@,
            final(self).fm() == step_events(
                old(self).fm(),
                events@.map_values(|e: AccessEvent| e@),
            ),
    {
        let ghost evs = events@.map_values(|e: AccessEvent| e@);
        let mut k: usize = 0;
        while k < events.len()
            invariant
                k <= evs.len(),
                self.wf(),
                self.same_config(old(self)),
                self.outbox@ == old(self).outbox@,
                self.fm() == step_events(old(self).fm(), evs.take(k as int)),
            decreases evs.len() - k,
        {
            let ghost mid = self.fm();
            self.apply_event(&events[k]);
            proof {
                assert(evs.take(k as int).push(evs[k as int]) =~= evs.take(k as int + 1));
                lemma_step_events_snoc(old(self).fm(), evs.take(k as int), evs[k as int]);
            }
            k += 1;
        }
        proof {
            assert(evs.take(evs.len() as int) =~= evs);
        }
    }

    /// The bytes the tracked files occupy in the tier of rank `r`.
    fn occupied_exec(&self, r: usize) -> (n: u64)
        requires
            self.wf(),
        ensures
            n as int == occupied(self.fm(), r as int),
    {
        let ghost s = self.fm();
        proof {
            assert(forall|k: int|
                0 <= k < s.len() ==> weight(Gauge::TierBytes(r as int), #[trigger] s[k]) >= 0);
            assert(forall|k: int|
                0 <= k < s.len() ==> weight(Gauge::TierBytes(r as int), #[trigger] s[k]) <= weight(
                    Gauge::AllBytes,
                    s[k],
                ));
            assert(s.take(0) =~= Seq::<FileModel>::empty());
        }
        let mut acc: u64 = 0;
        let mut i: usize = 0;
        while i < self.files.len()
            invariant
                i <= s.len(),
                s == self.fm(),
                self.wf(),
                acc as int == wsum(Gauge::TierBytes(r as int), s.take(i as int)),
            decreases s.len() - i,
        {
            let sz = if self.files[i].rank == r {
                self.files[i].size
            } else {
                0
            };
            proof {
                lemma_wsum_take_succ(Gauge::TierBytes(r as int), s, i as int);
                lemma_wsum_take_le(Gauge::TierBytes(r as int), s, i as int + 1);
                lemma_wsum_le(Gauge::TierBytes(r as int), Gauge::AllBytes, s);
            }
            acc = acc + sz;
            i += 1;
        }
        proof {
            assert(s.take(s.len() as int) =~= s);
        }
        acc
    }

    /// How many records sit in the `A1Out` ghost queue.
    fn count_a1out_exec(&self) -> (n: usize)
        requires
            self.wf(),
        ensures
            n as int == count_a1out(self.fm()),
    {
        let ghost s = self.fm();
        proof {
            assert(forall|k: int|
                0 <= k < s.len() ==> 0 <= weight(Gauge::A1OutCount, #[trigger] s[k]) <= 1);
            assert(s.take(0) =~= Seq::<FileModel>::empty());
        }
        let mut acc: usize = 0;
        let mut i: usize = 0;
        while i < self.files.len()
            invariant
                i <= s.len(),
                s == self.fm(),
                self.wf(),
                acc as int == wsum(Gauge::A1OutCount, s.take(i as int)),
                acc <= i,
            decreases s.len() - i,
        {
            proof {
                lemma_wsum_take_succ(Gauge::A1OutCount, s, i as int);
            }
            if self.files[i].queue == QueueKind::A1Out {
                acc = acc + 1;
            }
            i += 1;
        }
        proof {
            assert(s.take(s.len() as int) =~= s);
        }
        acc
    }

    /// The index of the record that demotion order puts first among those
    /// the given pool selects: oldest recency, smallest path on a tie.
    fn oldest_where(&self, rank: usize, in_a1out: bool) -> (ci: usize)
        requires
            self.wf(),
            exists|i: int|
                0 <= i < self.fm().len() && selects(#[trigger] self.fm()[i], rank as int, in_a1out),
        ensures
            ci < self.fm().len(),
            selects(self.fm()[ci as int], rank as int, in_a1out),
            forall|j: int|
                0 <= j < self.fm().len() && j != ci && selects(
                    #[trigger] self.fm()[j],
                    rank as int,
                    in_a1out,
                ) ==> demotes_before(self.fm()[ci as int], self.fm()[j]),
    {
        let ghost s = self.fm();
        let mut best: usize = 0;
        let mut found = false;
        let mut j: usize = 0;
        while j < self.files.len()
            invariant
                j <= s.len(),
                s == self.fm(),
                self.wf(),
                found ==> (best as int) < s.len() && (best as int) < (j as int) && selects(
                    s[best as int],
                    rank as int,
                    in_a1out,
                ),
                found ==> forall|k: int|
                    0 <= k < j && k != best && selects(#[trigger] s[k], rank as int, in_a1out)
                        ==> demotes_before(s[best as int], s[k]),
                !found ==> forall|k: int|
                    0 <= k < j ==> !selects(#[trigger] s[k], rank as int, in_a1out),
            decreases s.len() - j,
        {
            let sel = if in_a1out {
                self.files[j].queue == QueueKind::A1Out
            } else {
                self.files[j].rank == rank
            };
            if sel {
                if !found {
                    best = j;
                    found = true;
                } else if demotes_before_exec(&self.files[j], &self.files[best]) {
                    proof {
                        assert forall|k: int|
                            0 <= k < j && k != j && selects(
                                #[trigger] s[k],
                                rank as int,
                                in_a1out,
                            ) implies demotes_before(s[j as int], s[k]) by {
                            if k != best {
                                lemma_demotes_before_trans(s[j as int], s[best as int], s[k]);
                            }
                        }
                    }
                    best = j;
                } else {
                    proof {
                        assert(s[best as int].path != s[j as int].path);
                        lemma_demotes_before_total(s[best as int], s[j as int]);
                    }
                }
            }
            j += 1;
        }
        proof {
            if !found {
                let i = choose|i: int|
                    0 <= i < s.len() && selects(#[trigger] s[i], rank as int, in_a1out);
                assert(!selects(s[i], rank as int, in_a1out));
            }
        }
        best
    }

    /// One reorganization pass over the bookkeeping. First every pending
    /// promotion is realized one tier warmer; then every bounded tier that
    /// exceeds its byte capacity demotes files one tier colder, oldest
    /// recency first and lexicographically smaller path on a tie, a file
    /// leaving `A1In` becoming an `A1Out` ghost record; last the `A1Out`
    /// queue is trimmed to its bound by dropping its oldest records from
    /// bookkeeping. The returned migrations are what the caller must apply
    /// to disk, in order. Afterwards no promotion is pending and every
    /// bounded tier is within capacity; a pass over an already settled
    /// index changes nothing and returns no migrations, so an uninterrupted
    /// second pass is free of file moves.
    #[verifier::rlimit(60)]
    pub fn rebalance(&mut self) -> (moves: Vec<Migration>)
        requires
            old(self).wf(),
        ensures
            final(self).wf(),
            final(self).same_config(old(self)),
            final(self).outbox@ == old(self).outbox@,
            final(self).no_pending(),
            final(self).caps_ok(),
            final(self).a1out_ok(),
            descends_from(final(self).fm(), old(self).fm()),
            dropped_are_oldest(final(self).fm(), old(self).fm()),
            demoted_in_order(final(self).fm(), old(self).fm(), old(self).capacities@.len() as int),
            old(self).no_pending() && old(self).caps_ok() && old(self).a1out_ok()
                ==> final(self).fm() == old(self).fm() && moves@.len() == 0,
            caps_ok_of(promote_all(old(self).fm()), old(self).capacities@) && count_a1out(
                old(self).fm(),
            ) <= old(self).a1out_cap ==> final(self).fm() == promote_all(old(self).fm())
                && moves@.map_values(|m: Migration| m@) == promotion_moves(old(self).fm()),
    {
        let ghost pre = self.fm();
        let ghost caps = self.capacities@;
        let ghost e5 = caps_ok_of(promote_all(pre), caps) && count_a1out(pre) <= self.a1out_cap;
        let mut moves: Vec<Migration> = Vec::new();
        proof {
            assert(pre.take(0) =~= Seq::<FileModel>::empty());
            assert(moves@.map_values(|m: Migration| m@) =~= promotion_moves(pre.take(0)));
        }
        let mut i: usize = 0;
        while i < self.files.len()
            invariant
                i <= pre.len(),
                self.fm().len() == pre.len(),
                self.wf(),
                self.same_config(old(self)),
                self.outbox@ == old(self).outbox@,
                forall|j: int| 0 <= j < i ==> #[trigger] self.fm()[j] == promoted(pre[j]),
                forall|j: int| i <= j < pre.len() ==> #[trigger] self.fm()[j] == pre[j],
                moves@.map_values(|m: Migration| m@) == promotion_moves(pre.take(i as int)),
            decreases pre.len() - i,
        {
            let ghost cur = self.fm();
            proof {
                lemma_promotion_moves_snoc(pre.take(i as int), pre[i as int]);
                assert(pre.take(i as int).push(pre[i as int]) =~= pre.take(i as int + 1));
            }
            if self.files[i].pending {
                let p = clone_path(&self.files[i].path);
                let f = self.files.remove(i);
                let from = f.rank;
                proof {
                    assert(cur[i as int] == pre[i as int]);
                    assert(file_ok(cur[i as int], self.cold_len()));
                }
                let nf = TrackedFile { rank: from - 1, pending: false, ..f };
                self.files.insert(i, nf);
                moves.push(Migration { path: p, from_rank: from, to_rank: from - 1 });
                proof {
                    assert(nf@ == promoted(pre[i as int]));
                    assert(self.fm() =~= cur.update(i as int, promoted(pre[i as int])));
                    lemma_files_ok_update(
                        cur,
                        self.cold_len(),
                        i as int,
                        promoted(pre[i as int]),
                    );
                    assert(moves@.map_values(|m: Migration| m@) =~= promotion_moves(
                        pre.take(i as int + 1),
                    ));
                }
            } else {
                proof {
                    assert(promotion_moves(pre.take(i as int + 1)) =~= promotion_moves(
                        pre.take(i as int),
                    ) + Seq::<MigrationModel>::empty());
                    assert(cur[i as int] == promoted(pre[i as int]));
                }
            }
            i += 1;
        }
        proof {
            assert(pre.take(pre.len() as int) =~= pre);
            assert(self.fm() =~= promote_all(pre));
            assert(self.no_pending());
            lemma_count_a1out_promote_all(pre);
            assert forall|j: int| 0 <= j < self.fm().len() implies #[trigger] has_descent(
                self.fm(),
                pre,
                j,
            ) by {
                assert(descent_of(self.fm()[j], pre, j));
            }
            assert(forall|j: int|
                0 <= j < pre.len() ==> (#[trigger] self.fm()[j]).rank == promoted(pre[j]).rank);
        }
        let ghost after_promote = self.fm();
        let ghost promote_moves = moves@.map_values(|m: Migration| m@);
        let mut r: usize = 0;
        while r < self.capacities.len()
            invariant
                r <= caps.len(),
                caps == self.capacities@,
                pre == old(self).fm(),
                self.fm().len() == pre.len(),
                forall|j: int| 0 <= j < pre.len() ==> (#[trigger] self.fm()[j]).path == pre[j].path,
                forall|j: int|
                    0 <= j < pre.len() ==> (#[trigger] self.fm()[j]).rank <= r as int
                        || self.fm()[j].rank == promoted(pre[j]).rank,
                forall|j: int, k: int, q: int|
                    0 <= j < pre.len() && 0 <= k < pre.len() && 0 <= q < r as int
                        ==> #[trigger] demo_pair(self.fm(), pre, j, k, q),
                e5 == (caps_ok_of(promote_all(pre), caps) && count_a1out(pre) <= old(self).a1out_cap),
                self.wf(),
                self.same_config(old(self)),
                self.outbox@ == old(self).outbox@,
                self.no_pending(),
                forall|q: int| 0 <= q < r ==> occupied(self.fm(), q) <= #[trigger] caps[q],
                descends_from(self.fm(), pre),
                e5 ==> self.fm() == promote_all(pre) && moves@.map_values(|m: Migration| m@)
                    == promotion_moves(pre),
            decreases caps.len() - r,
        {
            proof {
                assert forall|j: int, k: int, q: int|
                    0 <= j < pre.len() && 0 <= k < pre.len() && 0 <= q < r as int + 1 implies
                    #[trigger] demo_pair(self.fm(), pre, j, k, q) by {
                    if q == r as int && self.fm()[j].rank > q {
                        assert(self.fm()[j].rank == promoted(pre[j]).rank);
                    }
                }
            }
            loop
                invariant
                    r < caps.len(),
                    caps == self.capacities@,
                    pre == old(self).fm(),
                    self.fm().len() == pre.len(),
                    forall|j: int| 0 <= j < pre.len() ==> (#[trigger] self.fm()[j]).path == pre[j].path,
                    forall|j: int|
                        0 <= j < pre.len() ==> (#[trigger] self.fm()[j]).rank <= r as int + 1
                            || self.fm()[j].rank == promoted(pre[j]).rank,
                    forall|j: int, k: int, q: int|
                        0 <= j < pre.len() && 0 <= k < pre.len() && 0 <= q < r as int + 1
                            ==> #[trigger] demo_pair(self.fm(), pre, j, k, q),
                    e5 == (caps_ok_of(promote_all(pre), caps) && count_a1out(pre) <= old(self).a1out_cap),
                    self.wf(),
                    self.same_config(old(self)),
                    self.outbox@ == old(self).outbox@,
                    self.no_pending(),
                    forall|q: int| 0 <= q < r ==> occupied(self.fm(), q) <= #[trigger] caps[q],
                    descends_from(self.fm(), pre),
                    e5 ==> self.fm() == promote_all(pre) && moves@.map_values(|m: Migration| m@)
                        == promotion_moves(pre),
                ensures
                    r < caps.len(),
                    self.wf(),
                    self.same_config(old(self)),
                    self.outbox@ == old(self).outbox@,
                    self.no_pending(),
                    self.fm().len() == pre.len(),
                    forall|j: int| 0 <= j < pre.len() ==> (#[trigger] self.fm()[j]).path == pre[j].path,
                    forall|j: int|
                        0 <= j < pre.len() ==> (#[trigger] self.fm()[j]).rank <= r as int + 1
                            || self.fm()[j].rank == promoted(pre[j]).rank,
                    forall|j: int, k: int, q: int|
                        0 <= j < pre.len() && 0 <= k < pre.len() && 0 <= q < r as int + 1
                            ==> #[trigger] demo_pair(self.fm(), pre, j, k, q),
                    forall|q: int| 0 <= q < r ==> occupied(self.fm(), q) <= #[trigger] caps[q],
                    occupied(self.fm(), r as int) <= caps[r as int],
                    descends_from(self.fm(), pre),
                    e5 ==> self.fm() == promote_all(pre) && moves@.map_values(|m: Migration| m@)
                        == promotion_moves(pre),
                decreases count_at(self.fm(), r as int),
            {
                let occ = self.occupied_exec(r);
                if occ <= self.capacities[r] {
                    break ;
                }
                proof {
                    assert(forall|k: int|
                        0 <= k < self.fm().len() ==> weight(
                            Gauge::TierBytes(r as int),
                            #[trigger] self.fm()[k],
                        ) >= 0);
                    let w = lemma_wsum_pos_witness(Gauge::TierBytes(r as int), self.fm());
                    assert(selects(self.fm()[w], r as int, false));
                    if e5 {
                        assert(occupied(promote_all(pre), r as int) <= caps[r as int]);
                        assert(false);
                    }
                }
                let ci = self.oldest_where(r, false);
                let ghost cur = self.fm();
                let cap_count = self.capacities.len();
                proof {
                    assert(r < cap_count);
                }
                let p = clone_path(&self.files[ci].path);
                let f = self.files.remove(ci);
                let nq = if f.queue == QueueKind::A1In {
                    QueueKind::A1Out
                } else {
                    f.queue
                };
                let nf = TrackedFile { rank: r + 1, queue: nq, ..f };
                self.files.insert(ci, nf);
                moves.push(Migration { path: p, from_rank: r, to_rank: r + 1 });
                proof {
                    assert(self.fm() =~= cur.update(ci as int, nf@));
                    lemma_files_ok_update(cur, self.cold_len(), ci as int, nf@);
                    lemma_wsum_update(Gauge::TierCount(r as int), cur, ci as int, nf@);
                    assert(count_at(self.fm(), r as int) == count_at(cur, r as int) - 1);
                    assert(forall|k: int|
                        0 <= k < self.fm().len() ==> weight(
                            Gauge::TierCount(r as int),
                            #[trigger] self.fm()[k],
                        ) >= 0);
                    lemma_wsum_nonneg(Gauge::TierCount(r as int), self.fm());
                    assert forall|q: int| 0 <= q < r implies occupied(self.fm(), q)
                        <= #[trigger] caps[q] by {
                        lemma_wsum_update(Gauge::TierBytes(q), cur, ci as int, nf@);
                    }
                    lemma_descends_update(cur, pre, ci as int, nf@);
                    assert forall|j: int, k: int, q: int|
                        0 <= j < pre.len() && 0 <= k < pre.len() && 0 <= q < r as int + 1 implies
                        #[trigger] demo_pair(self.fm(), pre, j, k, q) by {
                        if promoted(pre[j]).rank <= q && promoted(pre[k]).rank <= q
                            && self.fm()[j].rank > q && self.fm()[k].rank == q {
                            assert(k != ci as int);
                            assert(self.fm()[k] == cur[k]);
                            if j == ci as int {
                                if q == r as int {
                                    assert(cur[k].rank == r as int);
                                    assert(selects(cur[k], r as int, false));
                                    assert(demotes_before(cur[ci as int], cur[k]));
                                    assert(self.fm()[j].recency == cur[ci as int].recency);
                                    assert(self.fm()[j].path == cur[ci as int].path);
                                } else {
                                    assert(cur[ci as int].rank == r as int);
                                    assert(cur[ci as int].rank > q);
                                    assert(demo_pair(cur, pre, j, k, q));
                                    assert(self.fm()[j].recency == cur[ci as int].recency);
                                    assert(self.fm()[j].path == cur[ci as int].path);
                                }
                            } else {
                                assert(self.fm()[j] == cur[j]);
                                assert(demo_pair(cur, pre, j, k, q));
                            }
                        }
                    }
                }
            }
            r += 1;
        }
        proof {
            assert(forall|q: int|
                0 <= q < caps.len() ==> occupied(self.fm(), q) <= #[trigger] caps[q]);
            assert forall|i: int| 0 <= i < pre.len() implies has_path(
                self.fm(),
                #[trigger] pre[i].path,
            ) by {
                assert(self.fm()[i].path == pre[i].path);
            }
            assert forall|j: int, k: int, q: int|
                0 <= j < self.fm().len() && 0 <= k < self.fm().len() && 0 <= q < caps.len()
                    && #[trigger] reached(self.fm(), pre, j, q) && #[trigger] reached(
                    self.fm(),
                    pre,
                    k,
                    q,
                ) && self.fm()[j].rank > q && self.fm()[k].rank == q implies demotes_before(
                self.fm()[j],
                self.fm()[k],
            ) by {
                assert(self.fm()[j].path == pre[j].path);
                assert(self.fm()[k].path == pre[k].path);
                lemma_idx_unique(pre, old(self).cold_len(), j, pre[j].path);
                lemma_idx_unique(pre, old(self).cold_len(), k, pre[k].path);
                assert(demo_pair(self.fm(), pre, j, k, q));
            }
            assert(demoted_in_order(self.fm(), pre, caps.len() as int));
        }
        loop
            invariant
                caps == self.capacities@,
                pre == old(self).fm(),
                files_ok(pre, old(self).cold_len()),
                dropped_are_oldest(self.fm(), pre),
                demoted_in_order(self.fm(), pre, caps.len() as int),
                e5 == (caps_ok_of(promote_all(pre), caps) && count_a1out(pre) <= old(self).a1out_cap),
                self.wf(),
                self.same_config(old(self)),
                self.outbox@ == old(self).outbox@,
                self.no_pending(),
                forall|q: int| 0 <= q < caps.len() ==> occupied(self.fm(), q) <= #[trigger] caps[q],
                descends_from(self.fm(), pre),
                e5 ==> self.fm() == promote_all(pre) && moves@.map_values(|m: Migration| m@)
                    == promotion_moves(pre),
            ensures
                self.wf(),
                self.same_config(old(self)),
                self.outbox@ == old(self).outbox@,
                self.no_pending(),
                forall|q: int| 0 <= q < caps.len() ==> occupied(self.fm(), q) <= #[trigger] caps[q],
                count_a1out(self.fm()) <= self.a1out_cap,
                descends_from(self.fm(), pre),
                dropped_are_oldest(self.fm(), pre),
                e5 ==> self.fm() == promote_all(pre) && moves@.map_values(|m: Migration| m@)
                    == promotion_moves(pre),
            decreases count_a1out(self.fm()),
        {
            let cnt = self.count_a1out_exec();
            if cnt <= self.a1out_cap {
                break ;
            }
            proof {
                assert(forall|k: int|
                    0 <= k < self.fm().len() ==> weight(
                        Gauge::A1OutCount,
                        #[trigger] self.fm()[k],
                    ) >= 0);
                let w = lemma_wsum_pos_witness(Gauge::A1OutCount, self.fm());
                assert(selects(self.fm()[w], 0, true));
                if e5 {
                    lemma_count_a1out_promote_all(pre);
                    assert(count_a1out(self.fm()) == count_a1out(pre));
                    assert(false);
                }
            }
            let gi = self.oldest_where(0, true);
            let ghost cur = self.fm();
            self.files.remove(gi);
            proof {
                assert(self.fm() =~= cur.remove(gi as int));
                lemma_files_ok_remove(cur, self.cold_len(), gi as int);
                lemma_wsum_remove(Gauge::A1OutCount, cur, gi as int);
                assert(count_a1out(self.fm()) == count_a1out(cur) - 1);
                assert(forall|k: int|
                    0 <= k < self.fm().len() ==> weight(
                        Gauge::A1OutCount,
                        #[trigger] self.fm()[k],
                    ) >= 0);
                lemma_wsum_nonneg(Gauge::A1OutCount, self.fm());
                assert forall|q: int| 0 <= q < caps.len() implies occupied(self.fm(), q)
                    <= #[trigger] caps[q] by {
                    lemma_wsum_remove(Gauge::TierBytes(q), cur, gi as int);
                    assert(weight(Gauge::TierBytes(q), cur[gi as int]) >= 0);
                }
                lemma_descends_remove(cur, pre, gi as int);
                assert forall|j: int, k: int, q: int|
                    0 <= j < self.fm().len() && 0 <= k < self.fm().len() && 0 <= q < caps.len()
                        && #[trigger] reached(self.fm(), pre, j, q) && #[trigger] reached(
                        self.fm(),
                        pre,
                        k,
                        q,
                    ) && self.fm()[j].rank > q && self.fm()[k].rank == q implies demotes_before(
                    self.fm()[j],
                    self.fm()[k],
                ) by {
                    let jj: int = if j < gi as int {
                        j
                    } else {
                        j + 1
                    };
                    let kk: int = if k < gi as int {
                        k
                    } else {
                        k + 1
                    };
                    assert(self.fm()[j] == cur[jj]);
                    assert(self.fm()[k] == cur[kk]);
                    assert(reached(cur, pre, jj, q));
                    assert(reached(cur, pre, kk, q));
                }
                assert forall|i: int, k: int|
                    0 <= i < pre.len() && 0 <= k < self.fm().len() && !has_path(
                        self.fm(),
                        (#[trigger] pre[i]).path,
                    ) && (#[trigger] self.fm()[k]).queue == QueueKind::A1Out implies
                    demotes_before(pre[i], self.fm()[k]) by {
                    let kk: int = if k < gi as int {
                        k
                    } else {
                        k + 1
                    };
                    assert(self.fm()[k] == cur[kk]);
                    if has_path(cur, pre[i].path) {
                        let j = idx_of(cur, pre[i].path);
                        assert(0 <= j < cur.len() && cur[j].path == pre[i].path);
                        if j != gi as int {
                            let jj: int = if j < gi as int {
                                j
                            } else {
                                j - 1
                            };
                            assert(self.fm()[jj] == cur[j]);
                            assert(has_path(self.fm(), pre[i].path));
                            assert(false);
                        }
                        assert(cur[gi as int].path == pre[i].path);
                        assert(has_descent(cur, pre, gi as int));
                        let i0 = choose|i0: int| descent_of(cur[gi as int], pre, i0);
                        assert(descent_of(cur[gi as int], pre, i0));
                        assert(pre[i0].path == pre[i].path);
                        if i0 < i {
                            assert(pre[i0].path != pre[i].path);
                        } else if i0 > i {
                            assert(pre[i].path != pre[i0].path);
                        }
                        assert(pre[i].recency == cur[gi as int].recency);
                        assert(demotes_before(cur[gi as int], cur[kk]));
                    } else {
                        assert(demotes_before(pre[i], cur[kk]));
                    }
                }
            }
        }
        proof {
            if old(self).no_pending() && old(self).caps_ok() && old(self).a1out_ok() {
                lemma_promote_all_id(pre);
                assert(e5);
                lemma_promotion_moves_none(pre);
                assert(moves@.map_values(|m: Migration| m@).len() == moves@.len());
            }
        }
        moves
    }

    /// Reconcile the bookkeeping against a scan of every tier root, in two
    /// passes. First the scan is taken as authoritative for each record: a
    /// committed copy at the record's rank (a migration's destination)
    /// confirms it; otherwise the record is corrected to the warmest
    /// scanned committed copy of its path, re-marking a promotion whose
    /// copy failed as pending so it is decided again. Then every scanned
    /// copy is folded in: temp copies and committed copies that lost to
    /// the authoritative one are returned as strays for the caller to
    /// discard; untracked committed paths are admitted. A stray always
    /// names a copy the scan saw, and never the only committed copy of a
    /// path: reconciliation directs no data loss.
    #[verifier::loop_isolation(false)]
    pub fn reconcile(&mut self, scan: &Vec<ScanEntry>) -> (strays: Vec<StrayCopy>)
        requires
            old(self).wf(),
            old(self).cold_len() < usize::MAX,
            forall|k: int|
                0 <= k < scan@.len() ==> (#[trigger] scan@[k]).rank <= old(self).cold_len(),
            total_bytes(old(self).fm()) + scan_total(scan@.map_values(|n: ScanEntry| n@))
                <= u64::MAX,
        ensures
            final(self).wf(),
            final(self).same_config(old(self)),
            final(self).outbox@ == old(self).outbox@,
            final(self).fm() == reconcile_files(
                resolve_all(old(self).fm(), scan@.map_values(|n: ScanEntry| n@)),
                scan@.map_values(|n: ScanEntry| n@),
                scan@.map_values(|n: ScanEntry| n@),
            ),
            strays@.map_values(|c: StrayCopy| c@) == reconcile_strays(
                resolve_all(old(self).fm(), scan@.map_values(|n: ScanEntry| n@)),
                scan@.map_values(|n: ScanEntry| n@),
                scan@.map_values(|n: ScanEntry| n@),
            ),
    {
        let ghost es = scan@.map_values(|n: ScanEntry| n@);
        let ghost pre = self.fm();
        proof {
            assert(forall|k: int| 0 <= k < es.len() ==> (#[trigger] es[k]).size >= 0);
            assert(forall|k: int| 0 <= k < es.len() ==> 0 <= (#[trigger] es[k]).rank <= self.cold_len());
        }
        let mut i: usize = 0;
        while i < self.files.len()
            invariant
                i <= pre.len(),
                self.fm().len() == pre.len(),
                self.wf(),
                self.same_config(old(self)),
                self.outbox@ == old(self).outbox@,
                forall|j: int| 0 <= j < i ==> #[trigger] self.fm()[j] == resolved(pre[j], es),
                forall|j: int| i <= j < pre.len() ==> #[trigger] self.fm()[j] == pre[j],
                total_bytes(self.fm()) == total_bytes(pre),
            decreases pre.len() - i,
        {
            let ghost cur = self.fm();
            let anchored = committed_at_exec(scan, &self.files[i].path, self.files[i].rank);
            if !anchored {
                let mr = min_committed_rank_exec(scan, &self.files[i].path);
                proof {
                    lemma_min_committed_rank(es, cur[i as int].path);
                }
                if mr != usize::MAX {
                    proof {
                        assert(has_committed(es, cur[i as int].path)) by {
                            if !has_committed(es, cur[i as int].path) {
                                assert(false);
                            }
                        }
                        assert(committed_at(es, cur[i as int].path, mr as int));
                        let w = choose|w: int|
                            0 <= w < es.len() && !(#[trigger] es[w]).temp && es[w].path
                                == cur[i as int].path && es[w].rank == mr as int;
                        assert(0 <= mr as int <= self.cold_len());
                    }
                    let f = self.files.remove(i);
                    let was_am = f.queue == QueueKind::Am;
                    let colder = f.rank < mr;
                    let nf = TrackedFile { rank: mr, pending: was_am && mr >= 1 && colder, ..f };
                    self.files.insert(i, nf);
                    proof {
                        assert(nf@ == resolved(pre[i as int], es));
                        assert(self.fm() =~= cur.update(i as int, nf@));
                        lemma_files_ok_update(cur, self.cold_len(), i as int, nf@);
                    }
                } else {
                    proof {
                        if has_committed(es, cur[i as int].path) {
                            assert(false);
                        }
                        assert(resolved(pre[i as int], es) == pre[i as int]);
                    }
                }
            } else {
                proof {
                    assert(resolved(pre[i as int], es) == pre[i as int]);
                }
            }
            i += 1;
        }
        proof {
            assert(self.fm() =~= resolve_all(pre, es));
            lemma_total_bytes_resolve_all(pre, es);
        }
        let ghost base = self.fm();
        let mut strays: Vec<StrayCopy> = Vec::new();
        proof {
            assert(es.take(0) =~= Seq::<ScanModel>::empty());
            assert(strays@.map_values(|c: StrayCopy| c@) =~= reconcile_strays(base, es.take(0), es));
        }
        let mut k: usize = 0;
        while k < scan.len()
            invariant
                k <= es.len(),
                self.wf(),
                self.same_config(old(self)),
                self.outbox@ == old(self).outbox@,
                self.fm() == reconcile_files(base, es.take(k as int), es),
                strays@.map_values(|c: StrayCopy| c@) == reconcile_strays(base, es.take(k as int), es),
                total_bytes(self.fm()) <= total_bytes(base) + scan_total(es.take(k as int)),
            decreases es.len() - k,
        {
            let ghost cur = self.fm();
            proof {
                assert(es.take(k as int).push(es[k as int]) =~= es.take(k as int + 1));
                lemma_reconcile_snoc(base, es.take(k as int), es[k as int], es);
                lemma_scan_total_take_le(es, k as int + 1);
                assert(total_bytes(cur) + es[k as int].size <= u64::MAX);
                if !es[k as int].temp {
                    assert(has_committed(es, es[k as int].path));
                }
                lemma_reconcile_step_ok(cur, es[k as int], es, self.cold_len());
            }
            let e = &scan[k];
            if e.temp {
                strays.push(StrayCopy { path: clone_path(&e.path), rank: e.rank, temp: true });
            } else {
                match self.find_file(&e.path) {
                    Some(i) => {
                        proof {
                            lemma_idx_unique(cur, self.cold_len(), i as int, e.path@);
                        }
                        if e.rank == self.files[i].rank {
                            let f = self.files.remove(i);
                            let nf = TrackedFile { size: e.size, ..f };
                            self.files.insert(i, nf);
                            proof {
                                assert(self.fm() =~= cur.update(i as int, nf@));
                            }
                        } else {
                            strays.push(
                                StrayCopy { path: clone_path(&e.path), rank: e.rank, temp: false },
                            );
                        }
                    },
                    None => {
                        let mr = min_committed_rank_exec(scan, &e.path);
                        proof {
                            lemma_min_committed_rank(es, e.path@);
                            assert(has_committed(es, es[k as int].path));
                            assert(committed_at(es, e.path@, mr as int));
                        }
                        let sz = if e.rank == mr {
                            e.size
                        } else {
                            0
                        };
                        self.files.push(
                            TrackedFile {
                                path: clone_path(&e.path),
                                rank: mr,
                                size: sz,
                                queue: QueueKind::A1In,
                                recency: 0,
                                freq: 0,
                                pending: false,
                            },
                        );
                        if e.rank != mr {
                            strays.push(
                                StrayCopy { path: clone_path(&e.path), rank: e.rank, temp: false },
                            );
                        }
                        proof {
                            assert(self.fm() =~= cur.push(scanned(es[k as int], mr as int)));
                        }
                    },
                }
            }
            proof {
                assert(self.fm() == reconcile_step(cur, es[k as int], es));
                assert(strays@.map_values(|c: StrayCopy| c@) =~= reconcile_strays(
                    base,
                    es.take(k as int + 1),
                    es,
                ));
            }
            k += 1;
        }
        proof {
            assert(es.take(es.len() as int) =~= es);
        }
        strays
    }

    /// Hand the migrations decided by `reorganize` to the caller, oldest
    /// first, and clear the outbox.
    pub fn take_migrations(&mut self) -> (r: Vec<Migration>)
        requires
            old(self).wf(),
        ensures
            final(self).wf(),
            final(self).same_config(old(self)),
            final(self).fm() == old(self).fm(),
            r@ == old(self).outbox@,
            final(self).outbox@.len() == 0,
    {
        let mut r: Vec<Migration> = Vec::new();
        r.append(&mut self.outbox);
        proof {
            assert(r@ =~= old(self).outbox@);
        }
        r
    }
}

/// What a scan of the tier roots found: one on-disk copy of a path in one
/// tier, with its size and whether it still carries the in-progress
/// migration marker (the temp suffix) of an uncommitted copy.
pub struct ScanEntry {
    pub path: Vec<u8>,
    pub rank: usize,
    pub size: u64,
    pub temp: bool,
}

/// The mathematical image of a `ScanEntry`.
pub struct ScanModel {
    pub path: Seq<u8>,
    pub rank: int,
    pub size: int,
    pub temp: bool,
}

impl View for ScanEntry {
    type V = ScanModel;

    open spec fn view(&self) -> ScanModel {
        ScanModel {
            path: self.path@,
            rank: self.rank as int,
            size: self.size as int,
            temp: self.temp,
        }
    }
}

/// An on-disk copy reconciliation wants deleted: an uncommitted temp file,
/// or a duplicate of a path whose warmest committed copy won.
pub struct StrayCopy {
    pub path: Vec<u8>,
    pub rank: usize,
    pub temp: bool,
}

/// The mathematical image of a `StrayCopy`.
pub struct StrayModel {
    pub path: Seq<u8>,
    pub rank: int,
    pub temp: bool,
}

impl View for StrayCopy {
    type V = StrayModel;

    open spec fn view(&self) -> StrayModel {
        StrayModel { path: self.path@, rank: self.rank as int, temp: self.temp }
    }
}

/// Some committed (non-temp) copy of `p` was scanned at rank `r`.
pub open spec fn committed_at(es: Seq<ScanModel>, p: Seq<u8>, r: int) -> bool {
    exists|k: int|
        0 <= k < es.len() && !(#[trigger] es[k]).temp && es[k].path == p && es[k].rank == r
}

/// Some committed copy of `p` was scanned at all.
pub open spec fn has_committed(es: Seq<ScanModel>, p: Seq<u8>) -> bool {
    exists|k: int| 0 <= k < es.len() && !(#[trigger] es[k]).temp && es[k].path == p
}

/// The warmest rank at which a committed copy of `p` was scanned; the
/// sentinel `usize::MAX` when none was.
pub open spec fn min_committed_rank(es: Seq<ScanModel>, p: Seq<u8>) -> int
    decreases es.len(),
{
    if es.len() == 0 {
        usize::MAX as int
    } else {
        let rest = min_committed_rank(es.drop_first(), p);
        if !es[0].temp && es[0].path == p && es[0].rank < rest {
            es[0].rank
        } else {
            rest
        }
    }
}

proof fn lemma_min_committed_rank(es: Seq<ScanModel>, p: Seq<u8>)
    requires
        forall|k: int| 0 <= k < es.len() ==> 0 <= (#[trigger] es[k]).rank < usize::MAX as int,
    ensures
        has_committed(es, p) ==> committed_at(es, p, min_committed_rank(es, p)),
        forall|k: int|
            0 <= k < es.len() && !(#[trigger] es[k]).temp && es[k].path == p ==> min_committed_rank(
                es,
                p,
            ) <= es[k].rank,
        !has_committed(es, p) ==> min_committed_rank(es, p) == usize::MAX as int,
    decreases es.len(),
{
    if es.len() == 0 {
        if has_committed(es, p) {
            let k = choose|k: int| 0 <= k < es.len() && !(#[trigger] es[k]).temp && es[k].path == p;
            assert(false);
        }
    } else {
        let tail = es.drop_first();
        assert(forall|i: int| 0 <= i < tail.len() ==> #[trigger] tail[i] == es[i + 1]);
        lemma_min_committed_rank(tail, p);
        let rest = min_committed_rank(tail, p);
        assert forall|k: int|
            0 <= k < es.len() && !(#[trigger] es[k]).temp && es[k].path == p implies
            min_committed_rank(es, p) <= es[k].rank by {
            if k > 0 {
                assert(tail[k - 1] == es[k]);
            }
        }
        if has_committed(es, p) {
            if !es[0].temp && es[0].path == p && es[0].rank < rest {
                assert(committed_at(es, p, es[0].rank));
            } else {
                if !es[0].temp && es[0].path == p {
                    assert(rest <= es[0].rank < usize::MAX as int);
                    if !has_committed(tail, p) {
                        assert(false);
                    }
                } else {
                    let k = choose|k: int|
                        0 <= k < es.len() && !(#[trigger] es[k]).temp && es[k].path == p;
                    assert(k > 0);
                    assert(tail[k - 1] == es[k]);
                    assert(has_committed(tail, p));
                }
                let w = choose|w: int|
                    0 <= w < tail.len() && !(#[trigger] tail[w]).temp && tail[w].path == p
                        && tail[w].rank == rest;
                assert(es[w + 1] == tail[w]);
                assert(committed_at(es, p, rest));
            }
        }
        if has_committed(tail, p) {
            let w = choose|w: int| 0 <= w < tail.len() && !(#[trigger] tail[w]).temp && tail[w].path == p;
            assert(es[w + 1] == tail[w]);
            assert(has_committed(es, p));
        }
    }
}

/// Pass one of reconciliation, for one record: the scan is authoritative.
/// A committed copy scanned at the record's own rank confirms the record —
/// after a reorganization that rank is a migration's destination, so a
/// committed copy there is the fully written one and wins. Otherwise, if
/// the scan holds committed copies of the path elsewhere, the record is
/// corrected to the warmest of them; a correction to a colder rank
/// re-marks an `Am` record pending, so a promotion whose copy step failed
/// is decided again on the next pass. A record none of whose copies were
/// scanned is left alone (removal is the watcher's event to report).
pub open spec fn resolved(f: FileModel, es: Seq<ScanModel>) -> FileModel {
    if committed_at(es, f.path, f.rank) {
        f
    } else if has_committed(es, f.path) {
        let r = min_committed_rank(es, f.path);
        FileModel {
            rank: r,
            pending: f.queue == QueueKind::Am && 1 <= r && f.rank < r,
            ..f
        }
    } else {
        f
    }
}

/// The whole index after pass one.
pub open spec fn resolve_all(s: Seq<FileModel>, es: Seq<ScanModel>) -> Seq<FileModel> {
    s.map_values(|f: FileModel| resolved(f, es))
}

proof fn lemma_total_bytes_resolve_all(s: Seq<FileModel>, es: Seq<ScanModel>)
    ensures
        total_bytes(resolve_all(s, es)) == total_bytes(s),
    decreases s.len(),
{
    if s.len() == 0 {
        assert(resolve_all(s, es) =~= Seq::<FileModel>::empty());
    } else {
        assert(resolve_all(s, es)[0] == resolved(s[0], es));
        assert(weight(Gauge::AllBytes, resolved(s[0], es)) == weight(Gauge::AllBytes, s[0]));
        assert(resolve_all(s, es).drop_first() =~= resolve_all(s.drop_first(), es));
        lemma_total_bytes_resolve_all(s.drop_first(), es);
    }
}

/// The record a scan admits for a path not tracked before: resident at
/// `r`, the warmest scanned committed rank of its path, in `A1In`, never
/// touched yet; its size is known once the copy at `r` itself is folded.
pub open spec fn scanned(n: ScanModel, r: int) -> FileModel {
    FileModel {
        path: n.path,
        rank: r,
        size: if n.rank == r {
            n.size
        } else {
            0
        },
        queue: QueueKind::A1In,
        recency: 0,
        freq: 0,
        pending: false,
    }
}

/// Pass two of reconciliation, for one scan entry against the resolved
/// index: a temp copy never becomes authoritative; a committed copy at the
/// record's rank refreshes its size; a committed copy of an untracked path
/// admits a record at the path's warmest scanned rank; any other committed
/// copy lost to the authoritative one and changes nothing here.
pub open spec fn reconcile_step(s: Seq<FileModel>, n: ScanModel, es: Seq<ScanModel>) -> Seq<
    FileModel,
> {
    if n.temp {
        s
    } else if has_path(s, n.path) {
        let i = idx_of(s, n.path);
        if n.rank == s[i].rank {
            s.update(i, FileModel { size: n.size, ..s[i] })
        } else {
            s
        }
    } else {
        s.push(scanned(n, min_committed_rank(es, n.path)))
    }
}

/// The strays one scan entry produces: every temp copy, and every
/// committed copy that lost to the scanned authoritative copy of its path.
/// A stray always names a copy the scan actually saw; the only committed
/// copy of a path is never a stray.
pub open spec fn stray_of(s: Seq<FileModel>, n: ScanModel, es: Seq<ScanModel>) -> Seq<StrayModel> {
    if n.temp {
        seq![StrayModel { path: n.path, rank: n.rank, temp: true }]
    } else if has_path(s, n.path) {
        if n.rank != s[idx_of(s, n.path)].rank {
            seq![StrayModel { path: n.path, rank: n.rank, temp: false }]
        } else {
            Seq::empty()
        }
    } else if n.rank != min_committed_rank(es, n.path) {
        seq![StrayModel { path: n.path, rank: n.rank, temp: false }]
    } else {
        Seq::empty()
    }
}

/// The index after folding the scan entries `todo` in, first entry first,
/// with the whole scan `es` as context.
pub open spec fn reconcile_files(s: Seq<FileModel>, todo: Seq<ScanModel>, es: Seq<ScanModel>) -> Seq<
    FileModel,
>
    decreases todo.len(),
{
    if todo.len() == 0 {
        s
    } else {
        reconcile_files(reconcile_step(s, todo[0], es), todo.drop_first(), es)
    }
}

/// The strays the scan entries `todo` produce, in scan order.
pub open spec fn reconcile_strays(s: Seq<FileModel>, todo: Seq<ScanModel>, es: Seq<ScanModel>) -> Seq<
    StrayModel,
>
    decreases todo.len(),
{
    if todo.len() == 0 {
        Seq::empty()
    } else {
        stray_of(s, todo[0], es) + reconcile_strays(reconcile_step(s, todo[0], es), todo.drop_first(), es)
    }
}

/// The bytes a scan reports in total (temp copies included).
pub open spec fn scan_total(es: Seq<ScanModel>) -> int
    decreases es.len(),
{
    if es.len() == 0 {
        0
    } else {
        es[0].size + scan_total(es.drop_first())
    }
}

proof fn lemma_reconcile_snoc(s: Seq<FileModel>, todo: Seq<ScanModel>, n: ScanModel, es: Seq<ScanModel>)
    ensures
        reconcile_files(s, todo.push(n), es) == reconcile_step(
            reconcile_files(s, todo, es),
            n,
            es,
        ),
        reconcile_strays(s, todo.push(n), es) == reconcile_strays(s, todo, es) + stray_of(
            reconcile_files(s, todo, es),
            n,
            es,
        ),
        scan_total(todo.push(n)) == scan_total(todo) + n.size,
    decreases todo.len(),
{
    if todo.len() == 0 {
        assert(todo.push(n)[0] == n);
        assert(todo.push(n).drop_first() =~= Seq::<ScanModel>::empty());
        assert(reconcile_files(reconcile_step(s, n, es), Seq::<ScanModel>::empty(), es)
            == reconcile_step(s, n, es));
        assert(reconcile_strays(reconcile_step(s, n, es), Seq::<ScanModel>::empty(), es)
            =~= Seq::<StrayModel>::empty());
        assert(reconcile_strays(s, todo.push(n), es) =~= reconcile_strays(s, todo, es) + stray_of(
            reconcile_files(s, todo, es),
            n,
            es,
        ));
        assert(scan_total(Seq::<ScanModel>::empty()) == 0);
    } else {
        assert(todo.push(n)[0] == todo[0]);
        assert(todo.push(n).drop_first() =~= todo.drop_first().push(n));
        lemma_reconcile_snoc(reconcile_step(s, todo[0], es), todo.drop_first(), n, es);
        assert(reconcile_strays(s, todo.push(n), es) =~= reconcile_strays(s, todo, es) + stray_of(
            reconcile_files(s, todo, es),
            n,
            es,
        ));
    }
}

proof fn lemma_scan_total_take_le(es: Seq<ScanModel>, j: int)
    requires
        0 <= j <= es.len(),
        forall|k: int| 0 <= k < es.len() ==> (#[trigger] es[k]).size >= 0,
    ensures
        scan_total(es.take(j)) <= scan_total(es),
    decreases es.len() - j,
{
    if j == es.len() {
        assert(es.take(j) =~= es);
    } else {
        assert(es.take(j).push(es[j]) =~= es.take(j + 1));
        lemma_reconcile_snoc(Seq::<FileModel>::empty(), es.take(j), es[j], es);
        lemma_scan_total_take_le(es, j + 1);
    }
}

/// One scan entry preserves well-formedness, growing the tracked bytes by
/// at most the entry's size.
proof fn lemma_reconcile_step_ok(s: Seq<FileModel>, n: ScanModel, es: Seq<ScanModel>, cold_len: int)
    requires
        files_ok(s, cold_len),
        cold_len >= 1,
        cold_len < usize::MAX as int,
        forall|k: int| 0 <= k < es.len() ==> 0 <= (#[trigger] es[k]).rank <= cold_len,
        0 <= n.rank <= cold_len,
        0 <= n.size <= u64::MAX,
        total_bytes(s) + n.size <= u64::MAX,
        !n.temp ==> has_committed(es, n.path),
    ensures
        files_ok(reconcile_step(s, n, es), cold_len),
        total_bytes(reconcile_step(s, n, es)) <= total_bytes(s) + n.size,
{
    let s2 = reconcile_step(s, n, es);
    if n.temp {
    } else if has_path(s, n.path) {
        let i = idx_of(s, n.path);
        assert(0 <= i < s.len() && s[i].path == n.path);
        if n.rank == s[i].rank {
            lemma_wsum_update(Gauge::AllBytes, s, i, FileModel { size: n.size, ..s[i] });
        }
    } else {
        lemma_min_committed_rank(es, n.path);
        let r = min_committed_rank(es, n.path);
        assert(committed_at(es, n.path, r));
        let w = choose|w: int|
            0 <= w < es.len() && !(#[trigger] es[w]).temp && es[w].path == n.path && es[w].rank
                == r;
        assert(0 <= r <= cold_len);
        lemma_wsum_push(Gauge::AllBytes, s, scanned(n, r));
        assert(forall|j: int| 0 <= j < s.len() ==> #[trigger] s2[j] == s[j]);
        assert(s2[s.len() as int] == scanned(n, r));
    }
}

/// Promotion law: a file whose record sits in `A1In` or `A1Out` at a cold
/// rank (it was sighted before, by an event or a scan) and which is touched
/// again is promoted exactly one tier warmer, into `Am`, by the
/// reorganization that follows the touch — provided capacity allows, in
/// that `rebalance` realizes exactly `promote_all` whenever the promoted
/// index fits every bounded tier (its final `ensures` clause). Records of
/// other files with no promotion pending are left exactly as they were.
pub proof fn lemma_promotion_law(s: Seq<FileModel>, e: EventModel, cold_len: int, i: int)
    requires
        files_ok(s, cold_len),
        cold_len >= 1,
        0 <= i < s.len(),
        s[i].queue == QueueKind::A1In || s[i].queue == QueueKind::A1Out,
        1 <= s[i].rank,
        e.is_touch(),
        e.path == s[i].path,
        0 <= e.timestamp <= u64::MAX,
    ensures
        step_event(s, e).len() == s.len(),
        promote_all(step_event(s, e)).len() == s.len(),
        promote_all(step_event(s, e))[i].rank == s[i].rank - 1,
        promote_all(step_event(s, e))[i].queue == QueueKind::Am,
        !promote_all(step_event(s, e))[i].pending,
        promote_all(step_event(s, e))[i].path == s[i].path,
        forall|j: int|
            0 <= j < s.len() && j != i && !s[j].pending ==> promote_all(step_event(s, e))[j]
                == s[j],
{
    lemma_idx_unique(s, cold_len, i, e.path);
    let s2 = step_event(s, e);
    assert(s2 == s.update(i, touched(s[i], e.timestamp)));
    assert(touched(s[i], e.timestamp).pending);
    assert(promote_all(s2)[i] == promoted(s2[i]));
    assert forall|j: int|
        0 <= j < s.len() && j != i && !s[j].pending implies promote_all(s2)[j] == s[j] by {
        assert(s2[j] == s[j]);
        assert(promote_all(s2)[j] == promoted(s2[j]));
    }
}

/// The warmest tier is final: a file tracked at the hot rank that is
/// touched again joins `Am` but is never marked pending, so the following
/// reorganization has nothing to promote for it.
pub proof fn lemma_hot_touch_stays(s: Seq<FileModel>, e: EventModel, cold_len: int, i: int)
    requires
        files_ok(s, cold_len),
        cold_len >= 1,
        0 <= i < s.len(),
        s[i].rank == 0,
        e.is_touch(),
        e.path == s[i].path,
        0 <= e.timestamp <= u64::MAX,
    ensures
        step_event(s, e).len() == s.len(),
        step_event(s, e)[i].rank == 0,
        !step_event(s, e)[i].pending,
        promote_all(step_event(s, e))[i] == step_event(s, e)[i],
{
    lemma_idx_unique(s, cold_len, i, e.path);
    let s2 = step_event(s, e);
    assert(s2 == s.update(i, touched(s[i], e.timestamp)));
    assert(promote_all(s2)[i] == promoted(s2[i]));
}

/// Crash-safety law, copy-interrupted direction: a migration interrupted
/// after the copy but before the commit rename leaves the committed source
/// copy and an uncommitted temp copy at the destination. Reconciling a
/// scan that shows both (for a path the index does not track: a restart)
/// yields exactly one authoritative record — the committed copy, at its
/// own rank — and lists the temp copy for discarding, whichever order the
/// scan found the two.
pub proof fn lemma_crash_recovery(
    s: Seq<FileModel>,
    src: ScanModel,
    leftover: ScanModel,
    cold_len: int,
)
    requires
        files_ok(s, cold_len),
        cold_len >= 1,
        !has_path(s, src.path),
        !src.temp,
        leftover.temp,
        leftover.path == src.path,
        0 <= src.rank < usize::MAX as int,
    ensures
        reconcile_files(resolve_all(s, seq![src, leftover]), seq![src, leftover], seq![src, leftover])
            == s.push(scanned(src, src.rank)),
        reconcile_strays(resolve_all(s, seq![src, leftover]), seq![src, leftover], seq![src, leftover])
            == seq![StrayModel { path: leftover.path, rank: leftover.rank, temp: true }],
        reconcile_files(resolve_all(s, seq![leftover, src]), seq![leftover, src], seq![leftover, src])
            == s.push(scanned(src, src.rank)),
        reconcile_strays(resolve_all(s, seq![leftover, src]), seq![leftover, src], seq![leftover, src])
            == seq![StrayModel { path: leftover.path, rank: leftover.rank, temp: true }],
{
    let stray = StrayModel { path: leftover.path, rank: leftover.rank, temp: true };
    let es1 = seq![src, leftover];
    let es2 = seq![leftover, src];
    let p = src.path;
    assert(es1[0] == src && es1[1] == leftover);
    assert(es2[0] == leftover && es2[1] == src);
    assert(es1.drop_first() =~= seq![leftover]);
    assert(es2.drop_first() =~= seq![src]);
    assert(seq![leftover][0] == leftover && seq![src][0] == src);
    assert(seq![leftover].drop_first() =~= Seq::<ScanModel>::empty());
    assert(seq![src].drop_first() =~= Seq::<ScanModel>::empty());
    assert(min_committed_rank(Seq::<ScanModel>::empty(), p) == usize::MAX as int);
    assert(min_committed_rank(seq![leftover], p) == usize::MAX as int);
    assert(min_committed_rank(seq![src], p) == src.rank);
    assert(min_committed_rank(es1, p) == src.rank);
    assert(min_committed_rank(es2, p) == src.rank);
    assert forall|j: int| 0 <= j < s.len() implies (#[trigger] s[j]).path != p by {
        if s[j].path == p {
            assert(has_path(s, p));
        }
    }
    assert forall|j: int| 0 <= j < s.len() implies resolved(#[trigger] s[j], es1) == s[j] by {
        if committed_at(es1, s[j].path, s[j].rank) {
            let w = choose|w: int|
                0 <= w < es1.len() && !(#[trigger] es1[w]).temp && es1[w].path == s[j].path
                    && es1[w].rank == s[j].rank;
            assert(false);
        }
        if has_committed(es1, s[j].path) {
            let w = choose|w: int|
                0 <= w < es1.len() && !(#[trigger] es1[w]).temp && es1[w].path == s[j].path;
            assert(false);
        }
    }
    assert forall|j: int| 0 <= j < s.len() implies resolved(#[trigger] s[j], es2) == s[j] by {
        if committed_at(es2, s[j].path, s[j].rank) {
            let w = choose|w: int|
                0 <= w < es2.len() && !(#[trigger] es2[w]).temp && es2[w].path == s[j].path
                    && es2[w].rank == s[j].rank;
            assert(false);
        }
        if has_committed(es2, s[j].path) {
            let w = choose|w: int|
                0 <= w < es2.len() && !(#[trigger] es2[w]).temp && es2[w].path == s[j].path;
            assert(false);
        }
    }
    assert(resolve_all(s, es1) =~= s);
    assert(resolve_all(s, es2) =~= s);
    let s1 = s.push(scanned(src, src.rank));
    assert(reconcile_step(s, src, es1) == s1);
    assert(reconcile_step(s, src, es2) == s1);
    assert(reconcile_step(s1, leftover, es1) == s1);
    assert(reconcile_step(s, leftover, es2) == s);
    assert(reconcile_files(s1, Seq::<ScanModel>::empty(), es1) == s1);
    assert(reconcile_files(s1, seq![leftover], es1) == s1);
    assert(reconcile_files(s, es1, es1) == s1);
    assert(reconcile_files(s1, Seq::<ScanModel>::empty(), es2) == s1);
    assert(reconcile_files(s, seq![src], es2) == s1);
    assert(reconcile_files(s, es2, es2) == s1);
    assert(stray_of(s, src, es1) =~= Seq::<StrayModel>::empty());
    assert(stray_of(s1, leftover, es1) =~= seq![stray]);
    assert(stray_of(s, leftover, es2) =~= seq![stray]);
    assert(stray_of(s, src, es2) =~= Seq::<StrayModel>::empty());
    assert(reconcile_strays(s1, Seq::<ScanModel>::empty(), es1) =~= Seq::<StrayModel>::empty());
    assert(reconcile_strays(s1, seq![leftover], es1) =~= seq![stray]);
    assert(reconcile_strays(s, es1, es1) =~= seq![stray]);
    assert(reconcile_strays(s1, Seq::<ScanModel>::empty(), es2) =~= Seq::<StrayModel>::empty());
    assert(reconcile_strays(s, seq![src], es2) =~= Seq::<StrayModel>::empty());
    assert(reconcile_strays(s, es2, es2) =~= seq![stray]);
}

/// Crash-safety law, commit-completed direction: a migration interrupted
/// after the commit rename but before the delete of the source leaves
/// fully written copies in two tiers, and the record's rank — the
/// migration's destination — names the committed one. Reconciling a scan
/// that shows both keeps the destination copy authoritative (its size
/// refreshed) and lists the leftover source copy for discarding, whichever
/// order the scan found the two: the fully written destination wins.
pub proof fn lemma_committed_destination_wins(
    s: Seq<FileModel>,
    dst: ScanModel,
    stale: ScanModel,
    cold_len: int,
    i: int,
)
    requires
        files_ok(s, cold_len),
        cold_len >= 1,
        0 <= i < s.len(),
        s[i].path == dst.path,
        s[i].rank == dst.rank,
        !dst.temp,
        !stale.temp,
        stale.path == dst.path,
        stale.rank != dst.rank,
    ensures
        reconcile_files(resolve_all(s, seq![dst, stale]), seq![dst, stale], seq![dst, stale])
            == s.update(i, FileModel { size: dst.size, ..s[i] }),
        reconcile_strays(resolve_all(s, seq![dst, stale]), seq![dst, stale], seq![dst, stale])
            == seq![StrayModel { path: stale.path, rank: stale.rank, temp: false }],
        reconcile_files(resolve_all(s, seq![stale, dst]), seq![stale, dst], seq![stale, dst])
            == s.update(i, FileModel { size: dst.size, ..s[i] }),
        reconcile_strays(resolve_all(s, seq![stale, dst]), seq![stale, dst], seq![stale, dst])
            == seq![StrayModel { path: stale.path, rank: stale.rank, temp: false }],
{
    let stray = StrayModel { path: stale.path, rank: stale.rank, temp: false };
    let es1 = seq![dst, stale];
    let es2 = seq![stale, dst];
    let p = dst.path;
    assert(es1[0] == dst && es1[1] == stale);
    assert(es2[0] == stale && es2[1] == dst);
    assert(es1.drop_first() =~= seq![stale]);
    assert(es2.drop_first() =~= seq![dst]);
    assert(seq![stale][0] == stale && seq![dst][0] == dst);
    assert(seq![stale].drop_first() =~= Seq::<ScanModel>::empty());
    assert(seq![dst].drop_first() =~= Seq::<ScanModel>::empty());
    lemma_idx_unique(s, cold_len, i, p);
    assert(committed_at(es1, p, s[i].rank));
    assert(committed_at(es2, p, s[i].rank));
    assert forall|j: int| 0 <= j < s.len() && j != i implies (#[trigger] s[j]).path != p by {
        if j < i {
            assert(s[j].path != s[i].path);
        } else {
            assert(s[i].path != s[j].path);
        }
    }
    assert forall|j: int| 0 <= j < s.len() implies resolved(#[trigger] s[j], es1) == s[j] by {
        if j == i {
        } else {
            if has_committed(es1, s[j].path) {
                let w = choose|w: int|
                    0 <= w < es1.len() && !(#[trigger] es1[w]).temp && es1[w].path == s[j].path;
                assert(false);
            }
            if committed_at(es1, s[j].path, s[j].rank) {
                let w = choose|w: int|
                    0 <= w < es1.len() && !(#[trigger] es1[w]).temp && es1[w].path == s[j].path
                        && es1[w].rank == s[j].rank;
                assert(false);
            }
        }
    }
    assert forall|j: int| 0 <= j < s.len() implies resolved(#[trigger] s[j], es2) == s[j] by {
        if j == i {
        } else {
            if has_committed(es2, s[j].path) {
                let w = choose|w: int|
                    0 <= w < es2.len() && !(#[trigger] es2[w]).temp && es2[w].path == s[j].path;
                assert(false);
            }
            if committed_at(es2, s[j].path, s[j].rank) {
                let w = choose|w: int|
                    0 <= w < es2.len() && !(#[trigger] es2[w]).temp && es2[w].path == s[j].path
                        && es2[w].rank == s[j].rank;
                assert(false);
            }
        }
    }
    assert(resolve_all(s, es1) =~= s);
    assert(resolve_all(s, es2) =~= s);
    let s1 = s.update(i, FileModel { size: dst.size, ..s[i] });
    assert(s1[i] == FileModel { size: dst.size, ..s[i] });
    assert(idx_of(s, p) == i);
    assert(reconcile_step(s, dst, es1) == s1);
    assert(reconcile_step(s, dst, es2) == s1);
    assert forall|j: int, k: int| 0 <= j < k < s1.len() implies s1[j].path != s1[k].path by {
        assert(s1[j].path == s[j].path && s1[k].path == s[k].path);
    }
    assert(s1[i].path == p);
    assert(has_path(s1, p));
    let k1 = idx_of(s1, p);
    assert(0 <= k1 < s1.len() && s1[k1].path == p);
    assert(k1 == i) by {
        if k1 < i {
            assert(s1[k1].path != s1[i].path);
        } else if k1 > i {
            assert(s1[i].path != s1[k1].path);
        }
    }
    assert(reconcile_step(s1, stale, es1) == s1);
    assert(reconcile_step(s, stale, es2) == s);
    assert(stray_of(s, dst, es1) =~= Seq::<StrayModel>::empty());
    assert(stray_of(s1, stale, es1) =~= seq![stray]);
    assert(stray_of(s, stale, es2) =~= seq![stray]);
    assert(stray_of(s, dst, es2) =~= Seq::<StrayModel>::empty());
    assert(reconcile_files(s1, Seq::<ScanModel>::empty(), es1) == s1);
    assert(reconcile_files(s1, seq![stale], es1) == s1);
    assert(reconcile_files(s, es1, es1) == s1);
    assert(reconcile_files(s1, Seq::<ScanModel>::empty(), es2) == s1);
    assert(reconcile_files(s, seq![dst], es2) == s1);
    assert(reconcile_files(s, es2, es2) == s1);
    assert(reconcile_strays(s1, Seq::<ScanModel>::empty(), es1) =~= Seq::<StrayModel>::empty());
    assert(reconcile_strays(s1, seq![stale], es1) =~= seq![stray]);
    assert(reconcile_strays(s, es1, es1) =~= seq![stray]);
    assert(reconcile_strays(s1, Seq::<ScanModel>::empty(), es2) =~= Seq::<StrayModel>::empty());
    assert(reconcile_strays(s, seq![dst], es2) =~= Seq::<StrayModel>::empty());
    assert(reconcile_strays(s, es2, es2) =~= seq![stray]);
}

impl PolicyEngine for Lru2qPolicy {
    open spec fn inv(&self) -> bool {
        self.wf()
    }

    /// Check a configuration for this policy: at least one cold tier, no
    /// empty root, and no two tier roots equal or nested.
    #[verifier::loop_isolation(false)]
    fn validate_config(hot_storage: &Vec<u8>, cold_storage: &Vec<Vec<u8>>) -> (r: Result<
        (),
        ConfigError,
    >)
        ensures
            r is Ok <==> config_ok(hot_storage@, path_views(cold_storage@)),
            cold_storage@.len() == 0 ==> (r matches Err(ConfigError::NoColdTier)),
            cold_storage@.len() >= 1 && (hot_storage@.len() == 0 || exists|i: int|
                0 <= i < cold_storage@.len() && (#[trigger] path_views(cold_storage@)[i]).len()
                    == 0) ==> (r matches Err(ConfigError::EmptyTierPath)),
            r is Err ==> (r matches Err(ConfigError::NoColdTier)) || (r matches Err(
                ConfigError::EmptyTierPath,
            )) || (r matches Err(ConfigError::OverlappingTiers)),
    {
        let ghost cold: Seq<Seq<u8>> = path_views(cold_storage@);
        let n = cold_storage.len();
        if n == 0 {
            return Err(ConfigError::NoColdTier);
        }
        if hot_storage.len() == 0 {
            return Err(ConfigError::EmptyTierPath);
        }
        let mut i: usize = 0;
        while i < n
            invariant
                n == cold.len(),
                cold == path_views(cold_storage@),
                i <= n,
                forall|k: int| 0 <= k < i ==> (#[trigger] cold[k]).len() > 0,
            decreases n - i,
        {
            if cold_storage[i].len() == 0 {
                proof {
                    assert(cold[i as int].len() == 0);
                    assert(!config_ok(hot_storage@, cold));
                }
                return Err(ConfigError::EmptyTierPath);
            }
            i += 1;
        }
        i = 0;
        while i < n
            invariant
                n == cold.len(),
                cold == path_views(cold_storage@),
                i <= n,
                forall|k: int| 0 <= k < i ==> !roots_overlap(hot_storage@, #[trigger] cold[k]),
            decreases n - i,
        {
            if roots_overlap_exec(hot_storage, &cold_storage[i]) {
                proof {
                    assert(roots_overlap(hot_storage@, cold[i as int]));
                    assert(!config_ok(hot_storage@, cold));
                }
                return Err(ConfigError::OverlappingTiers);
            }
            i += 1;
        }
        i = 0;
        while i < n
            invariant
                n == cold.len(),
                cold == path_views(cold_storage@),
                i <= n,
                forall|k1: int, k2: int|
                    0 <= k1 < k2 < n && k1 < i ==> !roots_overlap(
                        #[trigger] cold[k1],
                        #[trigger] cold[k2],
                    ),
            decreases n - i,
        {
            let mut j: usize = i + 1;
            while j < n
                invariant
                    n == cold.len(),
                    cold == path_views(cold_storage@),
                    i < j <= n,
                    forall|k1: int, k2: int|
                        0 <= k1 < k2 < n && k1 < i ==> !roots_overlap(
                            #[trigger] cold[k1],
                            #[trigger] cold[k2],
                        ),
                    forall|k2: int| i < k2 < j ==> !roots_overlap(cold[i as int], #[trigger] cold[k2]),
                decreases n - j,
            {
                if roots_overlap_exec(&cold_storage[i], &cold_storage[j]) {
                    proof {
                        assert(roots_overlap(cold[i as int], cold[j as int]));
                        assert(!config_ok(hot_storage@, cold));
                    }
                    return Err(ConfigError::OverlappingTiers);
                }
                j += 1;
            }
            i += 1;
        }
        assert forall|k1: int, k2: int|
            0 <= k1 < cold.len() && 0 <= k2 < cold.len() && k1 != k2 implies !roots_overlap(
            #[trigger] cold[k1],
            #[trigger] cold[k2],
        ) by {
            if k1 > k2 {
                assert(!roots_overlap(cold[k2], cold[k1]));
            }
        }
        Ok(())
    }


    fn ingest(&mut self, events: &[AccessEvent])
        ensures
            final(self).same_config(old(self)),
            final(self).outbox@ == old(self).outbox@,
            final(self).fm() == step_events(
                old(self).fm(),
                events@.map_values(|e: AccessEvent| e@),
            ),
    {
        self.ingest_batch(events);
    }

    fn reorganize(&mut self) -> (r: Result<(), ReorganizeError>)
        ensures
            r is Ok,
            final(self).same_config(old(self)),
            final(self).no_pending(),
            final(self).caps_ok(),
            final(self).a1out_ok(),
            descends_from(final(self).fm(), old(self).fm()),
            dropped_are_oldest(final(self).fm(), old(self).fm()),
            demoted_in_order(final(self).fm(), old(self).fm(), old(self).capacities@.len() as int),
            final(self).outbox@.take(old(self).outbox@.len() as int) == old(self).outbox@,
            old(self).no_pending() && old(self).caps_ok() && old(self).a1out_ok()
                ==> final(self).fm() == old(self).fm() && final(self).outbox@ == old(
                self,
            ).outbox@,
            caps_ok_of(promote_all(old(self).fm()), old(self).capacities@) && count_a1out(
                old(self).fm(),
            ) <= old(self).a1out_cap ==> final(self).fm() == promote_all(old(self).fm())
                && final(self).outbox@.skip(old(self).outbox@.len() as int).map_values(
                |m: Migration| m@,
            ) == promotion_moves(old(self).fm()),
    {
        let mut moves = self.rebalance();
        let ghost decided = moves@;
        self.outbox.append(&mut moves);
        proof {
            assert(self.outbox@.take(old(self).outbox@.len() as int) =~= old(self).outbox@);
            assert(self.outbox@.skip(old(self).outbox@.len() as int) =~= decided);
            if old(self).no_pending() && old(self).caps_ok() && old(self).a1out_ok() {
                assert(self.outbox@ =~= old(self).outbox@);
            }
        }
        Ok(())
    }
}

} // verus!
