use vstd::prelude::*;
use crate::run::Run;

verus! {

/// Scores appear in non-increasing order: the best run first, the worst
/// last.
pub open spec fn sorted_desc(s: Seq<Run>) -> bool {
    forall|i: int, j: int| 0 <= i <= j < s.len() ==> s[i].score >= s[j].score
}

/// Candidate `r` stands at position `i` of `post`: after every run of
/// `pre` whose score is at least `r.score`, before all the rest, with the
/// runs of `pre` otherwise undisturbed.
pub open spec fn placed(pre: Seq<Run>, r: Run, post: Seq<Run>, i: int) -> bool {
    &&& 0 <= i <= pre.len()
    &&& (forall|j: int| 0 <= j < i ==> pre[j].score >= r.score)
    &&& (i < pre.len() ==> pre[i].score < r.score)
    &&& post == pre.subrange(0, i) + seq![r] + pre.subrange(i, pre.len() as int)
}

/// A candidate is admitted when a slot is free, or when it strictly beats
/// the worst held run. An equal score never displaces the incumbent.
pub open spec fn admitted(pre: Seq<Run>, cap: nat, r: Run) -> bool {
    pre.len() < cap || (pre.len() > 0 && r.score > pre.last().score)
}

/// The run whose artifact must be deleted after an offer: nothing when a
/// slot was free, the displaced worst incumbent when the candidate won the
/// last slot, the candidate itself when it lost.
pub open spec fn displaced(pre: Seq<Run>, cap: nat, r: Run) -> Option<Run> {
    if pre.len() < cap {
        None
    } else if pre.len() > 0 && r.score > pre.last().score {
        Some(pre.last())
    } else {
        Some(r)
    }
}

/// How one offer transforms the held runs `pre` into `post`.
pub open spec fn offer_post(pre: Seq<Run>, cap: nat, r: Run, post: Seq<Run>) -> bool {
    if pre.len() < cap {
        exists|i: int| placed(pre, r, post, i)
    } else if pre.len() > 0 && r.score > pre.last().score {
        exists|i: int| placed(pre.drop_last(), r, post, i)
    } else {
        post == pre
    }
}

/// Placing a candidate into a descending sequence keeps it descending.
pub proof fn lemma_placed_sorted(pre: Seq<Run>, r: Run, post: Seq<Run>, i: int)
    requires
        sorted_desc(pre),
        placed(pre, r, post, i),
    ensures
        sorted_desc(post),
        post.len() == pre.len() + 1,
{
    assert forall|p: int, q: int| 0 <= p <= q < post.len() implies post[p].score
        >= post[q].score by {
        if p < i && q < i {
            assert(post[p] == pre[p] && post[q] == pre[q]);
        } else if p < i && q == i {
            assert(post[p] == pre[p] && post[q] == r);
        } else if p < i && q > i {
            assert(post[p] == pre[p] && post[q] == pre[q - 1]);
        } else if p == i && q == i {
        } else if p == i && q > i {
            assert(post[q] == pre[q - 1]);
            assert(pre[i].score < r.score);
            assert(pre[i].score >= pre[q - 1].score);
        } else {
            assert(post[p] == pre[p - 1] && post[q] == pre[q - 1]);
        }
    }
}

/// Every run held after a placement was held before, or is the candidate.
pub proof fn lemma_placed_members(pre: Seq<Run>, r: Run, post: Seq<Run>, i: int)
    requires
        placed(pre, r, post, i),
    ensures
        forall|k: int|
            0 <= k < post.len() ==> post[k] == r || exists|l: int|
                0 <= l < pre.len() && post[k] == pre[l],
{
    assert forall|k: int| 0 <= k < post.len() implies post[k] == r || exists|l: int|
        0 <= l < pre.len() && post[k] == pre[l] by {
        if k < i {
            assert(post[k] == pre[k]);
        } else if k == i {
            assert(post[k] == r);
        } else {
            assert(post[k] == pre[k - 1]);
        }
    }
}

/// The bounded top-K archive of runs: at most `capacity` runs, ranked by
/// score, descending. While a run is held here the set owns its artifact's
/// lifecycle: `offer` reports which artifact must be deleted, and nothing
/// else ever leaves the set.
pub struct RetentionSet {
    runs: Vec<Run>,
    capacity: usize,
}

impl View for RetentionSet {
    type V = Seq<Run>;

    closed spec fn view(&self) -> Seq<Run> {
        self.runs@
    }
}

impl RetentionSet {
    /// The fixed capacity chosen at construction.
    pub closed spec fn cap(&self) -> nat {
        self.capacity as nat
    }

    /// Well-formed: never more runs than capacity, ranked descending.
    pub open spec fn wf(&self) -> bool {
        self@.len() <= self.cap() && sorted_desc(self@)
    }

    pub fn new(capacity: usize) -> (s: RetentionSet)
        ensures
            s.wf(),
            s@ == Seq::<Run>::empty(),
            s.cap() == capacity,
    {
        RetentionSet { runs: Vec::new(), capacity }
    }

    /// How many runs are currently held.
    pub fn len(&self) -> (n: usize)
        ensures
            n == self@.len(),
    {
        self.runs.len()
    }

    pub fn capacity(&self) -> (n: usize)
        ensures
            n == self.cap(),
    {
        self.capacity
    }

    /// The score of the current worst held run, if any is held: the last,
    /// since the ranking is descending.
    pub fn peek_worst(&self) -> (w: Option<u64>)
        requires
            self.wf(),
        ensures
            self@.len() == 0 ==> w.is_none(),
            self@.len() > 0 ==> w == Some(self@.last().score),
    {
        if self.runs.len() == 0 {
            None
        } else {
            Some(self.runs[self.runs.len() - 1].score)
        }
    }

    /// Insert `run` at its rank. Callers guarantee a free slot.
    fn insert_ranked(&mut self, run: Run)
        requires
            sorted_desc(old(self)@),
            old(self)@.len() < usize::MAX,
        ensures
            final(self).cap() == old(self).cap(),
            sorted_desc(final(self)@),
            exists|i: int| placed(old(self)@, run, final(self)@, i),
    {
        let ghost pre = self.runs@;
        let mut i: usize = 0;
        while i < self.runs.len() && self.runs[i].score >= run.score
            invariant
                0 <= i <= self.runs@.len(),
                self.runs@ == pre,
                forall|j: int| 0 <= j < i ==> pre[j].score >= run.score,
            decreases self.runs@.len() - i,
        {
            i = i + 1;
        }
        self.runs.insert(i, run);
        proof {
            assert(self.runs@ =~= pre.subrange(0, i as int) + seq![run] + pre.subrange(
                i as int,
                pre.len() as int,
            ));
            assert(placed(pre, run, self.runs@, i as int));
            assert(placed(old(self)@, run, self@, i as int));
            lemma_placed_sorted(pre, run, self.runs@, i as int);
        }
    }

    /// Offer a run to the set. If a slot is free the run is admitted
    /// outright; with the set full, the run is admitted exactly when its
    /// score strictly beats the worst incumbent's, which is then evicted;
    /// on a tie or worse the candidate is discarded. The returned run is
    /// the one whose artifact file the caller must now delete, if any.
    pub fn offer(&mut self, run: Run) -> (displaced_run: Option<Run>)
        requires
            old(self).wf(),
        ensures
            final(self).wf(),
            final(self).cap() == old(self).cap(),
            offer_post(old(self)@, old(self).cap(), run, final(self)@),
            displaced_run == displaced(old(self)@, old(self).cap(), run),
    {
        if self.runs.len() < self.capacity {
            self.insert_ranked(run);
            None
        } else if self.runs.len() > 0 && run.score > self.runs[self.runs.len() - 1].score {
            let ghost pre = self.runs@;
            let worst = self.runs.pop().unwrap();
            proof {
                assert(self.runs@ =~= pre.drop_last());
                assert(sorted_desc(pre.drop_last()));
            }
            self.insert_ranked(run);
            Some(worst)
        } else {
            Some(run)
        }
    }

    /// Consume the set and hand out all held runs, best first. Ownership
    /// of the surviving artifacts passes to the caller.
    pub fn drain_sorted_descending(self) -> (out: Vec<Run>)
        requires
            self.wf(),
        ensures
            out@ == self@,
            sorted_desc(out@),
            forall|k: int| 0 <= k < out@.len() ==> out@[0].score >= #[trigger] out@[k].score,
    {
        self.runs
    }
}

/// Capacity invariant: an offer never grows the set past its capacity, so
/// along any sequence of offers a set that starts within capacity stays
/// within capacity.
pub proof fn lemma_capacity_invariant(pre: Seq<Run>, cap: nat, r: Run, post: Seq<Run>)
    requires
        pre.len() <= cap,
        offer_post(pre, cap, r, post),
    ensures
        post.len() <= cap,
{
    if pre.len() < cap {
        let i = choose|i: int| placed(pre, r, post, i);
        assert(post.len() == pre.len() + 1);
    } else if pre.len() > 0 && r.score > pre.last().score {
        let i = choose|i: int| placed(pre.drop_last(), r, post, i);
        assert(post.len() == pre.len());
    }
}

/// A held sequence the set can reach from empty by offering the runs of
/// `offers` in order, under capacity `cap`.
pub open spec fn reachable_by_offers(cap: nat, offers: Seq<Run>, post: Seq<Run>) -> bool
    decreases offers.len(),
{
    if offers.len() == 0 {
        post == Seq::<Run>::empty()
    } else {
        exists|mid: Seq<Run>|
            reachable_by_offers(cap, offers.drop_last(), mid) && #[trigger] offer_post(
                mid,
                cap,
                offers.last(),
                post,
            )
    }
}

/// Capacity invariant over whole histories: however long the sequence of
/// offered runs, a set grown from empty never holds more than `cap` runs,
/// and always stays ranked descending.
pub proof fn lemma_history_within_capacity(cap: nat, offers: Seq<Run>, post: Seq<Run>)
    requires
        reachable_by_offers(cap, offers, post),
    ensures
        post.len() <= cap,
        sorted_desc(post),
    decreases offers.len(),
{
    if offers.len() > 0 {
        let r = offers.last();
        let mid = choose|mid: Seq<Run>|
            reachable_by_offers(cap, offers.drop_last(), mid) && #[trigger] offer_post(
                mid,
                cap,
                r,
                post,
            );
        lemma_history_within_capacity(cap, offers.drop_last(), mid);
        lemma_capacity_invariant(mid, cap, r, post);
        if mid.len() < cap {
            let i = choose|i: int| placed(mid, r, post, i);
            lemma_placed_sorted(mid, r, post, i);
        } else if mid.len() > 0 && r.score > mid.last().score {
            assert(sorted_desc(mid.drop_last()));
            let i = choose|i: int| placed(mid.drop_last(), r, post, i);
            lemma_placed_sorted(mid.drop_last(), r, post, i);
        }
    }
}

/// Admission correctness: with the set full, candidate `b` is admitted
/// exactly when its score strictly beats the worst incumbent's; on a tie
/// or worse the set is unchanged and `b` itself is discarded; on a win the
/// worst incumbent is discarded and `b` is held.
pub proof fn lemma_admission_correctness(pre: Seq<Run>, cap: nat, b: Run, post: Seq<Run>)
    requires
        pre.len() == cap,
        cap > 0,
        offer_post(pre, cap, b, post),
    ensures
        admitted(pre, cap, b) <==> b.score > pre.last().score,
        b.score <= pre.last().score ==> post == pre && displaced(pre, cap, b) == Some(b),
        b.score > pre.last().score ==> displaced(pre, cap, b) == Some(pre.last())
            && post.contains(b),
{
    if b.score > pre.last().score {
        let i = choose|i: int| placed(pre.drop_last(), b, post, i);
        assert(post[i] == b);
        assert(post.contains(b));
    }
}

/// The disk as the set sees it: the paths of the artifact files that
/// exist, with the displaced run's artifact deleted.
pub open spec fn after_delete(disk: Set<Seq<u8>>, victim: Option<Run>) -> Set<Seq<u8>> {
    match victim {
        Some(v) => disk.remove(v.path@),
        None => disk,
    }
}

/// No two of the runs name the same artifact.
pub open spec fn distinct_paths(s: Seq<Run>) -> bool {
    forall|k: int, l: int| 0 <= k < l < s.len() ==> s[k].path@ != s[l].path@
}

/// Placing a run whose path collides with no held path keeps all held
/// paths distinct.
proof fn lemma_placed_distinct(pre: Seq<Run>, r: Run, post: Seq<Run>, i: int)
    requires
        placed(pre, r, post, i),
        distinct_paths(pre),
        forall|k: int| 0 <= k < pre.len() ==> #[trigger] pre[k].path@ != r.path@,
    ensures
        distinct_paths(post),
{
    assert forall|p: int, q: int| 0 <= p < q < post.len() implies post[p].path@
        != post[q].path@ by {
        if p == i {
            assert(post[p] == r && post[q] == pre[q - 1]);
        } else if q == i {
            assert(post[p] == pre[p] && post[q] == r);
        } else {
            let pp: int = if p < i {
                p
            } else {
                p - 1
            };
            let qq: int = if q < i {
                q
            } else {
                q - 1
            };
            assert(post[p] == pre[pp] && post[q] == pre[qq]);
            assert(0 <= pp < qq < pre.len());
        }
    }
}

/// Disk–set consistency: when every held path and the candidate's path
/// name an artifact on disk, and no two of them collide, then after an
/// offer and the deletion it calls for, every retained path still names an
/// artifact on disk, and the deleted path is retained by no run.
pub proof fn lemma_disk_set_consistency(
    pre: Seq<Run>,
    cap: nat,
    r: Run,
    post: Seq<Run>,
    disk: Set<Seq<u8>>,
)
    requires
        pre.len() <= cap,
        offer_post(pre, cap, r, post),
        forall|k: int| 0 <= k < pre.len() ==> disk.contains(#[trigger] pre[k].path@),
        disk.contains(r.path@),
        distinct_paths(pre),
        forall|k: int| 0 <= k < pre.len() ==> #[trigger] pre[k].path@ != r.path@,
    ensures
        forall|k: int|
            0 <= k < post.len() ==> after_delete(disk, displaced(pre, cap, r)).contains(
                #[trigger] post[k].path@,
            ),
        displaced(pre, cap, r) matches Some(v) ==> forall|k: int|
            0 <= k < post.len() ==> #[trigger] post[k].path@ != v.path@,
{
    if pre.len() < cap {
        let i = choose|i: int| placed(pre, r, post, i);
        lemma_placed_members(pre, r, post, i);
    } else if pre.len() > 0 && r.score > pre.last().score {
        let i = choose|i: int| placed(pre.drop_last(), r, post, i);
        lemma_placed_members(pre.drop_last(), r, post, i);
        let v = pre.last();
        assert forall|k: int| 0 <= k < post.len() implies #[trigger] post[k].path@
            != v.path@ by {
            if post[k] == r {
            } else {
                let l = choose|l: int|
                    0 <= l < pre.drop_last().len() && post[k] == pre.drop_last()[l];
                assert(post[k] == pre[l]);
                assert(pre[l].path@ != pre[pre.len() - 1].path@);
            }
        }
        assert forall|k: int| 0 <= k < post.len() implies after_delete(
            disk,
            displaced(pre, cap, r),
        ).contains(#[trigger] post[k].path@) by {
            if post[k] == r {
            } else {
                let l = choose|l: int|
                    0 <= l < pre.drop_last().len() && post[k] == pre.drop_last()[l];
                assert(post[k] == pre[l]);
            }
        }
    } else {
        assert(post == pre);
        assert forall|k: int| 0 <= k < post.len() implies after_delete(
            disk,
            displaced(pre, cap, r),
        ).contains(#[trigger] post[k].path@) by {
            assert(pre[k].path@ != r.path@);
        }
    }
}

/// One iteration of the attempt loop as the disk sees it: the worker
/// writes the candidate's artifact at a path not yet on disk (what seed
/// freshness guarantees), the run is offered, and the displaced run's
/// artifact, if any, is deleted.
pub open spec fn curation_step(
    pre_held: Seq<Run>,
    pre_disk: Set<Seq<u8>>,
    cap: nat,
    r: Run,
    post_held: Seq<Run>,
    post_disk: Set<Seq<u8>>,
) -> bool {
    &&& !pre_disk.contains(r.path@)
    &&& offer_post(pre_held, cap, r, post_held)
    &&& post_disk == after_delete(pre_disk.insert(r.path@), displaced(pre_held, cap, r))
}

/// Disk–set consistency, as the state invariant the harness maintains:
/// no two held runs share an artifact, and every held run's artifact
/// exists on disk.
pub open spec fn disk_consistent(held: Seq<Run>, disk: Set<Seq<u8>>) -> bool {
    distinct_paths(held) && forall|k: int|
        0 <= k < held.len() ==> disk.contains(#[trigger] held[k].path@)
}

/// Disk–set consistency is preserved by every curation step — the
/// candidate arriving at a fresh path is all it takes — and the deleted
/// artifact belongs to no run still held.
pub proof fn lemma_curation_step_consistent(
    pre_held: Seq<Run>,
    pre_disk: Set<Seq<u8>>,
    cap: nat,
    r: Run,
    post_held: Seq<Run>,
    post_disk: Set<Seq<u8>>,
)
    requires
        pre_held.len() <= cap,
        disk_consistent(pre_held, pre_disk),
        curation_step(pre_held, pre_disk, cap, r, post_held, post_disk),
    ensures
        disk_consistent(post_held, post_disk),
        displaced(pre_held, cap, r) matches Some(v) ==> forall|k: int|
            0 <= k < post_held.len() ==> #[trigger] post_held[k].path@ != v.path@,
{
    let disk1 = pre_disk.insert(r.path@);
    assert forall|k: int| 0 <= k < pre_held.len() implies #[trigger] pre_held[k].path@
        != r.path@ by {
        assert(pre_disk.contains(pre_held[k].path@));
    }
    lemma_disk_set_consistency(pre_held, cap, r, post_held, disk1);
    if pre_held.len() < cap {
        let i = choose|i: int| placed(pre_held, r, post_held, i);
        lemma_placed_distinct(pre_held, r, post_held, i);
    } else if pre_held.len() > 0 && r.score > pre_held.last().score {
        let trimmed = pre_held.drop_last();
        assert(distinct_paths(trimmed));
        assert forall|k: int| 0 <= k < trimmed.len() implies #[trigger] trimmed[k].path@
            != r.path@ by {
            assert(trimmed[k] == pre_held[k]);
        }
        let i = choose|i: int| placed(trimmed, r, post_held, i);
        lemma_placed_distinct(trimmed, r, post_held, i);
    }
}

/// The states reachable from an empty set and an initial disk by a whole
/// history of curation steps, offering the runs of `offers` in order.
pub open spec fn curation_reachable(
    cap: nat,
    offers: Seq<Run>,
    disk0: Set<Seq<u8>>,
    held: Seq<Run>,
    disk: Set<Seq<u8>>,
) -> bool
    decreases offers.len(),
{
    if offers.len() == 0 {
        held == Seq::<Run>::empty() && disk == disk0
    } else {
        exists|mh: Seq<Run>, md: Set<Seq<u8>>|
            curation_reachable(cap, offers.drop_last(), disk0, mh, md) && #[trigger] curation_step(
                mh,
                md,
                cap,
                offers.last(),
                held,
                disk,
            )
    }
}

/// Disk–set consistency over whole histories: starting from an empty set,
/// however many runs are offered — each arriving at a path fresh on disk,
/// as the seed generator guarantees — after every step the held runs name
/// pairwise distinct artifacts, every one of which exists on disk.
pub proof fn lemma_history_disk_consistent(
    cap: nat,
    offers: Seq<Run>,
    disk0: Set<Seq<u8>>,
    held: Seq<Run>,
    disk: Set<Seq<u8>>,
)
    requires
        curation_reachable(cap, offers, disk0, held, disk),
    ensures
        disk_consistent(held, disk),
        held.len() <= cap,
    decreases offers.len(),
{
    if offers.len() > 0 {
        let r = offers.last();
        let (mh, md) = choose|mh: Seq<Run>, md: Set<Seq<u8>>|
            curation_reachable(cap, offers.drop_last(), disk0, mh, md) && #[trigger] curation_step(
                mh,
                md,
                cap,
                r,
                held,
                disk,
            );
        lemma_history_disk_consistent(cap, offers.drop_last(), disk0, mh, md);
        lemma_capacity_invariant(mh, cap, r, held);
        lemma_curation_step_consistent(mh, md, cap, r, held, disk);
    }
}

} // verus!
