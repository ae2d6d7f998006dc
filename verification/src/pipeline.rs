use vstd::prelude::*;
use vstd::pervasive::VecAdditionalExecFns;

use crate::utilities::FileEntry;
use crate::wal::{decremented, WalAction, WalError, WalFile};

verus! {

/// One record of the pending-work directory, as the pipeline model sees it:
/// the sequence number that names its file, the action and duration it
/// carries, and whether the consumer has renamed it to the terminal state.
#[derive(Clone, Copy, PartialEq, Eq, Structural, Debug)]
pub struct PendingRecord {
    pub seq: u64,
    pub action: WalAction,
    pub duration: u64,
    pub finalized: bool,
}

/// The shared filesystem as the pipeline services see it: the records of
/// the pending-work directory, and the sequence numbers whose completion
/// markers stand in the acknowledgement directory.
pub struct PipelineState {
    pub pending: Vec<PendingRecord>,
    pub markers: Vec<u64>,
}

/// Generated names never collide: no two pending records share a sequence
/// number.
pub open spec fn seqs_unique(p: Seq<PendingRecord>) -> bool {
    forall|i: int, j: int| 0 <= i < j < p.len() ==> p[i].seq != p[j].seq
}

/// At most one marker per record.
pub open spec fn markers_unique(m: Seq<u64>) -> bool {
    forall|i: int, j: int| 0 <= i < j < m.len() ==> m[i] != m[j]
}

/// Some record among `p` carries the sequence number `s` and has already
/// converted to `Success`.
pub open spec fn marker_backed_by(p: Seq<PendingRecord>, s: u64) -> bool {
    exists|i: int| 0 <= i < p.len() && (#[trigger] p[i]).seq == s && p[i].action is Success
}

/// The causal-ordering invariant of the pipeline: a completion marker only
/// ever exists for a record that the pending-work directory holds with a
/// `Success` action — the processor persists the success before it emits
/// the marker.
pub open spec fn markers_backed(st: PipelineState) -> bool {
    forall|j: int|
        0 <= j < st.markers@.len() ==> marker_backed_by(st.pending@, #[trigger] st.markers@[j])
}

/// What every pipeline step preserves.
pub open spec fn state_wf(st: PipelineState) -> bool {
    seqs_unique(st.pending@) && markers_unique(st.markers@) && markers_backed(st)
}

/// The processor takes a record on when it is still pending and not yet in
/// the processor's set of handled names.
pub open spec fn processor_candidate(r: PendingRecord, processed: Seq<u64>) -> bool {
    !r.finalized && !processed.contains(r.seq)
}

/// The consumer finalizes a record when it is still pending and its
/// completion marker exists.
pub open spec fn consumer_candidate(r: PendingRecord, markers: Seq<u64>) -> bool {
    !r.finalized && markers.contains(r.seq)
}

proof fn lemma_contains_push(s: Seq<u64>, x: u64, y: u64)
    ensures
        s.push(x).contains(y) <==> (s.contains(y) || x == y),
{
    if s.contains(y) {
        let i = choose|i: int| 0 <= i < s.len() && s[i] == y;
        assert(s.push(x)[i] == y);
    }
    assert(s.push(x)[s.len() as int] == x);
    if s.push(x).contains(y) {
        let i = choose|i: int| 0 <= i < s.push(x).len() && s.push(x)[i] == y;
        if i < s.len() {
            assert(s[i] == y);
        }
    }
}

proof fn lemma_contains_remove(s: Seq<u64>, i: int, y: u64)
    requires
        0 <= i < s.len(),
        markers_unique(s),
    ensures
        s.remove(i).contains(y) <==> (s.contains(y) && y != s[i]),
{
    let t = s.remove(i);
    if t.contains(y) {
        let j = choose|j: int| 0 <= j < t.len() && t[j] == y;
        if j < i {
            assert(s[j] == y);
        } else {
            assert(s[j + 1] == y);
        }
    }
    if s.contains(y) && y != s[i] {
        let j = choose|j: int| 0 <= j < s.len() && s[j] == y;
        if j < i {
            assert(t[j] == y);
        } else {
            assert(t[j - 1] == y);
        }
    }
}

/// Whether `x` occurs in `v`.
fn contains_u64(v: &Vec<u64>, x: u64) -> (res: bool)
    ensures
        res == v@.contains(x),
{
    let mut i: usize = 0;
    while i < v.len()
        invariant
            0 <= i <= v@.len(),
            forall|j: int| 0 <= j < i ==> v@[j] != x,
        decreases v@.len() - i,
    {
        if v[i] == x {
            return true;
        }
        i += 1;
    }
    false
}

/// Drops the completion marker for `seq` into the acknowledgement
/// directory. Idempotent: a marker that is already there is left alone.
pub fn emit_marker(markers: &mut Vec<u64>, seq: u64)
    ensures
        final(markers)@ == if old(markers)@.contains(seq) {
            old(markers)@
        } else {
            old(markers)@.push(seq)
        },
{
    if !contains_u64(markers, seq) {
        markers.push(seq);
    }
}

/// Deletes the completion marker for `seq`. Deleting a marker that is not
/// there is an `IoError`, never silently ignored; the markers are then left
/// as they were.
pub fn remove_marker(markers: &mut Vec<u64>, seq: u64) -> (res: Result<(), WalError>)
    ensures
        res is Ok <==> old(markers)@.contains(seq),
        res matches Err(e) ==> e == WalError::IoError && final(markers)@ == old(markers)@,
        res is Ok ==> exists|i: int|
            0 <= i < old(markers)@.len() && old(markers)@[i] == seq && final(markers)@
                == #[trigger] old(markers)@.remove(i),
{
    let mut i: usize = 0;
    while i < markers.len()
        invariant
            0 <= i <= markers@.len(),
            markers@ == old(markers)@,
            forall|j: int| 0 <= j < i ==> markers@[j] != seq,
        decreases markers@.len() - i,
    {
        if markers[i] == seq {
            let ghost m0 = markers@;
            markers.remove(i);
            proof {
                assert(m0[i as int] == seq && markers@ == m0.remove(i as int));
            }
            return Ok(());
        }
        i += 1;
    }
    Err(WalError::IoError)
}

/// One retry transition of an action.
fn decrement_action(a: WalAction) -> (res: WalAction)
    ensures
        res == decremented(a),
{
    match a {
        WalAction::Fail { remaining } => {
            if remaining <= 1 {
                WalAction::Success
            } else {
                WalAction::Fail { remaining: remaining - 1 }
            }
        },
        WalAction::Success => WalAction::Success,
    }
}

/// One processor pass over the pending-work directory. Every record that is
/// still pending and not yet in the processor's handled set takes one retry
/// transition in place; a record whose action has thereby converted to (or
/// already was) `Success` is persisted first and only then acknowledged:
/// its completion marker is emitted and its name enters the handled set.
/// Returns whether any record was taken on — with an empty backlog the
/// processor does no work on its first scan and changes nothing, which is
/// its termination signal.
pub fn processor_pass(st: &mut PipelineState, processed: &mut Vec<u64>) -> (worked: bool)
    requires
        state_wf(*old(st)),
    ensures
        state_wf(*final(st)),
        final(st).pending@.len() == old(st).pending@.len(),
        forall|i: int|
            0 <= i < old(st).pending@.len() ==> {
                let r0 = old(st).pending@[i];
                let r1 = #[trigger] final(st).pending@[i];
                r1.seq == r0.seq && r1.duration == r0.duration && r1.finalized == r0.finalized
                    && r1.action == (if processor_candidate(r0, old(processed)@) {
                    decremented(r0.action)
                } else {
                    r0.action
                })
            },
        forall|s: u64|
            #[trigger] final(st).markers@.contains(s) <==> old(st).markers@.contains(s) || exists|
                i: int,
            |
                0 <= i < old(st).pending@.len() && processor_candidate(
                    #[trigger] old(st).pending@[i],
                    old(processed)@,
                ) && decremented(old(st).pending@[i].action) is Success && old(st).pending@[i].seq
                    == s,
        forall|s: u64|
            #[trigger] final(processed)@.contains(s) <==> old(processed)@.contains(s) || exists|
                i: int,
            |
                0 <= i < old(st).pending@.len() && processor_candidate(
                    #[trigger] old(st).pending@[i],
                    old(processed)@,
                ) && decremented(old(st).pending@[i].action) is Success && old(st).pending@[i].seq
                    == s,
        worked == exists|i: int|
            0 <= i < old(st).pending@.len() && processor_candidate(
                #[trigger] old(st).pending@[i],
                old(processed)@,
            ),
        !worked ==> final(st).pending@ == old(st).pending@ && final(st).markers@ == old(
            st,
        ).markers@ && final(processed)@ == old(processed)@,
{
    let ghost p0 = st.pending@;
    let ghost m0 = st.markers@;
    let ghost pr0 = processed@;
    let mut worked = false;
    let mut i: usize = 0;
    while i < st.pending.len()
        invariant
            0 <= i <= p0.len(),
            st.pending@.len() == p0.len(),
            seqs_unique(p0),
            forall|j: int| i <= j < p0.len() ==> st.pending@[j] == p0[j],
            forall|j: int|
                0 <= j < i ==> {
                    let r0 = p0[j];
                    let r1 = #[trigger] st.pending@[j];
                    r1.seq == r0.seq && r1.duration == r0.duration && r1.finalized == r0.finalized
                        && r1.action == (if processor_candidate(r0, pr0) {
                        decremented(r0.action)
                    } else {
                        r0.action
                    })
                },
            markers_unique(st.markers@),
            markers_backed(*st),
            forall|s: u64|
                #[trigger] st.markers@.contains(s) <==> m0.contains(s) || exists|j: int|
                    0 <= j < i && processor_candidate(#[trigger] p0[j], pr0) && decremented(
                        p0[j].action,
                    ) is Success && p0[j].seq == s,
            forall|s: u64|
                #[trigger] processed@.contains(s) <==> pr0.contains(s) || exists|j: int|
                    0 <= j < i && processor_candidate(#[trigger] p0[j], pr0) && decremented(
                        p0[j].action,
                    ) is Success && p0[j].seq == s,
            worked == exists|j: int| 0 <= j < i && processor_candidate(#[trigger] p0[j], pr0),
            !worked ==> st.pending@ == p0 && st.markers@ == m0 && processed@ == pr0,
        decreases p0.len() - i,
    {
        let r = st.pending[i];
        let in_processed = contains_u64(processed, r.seq);
        proof {
            assert(r == p0[i as int]);
            // the handled set has only gained names of records before this one
            if processed@.contains(r.seq) != pr0.contains(r.seq) {
                let j = choose|j: int|
                    0 <= j < i && processor_candidate(p0[j], pr0) && decremented(
                        p0[j].action,
                    ) is Success && p0[j].seq == r.seq;
                assert(p0[j].seq != p0[i as int].seq);
                assert(false);
            }
        }
        if !r.finalized && !in_processed {
            worked = true;
            let a2 = decrement_action(r.action);
            let ghost ppre = st.pending@;
            st.pending.set(
                i,
                PendingRecord { seq: r.seq, action: a2, duration: r.duration, finalized: r.finalized },
            );
            proof {
                // every marker stays backed: a marker on this record means it
                // was already `Success`, and `Success` records stay `Success`
                assert forall|j: int| 0 <= j < st.markers@.len() implies marker_backed_by(
                    st.pending@,
                    #[trigger] st.markers@[j],
                ) by {
                    let m = st.markers@[j];
                    assert(marker_backed_by(ppre, m));
                    let ii = choose|ii: int|
                        0 <= ii < ppre.len() && (#[trigger] ppre[ii]).seq == m
                            && ppre[ii].action is Success;
                    if ii == i {
                        assert(st.pending@[ii].seq == m && st.pending@[ii].action is Success);
                    } else {
                        assert(st.pending@[ii] == ppre[ii]);
                    }
                    assert(marker_backed_by(st.pending@, m));
                }
                assert(markers_backed(*st));
            }
            if matches!(a2, WalAction::Success) {
                let ghost mpre = st.markers@;
                let ghost prpre = processed@;
                emit_marker(&mut st.markers, r.seq);
                processed.push(r.seq);
                proof {
                    if !mpre.contains(r.seq) {
                        assert forall|a: int, b: int|
                            0 <= a < b < st.markers@.len() implies st.markers@[a]
                            != st.markers@[b] by {
                            if b == st.markers@.len() - 1 {
                                assert(st.markers@[a] == mpre[a]);
                                if st.markers@[a] == r.seq {
                                    assert(mpre.contains(r.seq));
                                }
                            }
                        }
                    }
                    assert forall|j: int| 0 <= j < st.markers@.len() implies marker_backed_by(
                        st.pending@,
                        #[trigger] st.markers@[j],
                    ) by {
                        if j < mpre.len() {
                            assert(st.markers@[j] == mpre[j]);
                            assert(marker_backed_by(st.pending@, mpre[j]));
                        } else {
                            assert(st.markers@[j] == r.seq);
                            assert(st.pending@[i as int].seq == r.seq
                                && st.pending@[i as int].action is Success);
                            assert(marker_backed_by(st.pending@, r.seq));
                        }
                    }
                    assert(markers_backed(*st));
                    assert forall|s: u64| #[trigger]
                        st.markers@.contains(s) <==> (m0.contains(s) || exists|j: int|
                            0 <= j < i + 1 && processor_candidate(#[trigger] p0[j], pr0)
                                && decremented(p0[j].action) is Success && p0[j].seq == s) by {
                        lemma_contains_push(mpre, r.seq, s);
                        if s == r.seq {
                            assert(processor_candidate(p0[i as int], pr0) && decremented(
                                p0[i as int].action,
                            ) is Success && p0[i as int].seq == s);
                        } else {
                            assert(st.markers@.contains(s) == mpre.contains(s));
                            assert forall|j: int|
                                0 <= j < i + 1 && processor_candidate(#[trigger] p0[j], pr0)
                                    && decremented(p0[j].action) is Success && p0[j].seq == s
                                    implies j < i by {}
                        }
                    }
                    assert forall|s: u64| #[trigger]
                        processed@.contains(s) <==> (pr0.contains(s) || exists|j: int|
                            0 <= j < i + 1 && processor_candidate(#[trigger] p0[j], pr0)
                                && decremented(p0[j].action) is Success && p0[j].seq == s) by {
                        lemma_contains_push(prpre, r.seq, s);
                        assert(processed@ == prpre.push(r.seq));
                        if s == r.seq {
                            assert(processor_candidate(p0[i as int], pr0) && decremented(
                                p0[i as int].action,
                            ) is Success && p0[i as int].seq == s);
                        } else {
                            assert(processed@.contains(s) == prpre.contains(s));
                            assert forall|j: int|
                                0 <= j < i + 1 && processor_candidate(#[trigger] p0[j], pr0)
                                    && decremented(p0[j].action) is Success && p0[j].seq == s
                                    implies j < i by {}
                        }
                    }
                }
            } else {
                proof {
                    assert forall|s: u64| #[trigger]
                        st.markers@.contains(s) <==> (m0.contains(s) || exists|j: int|
                            0 <= j < i + 1 && processor_candidate(#[trigger] p0[j], pr0)
                                && decremented(p0[j].action) is Success && p0[j].seq == s) by {}
                }
            }
        }
        i += 1;
    }
    proof {
        if !(exists|j: int|
            0 <= j < p0.len() && processor_candidate(#[trigger] p0[j], pr0))
            {
            assert(st.pending@ == p0 && st.markers@ == m0 && processed@ == pr0);
        }
    }
    worked
}

/// One consumer pass over the two directories. Every record that is still
/// pending and whose completion marker exists is finalized: renamed to the
/// terminal state, its marker deleted. Causal safety holds: under the
/// pipeline invariant such a record always carries `Success` — a record
/// carrying failure state at finalize time would be a `ProtocolViolation`,
/// and this pass proves that outcome impossible, so it always returns `Ok`.
/// `Ok(false)` means nothing was there to finalize — the consumer's
/// termination signal on an empty backlog — and then nothing has changed.
pub fn consumer_pass(st: &mut PipelineState) -> (res: Result<bool, WalError>)
    requires
        state_wf(*old(st)),
    ensures
        state_wf(*final(st)),
        res is Ok,
        final(st).pending@.len() == old(st).pending@.len(),
        forall|i: int|
            0 <= i < old(st).pending@.len() ==> {
                let r0 = old(st).pending@[i];
                let r1 = #[trigger] final(st).pending@[i];
                r1.seq == r0.seq && r1.duration == r0.duration && r1.action == r0.action
                    && r1.finalized == (r0.finalized || consumer_candidate(r0, old(st).markers@))
                    && (consumer_candidate(r0, old(st).markers@) ==> r0.action is Success)
            },
        forall|s: u64|
            #[trigger] final(st).markers@.contains(s) <==> old(st).markers@.contains(s) && !(
            exists|i: int|
                0 <= i < old(st).pending@.len() && consumer_candidate(
                    #[trigger] old(st).pending@[i],
                    old(st).markers@,
                ) && old(st).pending@[i].seq == s),
        res matches Ok(w) ==> w == exists|i: int|
            0 <= i < old(st).pending@.len() && consumer_candidate(
                #[trigger] old(st).pending@[i],
                old(st).markers@,
            ),
        res matches Ok(w) && !w ==> final(st).pending@ == old(st).pending@ && final(st).markers@
            == old(st).markers@,
{
    let ghost p0 = st.pending@;
    let ghost m0 = st.markers@;
    let mut worked = false;
    let mut i: usize = 0;
    while i < st.pending.len()
        invariant
            0 <= i <= p0.len(),
            st.pending@.len() == p0.len(),
            seqs_unique(p0),
            markers_unique(m0),
            forall|j: int| i <= j < p0.len() ==> st.pending@[j] == p0[j],
            forall|j: int|
                0 <= j < i ==> {
                    let r0 = p0[j];
                    let r1 = #[trigger] st.pending@[j];
                    r1.seq == r0.seq && r1.duration == r0.duration && r1.action == r0.action
                        && r1.finalized == (r0.finalized || consumer_candidate(r0, m0))
                        && (consumer_candidate(r0, m0) ==> r0.action is Success)
                },
            markers_unique(st.markers@),
            markers_backed(*st),
            forall|s: u64|
                #[trigger] st.markers@.contains(s) <==> m0.contains(s) && !(exists|j: int|
                    0 <= j < i && consumer_candidate(#[trigger] p0[j], m0) && p0[j].seq == s),
            worked == exists|j: int| 0 <= j < i && consumer_candidate(#[trigger] p0[j], m0),
            !worked ==> st.pending@ == p0 && st.markers@ == m0,
        decreases p0.len() - i,
    {
        let r = st.pending[i];
        let has_marker = contains_u64(&st.markers, r.seq);
        proof {
            assert(r == p0[i as int]);
            // markers lost so far were for records before this one
            if st.markers@.contains(r.seq) != m0.contains(r.seq) {
                assert(m0.contains(r.seq));
                let j = choose|j: int|
                    0 <= j < i && consumer_candidate(p0[j], m0) && p0[j].seq == r.seq;
                assert(p0[j].seq != p0[i as int].seq);
                assert(false);
            }
        }
        if !r.finalized && has_marker {
            worked = true;
            match r.action {
                WalAction::Fail { .. } => {
                    proof {
                        // impossible: the marker is backed by a `Success`
                        // record with this very sequence number
                        assert(marker_backed_by(st.pending@, r.seq));
                        let ii = choose|ii: int|
                            0 <= ii < st.pending@.len() && (#[trigger] st.pending@[ii]).seq
                                == r.seq && st.pending@[ii].action is Success;
                        if ii < i {
                            assert(p0[ii].seq == st.pending@[ii].seq);
                            assert(p0[ii].seq != p0[i as int].seq);
                        } else {
                            assert(st.pending@[ii] == p0[ii]);
                            if ii != i {
                                assert(p0[ii].seq != p0[i as int].seq);
                            }
                        }
                        assert(false);
                    }
                    return Err(WalError::ProtocolViolation);
                },
                WalAction::Success => {
                    let ghost ppre = st.pending@;
                    st.pending.set(
                        i,
                        PendingRecord {
                            seq: r.seq,
                            action: r.action,
                            duration: r.duration,
                            finalized: true,
                        },
                    );
                    proof {
                        assert forall|j: int| 0 <= j < st.markers@.len() implies marker_backed_by(
                            st.pending@,
                            #[trigger] st.markers@[j],
                        ) by {
                            let m = st.markers@[j];
                            assert(marker_backed_by(ppre, m));
                            let ii = choose|ii: int|
                                0 <= ii < ppre.len() && (#[trigger] ppre[ii]).seq == m
                                    && ppre[ii].action is Success;
                            if ii == i {
                                assert(st.pending@[ii].seq == m && st.pending@[ii].action
                                    is Success);
                            } else {
                                assert(st.pending@[ii] == ppre[ii]);
                            }
                            assert(marker_backed_by(st.pending@, m));
                        }
                        assert(markers_backed(*st));
                    }
                    let ghost mpre = st.markers@;
                    let rm = remove_marker(&mut st.markers, r.seq);
                    match rm {
                        Ok(()) => {
                            proof {
                                let k = choose|k: int|
                                    0 <= k < mpre.len() && mpre[k] == r.seq && st.markers@
                                        == mpre.remove(k);
                                assert forall|a: int, b: int|
                                    0 <= a < b < st.markers@.len() implies st.markers@[a]
                                    != st.markers@[b] by {
                                    assert(st.markers@[a] == if a < k {
                                        mpre[a]
                                    } else {
                                        mpre[a + 1]
                                    });
                                    assert(st.markers@[b] == if b < k {
                                        mpre[b]
                                    } else {
                                        mpre[b + 1]
                                    });
                                }
                                assert forall|j: int|
                                    0 <= j < st.markers@.len() implies marker_backed_by(
                                    st.pending@,
                                    #[trigger] st.markers@[j],
                                ) by {
                                    let m = st.markers@[j];
                                    assert(m == if j < k {
                                        mpre[j]
                                    } else {
                                        mpre[j + 1]
                                    });
                                    assert(marker_backed_by(st.pending@, m));
                                }
                                assert(markers_backed(*st));
                                assert forall|s: u64| #[trigger]
                                    st.markers@.contains(s) <==> (m0.contains(s) && !(exists|
                                        j: int,
                                    |
                                        0 <= j < i + 1 && consumer_candidate(#[trigger] p0[j], m0)
                                            && p0[j].seq == s)) by {
                                    lemma_contains_remove(mpre, k, s);
                                    if s == r.seq {
                                        assert(consumer_candidate(p0[i as int], m0)
                                            && p0[i as int].seq == s);
                                    } else {
                                        assert forall|j: int|
                                            0 <= j < i + 1 && consumer_candidate(
                                                #[trigger] p0[j],
                                                m0,
                                            ) && p0[j].seq == s implies j < i by {}
                                    }
                                }
                            }
                        },
                        Err(_) => {
                            proof {
                                assert(false);
                            }
                            return Err(WalError::IoError);
                        },
                    }
                },
            }
        }
        i += 1;
    }
    proof {
        if !(exists|j: int| 0 <= j < p0.len() && consumer_candidate(#[trigger] p0[j], m0)) {
            assert(st.pending@ == p0 && st.markers@ == m0);
        }
    }
    Ok(worked)
}

/// The consumer's finalize-time check, causal safety at the level of one
/// record: a record whose completion marker exists must have converted to
/// `Success`; one that still carries failure state there is a protocol
/// violation, never a state to wait out.
pub fn check_finalizable(w: &WalFile) -> (res: Result<(), WalError>)
    ensures
        res is Ok <==> w.action is Success,
        res matches Err(e) ==> e == WalError::ProtocolViolation,
{
    match w.action {
        WalAction::Success => Ok(()),
        WalAction::Fail { .. } => Err(WalError::ProtocolViolation),
    }
}

/// Whether some name in `names` reads `q`.
pub open spec fn name_in(names: Seq<String>, q: Seq<char>) -> bool {
    exists|i: int| 0 <= i < names.len() && (#[trigger] names[i])@ == q
}

/// Whether `q` occurs among `names`.
fn contains_name(names: &Vec<String>, q: &String) -> (res: bool)
    ensures
        res == name_in(names@, q@),
{
    let mut i: usize = 0;
    while i < names.len()
        invariant
            0 <= i <= names@.len(),
            forall|j: int| 0 <= j < i ==> (#[trigger] names@[j])@ != q@,
        decreases names@.len() - i,
    {
        if names[i].eq(q) {
            proof {
                assert((names@[i as int])@ == q@);
            }
            return true;
        }
        i += 1;
    }
    false
}

fn clone_entry(e: &FileEntry) -> (res: FileEntry)
    ensures
        res == *e,
{
    FileEntry {
        file_name: e.file_name.clone(),
        file_extension: e.file_extension.clone(),
        full_path: e.full_path.clone(),
    }
}

/// The pending records that are ready to finalize: those of `ready` whose
/// base name has a completion marker among `done_names`, in scan order.
pub fn select_finalizable(ready: &Vec<FileEntry>, done_names: &Vec<String>) -> (res: Vec<
    FileEntry,
>)
    ensures
        res@ == ready@.filter(|e: FileEntry| name_in(done_names@, e.file_name@)),
{
    let mut res: Vec<FileEntry> = Vec::new();
    let mut i: usize = 0;
    proof {
        assert(ready@.subrange(0, 0).filter(|e: FileEntry| name_in(done_names@, e.file_name@))
            =~= Seq::<FileEntry>::empty());
    }
    while i < ready.len()
        invariant
            0 <= i <= ready@.len(),
            res@ == ready@.subrange(0, i as int).filter(
                |e: FileEntry| name_in(done_names@, e.file_name@),
            ),
        decreases ready@.len() - i,
    {
        let e = &ready[i];
        if contains_name(done_names, &e.file_name) {
            res.push(clone_entry(e));
        }
        proof {
            let pred = |e: FileEntry| name_in(done_names@, e.file_name@);
            let prev = ready@.subrange(0, i as int);
            assert(ready@.subrange(0, i + 1) =~= prev.push(ready@[i as int]));
            crate::utilities::lemma_filter_push(prev, pred, ready@[i as int]);
        }
        i += 1;
    }
    proof {
        assert(ready@.subrange(0, i as int) =~= ready@);
    }
    res
}

} // verus!
