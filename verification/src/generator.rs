use vstd::prelude::*;

use crate::wal::{action_wf, wal_file_path, WalAction, WalFile};

verus! {

/// The deterministic pseudo-random source the generator draws from. Seeded
/// by the caller, so one seed reproduces one pipeline trace.
#[verifier::external_type_specification]
#[verifier::external_body]
pub struct ExChaCha8Rng(rand_chacha::ChaCha8Rng);

/// Relies on rand's `Rng::gen_range` over a half-open integer range: the
/// sample lies in `[lo, hi)`. An empty range would panic, so it is ruled
/// out here.
#[verifier::external_body]
fn draw_in_range(rng: &mut rand_chacha::ChaCha8Rng, lo: u64, hi: u64) -> (r: u64)
    requires
        lo < hi,
    ensures
        lo <= r < hi,
{
    rand::Rng::gen_range(rng, lo..hi)
}

/// One generator step: builds the record for sequence number `seq` with a
/// randomized action and a randomized simulated duration. `fail` — decided
/// upstream with the configured failure ratio — picks the failing variant,
/// whose remaining-attempt count is drawn from
/// `[attempt_min, attempt_max)`; the duration is drawn from
/// `[duration_min, duration_max)`. A failing record always starts with at
/// least one remaining attempt.
pub fn generate_next(
    rng: &mut rand_chacha::ChaCha8Rng,
    seq: u64,
    fail: bool,
    attempt_min: u16,
    attempt_max: u16,
    duration_min: u64,
    duration_max: u64,
) -> (res: WalFile)
    requires
        fail ==> 1 <= attempt_min < attempt_max,
        duration_min < duration_max,
    ensures
        res.file_name@ == wal_file_path(seq),
        duration_min <= res.duration < duration_max,
        !fail ==> res.action == WalAction::Success,
        fail ==> (res.action matches WalAction::Fail { remaining } && attempt_min <= remaining
            < attempt_max),
        action_wf(res.action),
{
    let action = if fail {
        let c = draw_in_range(rng, attempt_min as u64, attempt_max as u64);
        WalAction::Fail { remaining: c as u16 }
    } else {
        WalAction::Success
    };
    let duration = draw_in_range(rng, duration_min, duration_max);
    WalFile::generate_wal_file(seq, action, duration)
}

} // verus!
