use vstd::prelude::*;
use vstd::string::*;

use crate::codec;
use crate::utilities;

verus! {

/// The uppercase hexadecimal digit character for a value below sixteen.
pub open spec fn hex_char(d: nat) -> char {
    if d == 0 {
        '0'
    } else if d == 1 {
        '1'
    } else if d == 2 {
        '2'
    } else if d == 3 {
        '3'
    } else if d == 4 {
        '4'
    } else if d == 5 {
        '5'
    } else if d == 6 {
        '6'
    } else if d == 7 {
        '7'
    } else if d == 8 {
        '8'
    } else if d == 9 {
        '9'
    } else if d == 10 {
        'A'
    } else if d == 11 {
        'B'
    } else if d == 12 {
        'C'
    } else if d == 13 {
        'D'
    } else if d == 14 {
        'E'
    } else {
        'F'
    }
}

/// `n` rendered in uppercase hexadecimal, left-padded with zeros to exactly
/// `width` digits.
pub open spec fn hex_digits(n: nat, width: nat) -> Seq<char>
    decreases width,
{
    if width == 0 {
        Seq::empty()
    } else {
        hex_digits(n / 16, (width - 1) as nat).push(hex_char(n % 16))
    }
}

/// The path of a freshly generated record: the status directory, a constant
/// epoch/shard tag, the sequence number as fixed-width uppercase hex, and
/// the pending extension.
pub open spec fn wal_file_path(num: u64) -> Seq<char> {
    "file-source/file-status/00000001"@ + hex_digits(num as nat, 16) + ".ready"@
}

/// Sixteen to the `w`th.
pub open spec fn pow16(w: nat) -> nat
    decreases w,
{
    if w == 0 {
        1
    } else {
        16 * pow16((w - 1) as nat)
    }
}

proof fn lemma_hex_digits_len(n: nat, width: nat)
    ensures
        hex_digits(n, width).len() == width,
    decreases width,
{
    if width > 0 {
        lemma_hex_digits_len(n / 16, (width - 1) as nat);
    }
}

proof fn lemma_hex_digits_injective(n1: nat, n2: nat, width: nat)
    requires
        n1 < pow16(width),
        n2 < pow16(width),
        hex_digits(n1, width) == hex_digits(n2, width),
    ensures
        n1 == n2,
    decreases width,
{
    if width == 0 {
        assert(pow16(0) == 1);
    } else {
        let s1 = hex_digits(n1, width);
        let s2 = hex_digits(n2, width);
        lemma_hex_digits_len(n1, width);
        lemma_hex_digits_len(n2, width);
        assert(s1.last() == hex_char(n1 % 16) && s2.last() == hex_char(n2 % 16));
        assert(hex_char(n1 % 16) == hex_char(n2 % 16));
        assert(n1 % 16 == n2 % 16);
        assert(s1.drop_last() =~= hex_digits(n1 / 16, (width - 1) as nat));
        assert(s2.drop_last() =~= hex_digits(n2 / 16, (width - 1) as nat));
        assert(n1 / 16 < pow16((width - 1) as nat) && n2 / 16 < pow16((width - 1) as nat))
            by (nonlinear_arith)
            requires
                n1 < 16 * pow16((width - 1) as nat),
                n2 < 16 * pow16((width - 1) as nat),
        ;
        lemma_hex_digits_injective(n1 / 16, n2 / 16, (width - 1) as nat);
        assert(n1 == 16 * (n1 / 16) + n1 % 16) by (nonlinear_arith);
        assert(n2 == 16 * (n2 / 16) + n2 % 16) by (nonlinear_arith);
    }
}

/// The naming scheme never collides: records generated for two different
/// sequence numbers always take two different file names, so a strictly
/// increasing sequence counter keeps every generated file distinct.
pub proof fn lemma_wal_file_path_injective(n1: u64, n2: u64)
    requires
        wal_file_path(n1) == wal_file_path(n2),
    ensures
        n1 == n2,
{
    reveal_strlit("file-source/file-status/00000001");
    let head = "file-source/file-status/00000001"@;
    let h1 = hex_digits(n1 as nat, 16);
    let h2 = hex_digits(n2 as nat, 16);
    lemma_hex_digits_len(n1 as nat, 16);
    lemma_hex_digits_len(n2 as nat, 16);
    assert forall|i: int| 0 <= i < 16 implies h1[i] == h2[i] by {
        assert(h1[i] == wal_file_path(n1)[head.len() + i]);
        assert(h2[i] == wal_file_path(n2)[head.len() + i]);
    }
    assert(h1 =~= h2);
    reveal_with_fuel(pow16, 17);
    assert(pow16(16) == 0x10000000000000000);
    lemma_hex_digits_injective(n1 as nat, n2 as nat, 16);
}

/// A generated record always lands where the pipeline looks for work: its
/// path carries the pending extension, so the processor's scan matches it.
pub proof fn lemma_generated_path_is_ready(num: u64)
    ensures
        utilities::has_suffix(wal_file_path(num), ".ready"@),
{
    reveal_strlit("file-source/file-status/00000001");
    reveal_strlit(".ready");
    lemma_hex_digits_len(num as nat, 16);
    let p = wal_file_path(num);
    assert(p.len() == 54);
    assert(p.subrange(48, 54) =~= ".ready"@);
}

/// The consumer's fail-fast choice when it finalizes a record: the rename
/// to the terminal name is refused when that name is already taken — a
/// naming collision is surfaced, never silently overwritten.
pub fn mark_terminal_check(destination_exists: bool) -> (res: Result<(), WalError>)
    ensures
        res is Ok <==> !destination_exists,
        res matches Err(e) ==> e == WalError::NamingCollision,
{
    if destination_exists {
        Err(WalError::NamingCollision)
    } else {
        Ok(())
    }
}

/// The failure kinds a pipeline service can report. Every one of them is
/// fatal for the service that meets it; only the record-level retry counter
/// carries the simulated, domain-level retries.
#[derive(Clone, Copy, PartialEq, Eq, Structural, Debug)]
pub enum WalError {
    /// A directory or file could not be opened, read, written, renamed or
    /// deleted.
    IoError,
    /// A record or configuration payload was malformed.
    DecodeError,
    /// The consumer observed a record that still carries failure state even
    /// though its completion marker exists.
    ProtocolViolation,
    /// The terminal name a finalized record should take already exists.
    NamingCollision,
    /// A worker-pool channel was closed while still needed.
    ChannelClosed,
}

/// The action a WAL record asks of the processor.
#[derive(Clone, Copy, PartialEq, Eq, Structural, Debug)]
pub enum WalAction {
    /// The record must still fail `remaining` more attempts before it
    /// converts to `Success`. While a record carries this state,
    /// `remaining` is at least 1.
    Fail { remaining: u16 },
    /// Processing the record succeeds.
    Success,
}

/// A record in `Fail` state never shows zero remaining attempts: the
/// transition that would reach zero converts it to `Success` instead.
pub open spec fn action_wf(a: WalAction) -> bool {
    a matches WalAction::Fail { remaining } ==> remaining >= 1
}

/// One retry transition: `Fail` with one remaining attempt converts directly
/// to `Success`, `Fail` with more attempts loses one of them, and `Success`
/// stays as it is.
pub open spec fn decremented(a: WalAction) -> WalAction {
    match a {
        WalAction::Fail { remaining } => if remaining <= 1 {
            WalAction::Success
        } else {
            WalAction::Fail { remaining: (remaining - 1) as u16 }
        },
        WalAction::Success => WalAction::Success,
    }
}

/// `n` retry transitions in a row, starting from `a`.
pub open spec fn decremented_n(a: WalAction, n: nat) -> WalAction
    decreases n,
{
    if n == 0 {
        a
    } else {
        decremented(decremented_n(a, (n - 1) as nat))
    }
}

/// Retry convergence: starting from `Fail` with `k >= 1` remaining attempts,
/// the retry transition reaches `Success` after exactly `k` steps, counts
/// down one attempt per step until then, and never passes through a `Fail`
/// state with zero remaining attempts.
pub proof fn lemma_retry_convergence(k: u16, n: nat)
    requires
        1 <= k,
    ensures
        n >= k ==> decremented_n(WalAction::Fail { remaining: k }, n) == WalAction::Success,
        n < k ==> decremented_n(WalAction::Fail { remaining: k }, n) == (WalAction::Fail {
            remaining: (k - n) as u16,
        }),
        action_wf(decremented_n(WalAction::Fail { remaining: k }, n)),
    decreases n,
{
    if n > 0 {
        lemma_retry_convergence(k, (n - 1) as nat);
    }
}

/// One in-memory WAL record: the action the processor must take, the
/// simulated work duration in nanoseconds, and the identity (the file path
/// it was read from or will be written to). The identity is supplied by the
/// caller and is never part of the serialized payload.
pub struct WalFile {
    pub action: WalAction,
    pub duration: u64,
    pub file_name: String,
}

/// The one-character text of an uppercase hexadecimal digit.
fn hex_char_str(d: u64) -> (r: &'static str)
    requires
        d < 16,
    ensures
        r@ == seq![hex_char(d as nat)],
{
    proof {
        reveal_strlit("0");
        reveal_strlit("1");
        reveal_strlit("2");
        reveal_strlit("3");
        reveal_strlit("4");
        reveal_strlit("5");
        reveal_strlit("6");
        reveal_strlit("7");
        reveal_strlit("8");
        reveal_strlit("9");
        reveal_strlit("A");
        reveal_strlit("B");
        reveal_strlit("C");
        reveal_strlit("D");
        reveal_strlit("E");
        reveal_strlit("F");
    }
    let r = if d == 0 {
        "0"
    } else if d == 1 {
        "1"
    } else if d == 2 {
        "2"
    } else if d == 3 {
        "3"
    } else if d == 4 {
        "4"
    } else if d == 5 {
        "5"
    } else if d == 6 {
        "6"
    } else if d == 7 {
        "7"
    } else if d == 8 {
        "8"
    } else if d == 9 {
        "9"
    } else if d == 10 {
        "A"
    } else if d == 11 {
        "B"
    } else if d == 12 {
        "C"
    } else if d == 13 {
        "D"
    } else if d == 14 {
        "E"
    } else {
        "F"
    };
    proof {
        assert(r@ =~= seq![hex_char(d as nat)]);
    }
    r
}

/// Appends `n` in uppercase hexadecimal, left-padded to `width` digits.
fn push_hex(s: &mut String, n: u64, width: usize)
    ensures
        final(s)@ == old(s)@ + hex_digits(n as nat, width as nat),
    decreases width,
{
    let ghost s0 = s@;
    if width == 0 {
        proof {
            assert(s@ =~= s0 + hex_digits(n as nat, 0));
        }
    } else {
        push_hex(s, n / 16, width - 1);
        let piece = hex_char_str(n % 16);
        s.append(piece);
        proof {
            assert((n / 16) as nat == (n as nat) / 16 && (n % 16) as nat == (n as nat) % 16);
            assert(s@ =~= s0 + hex_digits(n as nat, width as nat));
        }
    }
}

impl WalFile {
    /// When the record simulates a failure case, one failing attempt is
    /// consumed; once the attempts are used up the action becomes
    /// `Success` in the same operation. If the action is already
    /// `Success`, this is a no-op.
    pub fn decrement_failure_count(&mut self) -> (res: Result<(), WalError>)
        ensures
            res is Ok,
            final(self).action == decremented(old(self).action),
            final(self).duration == old(self).duration,
            final(self).file_name == old(self).file_name,
    {
        match self.action {
            WalAction::Fail { remaining } => {
                if remaining <= 1 {
                    self.action = WalAction::Success;
                } else {
                    self.action = WalAction::Fail { remaining: remaining - 1 };
                }
            },
            WalAction::Success => {},
        }
        Ok(())
    }

    /// Builds the record for sequence number `num`: the given action and
    /// work duration, under the fixed-width hexadecimal name the naming
    /// scheme assigns to `num` in the pending-work directory.
    pub fn generate_wal_file(num: u64, action: WalAction, work_duration: u64) -> (res: WalFile)
        ensures
            res.action == action,
            res.duration == work_duration,
            res.file_name@ == wal_file_path(num),
    {
        let mut name = String::new();
        name.append("file-source/file-status/00000001");
        push_hex(&mut name, num, 16);
        name.append(".ready");
        proof {
            assert(name@ =~= wal_file_path(num));
        }
        WalFile { action, duration: work_duration, file_name: name }
    }

    /// What a save writes, and where: the serialized payload, to be written
    /// create-or-truncate to the record's own identity. A record without an
    /// identity cannot be saved.
    pub fn save_payload(&self) -> (res: Result<String, WalError>)
        ensures
            res is Ok <==> self.file_name@.len() > 0,
            res matches Ok(p) ==> p@ == codec::encode_spec(self.action, self.duration),
            res matches Err(e) ==> e == WalError::IoError,
    {
        if self.file_name.as_str().is_empty() {
            Err(WalError::IoError)
        } else {
            Ok(codec::encode(self))
        }
    }

    /// The terminal name of this record: its identity with everything from
    /// the first `.` on replaced by the terminal extension. Renaming the
    /// record's file to this name marks the record as done.
    pub fn done_path(&self) -> (res: String)
        ensures
            exists|k: int|
                0 <= k <= self.file_name@.len() && (k == self.file_name@.len()
                    || self.file_name@[k] == '.') && utilities::no_dot_in(self.file_name@, 0, k)
                    && res@ == #[trigger] self.file_name@.subrange(0, k) + ".done"@,
    {
        let tlen = self.file_name.as_str().unicode_len();
        let k = match utilities::find_dot_from(self.file_name.as_str(), tlen, 0) {
            Some(k) => k,
            None => tlen,
        };
        let mut res = String::from_str(self.file_name.as_str().substring_char(0, k));
        res.append(".done");
        proof {
            assert(res@ == self.file_name@.subrange(0, k as int) + ".done"@);
        }
        res
    }

    /// The marker name the processor drops for this record in the
    /// acknowledgement directory: the record's base name — the part of the
    /// last component of its identity before the first `.` — with the
    /// terminal extension, under the acknowledgement root.
    pub fn marker_path(&self) -> (res: String)
        ensures
            exists|st: int, k: int|
                #![trigger self.file_name@.subrange(st, k)]
                {
                    let p = self.file_name@;
                    0 <= st <= k <= p.len() && (st == 0 || p[st - 1] == '/')
                        && utilities::no_slash_in(p, st, k) && (k == p.len() || p[k] == '.')
                        && utilities::no_dot_in(p, 0, k) && res@ == "file-source/"@ + p.subrange(
                        st,
                        k,
                    ) + ".done"@
                },
    {
        let tlen = self.file_name.as_str().unicode_len();
        let k = match utilities::find_dot_from(self.file_name.as_str(), tlen, 0) {
            Some(k) => k,
            None => tlen,
        };
        let st = match utilities::find_last_slash_before(self.file_name.as_str(), tlen, k) {
            Some(j) => j + 1,
            None => 0,
        };
        let mut res = String::from_str("file-source/");
        res.append(self.file_name.as_str().substring_char(st, k));
        res.append(".done");
        proof {
            let p = self.file_name@;
            assert((st == 0 || p[st - 1] == '/') && utilities::no_slash_in(p, st as int, k as int)
                && (k == p.len() || p[k as int] == '.') && utilities::no_dot_in(p, 0, k as int)
                && res@ == "file-source/"@ + p.subrange(st as int, k as int) + ".done"@);
        }
        res
    }
}

} // verus!
