use vstd::prelude::*;
use vstd::string::*;

use crate::wal::{WalAction, WalError, WalFile};

verus! {

/// The decimal digit character for a value below ten.
pub open spec fn dec_char(d: nat) -> char {
    if d == 0 {
        '0'
    } else if d == 1 {
        '1'
    } else if d == 2 {
        '2'
    } else if d == 3 {
        '3'
    } else if d == 4 {
        '4'
    } else if d == 5 {
        '5'
    } else if d == 6 {
        '6'
    } else if d == 7 {
        '7'
    } else if d == 8 {
        '8'
    } else {
        '9'
    }
}

/// Whether `c` is a decimal digit character.
pub open spec fn is_dec_char(c: char) -> bool {
    c == '0' || c == '1' || c == '2' || c == '3' || c == '4' || c == '5' || c == '6' || c == '7'
        || c == '8' || c == '9'
}

/// The value of a decimal digit character; zero for anything else.
pub open spec fn dec_char_val(c: char) -> nat {
    if c == '1' {
        1
    } else if c == '2' {
        2
    } else if c == '3' {
        3
    } else if c == '4' {
        4
    } else if c == '5' {
        5
    } else if c == '6' {
        6
    } else if c == '7' {
        7
    } else if c == '8' {
        8
    } else if c == '9' {
        9
    } else {
        0
    }
}

/// The canonical decimal rendering of `n`: no sign, no leading zeros, and a
/// single `0` for zero itself.
pub open spec fn dec_digits(n: nat) -> Seq<char>
    decreases n,
{
    if n < 10 {
        seq![dec_char(n)]
    } else {
        dec_digits(n / 10).push(dec_char(n % 10))
    }
}

/// The numeric value of a sequence of decimal digit characters.
pub open spec fn digits_val(s: Seq<char>) -> nat
    decreases s.len(),
{
    if s.len() == 0 {
        0
    } else {
        digits_val(s.drop_last()) * 10 + dec_char_val(s.last())
    }
}

/// The canonical rendering is non-empty, made of digits, has a leading zero
/// only when it is the single digit `0`, and evaluates back to `n`.
proof fn lemma_dec_digits_wf(n: nat)
    ensures
        dec_digits(n).len() >= 1,
        forall|i: int| 0 <= i < dec_digits(n).len() ==> is_dec_char(#[trigger] dec_digits(n)[i]),
        n >= 1 ==> dec_digits(n)[0] != '0',
        n == 0 ==> dec_digits(n) == seq!['0'],
        digits_val(dec_digits(n)) == n,
    decreases n,
{
    if n < 10 {
        let s = seq![dec_char(n)];
        assert(dec_digits(n) == s);
        assert(s.drop_last() =~= Seq::<char>::empty());
        assert(digits_val(Seq::<char>::empty()) == 0);
        assert(digits_val(s) == dec_char_val(dec_char(n)));
        assert(dec_char_val(dec_char(n)) == n);
    } else {
        lemma_dec_digits_wf(n / 10);
        let s = dec_digits(n);
        assert(s.drop_last() =~= dec_digits(n / 10));
        assert(s.last() == dec_char(n % 10));
        assert forall|i: int| 0 <= i < s.len() implies is_dec_char(#[trigger] s[i]) by {
            if i < s.len() - 1 {
                assert(s[i] == dec_digits(n / 10)[i]);
            }
        }
        assert(digits_val(s) == (n / 10) * 10 + (n % 10));
        assert((n / 10) * 10 + (n % 10) == n) by (nonlinear_arith);
    }
}

/// Two values with the same canonical rendering are equal.
proof fn lemma_dec_digits_injective(a: nat, b: nat)
    requires
        dec_digits(a) == dec_digits(b),
    ensures
        a == b,
{
    lemma_dec_digits_wf(a);
    lemma_dec_digits_wf(b);
}

/// A non-empty digit string without a spurious leading zero is the canonical
/// rendering of its own value.
proof fn lemma_digits_canonical(s: Seq<char>)
    requires
        s.len() >= 1,
        forall|i: int| 0 <= i < s.len() ==> is_dec_char(#[trigger] s[i]),
        s[0] != '0' || s.len() == 1,
    ensures
        dec_digits(digits_val(s)) == s,
    decreases s.len(),
{
    if s.len() == 1 {
        assert(s.drop_last() =~= Seq::<char>::empty());
        assert(digits_val(Seq::<char>::empty()) == 0);
        assert(digits_val(s) == dec_char_val(s[0]));
        assert(dec_digits(digits_val(s)) =~= seq![dec_char(dec_char_val(s[0]))]);
        assert(dec_char(dec_char_val(s[0])) == s[0]);
        assert(dec_digits(digits_val(s)) =~= s);
    } else {
        let t = s.drop_last();
        assert(forall|i: int| 0 <= i < t.len() ==> is_dec_char(#[trigger] t[i])) by {
            assert(forall|i: int| 0 <= i < t.len() ==> t[i] == #[trigger] s[i]);
        }
        assert(t[0] == s[0]);
        lemma_digits_canonical(t);
        lemma_digits_val_pos(t);
        let v = digits_val(t);
        let dl = dec_char_val(s.last());
        assert(digits_val(s) == v * 10 + dl);
        assert(v * 10 + dl >= 10) by (nonlinear_arith)
            requires
                v >= 1,
                dl >= 0,
        ;
        assert((v * 10 + dl) / 10 == v && (v * 10 + dl) % 10 == dl) by (nonlinear_arith)
            requires
                0 <= dl < 10,
                v >= 0,
        ;
        assert(dl < 10);
        assert(dec_digits(digits_val(s)) == dec_digits(v).push(dec_char(dl)));
        assert(dec_char(dl) == s.last());
        assert(dec_digits(digits_val(s)) =~= s);
    }
}

/// A digit string that does not start with `0` has a positive value.
proof fn lemma_digits_val_pos(s: Seq<char>)
    requires
        s.len() >= 1,
        forall|i: int| 0 <= i < s.len() ==> is_dec_char(#[trigger] s[i]),
        s[0] != '0',
    ensures
        digits_val(s) >= 1,
    decreases s.len(),
{
    if s.len() == 1 {
        assert(dec_char_val(s[0]) >= 1);
    } else {
        let t = s.drop_last();
        assert(forall|i: int| 0 <= i < t.len() ==> t[i] == #[trigger] s[i]);
        lemma_digits_val_pos(t);
    }
}

/// The value of a prefix of a digit string never exceeds the value of the
/// whole string.
proof fn lemma_digits_val_prefix(s: Seq<char>, k: int)
    requires
        0 <= k <= s.len(),
    ensures
        digits_val(s.subrange(0, k)) <= digits_val(s),
    decreases s.len(),
{
    if k == s.len() {
        assert(s.subrange(0, k) =~= s);
    } else {
        let t = s.drop_last();
        assert(s.subrange(0, k) =~= t.subrange(0, k));
        lemma_digits_val_prefix(t, k);
        assert(digits_val(t) * 10 + dec_char_val(s.last()) >= digits_val(t)) by (nonlinear_arith);
    }
}

/// Extending a digit string by one digit multiplies its value by ten and
/// adds that digit.
proof fn lemma_digits_val_step(s: Seq<char>, k: int)
    requires
        0 <= k < s.len(),
    ensures
        digits_val(s.subrange(0, k + 1)) == digits_val(s.subrange(0, k)) * 10 + dec_char_val(
            s[k],
        ),
{
    let p = s.subrange(0, k + 1);
    assert(p.drop_last() =~= s.subrange(0, k));
    assert(p.last() == s[k]);
}

/// The opening of a payload whose action is `Success`.
pub open spec fn lit_success_head() -> Seq<char> {
    "{\"action\":\"Success\",\"duration\":"@
}

/// The opening of a payload whose action is `Fail`.
pub open spec fn lit_fail_head() -> Seq<char> {
    "{\"action\":{\"Fail\":{\"remaining\":"@
}

/// The text between the remaining-attempt count and the duration.
pub open spec fn lit_fail_mid() -> Seq<char> {
    "}},\"duration\":"@
}

/// The closing of every payload.
pub open spec fn lit_tail() -> Seq<char> {
    "}"@
}

/// The concrete shape of the payload literals.
proof fn lemma_lits()
    ensures
        lit_success_head().len() == 31,
        lit_fail_head().len() == 31,
        lit_fail_mid().len() == 14,
        lit_tail().len() == 1,
        lit_tail()[0] == '}',
        lit_fail_mid()[0] == '}',
        lit_success_head()[10] == '"',
        lit_fail_head()[10] == '{',
        !is_dec_char('}'),
{
    reveal_strlit("{\"action\":\"Success\",\"duration\":");
    reveal_strlit("{\"action\":{\"Fail\":{\"remaining\":");
    reveal_strlit("}},\"duration\":");
    reveal_strlit("}");
}

/// The serialized payload of a record with the given action and duration.
/// The record's identity never appears in it.
pub open spec fn encode_spec(action: WalAction, duration: u64) -> Seq<char> {
    match action {
        WalAction::Success => lit_success_head() + dec_digits(duration as nat) + lit_tail(),
        WalAction::Fail { remaining } => lit_fail_head() + dec_digits(remaining as nat)
            + lit_fail_mid() + dec_digits(duration as nat) + lit_tail(),
    }
}

/// A read buffer with trailing NUL padding, as it comes back from a
/// fixed-size read, with that padding removed.
pub open spec fn strip_nul(s: Seq<char>) -> Seq<char>
    decreases s.len(),
{
    if s.len() > 0 && s.last() == '\0' {
        strip_nul(s.drop_last())
    } else {
        s
    }
}

proof fn lemma_cat3(x: Seq<char>, y: Seq<char>, z: Seq<char>)
    ensures
        (x + y + z).len() == x.len() + y.len() + z.len(),
        (x + y + z).subrange(0, x.len() as int) =~= x,
        (x + y + z).subrange(x.len() as int, (x.len() + y.len()) as int) =~= y,
        (x + y + z).subrange((x.len() + y.len()) as int, (x.len() + y.len() + z.len()) as int)
            =~= z,
{
}

proof fn lemma_cat5(v: Seq<char>, w: Seq<char>, x: Seq<char>, y: Seq<char>, z: Seq<char>)
    ensures
        (v + w + x + y + z).len() == v.len() + w.len() + x.len() + y.len() + z.len(),
        (v + w + x + y + z).subrange(0, v.len() as int) =~= v,
        (v + w + x + y + z).subrange(v.len() as int, (v.len() + w.len()) as int) =~= w,
        (v + w + x + y + z).subrange(
            (v.len() + w.len()) as int,
            (v.len() + w.len() + x.len()) as int,
        ) =~= x,
        (v + w + x + y + z).subrange(
            (v.len() + w.len() + x.len()) as int,
            (v.len() + w.len() + x.len() + y.len()) as int,
        ) =~= y,
        (v + w + x + y + z).subrange(
            (v.len() + w.len() + x.len() + y.len()) as int,
            (v.len() + w.len() + x.len() + y.len() + z.len()) as int,
        ) =~= z,
{
}

/// Two decimal digit runs that start at the same position and each stop at
/// the end of the text or at a non-digit stop together: they have the same
/// length and the same value.
proof fn lemma_digit_run_unique(t: Seq<char>, p: int, v1: nat, e1: int, v2: nat, e2: int)
    requires
        0 <= p,
        p <= e1 <= t.len(),
        p <= e2 <= t.len(),
        t.subrange(p, e1) == dec_digits(v1),
        e1 == t.len() || !is_dec_char(t[e1]),
        t.subrange(p, e2) == dec_digits(v2),
        e2 == t.len() || !is_dec_char(t[e2]),
    ensures
        e1 == e2,
        v1 == v2,
{
    lemma_dec_digits_wf(v1);
    lemma_dec_digits_wf(v2);
    if e1 < e2 {
        assert(t[e1] == t.subrange(p, e2)[e1 - p]);
        assert(is_dec_char(dec_digits(v2)[e1 - p]));
        assert(false);
    } else if e2 < e1 {
        assert(t[e2] == t.subrange(p, e1)[e2 - p]);
        assert(is_dec_char(dec_digits(v1)[e2 - p]));
        assert(false);
    }
    lemma_dec_digits_injective(v1, v2);
}

/// Round trip: the payload determines the record exactly. Two records with
/// the same serialized payload have the same action and the same duration,
/// bit for bit; the identity is never serialized, so it plays no part.
pub proof fn lemma_round_trip(a1: WalAction, d1: u64, a2: WalAction, d2: u64)
    requires
        encode_spec(a1, d1) == encode_spec(a2, d2),
    ensures
        a1 == a2,
        d1 == d2,
{
    lemma_lits();
    let t = encode_spec(a1, d1);
    match (a1, a2) {
        (WalAction::Success, WalAction::Success) => {
            let s1 = dec_digits(d1 as nat);
            let s2 = dec_digits(d2 as nat);
            lemma_cat3(lit_success_head(), s1, lit_tail());
            lemma_cat3(lit_success_head(), s2, lit_tail());
            let e1: int = 31 + s1.len() as int;
            let e2: int = 31 + s2.len() as int;
            assert(t[e1] == '}');
            assert(t[e2] == '}');
            lemma_digit_run_unique(t, 31, d1 as nat, e1, d2 as nat, e2);
        },
        (WalAction::Fail { remaining: r1 }, WalAction::Fail { remaining: r2 }) => {
            let q1 = dec_digits(r1 as nat);
            let q2 = dec_digits(r2 as nat);
            let s1 = dec_digits(d1 as nat);
            let s2 = dec_digits(d2 as nat);
            lemma_cat5(lit_fail_head(), q1, lit_fail_mid(), s1, lit_tail());
            lemma_cat5(lit_fail_head(), q2, lit_fail_mid(), s2, lit_tail());
            let e1: int = 31 + q1.len() as int;
            let e2: int = 31 + q2.len() as int;
            assert(t[e1] == '}');
            assert(t[e2] == '}');
            lemma_digit_run_unique(t, 31, r1 as nat, e1, r2 as nat, e2);
            let p: int = e1 + 14;
            let f1: int = p + s1.len() as int;
            let f2: int = p + s2.len() as int;
            assert(t[f1] == '}');
            assert(t[f2] == '}');
            lemma_digit_run_unique(t, p, d1 as nat, f1, d2 as nat, f2);
        },
        (WalAction::Success, WalAction::Fail { remaining: r2 }) => {
            lemma_cat3(lit_success_head(), dec_digits(d1 as nat), lit_tail());
            lemma_cat5(
                lit_fail_head(),
                dec_digits(r2 as nat),
                lit_fail_mid(),
                dec_digits(d2 as nat),
                lit_tail(),
            );
            assert(t[10] == lit_success_head()[10]);
            assert(t[10] == lit_fail_head()[10]);
            assert(false);
        },
        (WalAction::Fail { remaining: r1 }, WalAction::Success) => {
            lemma_cat3(lit_success_head(), dec_digits(d2 as nat), lit_tail());
            lemma_cat5(
                lit_fail_head(),
                dec_digits(r1 as nat),
                lit_fail_mid(),
                dec_digits(d1 as nat),
                lit_tail(),
            );
            assert(t[10] == lit_success_head()[10]);
            assert(t[10] == lit_fail_head()[10]);
            assert(false);
        },
    }
}

/// A payload never ends in NUL, so stripping read-buffer padding from a
/// payload leaves it unchanged.
pub proof fn lemma_encode_unpadded(a: WalAction, d: u64)
    ensures
        strip_nul(encode_spec(a, d)) == encode_spec(a, d),
{
    lemma_lits();
    let t = encode_spec(a, d);
    match a {
        WalAction::Success => {
            lemma_cat3(lit_success_head(), dec_digits(d as nat), lit_tail());
        },
        WalAction::Fail { remaining } => {
            lemma_cat5(
                lit_fail_head(),
                dec_digits(remaining as nat),
                lit_fail_mid(),
                dec_digits(d as nat),
                lit_tail(),
            );
        },
    }
    assert(t.last() == '}');
}

/// The one-character text of a decimal digit.
fn dec_char_str(d: u64) -> (r: &'static str)
    requires
        d < 10,
    ensures
        r@ == seq![dec_char(d as nat)],
{
    proof {
        reveal_strlit("0");
        reveal_strlit("1");
        reveal_strlit("2");
        reveal_strlit("3");
        reveal_strlit("4");
        reveal_strlit("5");
        reveal_strlit("6");
        reveal_strlit("7");
        reveal_strlit("8");
        reveal_strlit("9");
    }
    let r = if d == 0 {
        "0"
    } else if d == 1 {
        "1"
    } else if d == 2 {
        "2"
    } else if d == 3 {
        "3"
    } else if d == 4 {
        "4"
    } else if d == 5 {
        "5"
    } else if d == 6 {
        "6"
    } else if d == 7 {
        "7"
    } else if d == 8 {
        "8"
    } else {
        "9"
    };
    proof {
        assert(r@ =~= seq![dec_char(d as nat)]);
    }
    r
}

/// Appends the canonical decimal rendering of `n`.
fn push_dec(s: &mut String, n: u64)
    ensures
        final(s)@ == old(s)@ + dec_digits(n as nat),
    decreases n,
{
    let ghost s0 = s@;
    if n < 10 {
        let piece = dec_char_str(n);
        s.append(piece);
        proof {
            assert(s@ =~= s0 + dec_digits(n as nat));
        }
    } else {
        push_dec(s, n / 10);
        let piece = dec_char_str(n % 10);
        s.append(piece);
        proof {
            assert((n / 10) as nat == (n as nat) / 10 && (n % 10) as nat == (n as nat) % 10);
            assert(s@ =~= s0 + dec_digits(n as nat));
        }
    }
}

/// How a payload with a `Success` action is laid out.
proof fn lemma_success_shape(t: Seq<char>, d: u64)
    requires
        t == encode_spec(WalAction::Success, d),
    ensures
        t.len() == 32 + dec_digits(d as nat).len(),
        t.subrange(0, 31) == lit_success_head(),
        t.subrange(31, 31 + dec_digits(d as nat).len() as int) == dec_digits(d as nat),
        t[31 + dec_digits(d as nat).len() as int] == '}',
        !is_dec_char('}'),
{
    lemma_lits();
    lemma_cat3(lit_success_head(), dec_digits(d as nat), lit_tail());
    let e: int = 31 + dec_digits(d as nat).len() as int;
    assert(t[e] == t.subrange(e, e + 1)[0]);
}

/// How a payload with a `Fail` action is laid out.
proof fn lemma_fail_shape(t: Seq<char>, r: u16, d: u64)
    requires
        t == encode_spec(WalAction::Fail { remaining: r }, d),
    ensures
        t.len() == 46 + dec_digits(r as nat).len() + dec_digits(d as nat).len(),
        t.subrange(0, 31) == lit_fail_head(),
        t.subrange(31, 31 + dec_digits(r as nat).len() as int) == dec_digits(r as nat),
        t[31 + dec_digits(r as nat).len() as int] == '}',
        t.subrange(
            31 + dec_digits(r as nat).len() as int,
            45 + dec_digits(r as nat).len() as int,
        ) == lit_fail_mid(),
        t.subrange(
            45 + dec_digits(r as nat).len() as int,
            45 + dec_digits(r as nat).len() as int + dec_digits(d as nat).len() as int,
        ) == dec_digits(d as nat),
        t[45 + dec_digits(r as nat).len() as int + dec_digits(d as nat).len() as int] == '}',
        !is_dec_char('}'),
{
    lemma_lits();
    lemma_cat5(
        lit_fail_head(),
        dec_digits(r as nat),
        lit_fail_mid(),
        dec_digits(d as nat),
        lit_tail(),
    );
    let e1: int = 31 + dec_digits(r as nat).len() as int;
    assert(t[e1] == t.subrange(e1, e1 + 14)[0]);
    let e2: int = 45 + dec_digits(r as nat).len() as int + dec_digits(d as nat).len() as int;
    assert(t[e2] == t.subrange(e2, e2 + 1)[0]);
}

/// Whether `c` is a decimal digit.
fn is_dec_char_exec(c: char) -> (res: bool)
    ensures
        res == is_dec_char(c),
{
    match c {
        '0' | '1' | '2' | '3' | '4' | '5' | '6' | '7' | '8' | '9' => true,
        _ => false,
    }
}

/// The value of a decimal digit; zero for anything else.
fn dec_val_exec(c: char) -> (res: u64)
    ensures
        res as nat == dec_char_val(c),
        res < 10,
{
    match c {
        '1' => 1,
        '2' => 2,
        '3' => 3,
        '4' => 4,
        '5' => 5,
        '6' => 6,
        '7' => 7,
        '8' => 8,
        '9' => 9,
        _ => 0,
    }
}

/// Whether `lit` occurs in `t` at position `start`.
pub(crate) fn match_at(t: &str, tlen: usize, start: usize, lit: &str) -> (res: bool)
    requires
        t@.len() == tlen,
        start <= tlen,
    ensures
        res <==> (start + lit@.len() <= tlen && t@.subrange(
            start as int,
            start as int + lit@.len() as int,
        ) == lit@),
{
    let litlen = lit.unicode_len();
    if litlen > tlen - start {
        return false;
    }
    let mut i: usize = 0;
    while i < litlen
        invariant
            0 <= i <= litlen,
            start + litlen <= tlen,
            t@.len() == tlen,
            lit@.len() == litlen,
            forall|j: int| 0 <= j < i ==> t@[start + j] == lit@[j],
        decreases litlen - i,
    {
        let a = t.get_char(start + i);
        let b = lit.get_char(i);
        if a != b {
            proof {
                let sub = t@.subrange(start as int, start as int + litlen as int);
                assert(sub[i as int] == t@[start + i]);
                assert(sub != lit@);
            }
            return false;
        }
        i += 1;
    }
    proof {
        assert(t@.subrange(start as int, start as int + litlen as int) =~= lit@);
    }
    true
}

/// Reads a canonical decimal number starting at `start`: the digit run there
/// must be non-empty, must not carry a spurious leading zero, must fit in a
/// `u64`, and runs up to the first non-digit. Returns the value and the
/// position one past the run, exactly when such a run is there.
fn parse_number(t: &str, tlen: usize, start: usize) -> (res: Option<(u64, usize)>)
    requires
        t@.len() == tlen,
        start <= tlen,
    ensures
        res matches Some(pair) ==> start < pair.1 <= tlen && t@.subrange(
            start as int,
            pair.1 as int,
        ) == dec_digits(pair.0 as nat) && (pair.1 == tlen || !is_dec_char(t@[pair.1 as int])),
        res is None ==> forall|v: u64, end: int|
            start <= end <= tlen && (end == tlen || !is_dec_char(t@[end]))
                ==> t@.subrange(start as int, end) != dec_digits(v as nat),
{
    let mut end: usize = start;
    while end < tlen
        invariant
            start <= end <= tlen,
            t@.len() == tlen,
            forall|j: int| start <= j < end ==> is_dec_char(#[trigger] t@[j]),
        ensures
            start <= end <= tlen,
            forall|j: int| start <= j < end ==> is_dec_char(#[trigger] t@[j]),
            end == tlen || !is_dec_char(t@[end as int]),
        decreases tlen - end,
    {
        let c = t.get_char(end);
        if !is_dec_char_exec(c) {
            break;
        }
        end += 1;
    }
    if end == start {
        proof {
            assert forall|v: u64, e: int|
                start <= e <= tlen && (e == tlen || !is_dec_char(t@[e])) implies t@.subrange(
                start as int,
                e,
            ) != dec_digits(v as nat) by {
                lemma_dec_digits_wf(v as nat);
                if t@.subrange(start as int, e) == dec_digits(v as nat) {
                    assert(e > start);
                    assert(t@[start as int] == t@.subrange(start as int, e)[0]);
                    assert(is_dec_char(t@[start as int]));
                    assert(false);
                }
            }
        }
        return None;
    }
    let first = t.get_char(start);
    if first == '0' && end > start + 1 {
        proof {
            assert forall|v: u64, e: int|
                start <= e <= tlen && (e == tlen || !is_dec_char(t@[e])) implies t@.subrange(
                start as int,
                e,
            ) != dec_digits(v as nat) by {
                lemma_dec_digits_wf(v as nat);
                if t@.subrange(start as int, e) == dec_digits(v as nat) {
                    assert(t@[start as int] == t@.subrange(start as int, e)[0]);
                    assert(dec_digits(v as nat)[0] == '0');
                    assert(v == 0);
                    assert(e == start + 1);
                    assert(is_dec_char(t@[start as int + 1]));
                    assert(false);
                }
            }
        }
        return None;
    }
    let mut acc: u64 = 0;
    let mut i: usize = start;
    while i < end
        invariant
            start <= i <= end <= tlen,
            t@.len() == tlen,
            forall|j: int| start <= j < end ==> is_dec_char(#[trigger] t@[j]),
            end == tlen || !is_dec_char(t@[end as int]),
            t@[start as int] != '0' || end == start + 1,
            end > start,
            acc as nat == digits_val(t@.subrange(start as int, i as int)),
        decreases end - i,
    {
        let c = t.get_char(i);
        let d = dec_val_exec(c);
        if acc > (u64::MAX - d) / 10 {
            proof {
                assert forall|v: u64, e: int|
                    start <= e <= tlen && (e == tlen || !is_dec_char(t@[e])) implies t@.subrange(
                    start as int,
                    e,
                ) != dec_digits(v as nat) by {
                    lemma_dec_digits_wf(v as nat);
                    if t@.subrange(start as int, e) == dec_digits(v as nat) {
                        // the candidate run covers every digit up to `end`
                        if e < end {
                            assert(t@[e] == t@.subrange(start as int, e + 1)[e - start]);
                            assert(is_dec_char(t@[e]));
                            assert(false);
                        }
                        let run = dec_digits(v as nat);
                        let k: int = i as int - start;
                        assert(t@.subrange(start as int, i + 1) =~= run.subrange(0, k + 1));
                        assert(t@.subrange(start as int, i as int) =~= run.subrange(0, k));
                        lemma_digits_val_step(run, k);
                        assert(run[k] == t@[i as int]);
                        assert(digits_val(run.subrange(0, k + 1)) == acc as nat * 10 + d as nat);
                        lemma_digits_val_prefix(run, k + 1);
                        assert(digits_val(run) == v as nat);
                        assert(acc as nat * 10 + d as nat <= v as nat);
                        assert(acc as nat >= (u64::MAX - d) as nat / 10 + 1);
                        assert(acc as nat * 10 + d as nat > u64::MAX as nat) by (nonlinear_arith)
                            requires
                                acc as nat >= (u64::MAX - d) as nat / 10 + 1,
                                d < 10,
                        ;
                        assert(false);
                    }
                }
            }
            return None;
        }
        proof {
            assert(acc * 10 + d <= u64::MAX) by (nonlinear_arith)
                requires
                    acc <= (u64::MAX - d) / 10,
                    d < 10,
            ;
            let k: int = i as int - start;
            let run = t@.subrange(start as int, end as int);
            assert(t@.subrange(start as int, i + 1) =~= run.subrange(0, k + 1));
            assert(t@.subrange(start as int, i as int) =~= run.subrange(0, k));
            lemma_digits_val_step(run, k);
            assert(run[k] == t@[i as int]);
        }
        acc = acc * 10 + d;
        i += 1;
    }
    proof {
        let run = t@.subrange(start as int, end as int);
        assert(forall|j: int| 0 <= j < run.len() ==> is_dec_char(#[trigger] run[j]));
        assert(run[0] == t@[start as int]);
        lemma_digits_canonical(run);
        assert(dec_digits(acc as nat) == run);
    }
    Some((acc, end))
}

/// A text that carries the three pieces in order is their concatenation.
proof fn lemma_cat3_rebuild(t: Seq<char>, x: Seq<char>, y: Seq<char>, z: Seq<char>)
    requires
        t.len() == x.len() + y.len() + z.len(),
        t.subrange(0, x.len() as int) == x,
        t.subrange(x.len() as int, (x.len() + y.len()) as int) == y,
        t.subrange((x.len() + y.len()) as int, t.len() as int) == z,
    ensures
        t == x + y + z,
{
    assert forall|i: int| 0 <= i < t.len() implies t[i] == (x + y + z)[i] by {
        if i < x.len() {
            assert(t[i] == t.subrange(0, x.len() as int)[i]);
        } else if i < x.len() + y.len() {
            assert(t[i] == t.subrange(x.len() as int, (x.len() + y.len()) as int)[i - x.len()]);
        } else {
            assert(t[i] == t.subrange((x.len() + y.len()) as int, t.len() as int)[i - x.len()
                - y.len()]);
        }
    }
    assert(t =~= x + y + z);
}

/// A text that carries the five pieces in order is their concatenation.
proof fn lemma_cat5_rebuild(
    t: Seq<char>,
    v: Seq<char>,
    w: Seq<char>,
    x: Seq<char>,
    y: Seq<char>,
    z: Seq<char>,
)
    requires
        t.len() == v.len() + w.len() + x.len() + y.len() + z.len(),
        t.subrange(0, v.len() as int) == v,
        t.subrange(v.len() as int, (v.len() + w.len()) as int) == w,
        t.subrange((v.len() + w.len()) as int, (v.len() + w.len() + x.len()) as int) == x,
        t.subrange(
            (v.len() + w.len() + x.len()) as int,
            (v.len() + w.len() + x.len() + y.len()) as int,
        ) == y,
        t.subrange((v.len() + w.len() + x.len() + y.len()) as int, t.len() as int) == z,
    ensures
        t == v + w + x + y + z,
{
    assert forall|i: int| 0 <= i < t.len() implies t[i] == (v + w + x + y + z)[i] by {
        let a = v.len() as int;
        let b = a + w.len() as int;
        let c = b + x.len() as int;
        let d = c + y.len() as int;
        if i < a {
            assert(t[i] == t.subrange(0, a)[i]);
        } else if i < b {
            assert(t[i] == t.subrange(a, b)[i - a]);
        } else if i < c {
            assert(t[i] == t.subrange(b, c)[i - b]);
        } else if i < d {
            assert(t[i] == t.subrange(c, d)[i - c]);
        } else {
            assert(t[i] == t.subrange(d, t.len() as int)[i - d]);
        }
    }
    assert(t =~= v + w + x + y + z);
}

/// Parses a serialized payload back into a record, stripping the trailing
/// NUL padding that a fixed-size read buffer may add. It succeeds on exactly
/// the payloads `encode` produces, and fails with `DecodeError` on every
/// other text. The returned record carries an empty identity; the caller
/// supplies one from the location the payload was read from.
pub fn decode(s: &str) -> (res: Result<WalFile, WalError>)
    ensures
        res matches Ok(w) ==> strip_nul(s@) == encode_spec(w.action, w.duration)
            && w.file_name@ == Seq::<char>::empty(),
        forall|a: WalAction, d: u64| strip_nul(s@) == encode_spec(a, d) ==> res is Ok,
        res matches Err(e) ==> e == WalError::DecodeError,
{
    let slen = s.unicode_len();
    let mut n = slen;
    proof {
        assert(s@.subrange(0, slen as int) =~= s@);
    }
    while n > 0
        invariant
            n <= slen,
            slen == s@.len(),
            strip_nul(s@) == strip_nul(s@.subrange(0, n as int)),
        ensures
            n <= slen,
            slen == s@.len(),
            strip_nul(s@) == strip_nul(s@.subrange(0, n as int)),
            n == 0 || s@[n - 1] != '\0',
        decreases n,
    {
        let c = s.get_char(n - 1);
        if c != '\0' {
            break;
        }
        proof {
            let sub = s@.subrange(0, n as int);
            assert(sub.last() == s@[n - 1]);
            assert(sub.drop_last() =~= s@.subrange(0, n - 1));
        }
        n -= 1;
    }
    proof {
        let sub = s@.subrange(0, n as int);
        if n > 0 {
            assert(sub.last() == s@[n - 1]);
        }
        assert(strip_nul(sub) == sub);
    }
    let t = s.substring_char(0, n);
    let tlen = n;
    let ghost tt = t@;
    proof {
        assert(tt == strip_nul(s@));
    }
    if match_at(t, tlen, 0, "{\"action\":\"Success\",\"duration\":") {
        proof {
            lemma_lits();
        }
        match parse_number(t, tlen, 31) {
            Some(pair) => {
                let (v, end) = pair;
                if end == tlen - 1 {
                    let c = t.get_char(end);
                    if c == '}' {
                        proof {
                            lemma_lits();
                            assert(tt.subrange(end as int, tlen as int) =~= lit_tail()) by {
                                assert(tt.subrange(end as int, tlen as int)[0] == tt[end as int]);
                            }
                            lemma_cat3_rebuild(
                                tt,
                                lit_success_head(),
                                dec_digits(v as nat),
                                lit_tail(),
                            );
                        }
                        return Ok(
                            WalFile {
                                action: WalAction::Success,
                                duration: v,
                                file_name: String::new(),
                            },
                        );
                    }
                }
                proof {
                    assert forall|a: WalAction, d: u64| tt == encode_spec(a, d) implies false by {
                        match a {
                            WalAction::Success => {
                                lemma_success_shape(tt, d);
                                let ld = dec_digits(d as nat).len() as int;
                                lemma_digit_run_unique(
                                    tt,
                                    31,
                                    v as nat,
                                    end as int,
                                    d as nat,
                                    31 + ld,
                                );
                            },
                            WalAction::Fail { remaining } => {
                                lemma_fail_shape(tt, remaining, d);
                                assert(lit_success_head()[10] == lit_fail_head()[10]);
                                assert(false);
                            },
                        }
                    }
                }
                Err(WalError::DecodeError)
            },
            None => {
                proof {
                    assert forall|a: WalAction, d: u64| tt == encode_spec(a, d) implies false by {
                        match a {
                            WalAction::Success => {
                                lemma_success_shape(tt, d);
                                let ld = dec_digits(d as nat).len() as int;
                                assert(tt.subrange(31, 31 + ld) == dec_digits(d as nat));
                                assert(!is_dec_char(tt[31 + ld]));
                                assert(false);
                            },
                            WalAction::Fail { remaining } => {
                                lemma_fail_shape(tt, remaining, d);
                                assert(lit_success_head()[10] == lit_fail_head()[10]);
                                assert(false);
                            },
                        }
                    }
                }
                Err(WalError::DecodeError)
            },
        }
    } else if match_at(t, tlen, 0, "{\"action\":{\"Fail\":{\"remaining\":") {
        proof {
            lemma_lits();
        }
        match parse_number(t, tlen, 31) {
            Some(pair) => {
                let (rv, e1) = pair;
                if rv <= 65535 && match_at(t, tlen, e1, "}},\"duration\":") {
                    let p2 = e1 + 14;
                    match parse_number(t, tlen, p2) {
                        Some(pair2) => {
                            let (dv, e2) = pair2;
                            if e2 == tlen - 1 {
                                let c = t.get_char(e2);
                                if c == '}' {
                                    proof {
                                        lemma_lits();
                                        assert(tt.subrange(e2 as int, tlen as int) =~= lit_tail())
                                            by {
                                            assert(tt.subrange(e2 as int, tlen as int)[0]
                                                == tt[e2 as int]);
                                        }
                                        assert(dec_digits((rv as u16) as nat) == dec_digits(
                                            rv as nat,
                                        ));
                                        lemma_cat5_rebuild(
                                            tt,
                                            lit_fail_head(),
                                            dec_digits(rv as nat),
                                            lit_fail_mid(),
                                            dec_digits(dv as nat),
                                            lit_tail(),
                                        );
                                    }
                                    return Ok(
                                        WalFile {
                                            action: WalAction::Fail { remaining: rv as u16 },
                                            duration: dv,
                                            file_name: String::new(),
                                        },
                                    );
                                }
                            }
                            proof {
                                assert forall|a: WalAction, d: u64|
                                    tt == encode_spec(a, d) implies false by {
                                    match a {
                                        WalAction::Fail { remaining } => {
                                            lemma_fail_shape(tt, remaining, d);
                                            let lr = dec_digits(remaining as nat).len() as int;
                                            let ld = dec_digits(d as nat).len() as int;
                                            lemma_digit_run_unique(
                                                tt,
                                                31,
                                                rv as nat,
                                                e1 as int,
                                                remaining as nat,
                                                31 + lr,
                                            );
                                            lemma_digit_run_unique(
                                                tt,
                                                45 + lr,
                                                dv as nat,
                                                e2 as int,
                                                d as nat,
                                                45 + lr + ld,
                                            );
                                        },
                                        WalAction::Success => {
                                            lemma_success_shape(tt, d);
                                            assert(lit_success_head()[10] == lit_fail_head()[10]);
                                            assert(false);
                                        },
                                    }
                                }
                            }
                            Err(WalError::DecodeError)
                        },
                        None => {
                            proof {
                                assert forall|a: WalAction, d: u64|
                                    tt == encode_spec(a, d) implies false by {
                                    match a {
                                        WalAction::Fail { remaining } => {
                                            lemma_fail_shape(tt, remaining, d);
                                            let lr = dec_digits(remaining as nat).len() as int;
                                            let ld = dec_digits(d as nat).len() as int;
                                            lemma_digit_run_unique(
                                                tt,
                                                31,
                                                rv as nat,
                                                e1 as int,
                                                remaining as nat,
                                                31 + lr,
                                            );
                                            assert(tt.subrange(45 + lr, 45 + lr + ld)
                                                == dec_digits(d as nat));
                                            assert(!is_dec_char(tt[45 + lr + ld]));
                                            assert(false);
                                        },
                                        WalAction::Success => {
                                            lemma_success_shape(tt, d);
                                            assert(lit_success_head()[10] == lit_fail_head()[10]);
                                            assert(false);
                                        },
                                    }
                                }
                            }
                            Err(WalError::DecodeError)
                        },
                    }
                } else {
                    proof {
                        assert forall|a: WalAction, d: u64|
                            tt == encode_spec(a, d) implies false by {
                            match a {
                                WalAction::Fail { remaining } => {
                                    lemma_fail_shape(tt, remaining, d);
                                    let lr = dec_digits(remaining as nat).len() as int;
                                    lemma_digit_run_unique(
                                        tt,
                                        31,
                                        rv as nat,
                                        e1 as int,
                                        remaining as nat,
                                        31 + lr,
                                    );
                                    assert((remaining as nat) < 65536);
                                    assert(tt.subrange(e1 as int, e1 + 14) == lit_fail_mid());
                                    assert(false);
                                },
                                WalAction::Success => {
                                    lemma_success_shape(tt, d);
                                    assert(lit_success_head()[10] == lit_fail_head()[10]);
                                    assert(false);
                                },
                            }
                        }
                    }
                    Err(WalError::DecodeError)
                }
            },
            None => {
                proof {
                    assert forall|a: WalAction, d: u64| tt == encode_spec(a, d) implies false by {
                        match a {
                            WalAction::Fail { remaining } => {
                                lemma_fail_shape(tt, remaining, d);
                                let lr = dec_digits(remaining as nat).len() as int;
                                assert(tt.subrange(31, 31 + lr) == dec_digits(remaining as nat));
                                assert(!is_dec_char(tt[31 + lr]));
                                assert(false);
                            },
                            WalAction::Success => {
                                lemma_success_shape(tt, d);
                                assert(lit_success_head()[10] == lit_fail_head()[10]);
                                assert(false);
                            },
                        }
                    }
                }
                Err(WalError::DecodeError)
            },
        }
    } else {
        proof {
            lemma_lits();
            assert forall|a: WalAction, d: u64| tt == encode_spec(a, d) implies false by {
                match a {
                    WalAction::Success => {
                        lemma_success_shape(tt, d);
                    },
                    WalAction::Fail { remaining } => {
                        lemma_fail_shape(tt, remaining, d);
                    },
                }
            }
        }
        Err(WalError::DecodeError)
    }
}

/// Serializes a record: its action and duration, never its identity.
pub fn encode(w: &WalFile) -> (res: String)
    ensures
        res@ == encode_spec(w.action, w.duration),
{
    let mut s = String::new();
    match w.action {
        WalAction::Success => {
            s.append("{\"action\":\"Success\",\"duration\":");
            push_dec(&mut s, w.duration);
            s.append("}");
            proof {
                assert(s@ =~= encode_spec(w.action, w.duration));
            }
        },
        WalAction::Fail { remaining } => {
            s.append("{\"action\":{\"Fail\":{\"remaining\":");
            push_dec(&mut s, remaining as u64);
            s.append("}},\"duration\":");
            push_dec(&mut s, w.duration);
            s.append("}");
            proof {
                assert(s@ =~= encode_spec(w.action, w.duration));
            }
        },
    }
    s
}

} // verus!
