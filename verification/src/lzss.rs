//! LZSS decompression with a 4096-byte window, as used by several archive formats.

use vstd::prelude::*;

verus! {

/// Size of the sliding window.
pub const WINDOW_SIZE: usize = 4096;

/// Window position that receives the first decoded byte.
pub const START_POS: usize = 4078;

/// Why a decoding run stopped.
#[derive(Clone, Copy, Debug, PartialEq, Eq, Structural)]
pub enum LzssStop {
    /// The output buffer was filled.
    Filled,
    /// The input ended before the output buffer was filled.
    InputEnded,
    /// A back-reference had only one of its two bytes.
    MatchCut,
}

/// The byte that window position `p` holds once `out` has been decoded: the window starts
/// filled with spaces and every decoded byte is stored at the next position, starting at
/// `START_POS` and wrapping around.
pub open spec fn window_byte(out: Seq<u8>, p: int) -> u8 {
    let d = (out.len() + START_POS - p - 1) % (WINDOW_SIZE as int) + 1;
    if out.len() >= d {
        out[out.len() - d]
    } else {
        0x20u8
    }
}

/// Window position of a back-reference `(b0, b1)`: `b0` and the high nibble of `b1`.
pub open spec fn match_offset(b0: u8, b1: u8) -> int {
    b0 + (b1 / 16) * 256
}

/// Length of a back-reference: the low nibble of its second byte plus three.
pub open spec fn match_length(b1: u8) -> nat {
    (b1 % 16 + 3) as nat
}

/// Whether bit `k` of a control byte marks a literal.
pub open spec fn is_literal_bit(control: u8, k: nat) -> bool {
    control & (1u8 << (k as u8)) != 0
}

/// `out` extended by copying `n` bytes from window position `p` onwards, stopping when
/// `out` reaches `cap` bytes.
pub open spec fn copy_match(out: Seq<u8>, p: int, n: nat, cap: nat) -> Seq<u8>
    decreases n,
{
    if n == 0 || out.len() >= cap {
        out
    } else {
        copy_match(out.push(window_byte(out, p)), (p + 1) % (WINDOW_SIZE as int), (n - 1) as nat, cap)
    }
}

/// Decoding from input position `ip`, with `out` decoded so far, the current control byte,
/// and `k` of its eight bits used (`k == 8` means a new control byte comes next).
/// Returns everything decoded and the reason decoding stopped.
pub open spec fn lzss_run(input: Seq<u8>, cap: nat, ip: int, out: Seq<u8>, control: u8, k: nat) -> (Seq<u8>, LzssStop)
    decreases input.len() - ip,
{
    if out.len() >= cap {
        (out, LzssStop::Filled)
    } else if ip < 0 || ip >= input.len() {
        (out, LzssStop::InputEnded)
    } else if k >= 8 {
        lzss_run(input, cap, ip + 1, out, input[ip], 0)
    } else if is_literal_bit(control, k) {
        lzss_run(input, cap, ip + 1, out.push(input[ip]), control, k + 1)
    } else if ip + 1 >= input.len() {
        (out, LzssStop::MatchCut)
    } else {
        lzss_run(
            input,
            cap,
            ip + 2,
            copy_match(out, match_offset(input[ip], input[ip + 1]), match_length(input[ip + 1]), cap),
            control,
            k + 1,
        )
    }
}

/// What LZSS decoding of `input` into a buffer of `cap` bytes produces.
pub open spec fn lzss_decode(input: Seq<u8>, cap: nat) -> (Seq<u8>, LzssStop) {
    lzss_run(input, cap, 0, Seq::empty(), 0, 8)
}

proof fn lemma_window_push(out: Seq<u8>, b: u8, p: int)
    requires
        0 <= p < 4096,
    ensures
        window_byte(out.push(b), p) == if p == (START_POS + out.len()) % 4096 {
            b
        } else {
            window_byte(out, p)
        },
{
    let t = out.len() as int;
    let a = t + 4078 - p;
    if p == (4078 + t) % 4096 {
        assert(a % 4096 == 0);
    } else {
        assert(a % 4096 != 0);
        assert((a - 1) % 4096 + 1 == a % 4096);
    }
}

proof fn lemma_copy_match_len(out: Seq<u8>, p: int, n: nat, cap: nat)
    requires
        out.len() <= cap,
    ensures
        out.len() <= copy_match(out, p, n, cap).len() <= cap,
        copy_match(out, p, n, cap).take(out.len() as int) == out,
    decreases n,
{
    if n == 0 || out.len() >= cap {
        assert(out.take(out.len() as int) =~= out);
    } else {
        let next = out.push(window_byte(out, p));
        lemma_copy_match_len(next, (p + 1) % 4096, (n - 1) as nat, cap);
        let r = copy_match(out, p, n, cap);
        assert(r.take(out.len() as int) =~= r.take(next.len() as int).take(out.len() as int));
        assert(next.take(out.len() as int) =~= out);
    }
}

/// Decoding never produces more than `cap` bytes, extends what was decoded before, and
/// reports `Filled` exactly when it produced `cap` bytes.
pub proof fn lemma_run_len(input: Seq<u8>, cap: nat, ip: int, out: Seq<u8>, control: u8, k: nat)
    requires
        out.len() <= cap,
    ensures
        ({
            let (res, stop) = lzss_run(input, cap, ip, out, control, k);
            &&& out.len() <= res.len() <= cap
            &&& res.take(out.len() as int) == out
            &&& (stop == LzssStop::Filled <==> res.len() == cap)
        }),
    decreases input.len() - ip,
{
    if out.len() >= cap {
        assert(out.take(out.len() as int) =~= out);
    } else if ip < 0 || ip >= input.len() {
        assert(out.take(out.len() as int) =~= out);
    } else if k >= 8 {
        lemma_run_len(input, cap, ip + 1, out, input[ip], 0);
    } else if is_literal_bit(control, k) {
        let next = out.push(input[ip]);
        lemma_run_len(input, cap, ip + 1, next, control, k + 1);
        let res = lzss_run(input, cap, ip + 1, next, control, k + 1).0;
        assert(res.take(out.len() as int) =~= res.take(next.len() as int).take(out.len() as int));
        assert(next.take(out.len() as int) =~= out);
    } else if ip + 1 >= input.len() {
        assert(out.take(out.len() as int) =~= out);
    } else {
        let next = copy_match(out, match_offset(input[ip], input[ip + 1]), match_length(input[ip + 1]), cap);
        lemma_copy_match_len(out, match_offset(input[ip], input[ip + 1]), match_length(input[ip + 1]), cap);
        lemma_run_len(input, cap, ip + 2, next, control, k + 1);
        let res = lzss_run(input, cap, ip + 2, next, control, k + 1).0;
        assert(res.take(out.len() as int) =~= res.take(next.len() as int).take(out.len() as int));
    }
}

proof fn lemma_copy_match_prefix(out: Seq<u8>, p: int, n: nat, c1: nat, c2: nat)
    requires
        c1 <= c2,
        out.len() <= c1,
    ensures
        ({
            let a = copy_match(out, p, n, c1);
            let b = copy_match(out, p, n, c2);
            &&& a.len() <= b.len()
            &&& b.take(a.len() as int) == a
            &&& a.len() < c1 ==> a == b
        }),
    decreases n,
{
    lemma_copy_match_len(out, p, n, c1);
    lemma_copy_match_len(out, p, n, c2);
    if n == 0 {
        assert(out.take(out.len() as int) =~= out);
    } else if out.len() >= c1 {
    } else {
        lemma_copy_match_prefix(out.push(window_byte(out, p)), (p + 1) % (WINDOW_SIZE as int), (n - 1) as nat, c1, c2);
    }
}

/// Whether the first run's bytes begin the second's, and the runs agree when the first did
/// not fill its buffer.
pub open spec fn runs_agree(x: (Seq<u8>, LzssStop), y: (Seq<u8>, LzssStop)) -> bool {
    &&& x.0.len() <= y.0.len()
    &&& y.0.take(x.0.len() as int) == x.0
    &&& x.1 != LzssStop::Filled ==> x == y
}

proof fn lemma_run_prefix(input: Seq<u8>, c1: nat, c2: nat, ip: int, out: Seq<u8>, control: u8, k: nat)
    requires
        c1 <= c2,
        out.len() <= c1,
    ensures
        runs_agree(lzss_run(input, c1, ip, out, control, k), lzss_run(input, c2, ip, out, control, k)),
    decreases input.len() - ip,
{
    lemma_run_len(input, c1, ip, out, control, k);
    lemma_run_len(input, c2, ip, out, control, k);
    assert(out.take(out.len() as int) =~= out);
    if out.len() >= c1 {
    } else if ip < 0 || ip >= input.len() {
    } else if k >= 8 {
        lemma_run_prefix(input, c1, c2, ip + 1, out, input[ip], 0);
    } else if is_literal_bit(control, k) {
        lemma_run_prefix(input, c1, c2, ip + 1, out.push(input[ip]), control, k + 1);
    } else if ip + 1 >= input.len() {
    } else {
        let p = match_offset(input[ip], input[ip + 1]);
        let n = match_length(input[ip + 1]);
        let m1 = copy_match(out, p, n, c1);
        let m2 = copy_match(out, p, n, c2);
        lemma_copy_match_prefix(out, p, n, c1, c2);
        lemma_copy_match_len(out, p, n, c1);
        lemma_copy_match_len(out, p, n, c2);
        assert(lzss_run(input, c1, ip, out, control, k) == lzss_run(input, c1, ip + 2, m1, control, k + 1));
        assert(lzss_run(input, c2, ip, out, control, k) == lzss_run(input, c2, ip + 2, m2, control, k + 1));
        if m1.len() < c1 {
            lemma_run_prefix(input, c1, c2, ip + 2, m1, control, k + 1);
        } else {
            lemma_run_len(input, c2, ip + 2, m2, control, k + 1);
            let b = lzss_run(input, c2, ip + 2, m2, control, k + 1).0;
            assert(b.take(m1.len() as int) =~= b.take(m2.len() as int).take(m1.len() as int));
            assert(lzss_run(input, c1, ip + 2, m1, control, k + 1) == (m1, LzssStop::Filled));
        }
    }
}

/// Decoding into a smaller buffer gives the first bytes of what decoding into a larger one
/// gives; when the smaller buffer is not filled, both give the same bytes and stop for the
/// same reason.
pub proof fn lemma_decode_prefix(input: Seq<u8>, c1: nat, c2: nat)
    requires
        c1 <= c2,
    ensures
        ({
            let (a, sa) = lzss_decode(input, c1);
            let (b, sb) = lzss_decode(input, c2);
            &&& a.len() <= b.len()
            &&& b.take(a.len() as int) == a
            &&& sa != LzssStop::Filled ==> a == b && sa == sb
        }),
{
    lemma_run_prefix(input, c1, c2, 0, Seq::empty(), 0, 8);
}

proof fn lemma_run_extra_input(input: Seq<u8>, extra: Seq<u8>, cap: nat, ip: int, out: Seq<u8>, control: u8, k: nat)
    requires
        lzss_run(input, cap, ip, out, control, k).1 == LzssStop::Filled,
    ensures
        lzss_run(input + extra, cap, ip, out, control, k) == lzss_run(input, cap, ip, out, control, k),
    decreases input.len() - ip,
{
    let full = input + extra;
    if out.len() >= cap {
    } else if ip < 0 || ip >= input.len() {
    } else {
        assert(full[ip] == input[ip]);
        if k >= 8 {
            lemma_run_extra_input(input, extra, cap, ip + 1, out, input[ip], 0);
        } else if is_literal_bit(control, k) {
            lemma_run_extra_input(input, extra, cap, ip + 1, out.push(input[ip]), control, k + 1);
        } else if ip + 1 >= input.len() {
        } else {
            assert(full[ip + 1] == input[ip + 1]);
            lemma_run_extra_input(
                input,
                extra,
                cap,
                ip + 2,
                copy_match(out, match_offset(input[ip], input[ip + 1]), match_length(input[ip + 1]), cap),
                control,
                k + 1,
            );
        }
    }
}

/// Once the input fills the buffer, bytes appended after it change nothing.
pub proof fn lemma_decode_ignores_trailing_input(input: Seq<u8>, extra: Seq<u8>, cap: nat)
    requires
        lzss_decode(input, cap).1 == LzssStop::Filled,
    ensures
        lzss_decode(input + extra, cap) == lzss_decode(input, cap),
{
    lemma_run_extra_input(input, extra, cap, 0, Seq::empty(), 0, 8);
}

proof fn lemma_copy_match_exact_len(out: Seq<u8>, p: int, n: nat, cap: nat)
    requires
        out.len() + n <= cap,
    ensures
        copy_match(out, p, n, cap).len() == out.len() + n,
    decreases n,
{
    if n > 0 {
        lemma_copy_match_exact_len(out.push(window_byte(out, p)), (p + 1) % 4096, (n - 1) as nat, cap);
    }
}

/// The first byte a back-reference at input position `ip` produces.
proof fn lemma_reference_first_byte(input: Seq<u8>, cap: nat, ip: int, out: Seq<u8>, control: u8, k: nat)
    requires
        k < 8,
        !is_literal_bit(control, k),
        0 <= ip,
        ip + 1 < input.len(),
        out.len() < cap,
    ensures
        lzss_run(input, cap, ip, out, control, k).0.len() > out.len(),
        lzss_run(input, cap, ip, out, control, k).0[out.len() as int]
            == window_byte(out, match_offset(input[ip], input[ip + 1])),
{
    let p = match_offset(input[ip], input[ip + 1]);
    let n = match_length(input[ip + 1]);
    let next = out.push(window_byte(out, p));
    let m = copy_match(out, p, n, cap);
    lemma_copy_match_len(next, (p + 1) % 4096, (n - 1) as nat, cap);
    assert(m.take(next.len() as int) == next);
    lemma_run_len(input, cap, ip + 2, m, control, k + 1);
    let res = lzss_run(input, cap, ip + 2, m, control, k + 1).0;
    assert(res.take(m.len() as int)[out.len() as int] == m[out.len() as int]);
    assert(m.take(next.len() as int)[out.len() as int] == next[out.len() as int]);
}

/// The window position that receives the `t`-th decoded byte (counting from zero).
pub open spec fn slot_of(t: int) -> int {
    (4078 + t) % 4096
}

/// A back-reference `(b0, b1)` reads window position `b0 + 256 * (b1 >> 4)`. The `t`-th
/// decoded byte was stored at position `(4078 + t) % 4096`, so the reference yields the
/// latest decoded byte stored at that position, or a space when none was.
pub proof fn lemma_reference_reads_window(input: Seq<u8>, cap: nat, ip: int, out: Seq<u8>, control: u8, k: nat)
    requires
        k < 8,
        control & (1u8 << (k as u8)) == 0,
        0 <= ip,
        ip + 1 < input.len(),
        out.len() < cap,
    ensures
        ({
            let p = input[ip] as int + 256 * ((input[ip + 1] >> 4u8) as int);
            let res = lzss_run(input, cap, ip, out, control, k).0;
            &&& res.len() > out.len()
            &&& forall|t: int|
                0 <= t < out.len() && out.len() - t <= 4096 && #[trigger] slot_of(t) == p
                    ==> res[out.len() as int] == out[t]
            &&& (forall|t: int| 0 <= t < out.len() ==> #[trigger] slot_of(t) != p) ==> res[out.len() as int] == 0x20
        }),
{
    let b1 = input[ip + 1];
    assert(b1 >> 4u8 == b1 / 16) by (bit_vector);
    let p = match_offset(input[ip], b1);
    lemma_reference_first_byte(input, cap, ip, out, control, k);
    let len = out.len() as int;
    let d = (len + 4078 - p - 1) % 4096 + 1;
    assert forall|t: int| 0 <= t < out.len() && out.len() - t <= 4096 && #[trigger] slot_of(t) == p implies
        lzss_run(input, cap, ip, out, control, k).0[len] == out[t] by {
        assert(d == len - t);
    }
    if len >= d {
        assert(slot_of(len - d) == p);
    }
}

proof fn lemma_copy_match_byte(out: Seq<u8>, p: int, n: nat, cap: nat, i: int)
    requires
        0 <= p < 4096,
        0 <= i < n,
        out.len() + i < cap,
    ensures
        copy_match(out, p, n, cap).len() > out.len() + i,
        copy_match(out, p, n, cap)[out.len() + i]
            == window_byte(copy_match(out, p, n, cap).take(out.len() + i), (p + i) % 4096),
    decreases n,
{
    let next = out.push(window_byte(out, p));
    let q = (p + 1) % 4096;
    let m = copy_match(next, q, (n - 1) as nat, cap);
    assert(copy_match(out, p, n, cap) == m);
    lemma_copy_match_len(next, q, (n - 1) as nat, cap);
    if i == 0 {
        assert(m.take(next.len() as int)[out.len() as int] == next[out.len() as int]);
        assert(m.take(out.len() as int) =~= m.take(next.len() as int).take(out.len() as int));
        assert(next.take(out.len() as int) =~= out);
        assert((p + 0) % 4096 == p);
    } else {
        lemma_copy_match_byte(next, q, (n - 1) as nat, cap, i - 1);
        assert(next.len() + (i - 1) == out.len() + i);
        assert((q + (i - 1)) % 4096 == (p + i) % 4096);
    }
}

proof fn lemma_window_byte_slot(s: Seq<u8>, q: int)
    requires
        0 <= q < 4096,
    ensures
        forall|t: int| 0 <= t < s.len() && s.len() - t <= 4096 && #[trigger] slot_of(t) == q ==> window_byte(s, q) == s[t],
        (forall|t: int| 0 <= t < s.len() ==> #[trigger] slot_of(t) != q) ==> window_byte(s, q) == 0x20,
{
    let len = s.len() as int;
    let d = (len + 4078 - q - 1) % 4096 + 1;
    assert forall|t: int| 0 <= t < len && len - t <= 4096 && #[trigger] slot_of(t) == q implies window_byte(s, q) == s[t] by {
        assert(d == len - t);
    }
    if len >= d {
        assert(slot_of(len - d) == q);
    }
}

/// A back-reference `(b0, b1)` copies `(b1 & 0x0F) + 3` bytes from consecutive window
/// positions starting at `b0 + 256 * (b1 >> 4)`: its `i`-th byte reads position
/// `(b0 + 256 * (b1 >> 4) + i) % 4096`, which holds the latest byte decoded before it and
/// stored there (bytes of the same reference included), or a space when none was.
#[verifier::rlimit(30)]
pub proof fn lemma_reference_copies_window(input: Seq<u8>, cap: nat, ip: int, out: Seq<u8>, control: u8, k: nat, i: int)
    requires
        k < 8,
        control & (1u8 << (k as u8)) == 0,
        0 <= ip,
        ip + 1 < input.len(),
        0 <= i < (input[ip + 1] & 0x0Fu8) + 3,
        out.len() + i < cap,
    ensures
        ({
            let q = (input[ip] as int + 256 * ((input[ip + 1] >> 4u8) as int) + i) % 4096;
            let res = lzss_run(input, cap, ip, out, control, k).0;
            let at = out.len() + i;
            &&& res.len() > at
            &&& res.take(out.len() as int) == out
            &&& forall|t: int| 0 <= t < at && at - t <= 4096 && #[trigger] slot_of(t) == q ==> res[at] == res[t]
            &&& (forall|t: int| 0 <= t < at ==> #[trigger] slot_of(t) != q) ==> res[at] == 0x20
        }),
{
    let b0 = input[ip];
    let b1 = input[ip + 1];
    assert(b1 >> 4u8 == b1 / 16) by (bit_vector);
    assert(b1 & 0x0Fu8 == b1 % 16) by (bit_vector);
    let p = match_offset(b0, b1);
    let n = match_length(b1);
    let q = (p + i) % 4096;
    let at = out.len() + i;
    assert(!is_literal_bit(control, k));
    let m = copy_match(out, p, n, cap);
    assert(lzss_run(input, cap, ip, out, control, k) == lzss_run(input, cap, ip + 2, m, control, k + 1));
    lemma_copy_match_byte(out, p, n, cap, i);
    lemma_copy_match_len(out, p, n, cap);
    lemma_run_len(input, cap, ip + 2, m, control, k + 1);
    let res = lzss_run(input, cap, ip + 2, m, control, k + 1).0;
    assert(res.take(m.len() as int)[at] == m[at]);
    assert(res.take(at) =~= m.take(at)) by {
        assert(res.take(at) =~= res.take(m.len() as int).take(at));
    }
    assert(res.take(out.len() as int) =~= m.take(out.len() as int)) by {
        assert(res.take(out.len() as int) =~= res.take(m.len() as int).take(out.len() as int));
    }
    let s = res.take(at);
    lemma_window_byte_slot(s, q);
    assert forall|t: int| 0 <= t < at && at - t <= 4096 && #[trigger] slot_of(t) == q implies res[at] == res[t] by {
        assert(res[t] == s[t]);
    }
}

/// A control bit `k` that is set makes the next input byte the next decoded byte.
pub proof fn lemma_literal_copies_input(input: Seq<u8>, cap: nat, ip: int, out: Seq<u8>, control: u8, k: nat)
    requires
        k < 8,
        (control >> (k as u8)) & 1u8 == 1u8,
        0 <= ip < input.len(),
        out.len() < cap,
    ensures
        lzss_run(input, cap, ip, out, control, k).0.len() > out.len(),
        lzss_run(input, cap, ip, out, control, k).0[out.len() as int] == input[ip],
{
    let kk = k as u8;
    assert(kk < 8 ==> ((control >> kk) & 1u8 == 1u8 <==> control & (1u8 << kk) != 0u8)) by (bit_vector);
    let next = out.push(input[ip]);
    lemma_run_len(input, cap, ip + 1, next, control, k + 1);
    let res = lzss_run(input, cap, ip + 1, next, control, k + 1).0;
    assert(res.take(next.len() as int)[out.len() as int] == next[out.len() as int]);
}

proof fn lemma_literal_group_step(input: Seq<u8>, cap: nat, ip: int, out: Seq<u8>, k: nat)
    requires
        0 <= ip,
        ip + 9 <= input.len(),
        k <= 8,
        out.len() + 8 <= cap,
    ensures
        lzss_run(input, cap, ip + 1 + k, out + input.subrange(ip + 1, ip + 1 + k), 0xFFu8, k)
            == lzss_run(input, cap, ip + 9, out + input.subrange(ip + 1, ip + 9), 0xFFu8, 8),
    decreases 8 - k,
{
    if k < 8 {
        let kk = k as u8;
        assert(kk < 8 ==> 0xFFu8 & (1u8 << kk) != 0u8) by (bit_vector);
        assert(is_literal_bit(0xFFu8, k));
        let cur = out + input.subrange(ip + 1, ip + 1 + k);
        assert(cur.push(input[ip + 1 + k]) =~= out + input.subrange(ip + 1, ip + 1 + (k + 1)));
        lemma_literal_group_step(input, cap, ip, out, k + 1);
    }
}

/// The bytes that groups of a control byte and eight literals give, in order: the eight
/// bytes after each group's first byte.
proof fn lemma_literal_groups_from(input: Seq<u8>, cap: nat, j: int, m: int, control: u8)
    requires
        0 <= j <= m,
        input.len() == 9 * m,
        forall|g: int| 0 <= g < m ==> #[trigger] input[9 * g] == 0xFFu8,
        8 * m <= cap,
    ensures
        lzss_run(input, cap, 9 * j, Seq::new((8 * j) as nat, |t: int| input[9 * (t / 8) + 1 + t % 8]), control, 8).0
            == Seq::new((8 * m) as nat, |t: int| input[9 * (t / 8) + 1 + t % 8]),
    decreases m - j,
{
    let out = Seq::new((8 * j) as nat, |t: int| input[9 * (t / 8) + 1 + t % 8]);
    if j < m {
        let ip = 9 * j;
        assert(input[9 * j] == 0xFFu8);
        assert(lzss_run(input, cap, ip, out, control, 8) == lzss_run(input, cap, ip + 1, out, 0xFFu8, 0));
        assert(out + input.subrange(ip + 1, ip + 1) =~= out);
        lemma_literal_group_step(input, cap, ip, out, 0);
        let next = Seq::new((8 * (j + 1)) as nat, |t: int| input[9 * (t / 8) + 1 + t % 8]);
        assert forall|t: int| 0 <= t < next.len() implies #[trigger] (out + input.subrange(ip + 1, ip + 9))[t] == next[t] by {
            if t >= 8 * j {
                assert(t / 8 == j);
                assert(t % 8 == t - 8 * j);
            }
        }
        assert(out + input.subrange(ip + 1, ip + 9) =~= next);
        lemma_literal_groups_from(input, cap, j + 1, m, 0xFFu8);
    }
}

/// An input made of groups of nine bytes, each a control byte `0xFF` followed by eight
/// literals, decodes into a buffer of room enough to the literals in order: byte `t` of the
/// output is byte `t % 8` of the literals of group `t / 8`.
pub proof fn lemma_literal_groups(input: Seq<u8>, cap: nat)
    requires
        input.len() % 9 == 0,
        forall|g: int| 0 <= g < input.len() / 9 ==> #[trigger] input[9 * g] == 0xFFu8,
        8 * (input.len() / 9) <= cap,
    ensures
        lzss_decode(input, cap).0 == Seq::new((8 * (input.len() / 9)) as nat, |t: int| input[9 * (t / 8) + 1 + t % 8]),
{
    let m = input.len() / 9;
    assert(Seq::new((8 * 0) as nat, |t: int| input[9 * (t / 8) + 1 + t % 8]) =~= Seq::<u8>::empty());
    lemma_literal_groups_from(input, cap, 0, m as int, 0);
}

/// A back-reference `(b0, b1)` copies `(b1 & 0x0F) + 3` bytes: as the last token of the
/// input, with room in the buffer, it adds exactly that many and the input then ends.
pub proof fn lemma_reference_length(input: Seq<u8>, cap: nat, ip: int, out: Seq<u8>, control: u8, k: nat)
    requires
        k < 8,
        control & (1u8 << (k as u8)) == 0,
        0 <= ip,
        ip + 2 == input.len(),
        out.len() + 18 < cap,
    ensures
        lzss_run(input, cap, ip, out, control, k).0.len() == out.len() + (input[ip + 1] & 0x0Fu8) + 3,
        lzss_run(input, cap, ip, out, control, k).1 == LzssStop::InputEnded,
{
    let b1 = input[ip + 1];
    assert(b1 & 0x0Fu8 == b1 % 16) by (bit_vector);
    let m = copy_match(out, match_offset(input[ip], b1), match_length(b1), cap);
    lemma_copy_match_exact_len(out, match_offset(input[ip], b1), match_length(b1), cap);
    assert(!is_literal_bit(control, k));
    assert(lzss_run(input, cap, ip, out, control, k) == lzss_run(input, cap, ip + 2, m, control, k + 1));
    assert(lzss_run(input, cap, ip + 2, m, control, k + 1) == (m, LzssStop::InputEnded));
}

/// Decodes `input` into `output` until `output` is full or the input runs out.
/// Returns how many bytes were written and why decoding stopped; bytes past those written
/// are left as they were.
pub fn lzss_decode_into(output: &mut [u8], input: &[u8]) -> (res: (usize, LzssStop))
    ensures
        ({
            let (prod, stop) = lzss_decode(input@, old(output)@.len());
            &&& res.0 == prod.len()
            &&& res.1 == stop
            &&& final(output)@ == prod + old(output)@.skip(prod.len() as int)
        }),
{
    let output_len = output.len();
    let ghost cap = output_len as nat;
    let mut window: Vec<u8> = vec![0x20u8; WINDOW_SIZE];
    let mut win_pos: usize = START_POS;
    let mut ip: usize = 0;
    let mut op: usize = 0;
    let mut control: u8 = 0;
    let mut k: u8 = 8;
    proof {
        assert forall|p: int| 0 <= p < 4096 implies window@[p] == window_byte(output@.take(0), p) by {}
        assert(output@.skip(0) =~= old(output)@.skip(0));
        assert(output@.take(0) =~= Seq::<u8>::empty());
    }
    loop
        invariant
            output@.len() == old(output)@.len(),
            output_len == output@.len(),
            cap == output_len,
            ip <= input@.len(),
            op <= output_len,
            k <= 8,
            window@.len() == WINDOW_SIZE,
            win_pos == (START_POS + op) % 4096,
            forall|p: int| 0 <= p < 4096 ==> window@[p] == window_byte(output@.take(op as int), p),
            output@.skip(op as int) == old(output)@.skip(op as int),
            lzss_run(input@, cap, ip as int, output@.take(op as int), control, k as nat) == lzss_decode(input@, cap),
        decreases input@.len() - ip,
    {
        if op >= output_len {
            proof {
                assert(output@ =~= output@.take(op as int) + old(output)@.skip(op as int));
            }
            return (op, LzssStop::Filled);
        }
        if ip >= input.len() {
            proof {
                assert(output@ =~= output@.take(op as int) + old(output)@.skip(op as int));
            }
            return (op, LzssStop::InputEnded);
        }
        if k >= 8 {
            control = input[ip];
            ip = ip + 1;
            k = 0;
        } else if control & (1u8 << k) != 0 {
            let b = input[ip];
            ip = ip + 1;
            let ghost before = output@.take(op as int);
            let ghost prev = output@;
            output[op] = b;
            window.set(win_pos, b);
            proof {
                assert(output@.take(op + 1) =~= before.push(b));
                assert forall|i: int| 0 <= i < output@.skip(op + 1).len() implies #[trigger] output@.skip(op + 1)[i] == old(output)@.skip(op + 1)[i] by {
                    assert(prev.skip(op as int)[i + 1] == old(output)@.skip(op as int)[i + 1]);
                }
                assert(output@.skip(op + 1) =~= old(output)@.skip(op + 1));
                assert forall|p: int| 0 <= p < 4096 implies window@[p] == window_byte(output@.take(op + 1), p) by {
                    lemma_window_push(before, b, p);
                }
            }
            op = op + 1;
            win_pos = (win_pos + 1) % WINDOW_SIZE;
            k = k + 1;
        } else {
            if ip + 1 >= input.len() {
                proof {
                    assert(output@ =~= output@.take(op as int) + old(output)@.skip(op as int));
                }
                return (op, LzssStop::MatchCut);
            }
            let b0 = input[ip];
            let b1 = input[ip + 1];
            ip = ip + 2;
            let mut mpos: usize = b0 as usize + (b1 as usize / 16) * 256;
            let mut mlen: usize = (b1 as usize % 16) + 3;
            let ghost target = copy_match(output@.take(op as int), match_offset(b0, b1), match_length(b1), cap);
            while mlen > 0 && op < output_len
                invariant
                    output@.len() == old(output)@.len(),
                    output_len == output@.len(),
                    cap == output_len,
                    op <= output_len,
                    mpos < 4096,
                    window@.len() == WINDOW_SIZE,
                    win_pos == (START_POS + op) % 4096,
                    forall|p: int| 0 <= p < 4096 ==> window@[p] == window_byte(output@.take(op as int), p),
                    output@.skip(op as int) == old(output)@.skip(op as int),
                    copy_match(output@.take(op as int), mpos as int, mlen as nat, cap) == target,
                decreases mlen,
            {
                let b = window[mpos];
                let ghost before = output@.take(op as int);
                let ghost prev = output@;
                output[op] = b;
                window.set(win_pos, b);
                proof {
                    assert(output@.take(op + 1) =~= before.push(b));
                    assert forall|i: int| 0 <= i < output@.skip(op + 1).len() implies #[trigger] output@.skip(op + 1)[i] == old(output)@.skip(op + 1)[i] by {
                    assert(prev.skip(op as int)[i + 1] == old(output)@.skip(op as int)[i + 1]);
                }
                assert(output@.skip(op + 1) =~= old(output)@.skip(op + 1));
                    assert forall|p: int| 0 <= p < 4096 implies window@[p] == window_byte(output@.take(op + 1), p) by {
                        lemma_window_push(before, b, p);
                    }
                }
                op = op + 1;
                win_pos = (win_pos + 1) % WINDOW_SIZE;
                mpos = (mpos + 1) % WINDOW_SIZE;
                mlen = mlen - 1;
            }
            k = k + 1;
        }
    }
}

/// Decompresses LZSS data from `input` until `output` is full.
/// Returns `Ok(())` when `output` was filled, `Err("Unexpected end of input")` when the
/// input ends inside a back-reference, and `Err("Output buffer not fully filled")` when the
/// input ends before `output` is full. Decoded bytes are written to the front of `output`
/// in every case; the rest of it is left as it was.
pub fn lzss_decompress(output: &mut [u8], input: &[u8]) -> (r: Result<(), &'static str>)
    ensures
        ({
            let (prod, stop) = lzss_decode(input@, old(output)@.len());
            &&& final(output)@ == prod + old(output)@.skip(prod.len() as int)
            &&& (r is Ok <==> stop == LzssStop::Filled)
            &&& (r is Ok ==> final(output)@ == prod)
            &&& (r matches Err(e) ==> stop == LzssStop::MatchCut ==> e@ == "Unexpected end of input"@)
            &&& (r matches Err(e) ==> stop == LzssStop::InputEnded ==> e@ == "Output buffer not fully filled"@)
        }),
{
    let ghost cap = old(output)@.len();
    let (_produced, stop) = lzss_decode_into(output, input);
    proof {
        lemma_run_len(input@, cap, 0, Seq::empty(), 0, 8);
    }
    match stop {
        LzssStop::Filled => {
            proof {
                let prod = lzss_decode(input@, cap).0;
                assert(old(output)@.skip(prod.len() as int) =~= Seq::<u8>::empty());
                assert(prod + Seq::<u8>::empty() =~= prod);
            }
            Ok(())
        },
        LzssStop::MatchCut => Err("Unexpected end of input"),
        LzssStop::InputEnded => Err("Output buffer not fully filled"),
    }
}

/// Upper bound on the size of LZSS-compressed data for `input_size` bytes of input.
pub fn lzss_compress_bound(input_size: usize) -> (r: usize)
    requires
        input_size + input_size / 8 + 18 <= usize::MAX,
    ensures
        r == input_size + input_size / 8 + 18,
{
    input_size + input_size / 8 + 18
}

} // verus!
