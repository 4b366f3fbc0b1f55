//! Formatting done by the user tasks before they hand bytes to PUTC and
//! WRITE: decimal numbers and benchmark reports (bench), four hex digits
//! (pong), and the progress lines of echo, ping and pong.

use vstd::prelude::*;
use vstd::string::StrSliceExecFns;

verus! {

/// the ascii digit for `d` (< 10).
pub open spec fn digit(d: nat) -> u8 {
    (48 + d) as u8
}

/// the decimal representation of `n`, most significant digit first.
pub open spec fn decimal(n: nat) -> Seq<u8>
    decreases n,
{
    if n < 10 {
        seq![digit(n)]
    } else {
        decimal(n / 10).push(digit(n % 10))
    }
}

/// `s` back to front.
pub open spec fn rev(s: Seq<u8>) -> Seq<u8> {
    Seq::new(s.len(), |k: int| s[s.len() - 1 - k])
}

/// The bytes printed for `n` in decimal (digits are produced least
/// significant first into a buffer, then sent most significant first).
pub fn print_u64(n: u64) -> (out: Vec<u8>)
    ensures
        out@ == decimal(n as nat),
{
    let mut out: Vec<u8> = Vec::new();
    if n == 0 {
        out.push(48u8);
        return out;
    }
    let ghost n0 = n as nat;
    let mut m = n;
    assert(pow10(0) == 1);
    let mut buf: Vec<u8> = Vec::new();
    while m > 0
        invariant
            m > 0 ==> decimal(n0) == decimal(m as nat) + rev(buf@),
            m == 0 ==> decimal(n0) == rev(buf@),
            buf@.len() <= 20,
            n0 <= u64::MAX,
            m as nat * pow10(buf@.len()) <= n0,
        decreases m,
    {
        let d = (m % 10) as u8;
        let ghost old_buf = buf@;
        proof {
            lemma_pow10_grows(buf@.len(), m as nat, n0);
        }
        buf.push(d + 48u8);
        proof {
            assert(rev(buf@) =~= seq![digit((m % 10) as nat)] + rev(old_buf));
            if m >= 10 {
                assert(decimal(m as nat) == decimal((m / 10) as nat).push(digit((m % 10) as nat)));
                assert(decimal((m / 10) as nat).push(digit((m % 10) as nat)) + rev(old_buf) =~= decimal(
                    (m / 10) as nat,
                ) + rev(buf@));
            } else {
                assert(decimal(m as nat) + rev(old_buf) =~= rev(buf@));
            }
            assert((m / 10) as nat * pow10(buf@.len()) <= n0) by (nonlinear_arith)
                requires
                    m as nat * pow10(old_buf.len()) <= n0,
                    pow10(buf@.len()) == 10 * pow10(old_buf.len()),
            ;
        }
        m = m / 10;
    }
    let mut i = buf.len();
    while i > 0
        invariant
            i <= buf@.len(),
            out@ == rev(buf@).subrange(0, (buf@.len() - i) as int),
        decreases i,
    {
        i -= 1;
        out.push(buf[i]);
        proof {
            assert(out@ =~= rev(buf@).subrange(0, (buf@.len() - i) as int));
        }
    }
    proof {
        assert(rev(buf@).subrange(0, buf@.len() as int) =~= rev(buf@));
    }
    out
}

/// 10 to the `k`.
pub open spec fn pow10(k: nat) -> nat
    decreases k,
{
    if k == 0 {
        1
    } else {
        10 * pow10((k - 1) as nat)
    }
}

proof fn lemma_pow10_grows(k: nat, m: nat, n0: nat)
    requires
        m > 0,
        m * pow10(k) <= n0,
        n0 <= u64::MAX,
    ensures
        k < 20,
        pow10(k + 1) == 10 * pow10(k),
{
    assert(pow10(k + 1) == 10 * pow10(k));
    if k >= 20 {
        lemma_pow10_mono(20, k);
        reveal_with_fuel(pow10, 21);
        assert(pow10(20) == 100000000000000000000nat);
        assert(m * pow10(k) >= pow10(k)) by (nonlinear_arith)
            requires
                m > 0,
        ;
    }
}

proof fn lemma_pow10_mono(a: nat, b: nat)
    requires
        a <= b,
    ensures
        pow10(a) <= pow10(b),
    decreases b - a,
{
    if a < b {
        lemma_pow10_mono(a, (b - 1) as nat);
    }
}

/// the lowercase hex digit for `nib` (< 16).
pub open spec fn hex_digit(nib: u64) -> u8 {
    if nib < 10 {
        (48 + nib) as u8
    } else {
        (97 + nib - 10) as u8
    }
}

/// The four lowercase hex digits of the low 16 bits of `label`, most
/// significant first.
pub fn print_hex16(label: u64) -> (out: Vec<u8>)
    ensures
        out@ == seq![
            hex_digit((label >> 12u64) & 0xf),
            hex_digit((label >> 8u64) & 0xf),
            hex_digit((label >> 4u64) & 0xf),
            hex_digit(label & 0xf),
        ],
{
    let mut buf: Vec<u8> = Vec::new();
    let mut i: u64 = 0;
    while i < 4
        invariant
            i <= 4,
            buf@.len() == i,
            forall|k: int| 0 <= k < i ==> #[trigger] buf@[k] == hex_digit((label >> ((3 - k) * 4) as u64) & 0xf),
        decreases 4 - i,
    {
        let sh: u64 = (3 - i) * 4;
        let nib = (label >> sh) & 0xf;
        assert(nib < 16) by (bit_vector)
            requires
                nib == (label >> sh) & 0xf,
        ;
        let c = if nib < 10 {
            48u8 + nib as u8
        } else {
            97u8 + nib as u8 - 10
        };
        buf.push(c);
        i += 1;
    }
    assert(buf@ =~= seq![
        hex_digit((label >> 12u64) & 0xf),
        hex_digit((label >> 8u64) & 0xf),
        hex_digit((label >> 4u64) & 0xf),
        hex_digit(label & 0xf),
    ]) by {
        assert(label >> 0u64 == label) by (bit_vector);
    }
    buf
}

/// the bytes of an ascii text, one per character.
pub open spec fn ascii(s: Seq<char>) -> Seq<u8> {
    Seq::new(s.len(), |i: int| s[i] as u8)
}

/// appends the bytes of the ascii text `s` to `out`.
fn push_ascii(out: &mut Vec<u8>, s: &str)
    requires
        vstd::string::is_ascii(s),
    ensures
        final(out)@ == old(out)@ + ascii(s@),
{
    let n = s.unicode_len();
    let mut i: usize = 0;
    while i < n
        invariant
            vstd::string::is_ascii(s),
            n == s@.len(),
            i <= n,
            out@ == old(out)@ + ascii(s@).subrange(0, i as int),
        decreases n - i,
    {
        let b = s.get_ascii(i);
        out.push(b);
        i += 1;
        assert(out@ =~= old(out)@ + ascii(s@).subrange(0, i as int));
    }
    assert(ascii(s@).subrange(0, n as int) =~= ascii(s@));
}

/// appends the decimal digits of `n` to `out`.
fn push_decimal(out: &mut Vec<u8>, n: u64)
    ensures
        final(out)@ == old(out)@ + decimal(n as nat),
{
    let digits = print_u64(n);
    let mut i: usize = 0;
    while i < digits.len()
        invariant
            digits@ == decimal(n as nat),
            i <= digits@.len(),
            out@ == old(out)@ + digits@.subrange(0, i as int),
        decreases digits.len() - i,
    {
        out.push(digits[i]);
        i += 1;
        assert(out@ =~= old(out)@ + digits@.subrange(0, i as int));
    }
    assert(digits@.subrange(0, digits@.len() as int) =~= digits@);
}

/// The line a benchmark prints for `n` operations that took `total`
/// cycles: the label, the total, the count and the average per operation.
pub fn report(label: &[u8], total: u64, n: u64) -> (out: Vec<u8>)
    requires
        n > 0,
    ensures
        out@ == label@ + ascii(": total="@) + decimal(total as nat) + ascii(" cycles, n="@)
            + decimal(n as nat) + ascii(", avg="@) + decimal((total / n) as nat) + ascii(
            " cyc/op\n"@,
        ),
{
    proof {
        reveal_strlit(": total=");
        reveal_strlit(" cycles, n=");
        reveal_strlit(", avg=");
        reveal_strlit(" cyc/op\n");
    }
    let mut out: Vec<u8> = Vec::new();
    let mut i: usize = 0;
    while i < label.len()
        invariant
            i <= label@.len(),
            out@ == label@.subrange(0, i as int),
        decreases label.len() - i,
    {
        out.push(label[i]);
        i += 1;
        assert(out@ =~= label@.subrange(0, i as int));
    }
    assert(label@.subrange(0, label@.len() as int) =~= label@);
    push_ascii(&mut out, ": total=");
    push_decimal(&mut out, total);
    push_ascii(&mut out, " cycles, n=");
    push_decimal(&mut out, n);
    push_ascii(&mut out, ", avg=");
    push_decimal(&mut out, total / n);
    push_ascii(&mut out, " cyc/op\n");
    out
}

/// The progress line echo prints on its `i`-th tick: the character
/// `i / 10` places after `0` (taken mod 256, as a byte), then the digit
/// `i % 10`. Only ticks whose first character stays a byte are printable.
pub fn echo_tick_line(i: u64) -> (out: Vec<u8>)
    requires
        (i / 10) % 256 < 208,
    ensures
        out@ == ascii("echo  tick "@) + seq![(48 + (i / 10) % 256) as u8, digit((i % 10) as nat)] + ascii(
            "\n"@,
        ),
{
    proof {
        reveal_strlit("echo  tick ");
        reveal_strlit("\n");
    }
    let mut out: Vec<u8> = Vec::new();
    push_ascii(&mut out, "echo  tick ");
    let hi: u8 = ((i / 10) % 256) as u8;
    out.push(48u8 + hi);
    out.push(48u8 + (i % 10) as u8);
    push_ascii(&mut out, "\n");
    out
}

/// The line ping prints after its `i`-th send: the character `i` places
/// after `0` (taken mod 256, as a byte), with `k` when the send returned 0
/// and `!` otherwise. Only sends whose character stays a byte are
/// printable.
pub fn ping_sent_line(i: u64, status: u64) -> (out: Vec<u8>)
    requires
        i % 256 < 208,
    ensures
        out@ == ascii("ping  sent "@) + seq![(48 + i % 256) as u8] + ascii(" (s="@) + seq![
            if status == 0 {
                107u8
            } else {
                33u8
            },
        ] + ascii(")\n"@),
{
    proof {
        reveal_strlit("ping  sent ");
        reveal_strlit(" (s=");
        reveal_strlit(")\n");
    }
    let mut out: Vec<u8> = Vec::new();
    push_ascii(&mut out, "ping  sent ");
    let lo: u8 = (i % 256) as u8;
    out.push(48u8 + lo);
    push_ascii(&mut out, " (s=");
    out.push(if status == 0 { 107u8 } else { 33u8 });
    push_ascii(&mut out, ")\n");
    out
}

/// The end of pong's line for a message: the low nibble of the first word
/// as the character that many places after `0` (`:` to `?` past nine).
pub fn pong_w0_tail(w0: u64) -> (out: Vec<u8>)
    ensures
        out@ == ascii(" w0="@) + seq![(48 + (w0 % 16)) as u8] + ascii("\n"@),
{
    proof {
        reveal_strlit(" w0=");
        reveal_strlit("\n");
    }
    let mut out: Vec<u8> = Vec::new();
    push_ascii(&mut out, " w0=");
    let low: u8 = (w0 & 0xf) as u8;
    assert(low == w0 % 16) by (bit_vector)
        requires
            low == (w0 & 0xf) as u8,
    ;
    out.push(48u8 + low);
    push_ascii(&mut out, "\n");
    out
}

} // verus!
