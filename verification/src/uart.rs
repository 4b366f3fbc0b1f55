//! 16550-compatible uart at 0x10000000 on qemu-virt: register map, the
//! polling decisions of putc/getc, the init sequence, and the conversion of
//! each line feed sent to the terminal into a carriage return and line feed.

use vstd::prelude::*;

verus! {

pub const UART_BASE: usize = 0x1000_0000;

pub const RBR: usize = 0;  // receiver buffer (read)

pub const THR: usize = 0;  // transmit holding (write)

pub const IER: usize = 1;

pub const FCR: usize = 2;

pub const LCR: usize = 3;

pub const LSR: usize = 5;

pub const LSR_THRE: u8 = 1 << 5;  // transmit holding empty

pub const LSR_DR: u8 = 1 << 0;  // data ready

/// one byte to store into a device register.
#[derive(Clone, Copy, PartialEq, Eq, Structural, Debug)]
pub struct RegWrite {
    pub addr: usize,
    pub val: u8,
}

pub struct Uart;

impl Uart {
    /// address of the register at offset `off`.
    pub fn reg(&self, off: usize) -> (a: usize)
        requires
            off <= usize::MAX - UART_BASE,
        ensures
            a == UART_BASE + off,
    {
        UART_BASE + off
    }

    /// Sending `c` with line status `lsr`: store it into THR once the
    /// transmit holding register is empty; `None` means poll LSR again.
    pub fn putc(&self, lsr: u8, c: u8) -> (w: Option<RegWrite>)
        ensures
            lsr & LSR_THRE == 0 ==> w is None,
            lsr & LSR_THRE != 0 ==> w == Some(RegWrite { addr: (UART_BASE + THR) as usize, val: c }),
    {
        if lsr & LSR_THRE == 0 {
            None
        } else {
            Some(RegWrite { addr: self.reg(THR), val: c })
        }
    }

    /// Receiving with line status `lsr`: the register to read the byte
    /// from when data is ready, nothing otherwise.
    pub fn getc(&self, lsr: u8) -> (r: Option<usize>)
        ensures
            lsr & LSR_DR == 0 ==> r is None,
            lsr & LSR_DR != 0 ==> r == Some((UART_BASE + RBR) as usize),
    {
        if lsr & LSR_DR == 0 {
            None
        } else {
            Some(self.reg(RBR))
        }
    }
}

/// The init sequence, in order: 8N1 line control, fifos enabled and
/// cleared, all uart interrupts masked (we poll).
pub fn init() -> (ws: Vec<RegWrite>)
    ensures
        ws@ == seq![
            RegWrite { addr: (UART_BASE + LCR) as usize, val: 0b0000_0011u8 },
            RegWrite { addr: (UART_BASE + FCR) as usize, val: 0b0000_0111u8 },
            RegWrite { addr: (UART_BASE + IER) as usize, val: 0u8 },
        ],
{
    let u = Uart;
    let mut ws: Vec<RegWrite> = Vec::new();
    ws.push(RegWrite { addr: u.reg(LCR), val: 0b0000_0011 });
    ws.push(RegWrite { addr: u.reg(FCR), val: 0b0000_0111 });
    ws.push(RegWrite { addr: u.reg(IER), val: 0 });
    ws
}

/// `s` as it goes out on the wire: each \n preceded by \r.
pub open spec fn crlf(s: Seq<u8>) -> Seq<u8>
    decreases s.len(),
{
    if s.len() == 0 {
        Seq::empty()
    } else if s.last() == 10u8 {
        crlf(s.drop_last()) + seq![13u8, 10u8]
    } else {
        crlf(s.drop_last()).push(s.last())
    }
}

/// translate \n into \r\n so terminal emulators don't get staircases.
pub fn serial_bytes(s: &[u8]) -> (out: Vec<u8>)
    ensures
        out@ == crlf(s@),
{
    let mut out: Vec<u8> = Vec::new();
    let mut i: usize = 0;
    while i < s.len()
        invariant
            i <= s@.len(),
            out@ == crlf(s@.subrange(0, i as int)),
        decreases s@.len() - i,
    {
        let b = s[i];
        proof {
            assert(s@.subrange(0, i + 1).drop_last() =~= s@.subrange(0, i as int));
        }
        if b == 10u8 {
            out.push(13u8);
        }
        out.push(b);
        proof {
            if b == 10u8 {
                assert(out@ =~= crlf(s@.subrange(0, i as int)) + seq![13u8, 10u8]);
            }
        }
        i += 1;
    }
    proof {
        assert(s@.subrange(0, s@.len() as int) =~= s@);
    }
    out
}

/// how many times byte `b` occurs in `s`.
pub open spec fn count_byte(s: Seq<u8>, b: u8) -> nat
    decreases s.len(),
{
    if s.len() == 0 {
        0
    } else {
        count_byte(s.drop_last(), b) + if s.last() == b {
            1nat
        } else {
            0nat
        }
    }
}

/// `o` with the carriage return in front of each line feed taken out
/// again (a CR LF pair read from the end becomes a lone LF).
pub open spec fn strip_cr_before_lf(o: Seq<u8>) -> Seq<u8>
    decreases o.len(),
{
    if o.len() >= 2 && o.last() == 10u8 && o[o.len() - 2] == 13u8 {
        strip_cr_before_lf(o.subrange(0, o.len() - 2)).push(10u8)
    } else if o.len() > 0 {
        strip_cr_before_lf(o.drop_last()).push(o.last())
    } else {
        o
    }
}

/// What goes to the terminal is the input with one carriage return added
/// in front of each line feed and nothing else: it is longer by exactly
/// the number of line feeds, every line feed in it comes right after a
/// carriage return, and taking those carriage returns out gives back the
/// input byte for byte.
pub proof fn lemma_serial_bytes_adds_only_cr(s: Seq<u8>, out: Seq<u8>)
    requires
        out == crlf(s),
    ensures
        out.len() == s.len() + count_byte(s, 10u8),
        forall|k: int| 0 <= k < out.len() && #[trigger] out[k] == 10u8 ==> k >= 1 && out[k - 1] == 13u8,
        strip_cr_before_lf(out) == s,
    decreases s.len(),
{
    if s.len() > 0 {
        let t = s.drop_last();
        lemma_serial_bytes_adds_only_cr(t, crlf(t));
        let x = crlf(t);
        if s.last() == 10u8 {
            let o = x + seq![13u8, 10u8];
            assert(o.subrange(0, o.len() - 2) =~= x);
            assert(t.push(10u8) =~= s);
            assert forall|k: int| 0 <= k < out.len() && #[trigger] out[k] == 10u8 implies k >= 1 && out[k - 1] == 13u8 by {
                if k < x.len() {
                    assert(out[k] == x[k]);
                    assert(out[k - 1] == x[k - 1]);
                }
            }
        } else {
            let o = x.push(s.last());
            assert(o.drop_last() =~= x);
            assert(t.push(s.last()) =~= s);
            assert forall|k: int| 0 <= k < out.len() && #[trigger] out[k] == 10u8 implies k >= 1 && out[k - 1] == 13u8 by {
                if k < x.len() {
                    assert(out[k] == x[k]);
                    assert(out[k - 1] == x[k - 1]);
                }
            }
        }
    }
}

} // verus!
