//! The early console.
//!
//! Text goes out byte by byte through a memory-mapped serial port that the boot loader
//! has set up. The console decides which bytes those are and where the port is.
use vstd::prelude::*;
use vstd::string::*;

use crate::abi::KERNEL_VA_OFFSET;
use crate::platform::Platform;

verus! {

impl Platform {
    /// Physical address of the serial port.
    pub open spec fn uart(self) -> int {
        match self {
            Platform::Virt => 0x0900_0000,
            Platform::Apple => 0x2_3520_0000,
        }
    }

    /// Physical address of the serial port.
    pub fn mmio_base(self) -> (r: u64)
        ensures
            r == self.uart(),
    {
        match self {
            Platform::Virt => 0x0900_0000,
            Platform::Apple => 0x2_3520_0000,
        }
    }

    /// Offset of the register that tells whether the port can take a byte.
    pub open spec fn status_at(self) -> u64 {
        match self {
            Platform::Virt => 0x18,
            Platform::Apple => 0x10,
        }
    }

    /// Offset of the register that takes the bytes.
    pub open spec fn data_at(self) -> u64 {
        match self {
            Platform::Virt => 0,
            Platform::Apple => 0x20,
        }
    }

    /// Whether the port can take a byte, from its status.
    pub open spec fn takes(self, status: u32) -> bool {
        match self {
            Platform::Virt => status & 0x20 == 0,
            Platform::Apple => status & 0x2 != 0,
        }
    }

    /// Offset of the register that tells whether the port can take a byte.
    pub fn uart_status(self) -> (r: u64)
        ensures
            r == self.status_at(),
            r == (match self {
                Platform::Virt => 0x18u64,
                Platform::Apple => 0x10u64,
            }),
    {
        match self {
            Platform::Virt => 0x18,
            Platform::Apple => 0x10,
        }
    }

    /// Offset of the register that takes the bytes.
    pub fn uart_data(self) -> (r: u64)
        ensures
            r == self.data_at(),
            r == (match self {
                Platform::Virt => 0u64,
                Platform::Apple => 0x20u64,
            }),
    {
        match self {
            Platform::Virt => 0,
            Platform::Apple => 0x20,
        }
    }

    /// Whether the port can take a byte, from its status: on the one machine while the
    /// transmit queue is not full, on the other once the transmitter is empty.
    pub fn uart_ready(self, status: u32) -> (r: bool)
        ensures
            r == self.takes(status),
            r == (match self {
                Platform::Virt => status & 0x20 == 0,
                Platform::Apple => status & 0x2 != 0,
            }),
    {
        match self {
            Platform::Virt => status & 0x20 == 0,
            Platform::Apple => status & 0x2 != 0,
        }
    }
}

/// The bytes that go out for one byte of text: a newline is preceded by a carriage
/// return.
pub open spec fn sent(b: u8) -> Seq<u8> {
    if b == 0x0A {
        seq![0x0Du8, b]
    } else {
        seq![b]
    }
}

/// The bytes that go out for a text.
pub open spec fn all_sent(text: Seq<u8>) -> Seq<u8>
    decreases text.len(),
{
    if text.len() == 0 {
        Seq::empty()
    } else {
        all_sent(text.drop_last()) + sent(text.last())
    }
}

/// The digit for a number below 16.
pub open spec fn hex_digit(d: int) -> u8 {
    if d < 10 {
        (0x30 + d) as u8
    } else {
        (0x61 + d - 10) as u8
    }
}

/// A number without its last `n` hexadecimal digits.
pub open spec fn without_digits(v: u64, n: nat) -> u64
    decreases n,
{
    if n == 0 {
        v
    } else {
        (without_digits(v, (n - 1) as nat) / 16) as u64
    }
}

/// The bytes that go out for a number: `0x` and 16 hexadecimal digits, the most
/// significant first.
pub open spec fn hex_sent(v: u64) -> Seq<u8> {
    seq![0x30u8, 0x78u8] + Seq::new(
        16,
        |i: int| hex_digit((without_digits(v, (15 - i) as nat) % 16) as int),
    )
}

/// The decimal digits of a number, without leading zeros.
pub open spec fn dec_sent(v: u64) -> Seq<u8>
    decreases v,
{
    if v < 10 {
        seq![(0x30 + v) as u8]
    } else {
        dec_sent((v / 10) as u64).push((0x30 + v % 10) as u8)
    }
}

/// The hexadecimal digits of a number, without leading zeros.
pub open spec fn short_digits(v: u64) -> Seq<u8>
    decreases v,
{
    if v < 16 {
        seq![hex_digit(v as int)]
    } else {
        short_digits((v / 16) as u64).push(hex_digit((v % 16) as int))
    }
}

/// The bytes that go out for a number in short form: `0x` and its digits, without
/// leading zeros.
pub open spec fn short_hex_sent(v: u64) -> Seq<u8> {
    seq![0x30u8, 0x78u8] + short_digits(v)
}

/// The bytes that go out for a text.
pub open spec fn text(s: &str) -> Seq<u8> {
    all_sent(s.spec_bytes())
}

/// The console.
///
/// `pending` holds the bytes that are to go out, oldest first.
pub struct EarlyCon {
    pub plat: Platform,
    /// Where the serial port is.
    pub base: u64,
    pub pending: Vec<u8>,
}

impl View for EarlyCon {
    type V = Seq<u8>;

    open spec fn view(&self) -> Seq<u8> {
        self.pending@
    }
}

/// Lets the console use the upper half, where the port stays mapped when user space
/// takes over the lower half.
pub fn use_higher_half(con: &mut EarlyCon)
    ensures
        final(con).base == old(con).plat.uart() + KERNEL_VA_OFFSET,
        final(con).plat == old(con).plat,
        final(con)@ == old(con)@,
{
    con.base = con.plat.mmio_base() + KERNEL_VA_OFFSET;
}

impl EarlyCon {
    /// A console on the port at its physical address.
    pub fn new(plat: Platform) -> (r: Self)
        ensures
            r.plat == plat,
            r.base == plat.uart(),
            r@ == Seq::<u8>::empty(),
    {
        EarlyCon { plat, base: plat.mmio_base(), pending: Vec::new() }
    }

    /// Nothing about the console but the pending bytes has changed.
    pub open spec fn same_port(&self, other: &EarlyCon) -> bool {
        self.plat == other.plat && self.base == other.base
    }

    /// Writes a text.
    pub fn put_str(&mut self, s: &str)
        ensures
            final(self)@ == old(self)@ + all_sent(s.spec_bytes()),
            final(self).same_port(old(self)),
    {
        let b = s.as_bytes();
        let mut i: usize = 0;
        assert(self@ =~= old(self)@ + all_sent(b@.take(0)));
        while i < b.len()
            invariant
                i <= b.len(),
                self@ == old(self)@ + all_sent(b@.take(i as int)),
                self.same_port(old(self)),
            decreases b.len() - i,
        {
            self.put_byte(b[i]);
            i += 1;
            proof {
                let upto = b@.take(i as int);
                assert(upto.drop_last() =~= b@.take(i - 1));
                assert(self@ =~= old(self)@ + all_sent(upto));
            }
        }
        assert(b@.take(b@.len() as int) =~= b@);
    }

    /// Writes a byte; a newline is preceded by a carriage return.
    pub fn put_byte(&mut self, b: u8)
        ensures
            final(self)@ == old(self)@ + sent(b),
            final(self).same_port(old(self)),
    {
        if b == 0x0A {
            self.pending.push(0x0D);
        }
        self.pending.push(b);
        assert(self@ =~= old(self)@ + sent(b));
    }

    /// Writes a number: `0x` and 16 hexadecimal digits.
    pub fn put_hex(&mut self, v: u64)
        ensures
            final(self)@ == old(self)@ + hex_sent(v),
            final(self).same_port(old(self)),
    {
        let mut digits: [u8; 16] = [0u8;16];
        let mut w = v;
        let mut i: usize = 16;
        while i > 0
            invariant
                i <= 16,
                w == without_digits(v, (16 - i) as nat),
                forall|j: int|
                    i <= j < 16 ==> #[trigger] digits@[j] == hex_digit(
                        (without_digits(v, (15 - j) as nat) % 16) as int,
                    ),
            decreases i,
        {
            i = i - 1;
            let d = (w % 16) as u8;
            digits[i] = if d < 10 {
                0x30 + d
            } else {
                0x61 + (d - 10)
            };
            w = w / 16;
        }
        self.pending.push(0x30);
        self.pending.push(0x78);
        let mut k: usize = 0;
        assert(self@ =~= old(self)@ + seq![0x30u8, 0x78u8] + digits@.take(0));
        while k < 16
            invariant
                k <= 16,
                self.same_port(old(self)),
                self@ == old(self)@ + seq![0x30u8, 0x78u8] + digits@.take(k as int),
            decreases 16 - k,
        {
            self.pending.push(digits[k]);
            k = k + 1;
            assert(self@ =~= old(self)@ + seq![0x30u8, 0x78u8] + digits@.take(k as int));
        }
        assert(digits@.take(16) =~= hex_sent(v).skip(2));
        assert(self@ =~= old(self)@ + hex_sent(v));
    }

    /// Writes a number in decimal.
    pub fn put_dec(&mut self, v: u64)
        ensures
            final(self)@ == old(self)@ + dec_sent(v),
            final(self).same_port(old(self)),
        decreases v,
    {
        if v >= 10 {
            self.put_dec(v / 10);
        }
        self.pending.push(0x30 + (v % 10) as u8);
        assert(self@ =~= old(self)@ + dec_sent(v));
    }

    fn put_digits(&mut self, v: u64)
        ensures
            final(self)@ == old(self)@ + short_digits(v),
            final(self).same_port(old(self)),
        decreases v,
    {
        if v >= 16 {
            self.put_digits(v / 16);
        }
        let d = (v % 16) as u8;
        let c = if d < 10 {
            0x30 + d
        } else {
            0x61 + (d - 10)
        };
        self.pending.push(c);
        assert(self@ =~= old(self)@ + short_digits(v));
    }

    /// Writes a number in hexadecimal, without leading zeros.
    pub fn put_short_hex(&mut self, v: u64)
        ensures
            final(self)@ == old(self)@ + short_hex_sent(v),
            final(self).same_port(old(self)),
    {
        self.pending.push(0x30);
        self.pending.push(0x78);
        self.put_digits(v);
        assert(self@ =~= old(self)@ + short_hex_sent(v));
    }

    /// Takes the pending bytes, oldest first.
    pub fn take(&mut self) -> (r: Vec<u8>)
        ensures
            r@ == old(self)@,
            final(self)@ == Seq::<u8>::empty(),
            final(self).same_port(old(self)),
    {
        let mut out: Vec<u8> = Vec::new();
        let mut i: usize = 0;
        while i < self.pending.len()
            invariant
                i <= self.pending.len(),
                out@ == self.pending@.take(i as int),
            decreases self.pending.len() - i,
        {
            out.push(self.pending[i]);
            i += 1;
            assert(out@ =~= self.pending@.take(i as int));
        }
        assert(out@ =~= self.pending@);
        self.pending = Vec::new();
        out
    }
}

} // verus!
