//! Laws of the console, the processor features and the interrupt controller.
use vstd::prelude::*;

use crate::arch::earlycon;
use crate::arch::hardening::{self, HardeningPlan};
use crate::arch::irq::{GicAction, GicInit, IrqError};
use crate::arch::vectors;
use crate::platform::Platform;

verus! {

/// What goes out for two texts in a row is what goes out for each, and one byte goes out
/// as it is, but for a newline, which goes out as carriage return and newline.
pub proof fn lemma_text(a: Seq<u8>, b: Seq<u8>, c: u8)
    ensures
        earlycon::all_sent(a + b) == earlycon::all_sent(a) + earlycon::all_sent(b),
        earlycon::all_sent(seq![c]) == (if c == 10 {
            seq![13u8, 10u8]
        } else {
            seq![c]
        }),
        earlycon::all_sent(Seq::empty()) == Seq::<u8>::empty(),
    decreases b.len(),
{
    reveal_with_fuel(earlycon::all_sent, 2);
    assert(seq![c].drop_last() =~= Seq::empty());
    assert(earlycon::all_sent(seq![c]) =~= (if c == 10 {
        seq![13u8, 10u8]
    } else {
        seq![c]
    }));
    if b.len() == 0 {
        assert(a + b =~= a);
        assert(earlycon::all_sent(a + b) =~= earlycon::all_sent(a) + earlycon::all_sent(b));
    } else {
        lemma_text(a, b.drop_last(), c);
        assert((a + b).drop_last() =~= a + b.drop_last());
        assert(earlycon::all_sent(a + b) =~= earlycon::all_sent(a) + earlycon::all_sent(b));
    }
}

/// The value of a digit: `0` to `9` and `a` to `f`.
pub open spec fn digit_value(c: u8) -> int {
    if 0x30 <= c <= 0x39 {
        c - 0x30
    } else if 0x61 <= c <= 0x66 {
        c - 0x61 + 10
    } else {
        -1
    }
}

/// The number that digits spell, the most significant first.
pub open spec fn spelled(base: int, s: Seq<u8>) -> int
    decreases s.len(),
{
    if s.len() == 0 {
        0
    } else {
        base * spelled(base, s.drop_last()) + digit_value(s.last())
    }
}

/// Whether all characters are digits of a base.
pub open spec fn digits(base: int, s: Seq<u8>) -> bool {
    forall|i: int| 0 <= i < s.len() ==> 0 <= digit_value(#[trigger] s[i]) < base
}

/// A number in decimal reads back as the number, and has no zero in front that it could
/// do without.
pub proof fn lemma_decimal(v: u64)
    ensures
        spelled(10, earlycon::dec_sent(v)) == v,
        digits(10, earlycon::dec_sent(v)),
        earlycon::dec_sent(v).len() >= 1,
        earlycon::dec_sent(v).len() > 1 ==> earlycon::dec_sent(v)[0] != 0x30,
        v > 0 ==> earlycon::dec_sent(v)[0] != 0x30,
    decreases v,
{
    reveal_with_fuel(spelled, 2);
    let s = earlycon::dec_sent(v);
    if v >= 10 {
        lemma_decimal((v / 10) as u64);
        assert(s.drop_last() =~= earlycon::dec_sent((v / 10) as u64));
    } else {
        assert(s.drop_last() =~= Seq::empty());
    }
}

/// A number in short hexadecimal is `0x` and digits that read back as the number, with
/// no zero in front that it could do without.
pub proof fn lemma_short_hex(v: u64)
    ensures
        ({
            let s = earlycon::short_hex_sent(v);
            let d = s.skip(2);
            &&& s.len() >= 3 && s[0] == 0x30 && s[1] == 0x78
            &&& spelled(16, d) == v
            &&& digits(16, d)
            &&& d.len() > 1 ==> d[0] != 0x30
        }),
{
    lemma_short_digits(v);
    assert(earlycon::short_hex_sent(v).skip(2) =~= earlycon::short_digits(v));
}

proof fn lemma_short_digits(v: u64)
    ensures
        ({
            let d = earlycon::short_digits(v);
            &&& d.len() >= 1
            &&& spelled(16, d) == v
            &&& digits(16, d)
            &&& d.len() > 1 ==> d[0] != 0x30
            &&& v > 0 ==> d[0] != 0x30
        }),
    decreases v,
{
    reveal_with_fuel(spelled, 2);
    let d = earlycon::short_digits(v);
    if v >= 16 {
        lemma_short_digits((v / 16) as u64);
        assert(d.drop_last() =~= earlycon::short_digits((v / 16) as u64));
    } else {
        assert(d.drop_last() =~= Seq::empty());
    }
}

/// A number in full hexadecimal is `0x` and 16 digits that read back as the number.
pub proof fn lemma_hex(v: u64)
    ensures
        ({
            let s = earlycon::hex_sent(v);
            &&& s.len() == 18 && s[0] == 0x30 && s[1] == 0x78
            &&& spelled(16, s.skip(2)) == v
            &&& digits(16, s.skip(2))
        }),
{
    let d = earlycon::hex_sent(v).skip(2);
    assert(d.len() == 16);
    lemma_hex_digits(v, d);
    assert(d.take(16) =~= d);
    lemma_hex_up(v, d, 16);
}

/// Each digit is the last of what is left without those behind it.
proof fn lemma_hex_digits(v: u64, d: Seq<u8>)
    requires
        d == earlycon::hex_sent(v).skip(2),
    ensures
        digits(16, d),
        forall|k: int|
            0 <= k < 16 ==> digit_value(#[trigger] d[k]) == earlycon::without_digits(
                v,
                (15 - k) as nat,
            ) % 16,
{
}

/// The first `n` digits spell what is left of the number without the others.
proof fn lemma_hex_up(v: u64, d: Seq<u8>, n: nat)
    requires
        d == earlycon::hex_sent(v).skip(2),
        n <= 16,
    ensures
        spelled(16, d.take(n as int)) == earlycon::without_digits(v, (16 - n) as nat),
    decreases n,
{
    reveal_with_fuel(earlycon::without_digits, 17);
    if n == 0 {
        assert(d.take(0).len() == 0);
        assert(earlycon::without_digits(v, 16) == 0) by {
            lemma_all_digits(v);
        }
    } else {
        lemma_hex_up(v, d, (n - 1) as nat);
        lemma_hex_digits(v, d);
        let t = d.take(n as int);
        assert(t.drop_last() =~= d.take(n - 1));
        assert(t.last() == d[n - 1]);
        let w = earlycon::without_digits(v, (16 - n) as nat);
        assert(earlycon::without_digits(v, (17 - n) as nat) == w / 16);
        assert(w == 16 * (w / 16) + w % 16);
    }
}

/// Nothing is left without 16 digits.
proof fn lemma_all_digits(v: u64)
    ensures
        earlycon::without_digits(v, 16) == 0,
{
    reveal_with_fuel(earlycon::without_digits, 17);
    let a = earlycon::without_digits(v, 4);
    assert(a < 0x1_0000_0000_0000);
    let b = earlycon::without_digits(v, 8);
    assert(b < 0x1_0000_0000);
    let c = earlycon::without_digits(v, 12);
    assert(c < 0x1_0000);
}

/// What is turned on for a processor, by the fields of its feature registers: addresses
/// are authenticated where either algorithm is there, with the first eight key words;
/// data where either is there too, with the last two. Then the four bits of the system
/// control register are set, and no other bit of it changes.
pub proof fn lemma_hardening(
    plan: HardeningPlan,
    keys: Seq<u64>,
    isar1: u64,
    pfr1: u64,
    mmfr1: u64,
    sctlr: u64,
)
    requires
        plan.is_plan(keys, isar1, pfr1, mmfr1, sctlr),
        keys.len() == 10,
    ensures
        ({
            let pac = (isar1 / 0x10) % 0x10 != 0 || (isar1 / 0x100) % 0x10 != 0;
            let generic = (isar1 / 0x100_0000) % 0x10 != 0 || (isar1 / 0x1000_0000) % 0x10 != 0;
            let pan = (mmfr1 / 0x10_0000) % 0x10;
            &&& plan.offers.pac == pac
            &&& plan.offers.bti == (pfr1 % 0x10 != 0)
            &&& plan.offers.pan == (pan != 0)
            &&& plan.offers.pan2 == (pan > 1)
            &&& plan.set_pan == (pan != 0)
            &&& plan.addr_keys is Some <==> pac
            &&& pac ==> forall|i: int|
                0 <= i < 8 ==> #[trigger] plan.addr_keys->0@[i] == keys[i]
            &&& plan.generic_key is Some <==> pac && generic
            &&& pac && generic ==> plan.generic_key->0@[0] == keys[8] && plan.generic_key->0@[1]
                == keys[9]
            &&& plan.sctlr is Some <==> pac
            &&& pac ==> forall|b: u64|
                b < 64 ==> #[trigger] (plan.sctlr->0 >> b) % 2 == (if b == 31 || b == 30 || b == 27
                    || b == 13 {
                    1
                } else {
                    (sctlr >> b) % 2
                })
        }),
{
    assert((isar1 >> 4u64) & 0xF == (isar1 / 0x10) % 0x10 && (isar1 >> 8u64) & 0xF == (isar1
        / 0x100) % 0x10 && (isar1 >> 24u64) & 0xF == (isar1 / 0x100_0000) % 0x10 && (isar1
        >> 28u64) & 0xF == (isar1 / 0x1000_0000) % 0x10 && (pfr1 >> 0u64) & 0xF == pfr1 % 0x10 && (
    mmfr1 >> 20u64) & 0xF == (mmfr1 / 0x10_0000) % 0x10) by (bit_vector);
    let set = sctlr | hardening::SCTLR_PAC;
    assert(set == sctlr | 0xC800_2000u64);
    assert(forall|b: u64|
        b < 64 ==> #[trigger] (set >> b) % 2 == (if b == 31 || b == 30 || b == 27 || b == 13 {
            1u64
        } else {
            (sctlr >> b) % 2
        })) by (bit_vector)
        requires
            set == sctlr | 0xC800_2000u64,
    ;
    if plan.addr_keys is Some {
        assert(forall|i: int| 0 <= i < 8 ==> keys.take(8)[i] == #[trigger] keys[i]);
    }
    if plan.generic_key is Some {
        assert(keys.skip(8)[0] == keys[8] && keys.skip(8)[1] == keys[9]);
    }
}

/// How the interrupt controller is set up, by its registers in the upper half: group 1
/// with affinity routing; then the distributor is read until bit 31 is clear; the sleep
/// bit of the redistributor is cleared and no other; then it is read until bit 2 is
/// clear; all private interrupts go to group 1, and interrupt 30 is enabled.
pub proof fn lemma_gic(value: u32, n: u32)
    requires
        n <= 1_000_000,
    ensures
        GicInit::Start.access() == GicAction::Write(0xFFFF_0000_0800_0000, 0x12),
        GicInit::Start.after(value) == GicInit::WaitRwp(0),
        GicInit::WaitRwp(n).access() == GicAction::Read(0xFFFF_0000_0800_0000),
        GicInit::WaitRwp(n).after(value) == (if value < 0x8000_0000 {
            GicInit::ReadWaker
        } else if n == 1_000_000 {
            GicInit::Failed(IrqError::GicRwpTimeout)
        } else {
            GicInit::WaitRwp((n + 1) as u32)
        }),
        GicInit::ReadWaker.access() == GicAction::Read(0xFFFF_0000_080A_0014),
        GicInit::ReadWaker.after(value) == GicInit::Wake(
            (value - 2 * ((value / 2) % 2)) as u32,
        ),
        GicInit::Wake(n).access() == GicAction::Write(0xFFFF_0000_080A_0014, n),
        GicInit::Wake(n).after(value) == GicInit::WaitAwake(0),
        GicInit::WaitAwake(n).access() == GicAction::Read(0xFFFF_0000_080A_0014),
        GicInit::WaitAwake(n).after(value) == (if (value / 4) % 2 == 0 {
            GicInit::Group
        } else if n == 1_000_000 {
            GicInit::Failed(IrqError::GicWakeTimeout)
        } else {
            GicInit::WaitAwake((n + 1) as u32)
        }),
        GicInit::Group.access() == GicAction::Write(0xFFFF_0000_080B_0080, 0xFFFF_FFFF),
        GicInit::Group.after(value) == GicInit::EnableTimer,
        GicInit::EnableTimer.access() == GicAction::Write(0xFFFF_0000_080B_0100, 0x4000_0000),
        GicInit::EnableTimer.after(value) == GicInit::Done,
        GicInit::Done.access() == GicAction::Ready,
        GicInit::Failed(IrqError::GicRwpTimeout).access() == GicAction::Stop(
            IrqError::GicRwpTimeout,
        ),
        GicInit::Failed(IrqError::GicWakeTimeout).access() == GicAction::Stop(
            IrqError::GicWakeTimeout,
        ),
{
    assert((value & 0x8000_0000 == 0 <==> value < 0x8000_0000) && (value & 4 == 0 <==> (value / 4)
        % 2 == 0) && value & 0xFFFF_FFFD == value - 2 * ((value / 2) % 2)) by (bit_vector);
}

/// The serial port: on the QEMU machine it takes a byte at its start while bit 5 of the
/// word at 24 is clear; on the other it takes one at 32 while bit 1 of the word at 16 is
/// set.
pub proof fn lemma_serial_port(status: u32)
    ensures
        Platform::Virt.uart() == 0x900_0000,
        Platform::Virt.status_at() == 24,
        Platform::Virt.data_at() == 0,
        Platform::Virt.takes(status) <==> (status / 32) % 2 == 0,
        Platform::Apple.uart() == 0x2_3520_0000,
        Platform::Apple.status_at() == 16,
        Platform::Apple.data_at() == 32,
        Platform::Apple.takes(status) <==> (status / 2) % 2 == 1,
{
    assert((status & 0x20 == 0 <==> (status / 32) % 2 == 0) && (status & 2 != 0 <==> (status / 2)
        % 2 == 1)) by (bit_vector);
}

/// The class of an exception is in bits 26 to 31 of its syndrome.
pub proof fn lemma_class(esr: u64)
    ensures
        vectors::class_of(esr) == (esr / 0x400_0000) % 0x40,
{
    assert((esr >> 26u64) & 0x3F == (esr / 0x400_0000) % 0x40) by (bit_vector);
}

/// A vector is named by what came, which is its number modulo 4, and by where it came
/// from, which is its number divided by 4.
pub proof fn lemma_vector_names(kind: u64)
    requires
        kind < 16,
    ensures
        ({
            let what = if kind % 4 == 0 {
                "sync-"@
            } else if kind % 4 == 1 {
                "irq-"@
            } else if kind % 4 == 2 {
                "fiq-"@
            } else {
                "serror-"@
            };
            let from = if kind / 4 == 0 {
                "sp0"@
            } else if kind / 4 == 1 {
                "spx"@
            } else if kind / 4 == 2 {
                "a64"@
            } else {
                "a32"@
            };
            vectors::kind_text(kind)@ == what + from
        }),
{
    reveal_strlit("sync-");
    reveal_strlit("irq-");
    reveal_strlit("fiq-");
    reveal_strlit("serror-");
    reveal_strlit("sp0");
    reveal_strlit("spx");
    reveal_strlit("a64");
    reveal_strlit("a32");
    reveal_strlit("sync-sp0");
    reveal_strlit("irq-sp0");
    reveal_strlit("fiq-sp0");
    reveal_strlit("serror-sp0");
    reveal_strlit("sync-spx");
    reveal_strlit("irq-spx");
    reveal_strlit("fiq-spx");
    reveal_strlit("serror-spx");
    reveal_strlit("sync-a64");
    reveal_strlit("irq-a64");
    reveal_strlit("fiq-a64");
    reveal_strlit("serror-a64");
    reveal_strlit("sync-a32");
    reveal_strlit("irq-a32");
    reveal_strlit("fiq-a32");
    reveal_strlit("serror-a32");
}

/// Multiplies by a number and then by its inverse modulo 2^64.
proof fn lemma_inverse(x: u64, c: u64, d: u64, k: int)
    requires
        c * d == 1 + k * 0x1_0000_0000_0000_0000,
    ensures
        x.wrapping_mul(c).wrapping_mul(d) == x,
{
    let m: int = 0x1_0000_0000_0000_0000;
    let p = x as int * c as int;
    vstd::arithmetic::div_mod::lemma_mul_mod_noop_left(p, d as int, m);
    assert(p * (d as int) == x as int + (x as int * k) * m) by (nonlinear_arith)
        requires
            p == x as int * c as int,
            c as int * d as int == 1 + k * m,
    ;
    vstd::arithmetic::div_mod::lemma_mod_multiples_vanish(x as int * k, x as int, m);
    assert((x as int * k) * m == m * (x as int * k)) by (nonlinear_arith);
    vstd::arithmetic::div_mod::lemma_small_mod(x as nat, m as nat);
}

/// The state that a number of the generator came from.
pub open spec fn unmixed(r: u64) -> u64 {
    let z = (r ^ (r >> 31) ^ (r >> 62)).wrapping_mul(0x3196_42B2_D24D_8EC3);
    let y = (z ^ (z >> 27) ^ (z >> 54)).wrapping_mul(0x96DE_1B17_3F11_9089);
    y ^ (y >> 30) ^ (y >> 60)
}

/// A number of the generator tells the state it came from, so that different states give
/// different numbers. The states go on by an odd step, which comes back to the start only
/// after all 2^64 of them.
pub proof fn lemma_generator(state: u64, n: nat)
    ensures
        unmixed(hardening::mixed(state)) == state,
        hardening::state_after(state, n) == (state + n * 0x9E37_79B9_7F4A_7C15) % 0x1_0000_0000_0000_0000,
    decreases n,
{
    let a = state ^ (state >> 30);
    let y = a.wrapping_mul(0xBF58_476D_1CE4_E5B9);
    let b = y ^ (y >> 27);
    let z = b.wrapping_mul(0x94D0_49BB_1331_11EB);
    let r = z ^ (z >> 31);
    assert(r == hardening::mixed(state));
    assert(r ^ (r >> 31) ^ (r >> 62) == z && b ^ (b >> 27) ^ (b >> 54) == y && a ^ (a >> 30) ^ (a
        >> 60) == state) by (bit_vector)
        requires
            r == z ^ (z >> 31),
            b == y ^ (y >> 27),
            a == state ^ (state >> 30),
    ;
    lemma_inverse(b, 0x94D0_49BB_1331_11EB, 0x3196_42B2_D24D_8EC3, 2077064247507883091);
    lemma_inverse(a, 0xBF58_476D_1CE4_E5B9, 0x96DE_1B17_3F11_9089, 8125545580553827436);
    if n > 0 {
        lemma_generator(state, (n - 1) as nat);
        let step: int = 0x9E37_79B9_7F4A_7C15;
        let m: int = 0x1_0000_0000_0000_0000;
        let before = state as int + (n - 1) * step;
        assert(state + n * step == before + step) by (nonlinear_arith)
            requires
                before == state as int + (n - 1) * step,
        ;
        vstd::arithmetic::div_mod::lemma_add_mod_noop(before, step, m);
        let was = hardening::state_after(state, (n - 1) as nat) as int;
        assert(was == before % m);
        assert(step % m == step);
    } else {
        assert(state + 0 * 0x9E37_79B9_7F4A_7C15 == state);
    }
}

/// The key words that come from the counter alone are all different.
pub proof fn lemma_words_differ(state: u64, i: nat, j: nat)
    requires
        i < j < i + 10,
    ensures
        hardening::mixed(hardening::state_after(state, i)) != hardening::mixed(
            hardening::state_after(state, j),
        ),
{
    let m: int = 0x1_0000_0000_0000_0000;
    let step: int = 0x9E37_79B9_7F4A_7C15;
    let a = hardening::state_after(state, i);
    let b = hardening::state_after(state, j);
    lemma_generator(state, i);
    lemma_generator(state, j);
    lemma_generator(a, 0);
    lemma_generator(b, 0);
    if a == b {
        let x = state + j * step;
        let y = state + i * step;
        let d = j - i;
        vstd::arithmetic::div_mod::lemma_mod_equivalence(x, y, m);
        assert(x - y == d * step) by (nonlinear_arith)
            requires
                x == state + j * step,
                y == state + i * step,
                d == j - i,
        ;
        assert((d * step) % m != 0) by {
            assert((1 * step) % m != 0 && (2 * step) % m != 0 && (3 * step) % m != 0 && (4 * step) % m
                != 0 && (5 * step) % m != 0 && (6 * step) % m != 0 && (7 * step) % m != 0 && (8
                * step) % m != 0 && (9 * step) % m != 0);
            assert(d == 1 || d == 2 || d == 3 || d == 4 || d == 5 || d == 6 || d == 7 || d == 8 || d
                == 9);
        }
    }
}

} // verus!
