//! A live recording's level meter.

use crate::session;
use crate::session::minutes;
use crate::text;
use crate::text::{decimal_string, padded_string};
use vstd::prelude::*;

verus! {

/// Which stage of a recording's life the worker is in. Distinct from the app's
/// phase: that governs which transitions are legal, this is what the worker
/// itself is doing right now.
#[derive(Debug, Clone, Copy, PartialEq, Eq, Structural)]
pub enum MeterPhase {
    Capturing,
    Transcribing,
    Diarizing,
    Done,
    Failed,
}

impl MeterPhase {
    /// The number a phase is stored as.
    pub open spec fn number(self) -> u8 {
        match self {
            MeterPhase::Capturing => 0,
            MeterPhase::Transcribing => 1,
            MeterPhase::Diarizing => 2,
            MeterPhase::Done => 3,
            MeterPhase::Failed => 4,
        }
    }

    /// The phase a number stands for. An unknown number reads as capturing.
    pub open spec fn numbered(v: u8) -> MeterPhase {
        if v == 1 {
            MeterPhase::Transcribing
        } else if v == 2 {
            MeterPhase::Diarizing
        } else if v == 3 {
            MeterPhase::Done
        } else if v == 4 {
            MeterPhase::Failed
        } else {
            MeterPhase::Capturing
        }
    }

    pub fn to_u8(self) -> (v: u8)
        ensures
            v == self.number(),
    {
        match self {
            MeterPhase::Capturing => 0,
            MeterPhase::Transcribing => 1,
            MeterPhase::Diarizing => 2,
            MeterPhase::Done => 3,
            MeterPhase::Failed => 4,
        }
    }

    pub fn from_u8(v: u8) -> (p: MeterPhase)
        ensures
            p == MeterPhase::numbered(v),
    {
        if v == 1 {
            MeterPhase::Transcribing
        } else if v == 2 {
            MeterPhase::Diarizing
        } else if v == 3 {
            MeterPhase::Done
        } else if v == 4 {
            MeterPhase::Failed
        } else {
            MeterPhase::Capturing
        }
    }
}

/// A phase survives being stored as a number.
pub proof fn phase_number_round_trips(p: MeterPhase)
    ensures
        MeterPhase::numbered(p.number()) == p,
{
}

/// `a / b` to the nearest whole number, a tie to the even one.
pub open spec fn nearest(a: nat, b: nat) -> nat {
    let q = a / b;
    let r = a % b;
    if 2 * r < b || (2 * r == b && q % 2 == 0) {
        q
    } else {
        q + 1
    }
}

/// Two to a power.
pub open spec fn two_to(e: nat) -> nat
    decreases e,
{
    if e == 0 {
        1
    } else {
        2 * two_to((e - 1) as nat)
    }
}

/// How many bits of `n` do not fit in a 24-bit significand.
pub open spec fn excess(n: nat) -> nat
    decreases n,
{
    if n < 0x100_0000 {
        0
    } else {
        1 + excess(n / 2)
    }
}

/// `n` rounded to a single-precision number.
pub open spec fn single(n: nat) -> nat {
    nearest(n, two_to(excess(n))) * two_to(excess(n))
}

/// The least `s` from here on with which `x * 2^s / 1000` fills a 24-bit
/// significand.
pub open spec fn scale_of(x: nat, s: nat) -> nat
    decreases 64 - s,
{
    if s >= 64 || x * two_to(s) >= 1000 * 0x80_0000 {
        s
    } else {
        scale_of(x, s + 1)
    }
}

/// Thousandths of full scale in hundredths, as a single-precision division by a
/// thousand rounds them.
pub open spec fn hundredths(milli: nat) -> nat {
    let x = single(milli);
    let s = scale_of(x, 0);
    if x == 0 {
        0
    } else {
        nearest(nearest(x * two_to(s), 1000) * 100, two_to(s))
    }
}

/// A level with two decimals.
pub open spec fn level_text(milli: nat) -> Seq<char> {
    text::decimal(hundredths(milli) / 100) + "."@ + text::zero_padded(
        text::decimal(hundredths(milli) % 100),
        2,
    )
}

fn round(a: u64, b: u64) -> (r: u64)
    requires
        0 < b < 0x100_0000_0000_0000,
        a < 0x100_0000_0000_0000,
    ensures
        r == nearest(a as nat, b as nat),
        r <= a + 1,
{
    let q: u64 = a / b;
    let rest: u64 = a % b;
    proof {
        assert(q <= a) by (nonlinear_arith)
            requires
                q == a / b,
                b > 0,
        ;
    }
    if 2 * rest < b || (2 * rest == b && q % 2 == 0) {
        q
    } else {
        q + 1
    }
}

/// `n` rounded to a single-precision number.
fn to_single(n: u32) -> (r: u64)
    ensures
        r == single(n as nat),
        r <= 0x1_0000_0000,
        n == 0 <==> r == 0,
{
    let mut e: u64 = 0;
    let mut p: u64 = 1;
    let mut m: u32 = n;
    while m >= 0x100_0000
        invariant
            excess(n as nat) == e + excess(m as nat),
            p == two_to(e as nat),
            1 <= p,
            e <= 8,
            m as int * p <= n,
            n < (m + 1) * p,
            e == 0 ==> m == n && p == 1,
            e > 0 ==> p >= 2 && n >= 0x100_0000,
        decreases m,
    {
        proof {
            let h = (m / 2) as int;
            assert(h * (2 * p) <= m as int * p) by (nonlinear_arith)
                requires
                    2 * h <= m,
                    p >= 0,
            ;
            assert((h + 1) * (2 * p) >= (m + 1) * p) by (nonlinear_arith)
                requires
                    2 * h + 1 >= m,
                    p >= 0,
            ;
            if e >= 8 {
                lemma_two_to_grows(8, e as nat);
                assert(two_to(8) == 256) by {
                    reveal_with_fuel(two_to, 9);
                }
                assert(m as int * p >= 0x100_0000 * 256) by (nonlinear_arith)
                    requires
                        m >= 0x100_0000,
                        p >= 256,
                ;
            }
            lemma_two_to_grows(e as nat, 8);
            assert(two_to(8) == 256) by {
                reveal_with_fuel(two_to, 9);
            }
        }
        m = m / 2;
        p = p * 2;
        e = e + 1;
    }
    proof {
        lemma_two_to_grows(e as nat, 8);
        assert(two_to(8) == 256) by {
            reveal_with_fuel(two_to, 9);
        }
        assert(n <= 0x100_0000 * p) by (nonlinear_arith)
            requires
                n < (m + 1) * p,
                m + 1 <= 0x100_0000,
                p >= 0,
        ;
    }
    let k: u64 = round(n as u64, p);
    proof {
        assert(excess(m as nat) == 0);
        lemma_nearest_bound(n as nat, p as nat, 0x100_0000);
        assert(k * p <= 0x100_0000 * p) by (nonlinear_arith)
            requires
                k <= 0x100_0000,
                p >= 0,
        ;
        if e == 0 {
            assert(k == n);
        } else {
            assert(n as int / p as int >= 1) by (nonlinear_arith)
                requires
                    n >= 0x100_0000,
                    1 <= p <= 256,
            ;
            assert(k >= 1);
            assert(k * p >= 1) by (nonlinear_arith)
                requires
                    k >= 1,
                    p >= 1,
            ;
        }
    }
    k * p
}

proof fn lemma_two_to_grows(a: nat, b: nat)
    requires
        a <= b,
    ensures
        1 <= two_to(a) <= two_to(b),
    decreases b,
{
    if a == b {
        if a > 0 {
            lemma_two_to_grows((a - 1) as nat, (a - 1) as nat);
        }
    } else {
        lemma_two_to_grows(a, (b - 1) as nat);
    }
}

proof fn lemma_nearest_bound(a: nat, b: nat, top: nat)
    requires
        b > 0,
        a <= top * b,
    ensures
        nearest(a, b) <= top,
{
    let q = a / b;
    let r = a % b;
    assert(a == b * q + r && 0 <= r < b) by (nonlinear_arith)
        requires
            q == a / b,
            r == a % b,
            b > 0,
    ;
    if q >= top {
        assert(b * q >= b * top) by (nonlinear_arith)
            requires
                q >= top,
                b > 0,
        ;
        assert(b * top == top * b) by (nonlinear_arith);
        assert(r == 0);
        assert(b * q <= b * top);
        assert(q <= top) by (nonlinear_arith)
            requires
                b * q <= b * top,
                b > 0,
        ;
    }
}

/// Thousandths of full scale in hundredths.
fn to_hundredths(milli: u32) -> (r: u64)
    ensures
        r == hundredths(milli as nat),
{
    let x: u64 = to_single(milli);
    if x == 0 {
        return 0;
    }
    let mut s: u64 = 0;
    let mut p: u64 = 1;
    let mut y: u64 = x;
    while y < 1000 * 0x80_0000
        invariant
            1 <= x <= 0x1_0000_0000,
            s <= 34,
            p == two_to(s as nat),
            1 <= p,
            y == x * p,
            y < 2 * 1000 * 0x80_0000,
            scale_of(x as nat, 0) == scale_of(x as nat, s as nat),
        decreases 64 - s,
    {
        proof {
            assert(p <= y) by (nonlinear_arith)
                requires
                    y == x * p,
                    x >= 1,
                    p >= 0,
            ;
            if s >= 34 {
                lemma_two_to_grows(33, s as nat);
                lemma_two_to_33();
            }
            assert(x as int * (2 * p) == 2 * (x as int * p)) by (nonlinear_arith);
        }
        y = y * 2;
        p = p * 2;
        s = s + 1;
    }
    proof {
        assert(p <= y) by (nonlinear_arith)
            requires
                y == x * p,
                x >= 1,
                p >= 0,
        ;
        assert(scale_of(x as nat, s as nat) == s);
    }
    let m: u64 = round(y, 1000);
    proof {
        lemma_nearest_bound(y as nat, 1000, 0x100_0000);
    }
    round(m * 100, p)
}

proof fn lemma_two_to_33()
    ensures
        two_to(33) == 0x2_0000_0000,
{
    reveal_with_fuel(two_to, 34);
}

/// A level with two decimals.
pub fn level(milli: u32) -> (r: String)
    ensures
        r@ == level_text(milli as nat),
{
    let h: u64 = to_hundredths(milli);
    let mut out: String = decimal_string(h / 100);
    out.append(".");
    out.append(padded_string(h % 100, 2).as_str());
    out
}

/// A live recording's level meter.
///
/// The peaks answer "is audio arriving *right now*" and are reset every second
/// for exactly that reason; they are not the cumulative peaks that guard
/// against a capture that reports success and contains silence. They are stored
/// as thousandths of full scale.
#[derive(Debug, Clone, Copy)]
pub struct Meter {
    pub elapsed_ms: u64,
    pub room_peak_milli: u32,
    pub call_peak_milli: u32,
    pub audio_arriving: bool,
    pub phase: u8,
}

impl Default for Meter {
    fn default() -> (m: Self)
        ensures
            m == (Meter {
                elapsed_ms: 0,
                room_peak_milli: 0,
                call_peak_milli: 0,
                audio_arriving: false,
                phase: 0,
            }),
    {
        Meter {
            elapsed_ms: 0,
            room_peak_milli: 0,
            call_peak_milli: 0,
            audio_arriving: false,
            phase: 0,
        }
    }
}

impl Meter {
    /// The line the meter shows.
    pub open spec fn line(self) -> Seq<char> {
        let time = session::clock((self.elapsed_ms / 1000) as nat);
        match MeterPhase::numbered(self.phase) {
            MeterPhase::Capturing => if self.audio_arriving {
                time + " · room "@ + level_text(self.room_peak_milli as nat) + " · call "@
                    + level_text(self.call_peak_milli as nat)
            } else {
                time + "  no audio arriving"@
            },
            MeterPhase::Transcribing => "transcribing…"@,
            MeterPhase::Diarizing => "separating voices…"@,
            MeterPhase::Done => "done"@,
            MeterPhase::Failed => "failed"@,
        }
    }

    pub fn phase(&self) -> (p: MeterPhase)
        ensures
            p == MeterPhase::numbered(self.phase),
    {
        MeterPhase::from_u8(self.phase)
    }

    pub fn set_phase(&mut self, p: MeterPhase)
        ensures
            *final(self) == (Meter { phase: p.number(), ..*old(self) }),
            MeterPhase::numbered(final(self).phase) == p,
    {
        self.phase = p.to_u8();
    }

    /// One line, matching the shape of the status file for the phases that have
    /// a level to show, and reading the per-interval peaks — so a muted mic
    /// falls back to zero within a second rather than holding whatever it last
    /// saw.
    pub fn status_line(&self) -> (r: String)
        ensures
            r@ == self.line(),
    {
        match self.phase() {
            MeterPhase::Capturing => {
                let mut out: String = minutes(self.elapsed_ms / 1000);
                if self.audio_arriving {
                    out.append(" · room ");
                    out.append(level(self.room_peak_milli).as_str());
                    out.append(" · call ");
                    out.append(level(self.call_peak_milli).as_str());
                } else {
                    out.append("  no audio arriving");
                }
                out
            },
            MeterPhase::Transcribing => "transcribing…".to_owned(),
            MeterPhase::Diarizing => "separating voices…".to_owned(),
            MeterPhase::Done => "done".to_owned(),
            MeterPhase::Failed => "failed".to_owned(),
        }
    }
}

/// Rounding goes to the nearest whole number, and from halfway to the even one.
pub proof fn rounding_goes_to_the_nearest(a: nat, b: nat)
    requires
        b > 0,
    ensures
        2 * (a - nearest(a, b) * b) <= b,
        2 * (nearest(a, b) * b - a) <= b,
        2 * (a - nearest(a, b) * b) == b || 2 * (nearest(a, b) * b - a) == b ==> nearest(a, b) % 2
            == 0,
{
    let q = a / b;
    let r = a % b;
    assert(a == q * b + r && 0 <= r < b) by (nonlinear_arith)
        requires
            q == a / b,
            r == a % b,
            b > 0,
    ;
    assert((q + 1) * b == q * b + b) by (nonlinear_arith);
    if 2 * r == b && q % 2 != 0 {
        assert((q + 1) % 2 == 0);
    }
}

proof fn lemma_scale(x: nat, s: nat)
    requires
        s <= 64,
    ensures
        s <= scale_of(x, s) <= 64,
        scale_of(x, s) == 64 || x * two_to(scale_of(x, s)) >= 1000 * 0x80_0000,
    decreases 64 - s,
{
    if s < 64 && x * two_to(s) < 1000 * 0x80_0000 {
        lemma_scale(x, s + 1);
    }
}

proof fn lemma_two_to(e: nat)
    ensures
        two_to(e) > 0,
    decreases e,
{
    if e > 0 {
        lemma_two_to((e - 1) as nat);
    }
}

/// A level is shown to the nearest hundredth: what is shown is never further from
/// the thousandths it stands for than half of one, up to sixteen times full scale.
pub proof fn a_level_is_shown_to_the_nearest_hundredth(milli: nat)
    requires
        milli <= 16000,
    ensures
        -5 <= 10 * hundredths(milli) - milli <= 5,
{
    let x = single(milli);
    assert(excess(milli) == 0);
    assert(two_to(0) == 1);
    assert(milli / 1 == milli && milli % 1 == 0);
    assert(nearest(milli, 1) == milli);
    assert(two_to(excess(milli)) == 1);
    assert(nearest(milli, 1) * 1 == milli);
    assert(x == milli);
    if x > 0 {
        let s = scale_of(x, 0);
        let t = two_to(s);
        lemma_scale(x, 0);
        lemma_two_to(s);
        if s == 64 {
            reveal_with_fuel(two_to, 65);
            assert(t == 18446744073709551616);
        }
        assert(t > 500) by (nonlinear_arith)
            requires
                x <= 16000,
                x * t >= 1000 * 0x80_0000 || t == 18446744073709551616,
        ;
        let m = nearest(x * t, 1000);
        rounding_goes_to_the_nearest(x * t, 1000);
        let h = nearest(m * 100, t);
        rounding_goes_to_the_nearest(m * 100, t);
        let d = 10 * h - x;
        assert(d * t == 10 * (h * t) - x * t) by (nonlinear_arith)
            requires
                d == 10 * h - x,
        ;
        assert(-5 <= d <= 5) by (nonlinear_arith)
            requires
                t > 500,
                d * t <= 5 * t + 500,
                -(d * t) <= 5 * t + 500,
        ;
    }
}

/// The line of a capture that hears something tells the time, then the room's level,
/// then the call's.
pub proof fn the_line_tells_room_then_call(m: Meter)
    requires
        m.phase == 0,
    ensures
        m.audio_arriving ==> m.line() == session::clock((m.elapsed_ms / 1000) as nat)
            + " · room "@ + level_text(m.room_peak_milli as nat) + " · call "@ + level_text(
            m.call_peak_milli as nat,
        ),
        !m.audio_arriving ==> m.line() == session::clock((m.elapsed_ms / 1000) as nat)
            + "  no audio arriving"@,
{
}

} // verus!
