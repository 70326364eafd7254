//! An endless walk around the colour wheel, one channel step at a time.
//!
//! Colours here are RGBA: red is the top byte and alpha the bottom one.
use vstd::prelude::*;
use crate::helpers::{byte_of, byte_weight, lemma_byte_extract, lemma_bytes_of_from_bytes, lemma_from_bytes_of};

verus! {

/// The six phases of the walk, each moving one channel towards a bound.
enum Colourd {
    Redplusgreen,
    Greenminusred,
    Greenplusblue,
    Blueminusgreen,
    Blueplusred,
    Redminusblue,
}

/// The walk's colour and its phase, numbered 0 to 5: green rises, red
/// falls, blue rises, green falls, red rises, blue falls.
pub struct RainbowState {
    pub colour: u32,
    pub phase: int,
}

/// A colour wheel walk: each `next` moves one channel by one step.
pub struct Rainbow {
    pub colour: u32,
    dn: u32,
    cd: Colourd,
}

impl View for Rainbow {
    type V = RainbowState;

    closed spec fn view(&self) -> RainbowState {
        RainbowState {
            colour: self.colour,
            phase: match self.cd {
                Colourd::Redplusgreen => 0,
                Colourd::Greenminusred => 1,
                Colourd::Greenplusblue => 2,
                Colourd::Blueminusgreen => 3,
                Colourd::Blueplusred => 4,
                Colourd::Redminusblue => 5,
            },
        }
    }
}

/// The byte that phase `p` moves: green (2) in phases 0 and 3, red (3) in
/// phases 1 and 4, blue (1) in phases 2 and 5.
pub open spec fn phase_byte(p: int) -> int {
    if p == 0 || p == 3 {
        2
    } else if p == 1 || p == 4 {
        3
    } else {
        1
    }
}

/// Whether phase `p` raises its byte (towards 255) rather than lowering it (towards 0).
pub open spec fn phase_rises(p: int) -> bool {
    p == 0 || p == 2 || p == 4
}

/// The bound that phase `p` moves its byte towards.
pub open spec fn phase_bound(p: int) -> int {
    if phase_rises(p) {
        255
    } else {
        0
    }
}

/// The first state of the walk: opaque red, raising green.
pub open spec fn rainbow_start() -> RainbowState {
    RainbowState { colour: 0xFF0000FF, phase: 0 }
}

/// One step of the walk: the phase's byte moves by one (the whole word
/// saturating at its bounds); when that byte reaches the phase's bound the
/// walk enters the next phase.
pub open spec fn rainbow_step(s: RainbowState) -> RainbowState {
    let k = phase_byte(s.phase);
    let c = if phase_rises(s.phase) {
        if s.colour + byte_weight(k) > u32::MAX {
            u32::MAX
        } else {
            (s.colour + byte_weight(k)) as u32
        }
    } else {
        if s.colour - byte_weight(k) < 0 {
            0
        } else {
            (s.colour - byte_weight(k)) as u32
        }
    };
    RainbowState {
        colour: c,
        phase: if byte_of(c, k) == phase_bound(s.phase) {
            (s.phase + 1) % 6
        } else {
            s.phase
        },
    }
}

/// The walk's state after `n` steps from `s`.
pub open spec fn rainbow_iterate(s: RainbowState, n: nat) -> RainbowState
    decreases n,
{
    if n == 0 {
        s
    } else {
        rainbow_step(rainbow_iterate(s, (n - 1) as nat))
    }
}

/// Moving byte `k` of `c` by one, up or down, within its range changes
/// the word by that byte's weight and leaves the other bytes alone.
proof fn lemma_byte_bump(c: u32, k: int, up: bool)
    requires
        1 <= k <= 3,
        up ==> byte_of(c, k) < 255,
        !up ==> byte_of(c, k) > 0,
    ensures
        up ==> 0 <= c + byte_weight(k) <= u32::MAX,
        !up ==> 0 <= c - byte_weight(k) <= u32::MAX,
        up ==> forall|j: int|
            0 <= j < 4 ==> #[trigger] byte_of((c + byte_weight(k)) as u32, j) == if j == k {
                byte_of(c, k) + 1
            } else {
                byte_of(c, j)
            },
        !up ==> forall|j: int|
            0 <= j < 4 ==> #[trigger] byte_of((c - byte_weight(k)) as u32, j) == if j == k {
                byte_of(c, k) - 1
            } else {
                byte_of(c, j)
            },
{
    lemma_byte_extract(c);
    lemma_from_bytes_of(c);
    let (b3, b2, b1, b0) = (byte_of(c, 3), byte_of(c, 2), byte_of(c, 1), byte_of(c, 0));
    let d: int = if up {
        1
    } else {
        -1
    };
    if k == 1 {
        lemma_bytes_of_from_bytes(b3, b2, b1 + d, b0);
    } else if k == 2 {
        lemma_bytes_of_from_bytes(b3, b2 + d, b1, b0);
    } else {
        lemma_bytes_of_from_bytes(b3 + d, b2, b1, b0);
    }
}

/// The shape of every state the walk passes through from its start: the
/// alpha byte is 255, and of red, green and blue one is at 255 and one at
/// 0 while the phase moves the third (off the bound it moves towards).
pub open spec fn rainbow_wf(s: RainbowState) -> bool {
    let (r, g, b) = (byte_of(s.colour, 3), byte_of(s.colour, 2), byte_of(s.colour, 1));
    &&& byte_of(s.colour, 0) == 255
    &&& 0 <= s.phase < 6
    &&& s.phase == 0 ==> r == 255 && b == 0 && g < 255
    &&& s.phase == 1 ==> g == 255 && b == 0 && r > 0
    &&& s.phase == 2 ==> g == 255 && r == 0 && b < 255
    &&& s.phase == 3 ==> b == 255 && r == 0 && g > 0
    &&& s.phase == 4 ==> b == 255 && g == 0 && r < 255
    &&& s.phase == 5 ==> r == 255 && g == 0 && b > 0
}

/// A step keeps the shape of the walk's states, and never saturates: it
/// moves exactly one byte by exactly one.
pub proof fn law_rainbow_step_wf(s: RainbowState)
    requires
        rainbow_wf(s),
    ensures
        rainbow_wf(rainbow_step(s)),
        rainbow_step(s).colour == if phase_rises(s.phase) {
            s.colour + byte_weight(phase_byte(s.phase))
        } else {
            s.colour - byte_weight(phase_byte(s.phase))
        },
{
    lemma_byte_extract(s.colour);
    lemma_byte_bump(s.colour, phase_byte(s.phase), phase_rises(s.phase));
}

/// Every state the walk passes through from its start has the shape of
/// `rainbow_wf`; in particular every colour it yields is opaque.
pub proof fn law_rainbow_reachable_wf(n: nat)
    ensures
        rainbow_wf(rainbow_iterate(rainbow_start(), n)),
        byte_of(rainbow_iterate(rainbow_start(), n).colour, 0) == 255,
    decreases n,
{
    if n == 0 {
        lemma_byte_extract(0xFF0000FFu32);
        assert(byte_of(0xFF0000FFu32, 3) == 255);
        assert(byte_of(0xFF0000FFu32, 2) == 0);
        assert(byte_of(0xFF0000FFu32, 1) == 0);
        assert(byte_of(0xFF0000FFu32, 0) == 255);
    } else {
        law_rainbow_reachable_wf((n - 1) as nat);
        law_rainbow_step_wf(rainbow_iterate(rainbow_start(), (n - 1) as nat));
    }
}

proof fn lemma_iterate_front(s: RainbowState, n: nat)
    requires
        n >= 1,
    ensures
        rainbow_iterate(s, n) == rainbow_iterate(rainbow_step(s), (n - 1) as nat),
    decreases n,
{
    let n1 = (n - 1) as nat;
    if n > 1 {
        let n2 = (n1 - 1) as nat;
        lemma_iterate_front(s, n1);
        assert(rainbow_iterate(s, n) == rainbow_step(rainbow_iterate(s, n1)));
        assert(rainbow_iterate(rainbow_step(s), n1) == rainbow_step(rainbow_iterate(rainbow_step(s), n2)));
    } else {
        assert(rainbow_iterate(s, 1) == rainbow_step(rainbow_iterate(s, 0)));
    }
}

proof fn lemma_iterate_add(s: RainbowState, a: nat, b: nat)
    ensures
        rainbow_iterate(s, a + b) == rainbow_iterate(rainbow_iterate(s, a), b),
    decreases b,
{
    if b > 0 {
        lemma_iterate_add(s, a, (b - 1) as nat);
        assert((a + b - 1) as nat == a + (b - 1) as nat);
    }
}

/// A phase runs until its byte reaches its bound, one step per unit of
/// distance, and hands over to the next phase.
proof fn lemma_phase_run(s: RainbowState, m: nat)
    requires
        0 <= s.phase < 6,
        m >= 1,
        phase_rises(s.phase) ==> byte_of(s.colour, phase_byte(s.phase)) + m == 255,
        !phase_rises(s.phase) ==> byte_of(s.colour, phase_byte(s.phase)) - m == 0,
    ensures
        rainbow_iterate(s, m) == (RainbowState {
            colour: if phase_rises(s.phase) {
                (s.colour + m * byte_weight(phase_byte(s.phase))) as u32
            } else {
                (s.colour - m * byte_weight(phase_byte(s.phase))) as u32
            },
            phase: (s.phase + 1) % 6,
        }),
    decreases m,
{
    let k = phase_byte(s.phase);
    lemma_byte_extract(s.colour);
    lemma_byte_bump(s.colour, k, phase_rises(s.phase));
    let t = rainbow_step(s);
    let c2 = if phase_rises(s.phase) {
        s.colour + byte_weight(k)
    } else {
        s.colour - byte_weight(k)
    };
    assert(t.colour == c2);
    if phase_rises(s.phase) {
        assert(byte_of((s.colour + byte_weight(k)) as u32, k) == byte_of(s.colour, k) + 1);
    } else {
        assert(byte_of((s.colour - byte_weight(k)) as u32, k) == byte_of(s.colour, k) - 1);
    }
    lemma_iterate_front(s, m);
    if m > 1 {
        assert(t.phase == s.phase);
        lemma_phase_run(t, (m - 1) as nat);
        assert((m - 1) * byte_weight(k) + byte_weight(k) == m * byte_weight(k)) by (nonlinear_arith);
        let m1 = (m - 1) as nat;
        assert(rainbow_iterate(s, m) == rainbow_iterate(t, m1));
        if phase_rises(s.phase) {
            assert(t.colour + m1 * byte_weight(k) == s.colour + m * byte_weight(k));
            assert(rainbow_iterate(t, m1).colour == (s.colour + m * byte_weight(k)) as u32);
        } else {
            assert(t.colour - m1 * byte_weight(k) == s.colour - m * byte_weight(k));
            assert(rainbow_iterate(t, m1).colour == (s.colour - m * byte_weight(k)) as u32);
        }
        assert(rainbow_iterate(t, m1).phase == (s.phase + 1) % 6);
    } else {
        assert(rainbow_iterate(t, 0) == t);
        assert(t.phase == (s.phase + 1) % 6);
        assert(m * byte_weight(k) == byte_weight(k));
        if !phase_rises(s.phase) {
            assert(t.colour == (s.colour - m * byte_weight(k)) as u32);
        }
    }
}

/// After 1530 steps (255 for each of the six phases) the walk is back where it started.
pub proof fn law_rainbow_period()
    ensures
        rainbow_iterate(rainbow_start(), 1530) == rainbow_start(),
{
    let s0 = rainbow_start();
    let s1 = RainbowState { colour: 0xFFFF00FF, phase: 1 };
    let s2 = RainbowState { colour: 0x00FF00FF, phase: 2 };
    let s3 = RainbowState { colour: 0x00FFFFFF, phase: 3 };
    let s4 = RainbowState { colour: 0x0000FFFF, phase: 4 };
    let s5 = RainbowState { colour: 0xFF00FFFF, phase: 5 };
    assert(byte_of(0xFF0000FFu32, 2) == 0);
    assert(byte_of(0xFFFF00FFu32, 3) == 255);
    assert(byte_of(0x00FF00FFu32, 1) == 0);
    assert(byte_of(0x00FFFFFFu32, 2) == 255);
    assert(byte_of(0x0000FFFFu32, 3) == 0);
    assert(byte_of(0xFF00FFFFu32, 1) == 255);
    lemma_phase_run(s0, 255);
    lemma_phase_run(s1, 255);
    lemma_phase_run(s2, 255);
    lemma_phase_run(s3, 255);
    lemma_phase_run(s4, 255);
    lemma_phase_run(s5, 255);
    lemma_iterate_add(s0, 255, 255);
    lemma_iterate_add(s0, 510, 255);
    lemma_iterate_add(s0, 765, 255);
    lemma_iterate_add(s0, 1020, 255);
    lemma_iterate_add(s0, 1275, 255);
}

/// From the start, every step of the walk moves exactly one of the red,
/// green and blue bytes, by exactly one (it never saturates), and leaves the
/// other bytes, alpha among them, as they were.
pub proof fn law_rainbow_steps_one_byte(n: nat)
    ensures
        ({
            let s = rainbow_iterate(rainbow_start(), n);
            let t = rainbow_step(s);
            let k = phase_byte(s.phase);
            &&& 1 <= k <= 3
            &&& byte_of(t.colour, k) == byte_of(s.colour, k) + if phase_rises(s.phase) {
                1int
            } else {
                -1int
            }
            &&& forall|j: int| 0 <= j < 4 && j != k ==> #[trigger] byte_of(t.colour, j) == byte_of(s.colour, j)
        }),
{
    let s = rainbow_iterate(rainbow_start(), n);
    law_rainbow_reachable_wf(n);
    law_rainbow_step_wf(s);
    lemma_byte_extract(s.colour);
    lemma_byte_bump(s.colour, phase_byte(s.phase), phase_rises(s.phase));
}

impl Rainbow {
    /// A walk that starts at opaque red (`0xFF0000FF`), raising green.
    pub fn new() -> (r: Self)
        ensures
            r@ == rainbow_start(),
    {
        Self { colour: 0xFF0000FF, dn: 0x10000, cd: Colourd::Redplusgreen }
    }

    /// The walk's current colour.
    pub fn colour(&self) -> (c: u32)
        ensures
            c == self@.colour,
    {
        self.colour
    }

    /// Takes one step of the walk and returns the new colour.
    pub fn next(&mut self) -> (r: Option<u32>)
        ensures
            final(self)@ == rainbow_step(old(self)@),
            r == Some(final(self)@.colour),
            0 <= final(self)@.phase < 6,
    {
        match self.cd {
            Colourd::Redplusgreen => {
                self.colour = self.colour.saturating_add(0x010000);
                proof {
                    lemma_byte_extract(self.colour);
                }
                if self.colour >> 16 & 0xFF == 0xFF {
                    self.cd = Colourd::Greenminusred;
                }
                Some(self.colour)
            },
            Colourd::Greenminusred => {
                self.colour = self.colour.saturating_sub(0x01000000);
                proof {
                    lemma_byte_extract(self.colour);
                }
                if self.colour >> 24 & 0xFF == 0x0 {
                    self.cd = Colourd::Greenplusblue;
                }
                Some(self.colour)
            },
            Colourd::Greenplusblue => {
                self.colour = self.colour.saturating_add(0x0100);
                proof {
                    lemma_byte_extract(self.colour);
                }
                if self.colour >> 8 & 0xFF == 0xFF {
                    self.cd = Colourd::Blueminusgreen;
                }
                Some(self.colour)
            },
            Colourd::Blueminusgreen => {
                self.colour = self.colour.saturating_sub(0x010000);
                proof {
                    lemma_byte_extract(self.colour);
                }
                if self.colour >> 16 & 0xFF == 0x0 {
                    self.cd = Colourd::Blueplusred;
                }
                Some(self.colour)
            },
            Colourd::Blueplusred => {
                self.colour = self.colour.saturating_add(0x01000000);
                proof {
                    lemma_byte_extract(self.colour);
                }
                if self.colour >> 24 & 0xFF == 0xFF {
                    self.cd = Colourd::Redminusblue;
                }
                Some(self.colour)
            },
            Colourd::Redminusblue => {
                self.colour = self.colour.saturating_sub(0x0100);
                proof {
                    lemma_byte_extract(self.colour);
                }
                if self.colour >> 8 & 0xFF == 0x0 {
                    self.cd = Colourd::Redplusgreen;
                }
                Some(self.colour)
            },
        }
    }
}

impl Default for Rainbow {
    fn default() -> (r: Self)
        ensures
            r@ == rainbow_start(),
    {
        Rainbow::new()
    }
}

} // verus!
