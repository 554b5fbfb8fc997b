use vstd::prelude::*;
use vstd::arithmetic::power2::{
    lemma2_to64, lemma_pow2_adds, lemma_pow2_pos, lemma_pow2_strictly_increases,
    lemma_pow2_unfold, pow2,
};

verus! {

/// Bound on the numerators of a span's borders: `2^125`, far beyond any span made from
/// `i64` coordinates and a `u64` side, and small enough that a border plus one, or the sum
/// of two borders, still fits in an `i128`.
pub open spec fn span_bound() -> int {
    0x2000_0000_0000_0000_0000_0000_0000_0000
}

/// `2^126`, the magnitude up to which `le_scaled` compares exactly.
pub open spec fn compare_bound() -> int {
    0x4000_0000_0000_0000_0000_0000_0000_0000
}

/// The grid coordinate `v` at the scale of a span with the given shift: `v * 2^shift`.
pub open spec fn scaled(v: int, shift: u32) -> int {
    v * pow2(shift as nat)
}

/// An interval of one axis, from `lo / 2^shift` to `hi / 2^shift`. Keeping the borders as
/// binary fractions lets a cell be halved exactly however odd its extent: a split that
/// falls between two numerators doubles the scale.
#[derive(Clone, Copy, Debug, PartialEq, Eq)]
pub struct Span {
    pub lo: i128,
    pub hi: i128,
    pub shift: u32,
}

impl Span {
    /// The span of side `size` centred on `c`: from `c - size/2` to `c + size/2`.
    pub open spec fn centred(c: i64, size: u64) -> Span {
        Span { lo: (2 * c - size) as i128, hi: (2 * c + size) as i128, shift: 1 }
    }

    /// The grid coordinate `v` lies in the half-open span: `lo <= v * 2^shift < hi`.
    pub open spec fn holds(self, v: i64) -> bool {
        self.lo <= scaled(v as int, self.shift) && scaled(v as int, self.shift) < self.hi
    }

    /// The grid coordinate `v` lies in the closed span: `lo <= v * 2^shift <= hi`.
    pub open spec fn reaches(self, v: i64) -> bool {
        self.lo <= scaled(v as int, self.shift) && scaled(v as int, self.shift) <= self.hi
    }

    /// The closed spans overlap: neither lies wholly above the other (compared at a common
    /// scale).
    pub open spec fn meets(self, other: Span) -> bool {
        !(other.lo * pow2(self.shift as nat) > self.hi * pow2(other.shift as nat)
            || other.hi * pow2(self.shift as nat) < self.lo * pow2(other.shift as nat))
    }

    /// The borders are in order and within `span_bound()`.
    pub open spec fn bounded(self) -> bool {
        -span_bound() <= self.lo <= self.hi <= span_bound()
    }

    /// The middle of the span falls between two numerators, and the scale can be doubled:
    /// the numerators stay within half the bound and the shift below its maximum. Outside
    /// these limits the span's borders or width have more significant bits than a
    /// double-precision float can hold, and the middle is rounded down instead.
    pub open spec fn refines(self) -> bool {
        &&& (self.hi - self.lo) % 2 != 0
        &&& -span_bound() / 2 <= self.lo
        &&& self.hi <= span_bound() / 2
        &&& self.shift < u32::MAX
    }

    /// Where the span is split, at its own scale: the exact middle when the width is even;
    /// when the scale is at its limit, the middle rounded down.
    pub open spec fn mid(self) -> int {
        self.lo + (self.hi - self.lo) / 2
    }

    /// The half below the middle.
    pub open spec fn lower(self) -> Span {
        if self.refines() {
            Span { lo: (2 * self.lo) as i128, hi: (self.lo + self.hi) as i128, shift: (self.shift + 1) as u32 }
        } else {
            Span { lo: self.lo, hi: self.mid() as i128, shift: self.shift }
        }
    }

    /// The half from the middle on.
    pub open spec fn upper(self) -> Span {
        if self.refines() {
            Span { lo: (self.lo + self.hi) as i128, hi: (2 * self.hi) as i128, shift: (self.shift + 1) as u32 }
        } else {
            Span { lo: self.mid() as i128, hi: self.hi, shift: self.shift }
        }
    }

    /// The lower half (`which == false`) or the upper half (`which == true`).
    pub open spec fn part(self, which: bool) -> Span {
        if which {
            self.upper()
        } else {
            self.lower()
        }
    }

    pub fn new_centred(c: i64, size: u64) -> (s: Span)
        ensures
            s == Span::centred(c, size),
            s.bounded(),
            forall|v: i64| #[trigger] s.holds(v) <==> 2 * c - size <= 2 * v < 2 * c + size,
            forall|v: i64| #[trigger] s.reaches(v) <==> 2 * c - size <= 2 * v <= 2 * c + size,
    {
        proof {
            lemma2_to64();
            assert forall|v: i64| scaled(v as int, 1) == 2 * v by {
                assert(v * pow2(1) == 2 * v);
            }
        }
        let c2: i128 = 2 * (c as i128);
        let z: i128 = size as i128;
        Span { lo: c2 - z, hi: c2 + z, shift: 1 }
    }

    pub fn holds_exec(&self, v: i64) -> (r: bool)
        requires
            self.bounded(),
        ensures
            r == self.holds(v),
    {
        le_scaled(self.lo, v as i128, self.shift) && !le_scaled(self.hi, v as i128, self.shift)
    }

    pub fn reaches_exec(&self, v: i64) -> (r: bool)
        requires
            self.bounded(),
        ensures
            r == self.reaches(v),
    {
        le_scaled(self.lo, v as i128, self.shift) && !le_scaled(self.hi + 1, v as i128, self.shift)
    }

    pub fn meets_exec(&self, other: &Span) -> (r: bool)
        requires
            self.bounded(),
            other.bounded(),
        ensures
            r == self.meets(*other),
    {
        let ghost ps = pow2(self.shift as nat);
        let ghost po = pow2(other.shift as nat);
        if self.shift >= other.shift {
            let d: u32 = self.shift - other.shift;
            let ghost pd = pow2(d as nat);
            proof {
                lemma_pow2_adds(d as nat, other.shift as nat);
                lemma_pow2_pos(other.shift as nat);
                assert(other.hi * ps == (other.hi * pd) * po) by (nonlinear_arith)
                    requires ps == pd * po;
                assert(other.lo * ps == (other.lo * pd) * po) by (nonlinear_arith)
                    requires ps == pd * po;
                assert(other.hi * pd < self.lo <==> (other.hi * pd) * po < self.lo * po) by (nonlinear_arith)
                    requires po > 0;
                assert(other.lo * pd > self.hi <==> (other.lo * pd) * po > self.hi * po) by (nonlinear_arith)
                    requires po > 0;
            }
            let above = le_scaled(self.hi + 1, other.lo, d);
            let below = !le_scaled(self.lo, other.hi, d);
            !(above || below)
        } else {
            let d: u32 = other.shift - self.shift;
            let ghost pd = pow2(d as nat);
            proof {
                lemma_pow2_adds(d as nat, self.shift as nat);
                lemma_pow2_pos(self.shift as nat);
                assert(self.hi * po == (self.hi * pd) * ps) by (nonlinear_arith)
                    requires po == pd * ps;
                assert(self.lo * po == (self.lo * pd) * ps) by (nonlinear_arith)
                    requires po == pd * ps;
                assert(other.lo > self.hi * pd <==> other.lo * ps > (self.hi * pd) * ps) by (nonlinear_arith)
                    requires ps > 0;
                assert(other.hi < self.lo * pd <==> other.hi * ps < (self.lo * pd) * ps) by (nonlinear_arith)
                    requires ps > 0;
            }
            let above = !le_scaled(other.lo, self.hi, d);
            let below = le_scaled(other.hi + 1, self.lo, d);
            !(above || below)
        }
    }

    /// The two halves of the span: at one scale, the lower one starts at `lo`, the upper one
    /// ends at `hi`, they meet, and they are equally wide (the upper one wider by one unit
    /// only when the span's width is odd and its scale cannot be doubled).
    pub fn split(&self) -> (parts: (Span, Span))
        requires
            self.bounded(),
        ensures
            parts.0 == self.lower(),
            parts.1 == self.upper(),
            parts.0.bounded(),
            parts.1.bounded(),
            parts.0.shift == parts.1.shift,
            parts.0.hi == parts.1.lo,
            parts.0.lo * pow2(self.shift as nat) == self.lo * pow2(parts.0.shift as nat),
            parts.1.hi * pow2(self.shift as nat) == self.hi * pow2(parts.1.shift as nat),
            halving_is_exact(*self) ==> parts.0.hi - parts.0.lo == parts.1.hi - parts.1.lo,
            !halving_is_exact(*self) ==> parts.1.hi - parts.1.lo == parts.0.hi - parts.0.lo + 1,
    {
        proof {
            lemma_halves_equal(*self);
        }
        let w: i128 = self.hi - self.lo;
        let half: i128 = 0x1000_0000_0000_0000_0000_0000_0000_0000;
        if w % 2 != 0 && -half <= self.lo && self.hi <= half && self.shift < u32::MAX {
            let s: i128 = self.lo + self.hi;
            (
                Span { lo: 2 * self.lo, hi: s, shift: self.shift + 1 },
                Span { lo: s, hi: 2 * self.hi, shift: self.shift + 1 },
            )
        } else {
            let m: i128 = self.lo + w / 2;
            (Span { lo: self.lo, hi: m, shift: self.shift }, Span { lo: m, hi: self.hi, shift: self.shift })
        }
    }
}

/// The span can be halved exactly: its width is even, or its numerators and shift leave room
/// to double its scale.
pub open spec fn halving_is_exact(s: Span) -> bool {
    (s.hi - s.lo) % 2 == 0 || (-span_bound() / 2 <= s.lo && s.hi <= span_bound() / 2
        && s.shift < u32::MAX)
}

/// The halves of a span are its two equal halves: at a common scale the lower half starts at
/// the span's lower border, the upper half ends at its upper border, the two meet, and they
/// are equally wide, so the split point is the exact middle. Only when the width is odd and
/// the scale cannot be doubled is the upper half one unit wider (the middle rounded down).
pub proof fn lemma_halves_equal(s: Span)
    requires
        s.bounded(),
    ensures
        s.lower().shift == s.upper().shift,
        s.lower().hi == s.upper().lo,
        s.lower().lo * pow2(s.shift as nat) == s.lo * pow2(s.lower().shift as nat),
        s.upper().hi * pow2(s.shift as nat) == s.hi * pow2(s.upper().shift as nat),
        halving_is_exact(s) ==> s.lower().hi - s.lower().lo == s.upper().hi - s.upper().lo,
        !halving_is_exact(s) ==> s.upper().hi - s.upper().lo == s.lower().hi - s.lower().lo + 1,
{
    if s.refines() {
        let p = pow2(s.shift as nat);
        lemma_pow2_unfold((s.shift + 1) as nat);
        assert(2 * s.lo * p == s.lo * pow2((s.shift + 1) as nat)) by (nonlinear_arith)
            requires pow2((s.shift + 1) as nat) == 2 * p;
        assert(2 * s.hi * p == s.hi * pow2((s.shift + 1) as nat)) by (nonlinear_arith)
            requires pow2((s.shift + 1) as nat) == 2 * p;
    }
}

/// `2^126`.
proof fn lemma_pow2_126()
    ensures
        pow2(126) == compare_bound(),
{
    lemma2_to64();
    lemma_pow2_adds(64, 32);
    lemma_pow2_adds(96, 30);
}

/// `2^n` as an `i128`, for `n <= 126`.
fn pow2_exec(n: u32) -> (p: i128)
    requires
        n <= 126,
    ensures
        p == pow2(n as nat),
{
    proof {
        lemma2_to64();
        lemma_pow2_126();
    }
    let mut p: i128 = 1;
    let mut i: u32 = 0;
    while i < n
        invariant
            i <= n <= 126,
            p == pow2(i as nat),
            pow2(126) == compare_bound(),
        decreases n - i,
    {
        proof {
            lemma_pow2_unfold((i + 1) as nat);
            if i + 1 < 126 {
                lemma_pow2_strictly_increases((i + 1) as nat, 126);
            }
        }
        p = 2 * p;
        i = i + 1;
    }
    p
}

/// Whether `b <= x * 2^e`, computed without overflow.
fn le_scaled(b: i128, x: i128, e: u32) -> (r: bool)
    requires
        -compare_bound() < b < compare_bound(),
        -compare_bound() < x < compare_bound(),
    ensures
        r == (b <= scaled(x as int, e)),
{
    let ghost pe = pow2(e as nat);
    proof {
        lemma_pow2_pos(e as nat);
        lemma_pow2_126();
    }
    if x == 0 {
        assert(scaled(x as int, e) == 0);
        return b <= 0;
    }
    if e >= 126 {
        proof {
            if e > 126 {
                lemma_pow2_strictly_increases(126, e as nat);
            }
            assert(x > 0 ==> x * pe >= pe) by (nonlinear_arith)
                requires pe > 0;
            assert(x < 0 ==> x * pe <= -pe) by (nonlinear_arith)
                requires pe > 0;
        }
        return x > 0;
    }
    let q: i128 = pow2_exec(126 - e);
    proof {
        lemma_pow2_adds((126 - e) as nat, e as nat);
    }
    if x >= q {
        assert(x * pe >= q * pe) by (nonlinear_arith)
            requires x >= q, pe > 0;
        return true;
    }
    if x <= -q {
        assert(x * pe <= -(q * pe)) by (nonlinear_arith)
            requires x <= -q, pe > 0;
        return false;
    }
    let p: i128 = pow2_exec(e);
    assert(-(q * pe) < x * pe < q * pe) by (nonlinear_arith)
        requires -q < x < q, pe > 0;
    b <= x * p
}

/// The two halves of a span split it: a coordinate lies in the span exactly when it lies in
/// one of the halves, and then in only one; both halves are bounded.
pub proof fn lemma_parts_split(s: Span, v: i64)
    requires
        s.bounded(),
    ensures
        s.holds(v) <==> (s.lower().holds(v) || s.upper().holds(v)),
        !(s.lower().holds(v) && s.upper().holds(v)),
        s.lower().bounded(),
        s.upper().bounded(),
{
    if s.refines() {
        let p = pow2(s.shift as nat);
        lemma_pow2_unfold((s.shift + 1) as nat);
        assert(scaled(v as int, (s.shift + 1) as u32) == 2 * scaled(v as int, s.shift)) by (nonlinear_arith)
            requires pow2((s.shift + 1) as nat) == 2 * p, scaled(v as int, (s.shift + 1) as u32) == v * pow2((s.shift + 1) as nat), scaled(v as int, s.shift) == v * p;
    }
}

/// A coordinate that two spans both reach shows that they meet.
pub proof fn lemma_shared_meets(a: Span, b: Span, v: i64)
    requires
        a.reaches(v),
        b.reaches(v),
    ensures
        a.meets(b),
        b.meets(a),
{
    let pa = pow2(a.shift as nat);
    let pb = pow2(b.shift as nat);
    lemma_pow2_pos(a.shift as nat);
    lemma_pow2_pos(b.shift as nat);
    let w = v as int;
    assert(b.lo * pa <= a.hi * pb && b.hi * pa >= a.lo * pb && a.lo * pb <= b.hi * pa && a.hi * pb >= b.lo * pa) by (nonlinear_arith)
        requires
            pa > 0,
            pb > 0,
            a.lo <= w * pa <= a.hi,
            b.lo <= w * pb <= b.hi,
    ;
}

} // verus!
