//! Integer geometry for orientation handling: angles are whole degrees,
//! directions come from a table-driven arctangent, and rotations use
//! fixed-point cosine/sine values at the 12-degree steps the descriptor
//! builder quantizes to.

use vstd::prelude::*;

verus! {

pub open spec fn abs_i(a: int) -> int {
    if a >= 0 {
        a
    } else {
        -a
    }
}

/// Remainder with the sign of the dividend, as the `%` operator of the
/// implementation language computes it for machine integers.
pub open spec fn trunc_rem(a: int, b: int) -> int {
    if a >= 0 {
        a % b
    } else {
        -((-a) % b)
    }
}

/// Snaps `angle` down to a multiple of `increment` (toward zero).  The
/// branch that would snap away from zero is kept as written even though a
/// remainder's magnitude is always below `increment`, so it cannot fire.
pub fn round_angle(angle: i32, increment: i32) -> (r: i32)
    requires
        1 <= increment <= 0x3fffffff,
    ensures
        r as int == angle - trunc_rem(angle as int, increment as int),
        abs_i(r as int) <= abs_i(angle as int),
{
    let modulo: i32 = angle % increment;
    proof {
        assert(modulo as int == trunc_rem(angle as int, increment as int));
        assert(-increment < modulo < increment);
    }
    let complement: i32 = if angle < 0 {
        increment + modulo
    } else {
        increment - modulo
    };
    let magnitude: i32 = if modulo < 0 {
        -modulo
    } else {
        modulo
    };
    proof {
        assert(increment << 1 == 2 * increment) by (bit_vector)
            requires
                1 <= increment <= 0x3fffffff,
        ;
    }
    if magnitude > (increment << 1) {
        return if angle < 0 {
            angle - complement
        } else {
            angle + complement
        };
    }
    proof {
        if angle >= 0 {
            if (angle as int) < (increment as int) {
                vstd::arithmetic::div_mod::lemma_small_mod(angle as nat, increment as nat);
            }
        } else {
            if (-(angle as int)) < (increment as int) {
                vstd::arithmetic::div_mod::lemma_small_mod((-(angle as int)) as nat,
                    increment as nat);
            }
        }
    }
    angle - modulo
}

/// Thresholds `tan((a + 1/2) degrees) * 2^20`, rounded, for `a` in `0..45`.
pub open spec fn tan_half_seq() -> Seq<i64> {
    seq![
        9151i64, 27458, 45782, 64134, 82525, 100966, 119470, 138048, 156711, 175471, 194342,
        213335, 232464, 251741, 271180, 290796, 310602, 330615, 350849, 371320, 392047, 413045,
        434334, 455934, 477864, 500145, 522801, 545854, 569330, 593256, 617658, 642568, 668017,
        694037, 720666, 747942, 775905, 804601, 834075, 864379, 895569, 927702, 960843, 995061,
        1030433,
    ]
}

fn tan_half_table() -> (v: Vec<i64>)
    ensures
        v@ == tan_half_seq(),
{
    let v: Vec<i64> = vec![
        9151i64, 27458, 45782, 64134, 82525, 100966, 119470, 138048, 156711, 175471, 194342,
        213335, 232464, 251741, 271180, 290796, 310602, 330615, 350849, 371320, 392047, 413045,
        434334, 455934, 477864, 500145, 522801, 545854, 569330, 593256, 617658, 642568, 668017,
        694037, 720666, 747942, 775905, 804601, 834075, 864379, 895569, 927702, 960843, 995061,
        1030433,
    ];
    proof {
        assert(v@ =~= tan_half_seq());
    }
    v
}

/// The smallest `a` in `a0..45` with `n/d < tan((a + 1/2) degrees)`, or 45:
/// the whole degree nearest to `atan(n/d)` for `0 <= n <= d`.
pub open spec fn atan_scan(n: int, d: int, a: int) -> int
    decreases 45 - a,
{
    if a < 0 || a >= 45 {
        45
    } else if n * 0x100000 < d * tan_half_seq()[a] {
        a
    } else {
        atan_scan(n, d, a + 1)
    }
}

pub proof fn lemma_atan_scan_bounds(n: int, d: int, a: int)
    requires
        0 <= a <= 45,
    ensures
        a <= atan_scan(n, d, a) <= 45,
    decreases 45 - a,
{
    if a < 45 && !(n * 0x100000 < d * tan_half_seq()[a]) {
        lemma_atan_scan_bounds(n, d, a + 1);
    }
}

/// The whole degree nearest the direction of the vector `(x, y)`, in
/// `[-180, 180]`, with `atan2`'s conventions: the angle is measured from
/// the positive x axis, positive toward positive y, and the zero vector
/// maps to zero.
pub open spec fn atan2_deg_spec(y: int, x: int) -> int {
    if y == 0 && x == 0 {
        0
    } else {
        let ay = abs_i(y);
        let ax = abs_i(x);
        let oct = if ay <= ax {
            atan_scan(ay, ax, 0)
        } else {
            90 - atan_scan(ax, ay, 0)
        };
        if x >= 0 && y >= 0 {
            oct
        } else if x < 0 && y >= 0 {
            180 - oct
        } else if x < 0 {
            -(180 - oct)
        } else {
            -oct
        }
    }
}

pub proof fn lemma_atan2_deg_range(y: int, x: int)
    ensures
        -180 <= atan2_deg_spec(y, x) <= 180,
{
    if !(y == 0 && x == 0) {
        let ay = abs_i(y);
        let ax = abs_i(x);
        if ay <= ax {
            lemma_atan_scan_bounds(ay, ax, 0);
        } else {
            lemma_atan_scan_bounds(ax, ay, 0);
        }
    }
}

fn atan_octant(n: i64, d: i64) -> (r: i32)
    requires
        1 <= d,
        0 <= n <= d,
    ensures
        r as int == atan_scan(n as int, d as int, 0),
        0 <= r <= 45,
{
    let tans = tan_half_table();
    let mut a: usize = 0;
    while a < 45
        invariant
            0 <= a <= 45,
            tans@ == tan_half_seq(),
            1 <= d,
            0 <= n <= d,
            atan_scan(n as int, d as int, 0) == atan_scan(n as int, d as int, a as int),
        decreases 45 - a,
    {
        if (n as i128) * 0x100000 < (d as i128) * (tans[a] as i128) {
            proof {
                lemma_atan_scan_bounds(n as int, d as int, 0);
            }
            return a as i32;
        }
        a += 1;
    }
    45
}

pub fn atan2_deg(y: i64, x: i64) -> (r: i32)
    requires
        y != i64::MIN,
        x != i64::MIN,
    ensures
        r as int == atan2_deg_spec(y as int, x as int),
        -180 <= r <= 180,
{
    if y == 0 && x == 0 {
        return 0;
    }
    let ay: i64 = if y < 0 {
        -y
    } else {
        y
    };
    let ax: i64 = if x < 0 {
        -x
    } else {
        x
    };
    let oct: i32 = if ay <= ax {
        atan_octant(ay, ax)
    } else {
        90 - atan_octant(ax, ay)
    };
    if x >= 0 && y >= 0 {
        oct
    } else if x < 0 && y >= 0 {
        180 - oct
    } else if x < 0 {
        -(180 - oct)
    } else {
        -oct
    }
}

/// `cos(12k degrees) * 2^14`, rounded, for `k` in `0..=15` (0 to 180 degrees).
pub open spec fn cos12_seq() -> Seq<i64> {
    seq![
        16384i64, 16026, 14968, 13255, 10963, 8192, 5063, 1713, -1713i64, -5063i64, -8192i64,
        -10963i64, -13255i64, -14968i64, -16026i64, -16384i64,
    ]
}

/// `sin(12k degrees) * 2^14`, rounded, for `k` in `0..=15`.
pub open spec fn sin12_seq() -> Seq<i64> {
    seq![
        0i64, 3406, 6664, 9630, 12176, 14189, 15582, 16294, 16294, 15582, 14189, 12176, 9630,
        6664, 3406, 0,
    ]
}

/// Fixed-point cosine of a quantized angle: `q` a multiple of 12 in
/// `[-180, 180]`, result scaled by `2^14`.
pub open spec fn cos_q(q: int) -> int {
    cos12_seq()[abs_i(q) / 12] as int
}

/// Fixed-point sine of a quantized angle, scaled by `2^14`.
pub open spec fn sin_q(q: int) -> int {
    if q >= 0 {
        sin12_seq()[q / 12] as int
    } else {
        -(sin12_seq()[(-q) / 12] as int)
    }
}

pub fn cos_sin_q(q: i32) -> (r: (i64, i64))
    requires
        -180 <= q <= 180,
        trunc_rem(q as int, 12) == 0,
    ensures
        r.0 == cos_q(q as int),
        r.1 == sin_q(q as int),
        -0x4000 <= r.0 <= 0x4000,
        -0x4000 <= r.1 <= 0x4000,
{
    let cos_t = cos12_table();
    let sin_t = sin12_table();
    let k: usize = if q < 0 {
        ((-q) / 12) as usize
    } else {
        (q / 12) as usize
    };
    proof {
        assert(0 <= k < 16);
        assert(forall|i: int| 0 <= i < 16 ==> -0x4000 <= #[trigger] cos12_seq()[i] <= 0x4000);
        assert(forall|i: int| 0 <= i < 16 ==> 0 <= #[trigger] sin12_seq()[i] <= 0x4000);
    }
    let c = cos_t[k];
    let s = if q < 0 {
        -sin_t[k]
    } else {
        sin_t[k]
    };
    (c, s)
}

fn cos12_table() -> (v: Vec<i64>)
    ensures
        v@ == cos12_seq(),
{
    let v: Vec<i64> = vec![
        16384i64, 16026, 14968, 13255, 10963, 8192, 5063, 1713, -1713i64, -5063i64, -8192i64,
        -10963i64, -13255i64, -14968i64, -16026i64, -16384i64,
    ];
    proof {
        assert(v@ =~= cos12_seq());
    }
    v
}

fn sin12_table() -> (v: Vec<i64>)
    ensures
        v@ == sin12_seq(),
{
    let v: Vec<i64> = vec![
        0i64, 3406, 6664, 9630, 12176, 14189, 15582, 16294, 16294, 15582, 14189, 12176, 9630,
        6664, 3406, 0,
    ];
    proof {
        assert(v@ =~= sin12_seq());
    }
    v
}

/// Rounds a `2^14`-scaled fixed-point value to the nearest integer, halves
/// away from zero.
pub open spec fn rdiv_fp(v: int) -> int {
    if v >= 0 {
        (v + 0x2000) / 0x4000
    } else {
        -(((-v) + 0x2000) / 0x4000)
    }
}

pub fn rdiv_fixed(v: i64) -> (r: i64)
    requires
        -0x4000000000000 <= v <= 0x4000000000000,
    ensures
        r as int == rdiv_fp(v as int),
        abs_i(r as int) * 0x4000 <= abs_i(v as int) + 0x2000,
{
    if v >= 0 {
        (v + 0x2000) / 0x4000
    } else {
        -((-v + 0x2000) / 0x4000)
    }
}

/// Floor of the square root of a non-negative integer.
pub open spec fn sqrt_floor(n: int) -> int
    decreases n,
{
    if n < 1 {
        0
    } else {
        let p = sqrt_floor(n - 1);
        if (p + 1) * (p + 1) <= n {
            p + 1
        } else {
            p
        }
    }
}

pub proof fn lemma_sqrt_floor_bounds(n: int)
    requires
        n >= 0,
    ensures
        0 <= sqrt_floor(n),
        sqrt_floor(n) * sqrt_floor(n) <= n,
        n < (sqrt_floor(n) + 1) * (sqrt_floor(n) + 1),
    decreases n,
{
    if n > 0 {
        lemma_sqrt_floor_bounds(n - 1);
        let p = sqrt_floor(n - 1);
        if (p + 1) * (p + 1) <= n {
            assert(n < (p + 2) * (p + 2)) by (nonlinear_arith)
                requires
                    n - 1 < (p + 1) * (p + 1),
                    p >= 0,
            ;
        }
    }
}

pub proof fn lemma_sqrt_floor_unique(n: int, r: int)
    requires
        0 <= r,
        r * r <= n,
        n < (r + 1) * (r + 1),
    ensures
        sqrt_floor(n) == r,
{
    lemma_sqrt_floor_bounds(n);
    let s = sqrt_floor(n);
    if s < r {
        assert((s + 1) * (s + 1) <= r * r) by (nonlinear_arith)
            requires
                0 <= s + 1 <= r,
        ;
    }
    if r < s {
        assert((r + 1) * (r + 1) <= s * s) by (nonlinear_arith)
            requires
                0 <= r + 1 <= s,
        ;
    }
}

pub fn isqrt_u64(n: u64) -> (r: u64)
    ensures
        r as int == sqrt_floor(n as int),
        r <= 0x100000000,
{
    let mut lo: u64 = 0;
    let mut hi: u64 = 0x100000000;
    proof {
        assert((n as int) < 0x100000000 * 0x100000000);
    }
    while lo + 1 < hi
        invariant
            lo < hi <= 0x100000000,
            (lo as int) * (lo as int) <= n as int,
            (n as int) < (hi as int) * (hi as int),
        decreases hi - lo,
    {
        let mid = lo + (hi - lo) / 2;
        proof {
            assert((mid as int) * (mid as int) <= 0x100000000 * 0x100000000) by (nonlinear_arith)
                requires
                    0 <= (mid as int) <= 0x100000000,
            ;
        }
        if (mid as u128) * (mid as u128) <= n as u128 {
            lo = mid;
        } else {
            hi = mid;
        }
    }
    proof {
        lemma_sqrt_floor_unique(n as int, lo as int);
    }
    lo
}

} // verus!
