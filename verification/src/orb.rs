//! BRIEF-style binary descriptors with rotation steering, the pipeline
//! that strings detection, suppression and description together, and
//! Hamming-distance matching between two descriptor sets.

use crate::angle::{abs_i, cos_q, cos_sin_q, rdiv_fixed, rdiv_fp, round_angle, sin_q, trunc_rem};
use crate::bits::{bv_bits, bv_cap, bv_capacity, bv_contains, bv_insert, bv_new};
use crate::common::{adaptive_nonmax_suppression, scan_best, IndexMatch, Matchable};
use crate::fast::{cmp16, detect_spec, fast, idx16, offsets16, FastKeypoint};
use crate::gray::GrayImage;
use bitvector::BitVector;
use vstd::prelude::*;

verus! {

broadcast use vstd::seq_lib::group_to_multiset_ensures;

/// The descriptor bit length `brief` and `orb` fall back to.
pub const DEFAULT_BRIEF_LENGTH: usize = 256;

/// A binary descriptor: the keypoint's location and one comparison bit
/// per sampled offset pair.
#[derive(Debug)]
pub struct Brief {
    pub x: i32,
    pub y: i32,
    pub b: BitVector,
}

/// The number of positions below `n` on which the two bit sets disagree.
pub open spec fn hamming(a: Set<int>, b: Set<int>, n: int) -> int
    decreases n,
{
    if n <= 0 {
        0
    } else {
        hamming(a, b, n - 1) + if a.contains(n - 1) != b.contains(n - 1) {
            1int
        } else {
            0int
        }
    }
}

pub open spec fn min_cap(a: Brief, b: Brief) -> int {
    if bv_cap(a.b) <= bv_cap(b.b) {
        bv_cap(a.b) as int
    } else {
        bv_cap(b.b) as int
    }
}

impl Matchable for Brief {
    /// Hamming distance over the shared capacity.
    open spec fn dist_spec(&self, other: &Self) -> int {
        hamming(bv_bits(self.b), bv_bits(other.b), min_cap(*self, *other))
    }

    open spec fn dist_req(&self, other: &Self) -> bool {
        true
    }

    fn distance(&self, other: &Self) -> (r: usize) {
        let ca = bv_capacity(&self.b);
        let cb = bv_capacity(&other.b);
        let m = if ca < cb {
            ca
        } else {
            cb
        };
        let mut count: usize = 0;
        let mut j: usize = 0;
        while j < m
            invariant
                0 <= j <= m,
                m as int == min_cap(*self, *other),
                m <= bv_cap(self.b) && m <= bv_cap(other.b),
                count <= j,
                count as int == hamming(bv_bits(self.b), bv_bits(other.b), j as int),
            decreases m - j,
        {
            let b1 = bv_contains(&self.b, j);
            let b2 = bv_contains(&other.b, j);
            if b1 != b2 {
                count += 1;
            }
            j += 1;
        }
        count
    }
}

/// One step of the multiplicative congruential generator behind the
/// offset table.
pub open spec fn lcg_next(s: int) -> int {
    (s * 1103515245 + 12345) % 0x80000000
}

/// The coordinate a generator state stands for, in `[-15, 15]`.
pub open spec fn offset_coord(s: int) -> int {
    (s / 0x10000) % 31 - 15
}

/// The `k` offset pairs generated from state `s`, in order.
pub open spec fn gen_offsets(s: int, k: int) -> Seq<((i32, i32), (i32, i32))>
    decreases k,
{
    if k <= 0 {
        Seq::empty()
    } else {
        let s1 = lcg_next(s);
        let s2 = lcg_next(s1);
        let s3 = lcg_next(s2);
        let s4 = lcg_next(s3);
        seq![
            (
                (offset_coord(s1) as i32, offset_coord(s2) as i32),
                (offset_coord(s3) as i32, offset_coord(s4) as i32),
            ),
        ] + gen_offsets(s4, k - 1)
    }
}

/// The fixed table of paired sample offsets: one pair per descriptor bit,
/// generated deterministically once and reused for every keypoint.
pub open spec fn brief_offsets_spec(len: int) -> Seq<((i32, i32), (i32, i32))> {
    gen_offsets(0x2545f491, len)
}

pub fn brief_offsets(len: usize) -> (r: Vec<((i32, i32), (i32, i32))>)
    ensures
        r@ == brief_offsets_spec(len as int),
        r@.len() == len,
        forall|k: int|
            0 <= k < len ==> {
                &&& -15 <= (#[trigger] r@[k]).0.0 <= 15
                &&& -15 <= r@[k].0.1 <= 15
                &&& -15 <= r@[k].1.0 <= 15
                &&& -15 <= r@[k].1.1 <= 15
            },
{
    let mut v: Vec<((i32, i32), (i32, i32))> = Vec::new();
    let mut state: u64 = 0x2545f491;
    let mut i: usize = 0;
    while i < len
        invariant
            0 <= i <= len,
            v@.len() == i,
            state < 0x80000000,
            brief_offsets_spec(len as int) == v@ + gen_offsets(state as int, len - i),
            forall|k: int|
                0 <= k < i ==> {
                    &&& -15 <= (#[trigger] v@[k]).0.0 <= 15
                    &&& -15 <= v@[k].0.1 <= 15
                    &&& -15 <= v@[k].1.0 <= 15
                    &&& -15 <= v@[k].1.1 <= 15
                },
        decreases len - i,
    {
        let ghost pre = v@;
        let ghost s0 = state as int;
        let s1: u64 = (state * 1103515245 + 12345) % 0x80000000;
        let s2: u64 = (s1 * 1103515245 + 12345) % 0x80000000;
        let s3: u64 = (s2 * 1103515245 + 12345) % 0x80000000;
        let s4: u64 = (s3 * 1103515245 + 12345) % 0x80000000;
        let c1: i32 = ((s1 / 0x10000) % 31) as i32 - 15;
        let c2: i32 = ((s2 / 0x10000) % 31) as i32 - 15;
        let c3: i32 = ((s3 / 0x10000) % 31) as i32 - 15;
        let c4: i32 = ((s4 / 0x10000) % 31) as i32 - 15;
        v.push(((c1, c2), (c3, c4)));
        state = s4;
        proof {
            assert(s1 as int == lcg_next(s0));
            assert(gen_offsets(s0, len - i) == seq![
                (
                    (offset_coord(s1 as int) as i32, offset_coord(s2 as int) as i32),
                    (offset_coord(s3 as int) as i32, offset_coord(s4 as int) as i32),
                ),
            ] + gen_offsets(s4 as int, len - (i + 1)));
            assert(v@ + gen_offsets(state as int, len - (i + 1)) =~= pre + gen_offsets(s0, len
                - i));
        }
        i += 1;
    }
    proof {
        assert(gen_offsets(state as int, 0) =~= Seq::<((i32, i32), (i32, i32))>::empty());
        assert(v@ + Seq::<((i32, i32), (i32, i32))>::empty() =~= v@);
    }
    v
}

/// The angle the descriptor builder steers by: the keypoint's rotation
/// snapped toward zero to a multiple of 12 degrees.
pub open spec fn quantized_angle(rot: int) -> int {
    rot - trunc_rem(rot, 12)
}

proof fn lemma_quantized_multiple(rot: int)
    ensures
        trunc_rem(quantized_angle(rot), 12) == 0,
        abs_i(quantized_angle(rot)) <= abs_i(rot),
{
    if rot >= 0 {
        vstd::arithmetic::div_mod::lemma_fundamental_div_mod(rot, 12);
        let q = rot - rot % 12;
        assert(q == 12 * (rot / 12));
        vstd::arithmetic::div_mod::lemma_mod_multiples_basic(rot / 12, 12);
        assert((12 * (rot / 12)) % 12 == 0) by {
            assert(12 * (rot / 12) == (rot / 12) * 12) by (nonlinear_arith);
        }
        vstd::arithmetic::div_mod::lemma_mod_bound(rot, 12);
    } else {
        let m = (-rot) % 12;
        vstd::arithmetic::div_mod::lemma_fundamental_div_mod(-rot, 12);
        vstd::arithmetic::div_mod::lemma_mod_bound(-rot, 12);
        let q = rot + m;
        assert(q == -(12 * ((-rot) / 12)));
        vstd::arithmetic::div_mod::lemma_mod_multiples_basic((-rot) / 12, 12);
        assert((12 * ((-rot) / 12)) % 12 == 0) by {
            assert(12 * ((-rot) / 12) == ((-rot) / 12) * 12) by (nonlinear_arith);
        }
        vstd::arithmetic::div_mod::lemma_div_is_ordered(0, -rot, 12);
    }
}

/// Clamping into `[0, hi]`, upper bound first, as sampling does at the
/// image border.
pub open spec fn clamp_to(v: int, hi: int) -> int {
    let m = if v < hi {
        v
    } else {
        hi
    };
    if m < 0 {
        0
    } else {
        m
    }
}

/// Horizontal displacement of an offset rotated by the quantized angle.
pub open spec fn steer_x(q: int, x0: int, y0: int) -> int {
    rdiv_fp(x0 * cos_q(q) - y0 * sin_q(q))
}

/// Vertical displacement of an offset rotated by the quantized angle.
pub open spec fn steer_y(q: int, x0: int, y0: int) -> int {
    rdiv_fp(x0 * sin_q(q) + y0 * cos_q(q))
}

/// One descriptor bit at location `(x, y)` under quantized angle `q`:
/// whether the intensity at the first steered, clamped sample strictly
/// exceeds the intensity at the second.
pub open spec fn brief_bit_at(
    img: GrayImage,
    x: int,
    y: int,
    q: int,
    pair: ((i32, i32), (i32, i32)),
) -> bool {
    let p1x = clamp_to(x + steer_x(q, pair.0.0 as int, pair.0.1 as int), img.width_spec() - 1);
    let p1y = clamp_to(y + steer_y(q, pair.0.0 as int, pair.0.1 as int), img.height_spec() - 1);
    let p2x = clamp_to(x + steer_x(q, pair.1.0 as int, pair.1.1 as int), img.width_spec() - 1);
    let p2y = clamp_to(y + steer_y(q, pair.1.0 as int, pair.1.1 as int), img.height_spec() - 1);
    img.pixel(p1x, p1y) > img.pixel(p2x, p2y)
}

/// The descriptor bit of a keypoint for one offset pair.
pub open spec fn brief_bit(
    img: GrayImage,
    kp: FastKeypoint,
    pair: ((i32, i32), (i32, i32)),
) -> bool {
    brief_bit_at(
        img,
        kp.location.0 as int,
        kp.location.1 as int,
        quantized_angle(kp.moment.rotation as int),
        pair,
    )
}

proof fn lemma_steer_term(a: int, c: int)
    requires
        -15 <= a <= 15,
        -0x4000 <= c <= 0x4000,
    ensures
        -0x3c000 <= a * c <= 0x3c000,
{
    assert(-0x3c000 <= a * c <= 0x3c000) by (nonlinear_arith)
        requires
            -15 <= a <= 15,
            -0x4000 <= c <= 0x4000,
    ;
}

/// Computes one descriptor bit with fixed-point steering.
fn brief_sample(
    blurred_img: &GrayImage,
    x: i32,
    y: i32,
    cos_a: i64,
    sin_a: i64,
    Ghost(q): Ghost<int>,
    pair: ((i32, i32), (i32, i32)),
) -> (r: bool)
    requires
        blurred_img.wf(),
        blurred_img.width_spec() >= 1 && blurred_img.height_spec() >= 1,
        abs_i(x as int) <= 0x40000000,
        abs_i(y as int) <= 0x40000000,
        cos_a == cos_q(q) && sin_a == sin_q(q),
        -180 <= q <= 180,
        trunc_rem(q, 12) == 0,
        -0x4000 <= cos_a <= 0x4000 && -0x4000 <= sin_a <= 0x4000,
        -15 <= pair.0.0 <= 15 && -15 <= pair.0.1 <= 15,
        -15 <= pair.1.0 <= 15 && -15 <= pair.1.1 <= 15,
    ensures
        r == brief_bit_at(*blurred_img, x as int, y as int, q, pair),
{
    proof {
        blurred_img.lemma_dims();
    }
    let width: i32 = blurred_img.width() as i32;
    let height: i32 = blurred_img.height() as i32;
    let ((x0, y0), (x1, y1)) = pair;
    proof {
        lemma_steer_term(x0 as int, cos_a as int);
        lemma_steer_term(x0 as int, sin_a as int);
        lemma_steer_term(y0 as int, cos_a as int);
        lemma_steer_term(y0 as int, sin_a as int);
        lemma_steer_term(x1 as int, cos_a as int);
        lemma_steer_term(x1 as int, sin_a as int);
        lemma_steer_term(y1 as int, cos_a as int);
        lemma_steer_term(y1 as int, sin_a as int);
    }
    let sx1 = rdiv_fixed((x0 as i64) * cos_a - (y0 as i64) * sin_a);
    let sy1 = rdiv_fixed((x0 as i64) * sin_a + (y0 as i64) * cos_a);
    let sx2 = rdiv_fixed((x1 as i64) * cos_a - (y1 as i64) * sin_a);
    let sy2 = rdiv_fixed((x1 as i64) * sin_a + (y1 as i64) * cos_a);
    let mut p1x: i32 = x + sx1 as i32;
    let mut p1y: i32 = y + sy1 as i32;
    let mut p2x: i32 = x + sx2 as i32;
    let mut p2y: i32 = y + sy2 as i32;
    if p1x > width - 1 {
        p1x = width - 1;
    }
    if p1x < 0 {
        p1x = 0;
    }
    if p2x > width - 1 {
        p2x = width - 1;
    }
    if p2x < 0 {
        p2x = 0;
    }
    if p1y > height - 1 {
        p1y = height - 1;
    }
    if p1y < 0 {
        p1y = 0;
    }
    if p2y > height - 1 {
        p2y = height - 1;
    }
    if p2y < 0 {
        p2y = 0;
    }
    let f1 = blurred_img.get_pixel(p1x as u32, p1y as u32);
    let f2 = blurred_img.get_pixel(p2x as u32, p2y as u32);
    f1 > f2
}

/// The set of set bits of a keypoint's descriptor.
pub open spec fn brief_bits_set(
    img: GrayImage,
    kp: FastKeypoint,
    table: Seq<((i32, i32), (i32, i32))>,
    len: int,
) -> Set<int> {
    Set::new(|i: int| 0 <= i < len && brief_bit(img, kp, table[i]))
}

pub open spec fn opt_brief_len(o: Option<usize>) -> int {
    match o {
        Option::Some(v) => v as int,
        Option::None => DEFAULT_BRIEF_LENGTH as int,
    }
}

/// The capacity a fresh bit vector of `len` bits reports: `len` rounded
/// up to a whole number of 64-bit words.
pub open spec fn cap_round(len: int) -> int {
    ((len + 63) / 64) * 64
}

/// What `brief` guarantees of each produced descriptor.
pub open spec fn brief_ensures(
    img: GrayImage,
    kps: Seq<FastKeypoint>,
    len: int,
    r: Seq<Brief>,
) -> bool {
    &&& r.len() == kps.len()
    &&& forall|k: int|
        0 <= k < r.len() ==> {
            &&& (#[trigger] r[k]).x == kps[k].location.0
            &&& r[k].y == kps[k].location.1
            &&& bv_cap(r[k].b) == cap_round(len)
            &&& bv_bits(r[k].b) == brief_bits_set(img, kps[k], brief_offsets_spec(len), len)
        }
}

/// Builds one binary descriptor per keypoint, in input order, by
/// comparing blurred intensities at the offset pairs of the shared table,
/// each pair rotated by the keypoint's quantized orientation and clamped
/// to the image.
/// Builds the descriptor bits of one keypoint against the offset table.
#[verifier::rlimit(100)]
fn brief_one(
    blurred_img: &GrayImage,
    kp: FastKeypoint,
    offsets: &Vec<((i32, i32), (i32, i32))>,
    brief_length: usize,
) -> (b: BitVector)
    requires
        blurred_img.wf(),
        blurred_img.width_spec() >= 1 && blurred_img.height_spec() >= 1,
        brief_length + 64 <= usize::MAX,
        offsets@ == brief_offsets_spec(brief_length as int),
        offsets@.len() == brief_length,
        forall|k2: int|
            0 <= k2 < brief_length ==> {
                &&& -15 <= (#[trigger] offsets@[k2]).0.0 <= 15
                &&& -15 <= offsets@[k2].0.1 <= 15
                &&& -15 <= offsets@[k2].1.0 <= 15
                &&& -15 <= offsets@[k2].1.1 <= 15
            },
        abs_i(kp.location.0 as int) <= 0x40000000,
        abs_i(kp.location.1 as int) <= 0x40000000,
        -180 <= kp.moment.rotation <= 180,
    ensures
        bv_cap(b) == cap_round(brief_length as int),
        bv_bits(b) == brief_bits_set(*blurred_img, kp, brief_offsets_spec(brief_length as int),
            brief_length as int),
{
    proof {
        blurred_img.lemma_dims();
    }
    let width: i32 = blurred_img.width() as i32;
    let height: i32 = blurred_img.height() as i32;
    let rotation = kp.moment.rotation;
    let q = round_angle(rotation, 12);
    proof {
        lemma_quantized_multiple(rotation as int);
    }
    let (cos_a, sin_a) = cos_sin_q(q);
    let x = kp.location.0;
    let y = kp.location.1;
    let mut bit_vec = bv_new(brief_length);
    proof {
        vstd::arithmetic::div_mod::lemma_fundamental_div_mod((brief_length + 63) as int, 64);
        assert(bv_cap(bit_vec) >= brief_length);
    }
    let mut i: usize = 0;
    while i < brief_length
        invariant
            blurred_img.wf(),
            blurred_img.width_spec() >= 1 && blurred_img.height_spec() >= 1,
            offsets@ == brief_offsets_spec(brief_length as int),
            offsets@.len() == brief_length,
            forall|k2: int|
                0 <= k2 < brief_length ==> {
                    &&& -15 <= (#[trigger] offsets@[k2]).0.0 <= 15
                    &&& -15 <= offsets@[k2].0.1 <= 15
                    &&& -15 <= offsets@[k2].1.0 <= 15
                    &&& -15 <= offsets@[k2].1.1 <= 15
                },
            abs_i(x as int) <= 0x40000000,
            abs_i(y as int) <= 0x40000000,
            x == kp.location.0 && y == kp.location.1,
            q as int == quantized_angle(kp.moment.rotation as int),
            -180 <= q <= 180,
            trunc_rem(q as int, 12) == 0,
            cos_a == cos_q(q as int) && sin_a == sin_q(q as int),
            -0x4000 <= cos_a <= 0x4000 && -0x4000 <= sin_a <= 0x4000,
            0 <= i <= brief_length,
            bv_cap(bit_vec) == cap_round(brief_length as int),
            bv_cap(bit_vec) >= brief_length,
            bv_bits(bit_vec) == brief_bits_set(*blurred_img, kp, brief_offsets_spec(
                brief_length as int), i as int),
        decreases brief_length - i,
    {
        let pair = offsets[i];
        let brief_feature = brief_sample(blurred_img, x, y, cos_a, sin_a, Ghost(q as int), pair);
        if brief_feature {
            bv_insert(&mut bit_vec, i);
        }
        proof {
            assert(brief_feature == brief_bit(*blurred_img, kp, pair));
            assert(bv_bits(bit_vec) =~= brief_bits_set(*blurred_img, kp, brief_offsets_spec(
                brief_length as int), i as int + 1));
        }
        i += 1;
    }
    bit_vec
}

/// Builds one binary descriptor per keypoint, in input order, by
/// comparing blurred intensities at the offset pairs of the shared table,
/// each pair rotated by the keypoint's quantized orientation and clamped
/// to the image.
pub fn brief(blurred_img: &GrayImage, vec: &Vec<FastKeypoint>, brief_length: Option<usize>) -> (r:
    Vec<Brief>)
    requires
        blurred_img.wf(),
        vec@.len() > 0 ==> blurred_img.width_spec() >= 1 && blurred_img.height_spec() >= 1,
        opt_brief_len(brief_length) + 64 <= usize::MAX,
        forall|k: int|
            0 <= k < vec@.len() ==> {
                &&& abs_i((#[trigger] vec@[k]).location.0 as int) <= 0x40000000
                &&& abs_i(vec@[k].location.1 as int) <= 0x40000000
                &&& -180 <= vec@[k].moment.rotation <= 180
            },
    ensures
        brief_ensures(*blurred_img, vec@, opt_brief_len(brief_length), r@),
{
    let brief_length: usize = match brief_length {
        Option::Some(v) => v,
        Option::None => DEFAULT_BRIEF_LENGTH,
    };
    let offsets = brief_offsets(brief_length);
    let mut out: Vec<Brief> = Vec::new();
    let mut k: usize = 0;
    let klen = vec.len();
    while k < klen
        invariant
            blurred_img.wf(),
            klen == vec@.len(),
            klen > 0 ==> blurred_img.width_spec() >= 1 && blurred_img.height_spec() >= 1,
            brief_length + 64 <= usize::MAX,
            offsets@ == brief_offsets_spec(brief_length as int),
            offsets@.len() == brief_length,
            forall|k2: int|
                0 <= k2 < brief_length ==> {
                    &&& -15 <= (#[trigger] offsets@[k2]).0.0 <= 15
                    &&& -15 <= offsets@[k2].0.1 <= 15
                    &&& -15 <= offsets@[k2].1.0 <= 15
                    &&& -15 <= offsets@[k2].1.1 <= 15
                },
            forall|k2: int|
                0 <= k2 < klen ==> {
                    &&& abs_i((#[trigger] vec@[k2]).location.0 as int) <= 0x40000000
                    &&& abs_i(vec@[k2].location.1 as int) <= 0x40000000
                    &&& -180 <= vec@[k2].moment.rotation <= 180
                },
            0 <= k <= klen,
            out@.len() == k,
            forall|k2: int|
                0 <= k2 < k ==> {
                    &&& (#[trigger] out@[k2]).x == vec@[k2].location.0
                    &&& out@[k2].y == vec@[k2].location.1
                    &&& bv_cap(out@[k2].b) == cap_round(brief_length as int)
                    &&& bv_bits(out@[k2].b) == brief_bits_set(*blurred_img, vec@[k2],
                        brief_offsets_spec(brief_length as int), brief_length as int)
                },
        decreases klen - k,
    {
        let kp = vec[k];
        let bit_vec = brief_one(blurred_img, kp, &offsets, brief_length);
        out.push(Brief { x: kp.location.0, y: kp.location.1, b: bit_vec });
        k += 1;
    }
    out
}

/// The pairs `match_brief` reports for indices `i` and upward of the
/// first set: the closest index of the second set under the left-to-right
/// minimum scan, kept only when its distance is strictly below 50.
/// Unlike the greedy index assignment, an index of the second set may be
/// reused by several entries of the first.
pub open spec fn match_brief_from(s1: Seq<Brief>, s2: Seq<Brief>, i: int) -> Seq<IndexMatch>
    decreases s1.len() - i,
{
    if i < 0 || i >= s1.len() {
        Seq::empty()
    } else {
        let best = scan_best(s1[i], s2, Set::<int>::empty(), 0, usize::MAX as int, 0);
        let rest = match_brief_from(s1, s2, i + 1);
        if best.0 < 50 {
            seq![(i as usize, best.1 as usize)] + rest
        } else {
            rest
        }
    }
}

/// For every descriptor of the first set, scans the whole second set for
/// the closest descriptor by Hamming distance (first minimum wins) and
/// reports the pair when the distance is strictly below 50.
pub fn match_brief(img1_keypoints: &Vec<Brief>, img2_keypoints: &Vec<Brief>) -> (r: Vec<
    IndexMatch>)
    ensures
        r@ == match_brief_from(img1_keypoints@, img2_keypoints@, 0),
{
    let mut pair_indices: Vec<IndexMatch> = Vec::new();
    let len1 = img1_keypoints.len();
    let len2 = img2_keypoints.len();
    let mut i: usize = 0;
    while i < len1
        invariant
            len1 == img1_keypoints@.len(),
            len2 == img2_keypoints@.len(),
            0 <= i <= len1,
            match_brief_from(img1_keypoints@, img2_keypoints@, 0) == pair_indices@
                + match_brief_from(img1_keypoints@, img2_keypoints@, i as int),
        decreases len1 - i,
    {
        let ghost pre = pair_indices@;
        let mut best_match_index: usize = 0;
        let mut best_distance: usize = usize::MAX;
        let mut j: usize = 0;
        while j < len2
            invariant
                len1 == img1_keypoints@.len(),
                len2 == img2_keypoints@.len(),
                0 <= i < len1,
                0 <= j <= len2,
                best_match_index < len2 || best_match_index == 0,
                scan_best(img1_keypoints@[i as int], img2_keypoints@, Set::<int>::empty(), 0,
                    usize::MAX as int, 0) == scan_best(img1_keypoints@[i as int],
                    img2_keypoints@, Set::<int>::empty(), j as int, best_distance as int,
                    best_match_index as int),
            decreases len2 - j,
        {
            let distance = img1_keypoints[i].distance(&img2_keypoints[j]);
            if distance < best_distance {
                best_distance = distance;
                best_match_index = j;
            }
            j += 1;
        }
        if best_distance < 50 {
            pair_indices.push((i, best_match_index));
        }
        proof {
            let best = scan_best(img1_keypoints@[i as int], img2_keypoints@, Set::<int>::empty(),
                0, usize::MAX as int, 0);
            assert(best == (best_distance as int, best_match_index as int));
            if best_distance < 50 {
                assert(pair_indices@ + match_brief_from(img1_keypoints@, img2_keypoints@, i as int
                    + 1) =~= pre + (seq![(i, best_match_index)] + match_brief_from(
                    img1_keypoints@, img2_keypoints@, i as int + 1)));
            }
        }
        i += 1;
    }
    proof {
        assert(match_brief_from(img1_keypoints@, img2_keypoints@, i as int) =~= Seq::<
            IndexMatch,
        >::empty());
        assert(pair_indices@ + Seq::<IndexMatch>::empty() =~= pair_indices@);
    }
    pair_indices
}

/// Whether the descriptor belongs to one of the detected keypoints: its
/// location and bits are those of a keypoint of the set.
pub open spec fn descriptor_of_detected(
    d: Brief,
    detected: Seq<FastKeypoint>,
    blurred: GrayImage,
) -> bool {
    exists|kp: FastKeypoint|
        {
            &&& #[trigger] detected.contains(kp)
            &&& d.x == kp.location.0
            &&& d.y == kp.location.1
            &&& bv_bits(d.b) == brief_bits_set(blurred, kp, brief_offsets_spec(256), 256)
        }
}

/// Detects corners with the default pattern and threshold, suppresses
/// them to `n` keypoints, and describes each against the pre-blurred
/// image.  When `n` exceeds the number of detections the result is empty.
pub fn orb(img: &GrayImage, blurred_img: &GrayImage, n: usize) -> (r: Vec<Brief>)
    requires
        img.wf(),
        blurred_img.wf(),
        blurred_img.width_spec() == img.width_spec(),
        blurred_img.height_spec() == img.height_spec(),
        n >= 1,
    ensures
        ({
            let detected = detect_spec(*img, 50, offsets16(), idx16(), cmp16(), 4);
            &&& n > detected.len() ==> r@.len() == 0
            &&& n <= detected.len() ==> r@.len() == n
            &&& forall|k: int|
                0 <= k < r@.len() ==> {
                    &&& bv_cap((#[trigger] r@[k]).b) == 256
                    &&& descriptor_of_detected(r@[k], detected, *blurred_img)
                }
        }),
{
    proof {
        img.lemma_dims();
    }
    let mut keypoints: Vec<FastKeypoint> = fast(img, Option::None, Option::None);
    let ghost detected = detect_spec(*img, 50, offsets16(), idx16(), cmp16(), 4);
    proof {
        assert(keypoints@.to_multiset() == detected.to_multiset());
        assert(keypoints@.to_multiset().len() == keypoints@.len());
        assert(detected.to_multiset().len() == detected.len());
        assert(keypoints@.len() == detected.len());
        assert(forall|a: int, b: int|
            0 <= a < keypoints@.len() && 0 <= b < keypoints@.len() ==> keypoints@[a].dist_req(
                &keypoints@[b],
            ));
    }
    let suppressed = adaptive_nonmax_suppression(&mut keypoints, n);
    proof {
        crate::fast::lemma_detect_from_props(*img, 50, offsets16(), idx16(), cmp16(), 4, 4);
        if n <= detected.len() {
            assert(keypoints@.to_multiset() == detected.to_multiset());
            assert(forall|k: int|
                0 <= k < suppressed@.len() ==> keypoints@.contains(#[trigger] suppressed@[k]))
                by {
                assert(forall|k: int|
                    0 <= k < suppressed@.len() ==> suppressed@[k] == keypoints@[k]);
            }
            assert(forall|k: int|
                0 <= k < suppressed@.len() ==> detected.to_multiset().contains(
                    #[trigger] suppressed@[k],
                ));
            assert(forall|k: int|
                0 <= k < suppressed@.len() ==> detected.contains(#[trigger] suppressed@[k]));
        }
    }
    proof {
        if suppressed@.len() > 0 {
            assert(n <= detected.len());
            let kp0 = suppressed@[0];
            assert(detected.contains(kp0));
            assert(0 <= kp0.location.0 < img.width_spec());
            assert(blurred_img.width_spec() >= 1 && blurred_img.height_spec() >= 1);
        }
    }
    let brief_descriptors = brief(blurred_img, &suppressed, Option::None);
    proof {
        assert(cap_round(256) == 256);
        assert forall|k: int|
            0 <= k < brief_descriptors@.len() implies #[trigger] descriptor_of_detected(
            brief_descriptors@[k],
            detected,
            *blurred_img,
        ) by {
            let kp = suppressed@[k];
            assert(detected.contains(kp));
            assert(brief_descriptors@[k].x == kp.location.0);
        }
    }
    brief_descriptors
}


/// With the orientation quantized to zero degrees, a descriptor bit is a
/// pure function of pixel comparisons at the fixed offset table: bit `i`
/// is set exactly when the intensity at the keypoint plus the pair's
/// first offset (clamped to the image) strictly exceeds the intensity at
/// the keypoint plus the second offset.  Since the table and the image
/// are fixed, rebuilding the descriptor can only produce the same bits.
pub proof fn lemma_brief_bit_unrotated(
    img: GrayImage,
    kp: FastKeypoint,
    pair: ((i32, i32), (i32, i32)),
)
    requires
        quantized_angle(kp.moment.rotation as int) == 0,
    ensures
        brief_bit(img, kp, pair) == (img.pixel(
            clamp_to(kp.location.0 + pair.0.0, img.width_spec() - 1),
            clamp_to(kp.location.1 + pair.0.1, img.height_spec() - 1),
        ) > img.pixel(
            clamp_to(kp.location.0 + pair.1.0, img.width_spec() - 1),
            clamp_to(kp.location.1 + pair.1.1, img.height_spec() - 1),
        )),
{
    assert(cos_q(0) == 0x4000);
    assert(sin_q(0) == 0);
    lemma_steer_identity(pair.0.0 as int, pair.0.1 as int);
    lemma_steer_identity(pair.1.0 as int, pair.1.1 as int);
}

/// At angle zero the fixed-point rotation is the identity.
proof fn lemma_steer_identity(x0: int, y0: int)
    ensures
        steer_x(0, x0, y0) == x0,
        steer_y(0, x0, y0) == y0,
{
    assert(cos_q(0) == 0x4000);
    assert(sin_q(0) == 0);
    assert(x0 * 0x4000 - y0 * 0 == x0 * 0x4000) by (nonlinear_arith);
    assert(x0 * 0 + y0 * 0x4000 == y0 * 0x4000) by (nonlinear_arith);
    lemma_rdiv_exact(x0);
    lemma_rdiv_exact(y0);
}

proof fn lemma_rdiv_exact(a: int)
    ensures
        rdiv_fp(a * 0x4000) == a,
{
    if a >= 0 {
        assert(a * 0x4000 >= 0) by (nonlinear_arith)
            requires
                a >= 0,
        ;
        assert(a * 0x4000 + 0x2000 == a * 0x4000 + 0x2000);
        vstd::arithmetic::div_mod::lemma_fundamental_div_mod_converse(
            a * 0x4000 + 0x2000,
            0x4000,
            a,
            0x2000,
        );
    } else {
        assert(a * 0x4000 < 0) by (nonlinear_arith)
            requires
                a < 0,
        ;
        assert(-(a * 0x4000) == (-a) * 0x4000) by (nonlinear_arith);
        vstd::arithmetic::div_mod::lemma_fundamental_div_mod_converse(
            (-a) * 0x4000 + 0x2000,
            0x4000,
            -a,
            0x2000,
        );
    }
}


/// The two 3x3 gradient kernels.
#[derive(Debug, Clone, Copy, PartialEq, Eq, Structural)]
pub enum SobelFilter {
    X,
    Y,
}

/// The signed 3x3 convolution of the chosen kernel at `(x, y)`.
pub open spec fn sobel_raw(img: GrayImage, f: SobelFilter, x: int, y: int) -> int {
    match f {
        SobelFilter::X => ((img.pixel(x + 1, y - 1) as int) + 2 * (img.pixel(x + 1, y) as int) + (
        img.pixel(x + 1, y + 1) as int)) - ((img.pixel(x - 1, y - 1) as int) + 2 * (img.pixel(
            x - 1,
            y,
        ) as int) + (img.pixel(x - 1, y + 1) as int)),
        SobelFilter::Y => ((img.pixel(x - 1, y - 1) as int) + 2 * (img.pixel(x, y - 1) as int) + (
        img.pixel(x + 1, y - 1) as int)) - ((img.pixel(x - 1, y + 1) as int) + 2 * (img.pixel(
            x,
            y + 1,
        ) as int) + (img.pixel(x + 1, y + 1) as int)),
    }
}

/// What the gradient sampler returns: the absolute convolution reduced
/// modulo 256.  The byte cast wraps before any clamp could bite, so a
/// gradient past 255 folds around instead of saturating; that behavior
/// is deliberate and kept.
pub open spec fn sobel_spec(img: GrayImage, f: SobelFilter, x: int, y: int) -> int {
    abs_i(sobel_raw(img, f, x, y)) % 256
}

/// Samples the gradient magnitude of one interior pixel.
pub fn sobel(img: &GrayImage, filter: SobelFilter, x: i32, y: i32) -> (r: u8)
    requires
        img.wf(),
        1 <= x && (x as int) + 1 < img.width_spec(),
        1 <= y && (y as int) + 1 < img.height_spec(),
    ensures
        r as int == sobel_spec(*img, filter, x as int, y as int),
{
    proof {
        img.lemma_dims();
    }
    let sum: i32 = match filter {
        SobelFilter::X => {
            (img.get_pixel((x + 1) as u32, (y - 1) as u32) as i32 + 2 * (img.get_pixel(
                (x + 1) as u32,
                y as u32,
            ) as i32) + img.get_pixel((x + 1) as u32, (y + 1) as u32) as i32) - (img.get_pixel(
                (x - 1) as u32,
                (y - 1) as u32,
            ) as i32 + 2 * (img.get_pixel((x - 1) as u32, y as u32) as i32) + img.get_pixel(
                (x - 1) as u32,
                (y + 1) as u32,
            ) as i32)
        },
        SobelFilter::Y => {
            (img.get_pixel((x - 1) as u32, (y - 1) as u32) as i32 + 2 * (img.get_pixel(
                x as u32,
                (y - 1) as u32,
            ) as i32) + img.get_pixel((x + 1) as u32, (y - 1) as u32) as i32) - (img.get_pixel(
                (x - 1) as u32,
                (y + 1) as u32,
            ) as i32 + 2 * (img.get_pixel(x as u32, (y + 1) as u32) as i32) + img.get_pixel(
                (x + 1) as u32,
                (y + 1) as u32,
            ) as i32)
        },
    };
    let magnitude: i32 = if sum < 0 {
        -sum
    } else {
        sum
    };
    (magnitude % 256) as u8
}

/// The pixel the gradient image holds: the vertical-kernel magnitude on
/// the interior, zero on the one-pixel border.
pub open spec fn sobel_image_pixel(img: GrayImage, x: int, y: int) -> int {
    if 1 <= x && x + 1 < img.width_spec() && 1 <= y && y + 1 < img.height_spec() {
        sobel_spec(img, SobelFilter::Y, x, y)
    } else {
        0
    }
}

/// Builds the vertical-gradient image of the input: same shape, interior
/// pixels hold the kernel magnitude, the border stays zero.
pub fn create_sobel_image(img: &GrayImage) -> (r: GrayImage)
    requires
        img.wf(),
    ensures
        r.wf(),
        r.width_spec() == img.width_spec(),
        r.height_spec() == img.height_spec(),
        forall|x: int, y: int|
            0 <= x < img.width_spec() && 0 <= y < img.height_spec() ==> r.pixel(x, y)
                == sobel_image_pixel(*img, x, y),
{
    proof {
        img.lemma_dims();
    }
    let w = img.width();
    let h = img.height();
    let mut data: Vec<u8> = Vec::new();
    let mut y: u32 = 0;
    while y < h
        invariant
            img.wf(),
            w == img.width_spec() && h == img.height_spec(),
            w <= 0x10000 && h <= 0x10000,
            0 <= y <= h,
            data@.len() == (y as int) * (w as int),
            forall|b: int, a: int|
                0 <= b < y && 0 <= a < w ==> data@[b * (w as int) + a] == sobel_image_pixel(
                    *img,
                    a,
                    b,
                ),
        decreases h - y,
    {
        let mut x: u32 = 0;
        while x < w
            invariant
                img.wf(),
                w == img.width_spec() && h == img.height_spec(),
                w <= 0x10000 && h <= 0x10000,
                0 <= y < h,
                0 <= x <= w,
                data@.len() == (y as int) * (w as int) + x as int,
                forall|b: int, a: int|
                    0 <= b < y && 0 <= a < w ==> data@[b * (w as int) + a] == sobel_image_pixel(
                        *img,
                        a,
                        b,
                    ),
                forall|a: int|
                    0 <= a < x ==> data@[(y as int) * (w as int) + a] == sobel_image_pixel(
                        *img,
                        a,
                        y as int,
                    ),
            decreases w - x,
        {
            let px: u8 = if x >= 1 && x + 1 < w && y >= 1 && y + 1 < h {
                sobel(img, SobelFilter::Y, x as i32, y as i32)
            } else {
                0
            };
            data.push(px);
            proof {
                assert forall|b: int, a: int|
                    0 <= b < y && 0 <= a < w implies #[trigger] (b * (w as int) + a) < (y as int)
                    * (w as int) by {
                    assert(b * (w as int) + a < (y as int) * (w as int)) by (nonlinear_arith)
                        requires
                            0 <= b < y as int,
                            0 <= a < w as int,
                    ;
                }
            }
            x += 1;
        }
        proof {
            assert((y as int + 1) * (w as int) == (y as int) * (w as int) + (w as int))
                by (nonlinear_arith);
        }
        y += 1;
    }
    proof {
        assert((h as int) * (w as int) == (w as int) * (h as int)) by (nonlinear_arith);
    }
    let r = crate::gray::GrayImage::new(w, h, data);
    proof {
        assert forall|x: int, y2: int|
            0 <= x < img.width_spec() && 0 <= y2 < img.height_spec() implies r.pixel(x, y2)
            == sobel_image_pixel(*img, x, y2) by {
            assert(r.pixel(x, y2) == data@[y2 * (w as int) + x]);
        }
    }
    r
}

} // verus!
