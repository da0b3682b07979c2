use orb_features::common::{adaptive_nonmax_suppression, match_indices, Matchable};
use orb_features::fast::{fast, fast_pixel_score, moment_centroid, FastKeypoint, FastType, Moment};
use orb_features::gray::GrayImage;
use orb_features::orb::{brief, match_brief, orb, Brief};

fn uniform_image(w: u32, h: u32, v: u8) -> GrayImage {
    GrayImage::new(w, h, vec![v; (w * h) as usize])
}

fn keypoint_at(x: i32, y: i32, score: i32) -> FastKeypoint {
    FastKeypoint {
        location: (x, y),
        score,
        nms_dist: 0,
        moment: Moment { centroid: (x, y), moment: (x, y), rotation: 0 },
    }
}

/// A textured background whose local contrast stays below the detection
/// threshold, with a list of bright dots stamped on top.
fn textured_image(w: u32, h: u32, dots: &[(u32, u32)]) -> GrayImage {
    let mut data = vec![0u8; (w * h) as usize];
    for y in 0..h {
        for x in 0..w {
            data[(y * w + x) as usize] = (100 + (x * 7 + y * 13) % 50) as u8;
        }
    }
    for &(x, y) in dots {
        data[(y * w + x) as usize] = 255;
    }
    GrayImage::new(w, h, data)
}

#[test]
fn uniform_gray_image_yields_no_corners() {
    // A 20x20 uniform image of intensity 128 at threshold 50 with the
    // 16-sample pattern detects nothing.
    let img = uniform_image(20, 20, 128);
    let kps = fast(&img, Some(FastType::TYPE_9_16), Some(50));
    assert!(kps.is_empty());
}

#[test]
fn uniform_image_empty_for_both_patterns_any_threshold() {
    let img = uniform_image(24, 24, 77);
    assert!(fast(&img, Some(FastType::TYPE_9_16), Some(1)).is_empty());
    assert!(fast(&img, Some(FastType::TYPE_7_12), Some(1)).is_empty());
    assert!(fast(&img, None, None).is_empty());
}

#[test]
fn square_corner_scores_above_background() {
    // A 3x3 bright square on a uniform background: its corner pixel is
    // scored, while an interior background pixel is rejected as flat.
    let mut data = vec![128u8; 400];
    for y in 8..=10u32 {
        for x in 8..=10u32 {
            data[(y * 20 + x) as usize] = 255;
        }
    }
    let img = GrayImage::new(20, 20, data);
    let ctx = FastType::TYPE_9_16.get_context();
    let corner = fast_pixel_score(&img, &ctx, 50, 8, 8);
    let background = fast_pixel_score(&img, &ctx, 50, 5, 5);
    assert!(corner.is_some());
    assert!(corner.unwrap() > 0);
    assert!(background.is_none());

    let kps = fast(&img, Some(FastType::TYPE_9_16), Some(50));
    assert!(kps.iter().any(|k| k.location == (8, 8) && k.score > 0));
    assert!(!kps.iter().any(|k| k.location == (5, 5)));
}

#[test]
fn small_image_yields_empty_detection() {
    let img = uniform_image(6, 6, 9);
    assert!(fast(&img, Some(FastType::TYPE_9_16), Some(50)).is_empty());
}

#[test]
fn moment_of_flat_patch_sits_on_query_point() {
    // On a flat patch fully inside the image the weighted centroid is
    // the queried point itself.
    let img = uniform_image(20, 20, 128);
    let m = moment_centroid(&img, &(10, 10), None);
    assert_eq!(m.centroid, (10, 10));
    assert_eq!(m.moment, (10, 10));
}

#[test]
fn moment_of_border_patch_uses_sentinel_sums() {
    // A patch that would cross the border uses the sentinel value 1 for
    // all three sums, so the stored centroid is (1, 1) and the direction
    // is that of the vector (x - 1, y - 1).
    let img = uniform_image(20, 20, 128);
    let m = moment_centroid(&img, &(0, 0), None);
    assert_eq!(m.moment, (1, 1));
    assert_eq!(m.rotation, -135);
}

#[test]
fn match_indices_is_a_bijection_on_equal_lengths() {
    let a = vec![keypoint_at(0, 0, 1), keypoint_at(10, 0, 1)];
    let b = vec![keypoint_at(9, 0, 1), keypoint_at(1, 0, 1)];
    let pairs = match_indices(&a, &b);
    assert_eq!(pairs, vec![(0, 1), (1, 0)]);

    let a3 = vec![keypoint_at(0, 0, 1), keypoint_at(10, 0, 1), keypoint_at(20, 0, 1)];
    let pairs3 = match_indices(&a3, &b);
    assert!(pairs3.is_empty());
}

#[test]
fn match_indices_claims_each_index_once() {
    // Both entries of the first set are closest to index 0 of the second,
    // but a claimed index is retired, so the second entry gets index 1.
    let a = vec![keypoint_at(0, 0, 1), keypoint_at(1, 0, 1)];
    let b = vec![keypoint_at(2, 0, 1), keypoint_at(100, 0, 1)];
    let pairs = match_indices(&a, &b);
    assert_eq!(pairs, vec![(0, 0), (1, 1)]);
}

#[test]
fn suppression_with_oversized_target_is_empty() {
    let mut v = vec![keypoint_at(0, 0, 5), keypoint_at(3, 0, 4)];
    let kept = adaptive_nonmax_suppression(&mut v, 3);
    assert!(kept.is_empty());
}

#[test]
fn suppression_with_full_target_is_a_permutation() {
    let mut v = vec![
        keypoint_at(0, 0, 9),
        keypoint_at(100, 0, 8),
        keypoint_at(1, 0, 7),
        keypoint_at(50, 0, 6),
    ];
    let kept = adaptive_nonmax_suppression(&mut v, 4);
    assert_eq!(kept.len(), 4);
    for score in [9, 8, 7, 6] {
        assert_eq!(kept.iter().filter(|k| k.score == score).count(), 1);
    }
}

#[test]
fn suppression_reorders_by_proximity_to_earlier_entries() {
    let mut v = vec![
        keypoint_at(0, 0, 9),
        keypoint_at(100, 0, 8),
        keypoint_at(1, 0, 7),
        keypoint_at(50, 0, 6),
    ];
    let kept = adaptive_nonmax_suppression(&mut v, 2);
    assert_eq!(kept[0].location, (100, 0));
    assert_eq!(kept[1].location, (1, 0));
}

#[test]
fn brief_is_deterministic_for_fixed_input() {
    // Re-running the descriptor builder on identical input yields
    // bit-identical descriptors.
    let img = textured_image(48, 48, &[(20, 20)]);
    let kps = vec![keypoint_at(20, 20, 100)];
    let d1 = brief(&img, &kps, None);
    let d2 = brief(&img, &kps, None);
    assert_eq!(d1.len(), 1);
    assert_eq!(d2.len(), 1);
    assert_eq!(d1[0].x, 20);
    assert_eq!(d1[0].y, 20);
    assert_eq!(d1[0].distance(&d2[0]), 0);
    for i in 0..256 {
        assert_eq!(d1[0].b.contains(i), d2[0].b.contains(i));
    }
}

#[test]
fn brief_bits_match_pixel_comparisons_at_zero_rotation() {
    // With rotation locked to zero the bits are plain pixel comparisons
    // at the fixed offset table, reproduced here from the generator.
    let img = textured_image(48, 48, &[]);
    let kps = vec![keypoint_at(24, 24, 1)];
    let d = brief(&img, &kps, None);
    let mut state: u64 = 0x2545f491;
    let mut draw = |s: &mut u64| -> i32 {
        *s = (*s * 1103515245 + 12345) % 0x8000_0000;
        ((*s / 0x10000) % 31) as i32 - 15
    };
    for i in 0..256usize {
        let x0 = draw(&mut state);
        let y0 = draw(&mut state);
        let x1 = draw(&mut state);
        let y1 = draw(&mut state);
        let p = |dx: i32, dy: i32| -> u8 {
            let px = (24 + dx).clamp(0, 47) as u32;
            let py = (24 + dy).clamp(0, 47) as u32;
            img.get_pixel(px, py)
        };
        let expected = p(x0, y0) > p(x1, y1);
        assert_eq!(d[0].b.contains(i), expected, "bit {}", i);
    }
}

#[test]
fn hamming_distance_counts_differing_bits() {
    let mut b1 = bitvector::BitVector::new(256);
    let mut b2 = bitvector::BitVector::new(256);
    for i in 0..10 {
        b1.insert(i);
    }
    for i in 5..15 {
        b2.insert(i);
    }
    let d1 = Brief { x: 0, y: 0, b: b1 };
    let d2 = Brief { x: 0, y: 0, b: b2 };
    assert_eq!(d1.distance(&d2), 10);
    assert_eq!(d2.distance(&d1), 10);
    assert_eq!(d1.distance(&d1), 0);
}

#[test]
fn match_brief_keeps_only_close_pairs_and_reuses_indices() {
    let far = {
        let mut b = bitvector::BitVector::new(256);
        for i in 0..80 {
            b.insert(i);
        }
        b
    };
    let near = {
        let mut b = bitvector::BitVector::new(256);
        for i in 0..10 {
            b.insert(i);
        }
        b
    };
    let empty1 = bitvector::BitVector::new(256);
    let empty2 = bitvector::BitVector::new(256);
    let a = vec![
        Brief { x: 0, y: 0, b: empty1 },
        Brief { x: 1, y: 0, b: bitvector::BitVector::new(256) },
    ];
    let b = vec![Brief { x: 9, y: 0, b: far }, Brief { x: 7, y: 0, b: near }];
    let pairs = match_brief(&a, &b);
    // Distance to index 0 is 80 (over threshold), to index 1 is 10: both
    // entries of the first set match index 1, which may be reused.
    assert_eq!(pairs, vec![(0, 1), (1, 1)]);
    let none = match_brief(&vec![Brief { x: 0, y: 0, b: empty2 }], &vec![]);
    assert!(none.is_empty());
}

#[test]
fn translated_image_matches_report_the_translation() {
    // Two images differing by a known 2-pixel horizontal translation:
    // the matched descriptor pairs must report that translation.
    let dots = [(16u32, 16u32), (28, 16), (16, 30), (28, 30), (22, 22), (20, 28)];
    let img1 = textured_image(48, 48, &dots);
    let mut data2 = vec![0u8; 48 * 48];
    for y in 0..48u32 {
        for x in 0..48u32 {
            let v = if x >= 2 { img1.get_pixel(x - 2, y) } else { 100 };
            data2[(y * 48 + x) as usize] = v;
        }
    }
    let img2 = GrayImage::new(48, 48, data2);
    let d1 = orb(&img1, &img1, 6);
    let d2 = orb(&img2, &img2, 6);
    assert_eq!(d1.len(), 6);
    assert_eq!(d2.len(), 6);
    let pairs = match_brief(&d1, &d2);
    assert!(!pairs.is_empty());
    let good = pairs
        .iter()
        .filter(|&&(i, j)| {
            let dx = d2[j].x - d1[i].x;
            let dy = d2[j].y - d1[i].y;
            (dx - 2).abs() <= 2 && dy.abs() <= 2
        })
        .count();
    assert!(2 * good > pairs.len(), "majority of {} pairs must match the translation", pairs.len());
}

#[test]
fn orb_with_oversized_target_is_empty() {
    let img = uniform_image(20, 20, 128);
    let descriptors = orb(&img, &img, 5);
    assert!(descriptors.is_empty());
}

#[test]
fn brief_respects_a_custom_bit_length() {
    let img = textured_image(48, 48, &[(20, 20)]);
    let kps = vec![keypoint_at(20, 20, 100)];
    let d = brief(&img, &kps, Some(64));
    assert_eq!(d.len(), 1);
    assert_eq!(d[0].b.capacity(), 64);
    // No bit beyond the requested length is ever set.
    for i in 64..256 {
        assert!(!d[0].b.contains(i));
    }
}

#[test]
fn twelve_sample_pattern_detects_an_isolated_dot() {
    let img = textured_image(32, 32, &[(16, 16)]);
    let kps = fast(&img, Some(FastType::TYPE_7_12), Some(50));
    assert!(kps.iter().any(|k| k.location == (16, 16)));
    // Scores are ordered strongest first.
    for w in kps.windows(2) {
        assert!(w[0].score >= w[1].score);
    }
}
