use vorbis_core::floor::Floor1;
use vorbis_core::floor1_curve::{floor1_curve, floor1_final_y, floor1_synthesis, render_point};

fn floor_with(xs: Vec<u32>, multiplier: u8, range_bits: u8) -> Floor1 {
    Floor1 { partition_classes: vec![], classes: vec![], multiplier, range_bits, xs }
}

#[test]
fn render_point_values() {
    assert_eq!(render_point(0, 10, 10, 20, 5), 15);
    assert_eq!(render_point(0, 20, 10, 10, 5), 15);
    assert_eq!(render_point(0, 0, 3, 10, 1), 3);
    assert_eq!(render_point(0, 10, 3, 0, 1), 7);
    assert_eq!(render_point(4, 9, 8, 9, 6), 9);
}

#[test]
fn final_y_prediction_and_offsets() {
    let f = floor_with(vec![0, 64, 32], 1, 6);
    let (fy, active) = floor1_final_y(&f, &vec![10, 50, 0]);
    assert_eq!(fy, vec![10, 50, 30]);
    assert_eq!(active, vec![true, true, false]);
    let (fy, active) = floor1_final_y(&f, &vec![10, 50, 4]);
    assert_eq!(fy, vec![10, 50, 32]);
    assert_eq!(active, vec![true, true, true]);
    let (fy, _) = floor1_final_y(&f, &vec![10, 50, 3]);
    assert_eq!(fy[2], 28);
}

#[test]
fn final_y_clipped_to_range() {
    let f = floor_with(vec![0, 64, 32], 4, 6);
    let (fy, _) = floor1_final_y(&f, &vec![100, 5, 0]);
    assert_eq!(fy[0], 63);
    let (fy, _) = floor1_final_y(&f, &vec![60, 60, 200]);
    assert_eq!(fy[2], 0);
    let (fy, _) = floor1_final_y(&f, &vec![2, 2, 200]);
    assert_eq!(fy[2], 63);
}

#[test]
fn curve_between_posits_and_past_the_end() {
    let f = floor_with(vec![0, 4], 1, 2);
    let curve = floor1_curve(&f, &vec![0, 8], &vec![true, true], 8);
    assert_eq!(curve, vec![0, 2, 4, 6, 8, 8, 8, 8]);
}

#[test]
fn curve_skips_inactive_posits() {
    let f = floor_with(vec![0, 8, 4], 2, 3);
    let curve = floor1_curve(&f, &vec![10, 20, 100], &vec![true, true, false], 8);
    assert_eq!(curve, vec![20, 22, 25, 27, 30, 32, 35, 37]);
    let curve = floor1_synthesis(&f, &vec![10, 20, 6], 8);
    assert_eq!(curve.len(), 8);
    assert!(curve.iter().all(|&v| v <= 255));
    assert_eq!(curve[4], 36);
}
