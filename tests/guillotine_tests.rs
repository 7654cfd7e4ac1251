use std::time::Instant;

use binpack2d::guillotine::{pack_bins, GuillotineBin, RectHeuristic, SplitHeuristic};
use binpack2d::{BinError, Dimension};
use rand::rngs::StdRng;
use rand::{Rng, SeedableRng};

fn occupancy(bin: &GuillotineBin) -> f64 {
    bin.used_area() as f64 / (bin.width() as f64 * bin.height() as f64)
}

#[test]
fn tests_bin_shrink() {
    let mut bin = GuillotineBin::new(16, 16);
    bin.insert(
        &Dimension::new(6, 7),
        true,
        RectHeuristic::BestAreaFit,
        SplitHeuristic::MinimizeArea,
    );
    bin.shrink(true);
    assert_eq!(8, bin.width());
    assert_eq!(8, bin.height());

    bin.shrink(false);
    assert_eq!(6, bin.width());
    assert_eq!(7, bin.height());
}

#[test]
fn tests_bin_insert() {
    let nodes = vec![
        Dimension::with_padding(2, 4, 0),
        Dimension::with_padding(6, 4, 1),
        Dimension::with_padding(10, 3, 1),
        Dimension::with_padding(6, 6, 0),
        Dimension::with_padding(4, 4, 2),
        Dimension::with_padding(3, 8, 0),
        Dimension::with_padding(8, 3, 1),
    ];

    let choice = RectHeuristic::BestAreaFit;
    let method = SplitHeuristic::MinimizeArea;

    let mut bin = GuillotineBin::new(16, 16);
    assert_eq!(16, bin.width());
    assert_eq!(16, bin.height());

    for node in &nodes {
        bin.insert(node, false, choice, method);
    }

    for rect1 in bin.iter() {
        for rect2 in bin.iter() {
            if rect1 != rect2 {
                assert!(!rect1.intersects(rect2));
            }
        }
    }
}

#[test]
fn tests_bin_insert_list() {
    let nodes = vec![
        Dimension::with_padding(2, 4, 0),
        Dimension::with_padding(6, 4, 1),
        Dimension::with_padding(10, 3, 1),
        Dimension::with_padding(6, 6, 0),
        Dimension::with_padding(4, 4, 2),
        Dimension::with_padding(3, 8, 0),
        Dimension::with_padding(8, 3, 1),
    ];

    let choice = RectHeuristic::BestAreaFit;
    let method = SplitHeuristic::MinimizeArea;

    let mut bin = GuillotineBin::new(16, 16);
    assert_eq!(16, bin.width());
    assert_eq!(16, bin.height());

    let (inserted, rejected) = bin.insert_list(&nodes, true, choice, method);
    assert_eq!(nodes.len(), inserted.len() + rejected.len());

    for rect1 in bin.iter() {
        for rect2 in bin.iter() {
            if rect1 != rect2 {
                assert!(!rect1.intersects(rect2));
            }
        }
    }
}

#[test]
fn bin_performance_guillotine() {
    let choices = vec![
        RectHeuristic::BestShortSideFit,
        RectHeuristic::BestLongSideFit,
        RectHeuristic::BestAreaFit,
        RectHeuristic::WorstShortSideFit,
        RectHeuristic::WorstLongSideFit,
        RectHeuristic::WorstAreaFit,
    ];

    let methods = vec![
        SplitHeuristic::ShorterLeftoverAxis,
        SplitHeuristic::LongerLeftoverAxis,
        SplitHeuristic::MinimizeArea,
        SplitHeuristic::MaximizeArea,
        SplitHeuristic::ShorterAxis,
        SplitHeuristic::LongerAxis,
    ];

    const DIM: i32 = 512;
    const SIZE: usize = 1_000;

    let mut rng = StdRng::seed_from_u64(123456789);
    let mut nodes = Vec::with_capacity(SIZE);
    for i in 1..=SIZE {
        nodes.push(Dimension::with_id(
            i as isize,
            rng.gen_range((DIM / 128).max(1)..(DIM / 16).max(2)),
            rng.gen_range((DIM / 128).max(1)..(DIM / 16).max(2)),
            0,
        ));
    }

    for choice in &choices {
        for method in &methods {
            let now = Instant::now();
            let bins_result = pack_bins(&nodes, DIM, DIM, true, *choice, *method, false);
            let elapsed = now.elapsed();

            if let Ok(bins) = bins_result {
                println!("Packed {SIZE} nodes into {} {DIM}x{DIM} bin(s), with choice \"{choice:?}\" and method \"{method:?}\": {} ms",
                         bins.len(), elapsed.as_millis());

                for (idx, bin) in bins.iter().enumerate() {
                    println!(
                        "Bin {idx} contains {} nodes (occupancy: {})...",
                        bin.len(),
                        occupancy(bin)
                    );
                }
            } else if let Err(err) = bins_result {
                println!("Error: {err:?}");
            }
            println!();
        }
        println!();
    }
}

#[test]
fn guillotine_tests_bin_failure() {
    let choice = RectHeuristic::BestAreaFit;
    let method = SplitHeuristic::MinimizeArea;

    let mut nodes = vec![
        Dimension::with_padding(2, 4, 0),
        Dimension::with_padding(6, 8, 1),
    ];

    nodes.push(Dimension::with_padding(20, 12, 0));

    let result1 = pack_bins(&nodes, 16, 16, true, choice, method, true);
    assert_eq!(BinError::ItemTooBig, result1.err().unwrap());

    let result2 = pack_bins(&nodes, 16, 16, true, choice, method, false);
    assert_eq!(BinError::ItemTooBig, result2.err().unwrap());

    nodes.pop();
    nodes.push(Dimension::with_padding(0, 64, 0));

    let result3 = pack_bins(&nodes, 16, 16, true, choice, method, true);
    assert_eq!(BinError::ItemTooSmall, result3.err().unwrap());

    let result4 = pack_bins(&nodes, 16, 16, true, choice, method, false);
    assert_eq!(BinError::ItemTooSmall, result4.err().unwrap());
}

#[test]
fn merge_joins_free_regions_sharing_an_edge() {
    let mut bin = GuillotineBin::new(16, 16);
    bin.insert(&Dimension::with_id(1, 16, 4, 0), false, RectHeuristic::BestAreaFit, SplitHeuristic::ShorterLeftoverAxis);
    bin.insert(&Dimension::with_id(2, 8, 12, 0), false, RectHeuristic::BestAreaFit, SplitHeuristic::ShorterLeftoverAxis);
    bin.insert(&Dimension::with_id(3, 8, 6, 0), false, RectHeuristic::BestAreaFit, SplitHeuristic::LongerAxis);
    let before: Vec<(i32, i32, i32, i32)> = bin.free_slice().iter().map(|f| (f.x, f.y, f.w, f.h)).collect();
    assert_eq!(vec![(8, 10, 8, 6)], before);
    bin.merge_free_regions();
    assert_eq!(1, bin.free_slice().len());

    let mut split = GuillotineBin::new(10, 10);
    let method = SplitHeuristic::LongerLeftoverAxis;
    split.insert(&Dimension::with_id(1, 4, 4, 0), false, RectHeuristic::BestAreaFit, method);
    split.insert(&Dimension::with_id(2, 6, 4, 0), false, RectHeuristic::BestAreaFit, method);
    let free: Vec<(i32, i32, i32, i32)> = split.free_slice().iter().map(|f| (f.x, f.y, f.w, f.h)).collect();
    assert_eq!(vec![(0, 4, 4, 6), (4, 4, 6, 6)], free);
    let wide = Dimension::with_id(3, 10, 6, 0);
    assert!(split.insert(&wide, false, RectHeuristic::BestAreaFit, method).is_none());
    split.merge_free_regions();
    let merged: Vec<(i32, i32, i32, i32)> = split.free_slice().iter().map(|f| (f.x, f.y, f.w, f.h)).collect();
    assert_eq!(vec![(0, 4, 10, 6)], merged);
    let r = split.insert(&wide, false, RectHeuristic::BestAreaFit, method).unwrap();
    assert_eq!((0, 4), (r.x(), r.y()));
}
