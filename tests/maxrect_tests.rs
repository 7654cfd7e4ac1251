use std::time::Instant;

use binpack2d::maxrects::{pack_bins, Heuristic, MaxRectsBin};
use binpack2d::{BinError, Dimension};
use rand::rngs::StdRng;
use rand::{Rng, SeedableRng};

fn occupancy(bin: &MaxRectsBin) -> f64 {
    bin.used_area() as f64 / (bin.width() as f64 * bin.height() as f64)
}

#[test]
fn bin_shrink() {
    let mut bin = MaxRectsBin::new(16, 16);
    bin.insert(&Dimension::new(6, 7), Heuristic::BestShortSideFit);
    bin.shrink(true);
    assert_eq!(8, bin.width());
    assert_eq!(8, bin.height());

    bin.shrink(false);
    assert_eq!(6, bin.width());
    assert_eq!(7, bin.height());
}

#[test]
fn bin_insert() {
    let nodes = vec![
        Dimension::with_padding(2, 4, 0),
        Dimension::with_padding(6, 4, 1),
        Dimension::with_padding(10, 3, 1),
        Dimension::with_padding(6, 6, 0),
        Dimension::with_padding(4, 4, 2),
        Dimension::with_padding(3, 8, 0),
        Dimension::with_padding(8, 3, 1),
    ];

    let rule = Heuristic::ContactPointRule;

    let mut bin = MaxRectsBin::new(16, 16);
    println!("MaxRectsBin::Insert: Creating bin({}, {}) using rule {:?}",
             bin.width(), bin.height(), rule);

    for node in nodes.iter() {
        bin.insert(node, rule);
    }
    println!("{} node(s) in bin, {} node(s) rejected, occupancy: {}:\n{:?}",
             bin.len(), nodes.len() - bin.len(), occupancy(&bin), bin.as_slice());
}

#[test]
fn bin_insert_list() {
    let nodes = vec![
        Dimension::with_padding(2, 4, 0),
        Dimension::with_padding(6, 4, 1),
        Dimension::with_padding(10, 3, 1),
        Dimension::with_padding(6, 6, 0),
        Dimension::with_padding(4, 4, 2),
        Dimension::with_padding(3, 8, 0),
        Dimension::with_padding(8, 3, 1),
    ];

    let rule = Heuristic::ContactPointRule;

    let mut bin = MaxRectsBin::new(16, 16);
    println!("MaxRectsBin::Insert_list: Creating bin({}, {}) using rule {:?}",
             bin.width(), bin.height(), rule);

    bin.insert_list(&nodes, rule);
    println!("{} node(s) in bin, {} node(s) rejected, occupancy: {}:\n{:?}",
             bin.len(), nodes.len(), occupancy(&bin), bin.as_slice());
}

#[test]
fn bin_performance_maxrect() {
    let rules = vec![
        Heuristic::BestShortSideFit,
        Heuristic::BestLongSideFit,
        Heuristic::BestAreaFit,
        Heuristic::BottomLeftRule,
        Heuristic::ContactPointRule,
    ];

    const DIM: i32 = 512;
    const SIZE: usize = 1_000;

    let mut rng = StdRng::seed_from_u64(123456789);
    let mut nodes = Vec::with_capacity(SIZE);
    for i in 1..=SIZE {
        nodes.push(Dimension::with_id(
            i as isize,
            rng.gen_range((DIM / 128).max(1)..(DIM / 16).max(2)),
            rng.gen_range((DIM / 128).max(1)..(DIM / 16).max(2)),
            0,
        ));
    }

    for rule in rules {
        let now = Instant::now();
        let bins_result = pack_bins(&nodes, DIM, DIM, rule, false);
        let elapsed = now.elapsed();

        if let Ok(bins) = bins_result {
            println!(
                "Packed {SIZE} nodes into {} {DIM}x{DIM} bin(s), with rule \"{rule:?}\": {} ms",
                bins.len(),
                elapsed.as_millis()
            );

            for (idx, bin) in bins.iter().enumerate() {
                println!(
                    "Bin {idx} contains {} nodes (occupancy: {})...",
                    bin.len(),
                    occupancy(bin)
                );
            }
        } else if let Err(err) = bins_result {
            println!("Error: {err:?}");
        }
        println!();
    }
}

#[test]
fn maxrect_tests_bin_failure() {
    let mut nodes = vec![
        Dimension::with_padding(2, 4, 0),
        Dimension::with_padding(6, 8, 1),
    ];

    nodes.push(Dimension::with_padding(20, 12, 0));

    let result1 = pack_bins(&nodes, 16, 16, Heuristic::BestShortSideFit, true);
    assert_eq!(BinError::ItemTooBig, result1.err().unwrap());

    let result2 = pack_bins(&nodes, 16, 16, Heuristic::BestShortSideFit, false);
    assert_eq!(BinError::ItemTooBig, result2.err().unwrap());

    nodes.pop();
    nodes.push(Dimension::with_padding(0, 64, 0));

    let result3 = pack_bins(&nodes, 16, 16, Heuristic::BestShortSideFit, true);
    assert_eq!(BinError::ItemTooSmall, result3.err().unwrap());

    let result4 = pack_bins(&nodes, 16, 16, Heuristic::BestShortSideFit, false);
    assert_eq!(BinError::ItemTooSmall, result4.err().unwrap());
}
