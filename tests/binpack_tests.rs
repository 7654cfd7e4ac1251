use std::time::Instant;

use binpack2d::{bin_new, pack_bins, Bin, BinError, BinPacker, BinType, Dimension};
use rand::rngs::StdRng;
use rand::{Rng, SeedableRng};

fn occupancy(bin: &Bin) -> f64 {
    bin.used_area() as f64 / (bin.width() as f64 * bin.height() as f64)
}

fn bin_shrink(bin_type: BinType) {
    let mut bin = bin_new(bin_type, 16, 16);
    bin.insert(&Dimension::with_padding(4, 5, 1));
    bin.shrink(true);

    assert_eq!(8, bin.width());
    assert_eq!(8, bin.height());

    bin.shrink(false);
    assert_eq!(6, bin.width());
    assert_eq!(7, bin.height());
}

fn bin_grow(bin_type: BinType) {
    let mut bin = bin_new(bin_type, 8, 8);
    assert_eq!(8, bin.width());
    assert_eq!(8, bin.height());

    let result = bin.insert(&Dimension::with_padding(5, 5, 1));
    assert!(result.is_some());

    let result1 = bin.insert(&Dimension::new(8, 8));
    assert!(result1.is_none());

    bin.grow(8, 8);
    let result2 = bin.insert(&Dimension::new(8, 8));
    assert!(result2.is_some());
}

fn bin_insert(bin_type: BinType) {
    let nodes = vec![
        Dimension::with_padding(2, 4, 0),
        Dimension::with_padding(6, 4, 1),
        Dimension::with_padding(10, 3, 1),
        Dimension::with_padding(6, 6, 0),
        Dimension::with_padding(4, 4, 2),
        Dimension::with_padding(3, 8, 0),
        Dimension::with_padding(8, 3, 1),
    ];

    let mut bin = bin_new(bin_type, 16, 16);
    assert_eq!(16, bin.width());
    assert_eq!(16, bin.height());

    for node in &nodes {
        bin.insert(node);
    }

    for rect1 in bin.iter() {
        for rect2 in bin.iter() {
            if rect1 != rect2 {
                assert!(!rect1.intersects(rect2));
            }
        }
    }
}

fn bin_insert_list(bin_type: BinType) {
    let nodes = vec![
        Dimension::with_padding(2, 4, 0),
        Dimension::with_padding(6, 4, 1),
        Dimension::with_padding(10, 3, 1),
        Dimension::with_padding(6, 6, 0),
        Dimension::with_padding(4, 4, 2),
        Dimension::with_padding(3, 8, 0),
        Dimension::with_padding(8, 3, 1),
    ];

    let mut bin = bin_new(bin_type, 16, 16);
    assert_eq!(16, bin.width());
    assert_eq!(16, bin.height());

    let (inserted, rejected) = bin.insert_list(&nodes);
    assert_eq!(nodes.len(), inserted.len() + rejected.len());

    for rect1 in bin.iter() {
        for rect2 in bin.iter() {
            if rect1 != rect2 {
                assert!(!rect1.intersects(rect2));
            }
        }
    }
}

fn bin_find_by_id(bin_type: BinType) {
    let mut bin = bin_new(bin_type, 16, 16);
    bin.insert(&Dimension::with_id(1, 4, 4, 0));
    bin.insert(&Dimension::with_id(2, 1, 1, 1));

    let result = bin.find_by_id(2);
    assert!(result.is_some());
    assert_eq!(1, result.unwrap().dim().padding());
}

fn bin_iter_slice(bin_type: BinType) {
    let mut bin = bin_new(bin_type, 64, 64);
    for i in 1..5 {
        let result = bin.insert(&Dimension::with_id(i, i as i32, i as i32 * 2, i as i32 / 2));
        assert!(result.is_some());
    }

    assert_eq!(4, bin.len());

    for rect in bin.iter() {
        assert!(rect.id() > 0);
    }

    let rects = &bin.as_slice()[1..3];
    assert_eq!(2, rects.len());
}

#[test]
fn bin_shrink_maxrects() {
    bin_shrink(BinType::MaxRects);
}

#[test]
fn bin_shrink_guillotine() {
    bin_shrink(BinType::Guillotine);
}

#[test]
fn bin_grow_maxrects() {
    bin_grow(BinType::MaxRects);
}

#[test]
fn bin_grow_guillotine() {
    bin_grow(BinType::Guillotine);
}

#[test]
fn bin_insert_maxrects() {
    bin_insert(BinType::MaxRects);
}

#[test]
fn bin_insert_guillotine() {
    bin_insert(BinType::Guillotine);
}

#[test]
fn bin_insert_list_maxrects() {
    bin_insert_list(BinType::MaxRects);
}

#[test]
fn bin_insert_list_guillotine() {
    bin_insert_list(BinType::Guillotine);
}

#[test]
fn bin_find_by_id_maxrects() {
    bin_find_by_id(BinType::MaxRects);
}

#[test]
fn bin_find_by_id_guillotine() {
    bin_find_by_id(BinType::Guillotine);
}

#[test]
fn bin_iter_slice_maxrects() {
    bin_iter_slice(BinType::MaxRects);
}

#[test]
fn bin_iter_slice_guillotine() {
    bin_iter_slice(BinType::Guillotine);
}

fn random_nodes(dim: i32, size: usize) -> Vec<Dimension> {
    let mut rng = StdRng::seed_from_u64(123456789);
    let mut nodes = Vec::with_capacity(size);
    for i in 1..=size {
        nodes.push(Dimension::with_id(
            i as isize,
            rng.gen_range((dim / 128).max(1)..(dim / 16).max(2)),
            rng.gen_range((dim / 128).max(1)..(dim / 16).max(2)),
            0,
        ));
    }
    nodes
}

#[test]
fn binpack_tests_bin_performance_binpack() {
    let bin_types = vec![BinType::MaxRects, BinType::Guillotine];

    const DIM: i32 = 512;
    const SIZE: usize = 1_000;

    let nodes = random_nodes(DIM, SIZE);

    for bin_type in &bin_types {
        let now = Instant::now();
        let bins = pack_bins(*bin_type, &nodes, DIM, DIM, true).unwrap();
        let elapsed = now.elapsed();

        println!(
            "Packed {SIZE} nodes into {} {DIM}x{DIM} bin(s), with bin type \"{bin_type:?}\": {} ms",
            bins.len(),
            elapsed.as_millis()
        );

        for (idx, bin) in bins.iter().enumerate() {
            println!(
                "Bin {idx} contains {} nodes (occupancy: {})...",
                bin.len(),
                occupancy(bin)
            );
        }
        println!();
    }
}

#[test]
fn tests_binpack_bin_performance_binpack() {
    let bin_types = vec![BinType::MaxRects, BinType::Guillotine];

    const DIM: i32 = 512;
    const SIZE: usize = 1_000;

    let nodes = random_nodes(DIM, SIZE);

    for bin_type in &bin_types {
        let now = Instant::now();
        let bins_result = pack_bins(*bin_type, &nodes, DIM, DIM, true);
        let elapsed = now.elapsed();

        if let Ok(bins) = bins_result {
            println!(
                "Packed {SIZE} nodes into {} {DIM}x{DIM} bin(s), with bin type \"{bin_type:?}\": {} ms",
                bins.len(),
                elapsed.as_millis()
            );

            for (idx, bin) in bins.iter().enumerate() {
                println!(
                    "Bin {idx} contains {} nodes (occupancy: {})...",
                    bin.len(),
                    occupancy(bin)
                );
            }
        } else if let Err(err) = bins_result {
            println!("Error: {err:?}");
        }
        println!();
    }
}

#[test]
fn tests_binpack_bin_failure() {
    let mut nodes = vec![
        Dimension::with_padding(2, 4, 0),
        Dimension::with_padding(6, 8, 1),
    ];

    nodes.push(Dimension::with_padding(20, 12, 0));

    let result1 = pack_bins(BinType::MaxRects, &nodes, 16, 16, true);
    assert_eq!(BinError::ItemTooBig, result1.err().unwrap());

    let result2 = pack_bins(BinType::MaxRects, &nodes, 16, 16, false);
    assert_eq!(BinError::ItemTooBig, result2.err().unwrap());

    nodes.pop();
    nodes.push(Dimension::with_padding(0, 64, 0));

    let result3 = pack_bins(BinType::MaxRects, &nodes, 16, 16, true);
    assert_eq!(BinError::ItemTooSmall, result3.err().unwrap());

    let result4 = pack_bins(BinType::MaxRects, &nodes, 16, 16, false);
    assert_eq!(BinError::ItemTooSmall, result4.err().unwrap());
}

fn fill_through_trait<B: BinPacker>(bin: &mut B) -> usize {
    let nodes: Vec<Dimension> = (1..=4).map(|i| Dimension::with_id(i, 4, 3, 0)).collect();
    let (inserted, rejected) = BinPacker::insert_list(bin, &nodes);
    assert_eq!(4, inserted.len() + rejected.len());
    assert!(BinPacker::find_by_id(bin, 3).is_some());
    BinPacker::grow(bin, 4, 0);
    BinPacker::shrink(bin, false);
    BinPacker::len(bin)
}

#[test]
fn bin_packer_interface_is_shared() {
    let mut g = binpack2d::guillotine::GuillotineBin::new(8, 6);
    let mut m = binpack2d::maxrects::MaxRectsBin::new(8, 6);
    let mut b = bin_new(BinType::Guillotine, 8, 6);
    assert_eq!(4, fill_through_trait(&mut g));
    assert_eq!(4, fill_through_trait(&mut m));
    assert_eq!(4, fill_through_trait(&mut b));
    assert_eq!((8, 6), (BinPacker::width(&g), BinPacker::height(&g)));
    assert_eq!(48, BinPacker::used_area(&m));
    assert_eq!(4, BinPacker::as_slice(&b).len());
}
