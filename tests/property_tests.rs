use binpack2d::dimension::id_from_draw;
use binpack2d::guillotine::{self, GuillotineBin, RectHeuristic, SplitHeuristic};
use binpack2d::maxrects::{self, Heuristic, MaxRectsBin};
use binpack2d::{bin_new, bin_with_capacity, pack_bins, BinError, BinType, Dimension, Rectangle};
use rand::rngs::StdRng;
use rand::{Rng, SeedableRng};

fn seven_items() -> Vec<Dimension> {
    vec![
        Dimension::with_id(1, 2, 4, 0),
        Dimension::with_id(2, 8, 6, 0),
        Dimension::with_id(3, 12, 5, 0),
        Dimension::with_id(4, 6, 6, 0),
        Dimension::with_id(5, 8, 8, 0),
        Dimension::with_id(6, 3, 8, 0),
        Dimension::with_id(7, 10, 5, 0),
    ]
}

fn positions(rects: &[Rectangle]) -> Vec<(isize, i32, i32, i32, i32)> {
    rects.iter().map(|r| (r.id(), r.x(), r.y(), r.width(), r.height())).collect()
}

fn assert_disjoint(rects: &[Rectangle]) {
    for (i, a) in rects.iter().enumerate() {
        for (j, b) in rects.iter().enumerate() {
            if i != j {
                assert!(!a.intersects(b));
            }
        }
    }
}

#[test]
fn guillotine_seven_items_fixed_placement() {
    let nodes = seven_items();
    let mut bin = GuillotineBin::new(16, 16);
    let (inserted, rejected) =
        bin.insert_list(&nodes, false, RectHeuristic::BestAreaFit, SplitHeuristic::MinimizeArea);
    assert_eq!(
        vec![(1, 0, 0, 2, 4), (2, 2, 0, 8, 6), (3, 2, 6, 12, 5), (4, 10, 0, 6, 6), (7, 2, 11, 10, 5)],
        positions(&inserted)
    );
    let rejected_ids: Vec<isize> = rejected.iter().map(|d| d.id()).collect();
    assert_eq!(vec![5, 6], rejected_ids);
    assert_eq!(positions(&inserted), positions(bin.as_slice()));

    let mut again = GuillotineBin::new(16, 16);
    let (inserted2, rejected2) =
        again.insert_list(&nodes, false, RectHeuristic::BestAreaFit, SplitHeuristic::MinimizeArea);
    assert_eq!(inserted, inserted2);
    assert_eq!(rejected, rejected2);
}

#[test]
fn guillotine_free_regions_after_split() {
    let mut bin = GuillotineBin::new(16, 16);
    bin.insert(&Dimension::with_id(1, 2, 4, 0), false, RectHeuristic::BestAreaFit, SplitHeuristic::MinimizeArea);
    let free: Vec<(i32, i32, i32, i32)> = bin.free_slice().iter().map(|f| (f.x, f.y, f.w, f.h)).collect();
    assert_eq!(vec![(0, 4, 2, 12), (2, 0, 14, 16)], free);
}

#[test]
fn guillotine_turns_item_that_only_fits_turned() {
    let mut bin = GuillotineBin::new(10, 4);
    let d = Dimension::with_id(9, 3, 8, 0);
    assert!(bin.insert(&d, false, RectHeuristic::BestShortSideFit, SplitHeuristic::ShorterAxis).is_none());
    let r = bin.insert(&d, true, RectHeuristic::BestShortSideFit, SplitHeuristic::ShorterAxis).unwrap();
    assert_eq!((0, 0, 8, 3, 9), (r.x(), r.y(), r.width(), r.height(), r.id()));
}

#[test]
fn guillotine_worst_fit_prefers_larger_region() {
    let small = Dimension::with_id(2, 2, 2, 0);
    for (choice, expected) in [(RectHeuristic::WorstAreaFit, (4, 0)), (RectHeuristic::BestAreaFit, (0, 4))] {
        let mut bin = GuillotineBin::new(20, 10);
        bin.insert(&Dimension::with_id(1, 4, 4, 0), false, RectHeuristic::BestAreaFit, SplitHeuristic::ShorterAxis);
        let r = bin.insert(&small, false, choice, SplitHeuristic::ShorterAxis).unwrap();
        assert_eq!(expected, (r.x(), r.y()));
    }
}

#[test]
fn maxrects_grow_scenario() {
    let mut bin = bin_new(BinType::MaxRects, 8, 8);
    let first = bin.insert(&Dimension::with_padding(5, 5, 1)).unwrap();
    assert_eq!((1, 1), (first.x(), first.y()));
    assert!(bin.insert(&Dimension::new(8, 8)).is_none());
    bin.grow(8, 8);
    assert_eq!((16, 16), (bin.width(), bin.height()));
    let second = bin.insert(&Dimension::new(8, 8)).unwrap();
    assert_eq!((8, 0), (second.x(), second.y()));
    assert_eq!((1, 1), (bin.as_slice()[0].x(), bin.as_slice()[0].y()));
}

#[test]
fn maxrects_free_regions_after_placement() {
    let mut bin = MaxRectsBin::new(8, 8);
    bin.insert(&Dimension::with_padding(5, 5, 1), Heuristic::BestShortSideFit);
    let free: Vec<(i32, i32, i32, i32)> = bin.free_slice().iter().map(|f| (f.x, f.y, f.w, f.h)).collect();
    assert_eq!(vec![(0, 7, 8, 1), (7, 0, 1, 8)], free);
}

#[test]
fn maxrects_bottom_left_rule() {
    let mut bin = MaxRectsBin::new(10, 10);
    bin.insert(&Dimension::with_id(1, 4, 3, 0), Heuristic::BottomLeftRule);
    let r = bin.insert(&Dimension::with_id(2, 4, 3, 0), Heuristic::BottomLeftRule).unwrap();
    assert_eq!((4, 0), (r.x(), r.y()));
}

#[test]
fn maxrects_contact_point_rule_hugs_corner() {
    let mut bin = MaxRectsBin::new(10, 10);
    let a = bin.insert(&Dimension::with_id(1, 3, 3, 0), Heuristic::ContactPointRule).unwrap();
    assert_eq!((0, 0), (a.x(), a.y()));
    let b = bin.insert(&Dimension::with_id(2, 3, 3, 0), Heuristic::ContactPointRule).unwrap();
    assert!(!a.intersects(&b));
    assert!((b.x(), b.y()) == (3, 0) || (b.x(), b.y()) == (0, 3));
}

#[test]
fn grow_keeps_positions_and_sizes_do_not_shrink() {
    for bin_type in [BinType::MaxRects, BinType::Guillotine] {
        let mut bin = bin_new(bin_type, 10, 10);
        bin.insert_list(&seven_items());
        let before = positions(bin.as_slice());
        bin.grow(5, 0);
        assert_eq!((15, 10), (bin.width(), bin.height()));
        bin.grow(-3, -3);
        assert_eq!((15, 10), (bin.width(), bin.height()));
        bin.grow(i32::MAX, 1);
        assert_eq!((i32::MAX, 11), (bin.width(), bin.height()));
        assert_eq!(before, positions(bin.as_slice()));
    }
}

#[test]
fn shrink_twice_is_shrink_once() {
    for bin_type in [BinType::MaxRects, BinType::Guillotine] {
        for power_of_two in [true, false] {
            let mut bin = bin_new(bin_type, 64, 64);
            bin.insert(&Dimension::with_padding(9, 3, 1));
            bin.insert(&Dimension::with_padding(4, 17, 0));
            bin.shrink(power_of_two);
            let once = (bin.width(), bin.height());
            bin.shrink(power_of_two);
            assert_eq!(once, (bin.width(), bin.height()));
        }
    }
}

#[test]
fn shrink_empty_bin_keeps_size() {
    let mut bin = bin_new(BinType::Guillotine, 12, 9);
    bin.shrink(false);
    assert_eq!((12, 9), (bin.width(), bin.height()));
}

#[test]
fn shrink_never_grows() {
    let mut bin = GuillotineBin::new(12, 12);
    bin.insert(&Dimension::new(10, 3), false, RectHeuristic::BestAreaFit, SplitHeuristic::MinimizeArea);
    bin.shrink(true);
    assert_eq!((12, 4), (bin.width(), bin.height()));
}

#[test]
fn insert_list_conserves_items() {
    let mut nodes = seven_items();
    nodes.push(Dimension::new(0, 5));
    nodes.push(Dimension::new(40, 1));
    for bin_type in [BinType::MaxRects, BinType::Guillotine] {
        let mut bin = bin_new(bin_type, 16, 16);
        let (inserted, rejected) = bin.insert_list(&nodes);
        assert_eq!(nodes.len(), inserted.len() + rejected.len());
        assert_eq!(inserted, bin.as_slice().to_vec());
        assert_disjoint(bin.as_slice());
    }
}

#[test]
fn empty_item_is_not_placed() {
    let mut g = GuillotineBin::new(8, 8);
    assert!(g.insert(&Dimension::new(0, 3), true, RectHeuristic::BestAreaFit, SplitHeuristic::MinimizeArea).is_none());
    let mut m = MaxRectsBin::new(8, 8);
    assert!(m.insert(&Dimension::new(3, 0), Heuristic::BestAreaFit).is_none());
    assert_eq!(0, g.len() + m.len());
    assert!(m.insert(&Dimension::with_padding(0, 0, 1), Heuristic::BestAreaFit).is_some());
}

#[test]
fn zero_sized_bin_holds_nothing() {
    let mut bin = bin_new(BinType::MaxRects, -4, 0);
    assert_eq!((0, 0), (bin.width(), bin.height()));
    assert!(bin.insert(&Dimension::new(1, 1)).is_none());
    assert!(bin.is_empty());
}

#[test]
fn find_by_id_returns_matching_item_or_none() {
    for bin_type in [BinType::MaxRects, BinType::Guillotine] {
        let mut bin = bin_with_capacity(bin_type, 32, 32, 8);
        for i in 1..=6 {
            assert!(bin.insert(&Dimension::with_id(i * 10, 3, 2, 0)).is_some());
        }
        for i in 1..=6 {
            let r = bin.find_by_id(i * 10).unwrap();
            assert_eq!(i * 10, r.id());
        }
        assert!(bin.find_by_id(35).is_none());
    }
}

#[test]
fn pack_bins_opens_new_bins() {
    let nodes: Vec<Dimension> = (1..=5).map(|i| Dimension::with_id(i, 10, 10, 0)).collect();
    let bins = pack_bins(BinType::Guillotine, &nodes, 16, 16, true).unwrap();
    assert_eq!(5, bins.len());
    let total: usize = bins.iter().map(|b| b.len()).sum();
    assert_eq!(5, total);

    let single = pack_bins(BinType::MaxRects, &nodes, 16, 16, false).unwrap();
    assert_eq!(1, single.len());
    assert_eq!(1, single[0].len());

    let g = guillotine::pack_bins(&nodes, 20, 20, true, RectHeuristic::BestShortSideFit, SplitHeuristic::ShorterAxis, false).unwrap();
    assert_eq!(2, g.len());
    assert_eq!(vec![4, 1], g.iter().map(|b| b.len()).collect::<Vec<usize>>());

    let m = maxrects::pack_bins(&nodes, 20, 20, Heuristic::BottomLeftRule, true).unwrap();
    assert_eq!(vec![4, 1], m.iter().map(|b| b.len()).collect::<Vec<usize>>());
    for b in &m {
        assert_eq!((20, 20), (b.width(), b.height()));
        assert_disjoint(b.as_slice());
    }
}

#[test]
fn pack_bins_reports_first_bad_item() {
    let nodes = vec![Dimension::new(3, 3), Dimension::new(0, 2), Dimension::new(30, 2)];
    assert_eq!(Err(BinError::ItemTooSmall), pack_bins(BinType::Guillotine, &nodes, 16, 16, true).map(|b| b.len()));
    let nodes = vec![Dimension::new(3, 3), Dimension::with_padding(15, 2, 1), Dimension::new(0, 2)];
    assert_eq!(Err(BinError::ItemTooBig), pack_bins(BinType::MaxRects, &nodes, 16, 16, false).map(|b| b.len()));
    let fits = vec![Dimension::with_padding(14, 14, 1)];
    assert_eq!(Ok(1), pack_bins(BinType::MaxRects, &fits, 16, 16, false).map(|b| b.len()));
    assert!(!BinError::ItemTooBig.message().is_empty());
}

#[test]
fn used_area_counts_content_only() {
    let mut bin = bin_new(BinType::Guillotine, 16, 16);
    bin.insert(&Dimension::with_padding(4, 5, 1));
    bin.insert(&Dimension::with_padding(2, 3, 0));
    assert_eq!(26, bin.used_area());
    let mut g = GuillotineBin::with_capacity(16, 16, 4);
    g.insert(&Dimension::new(3, 3), true, RectHeuristic::BestAreaFit, SplitHeuristic::MinimizeArea);
    g.clear();
    assert_eq!(0, g.len());
    assert_eq!(1, g.free_slice().len());
}

fn within_bin(rects: &[Rectangle], width: i32, height: i32) {
    for r in rects {
        assert!(r.x_total() >= 0 && r.y_total() >= 0);
        assert!(r.x_total() + r.width_total() <= width as i64);
        assert!(r.y_total() + r.height_total() <= height as i64);
    }
}

#[test]
fn random_items_never_overlap_and_stay_inside() {
    let mut rng = StdRng::seed_from_u64(42);
    let nodes: Vec<Dimension> = (0..120)
        .map(|i| Dimension::with_id(i, rng.gen_range(1..12), rng.gen_range(1..12), rng.gen_range(0..2)))
        .collect();

    for rule in [
        Heuristic::BestShortSideFit,
        Heuristic::BestLongSideFit,
        Heuristic::BestAreaFit,
        Heuristic::BottomLeftRule,
        Heuristic::ContactPointRule,
    ] {
        let mut bin = MaxRectsBin::new(48, 40);
        let (inserted, rejected) = bin.insert_list(&nodes, rule);
        assert_eq!(nodes.len(), inserted.len() + rejected.len());
        assert_disjoint(bin.as_slice());
        within_bin(bin.as_slice(), 48, 40);
        bin.shrink(false);
        within_bin(bin.as_slice(), bin.width(), bin.height());
    }

    for choice in [
        RectHeuristic::BestShortSideFit,
        RectHeuristic::BestLongSideFit,
        RectHeuristic::BestAreaFit,
        RectHeuristic::WorstShortSideFit,
        RectHeuristic::WorstLongSideFit,
        RectHeuristic::WorstAreaFit,
    ] {
        for method in [
            SplitHeuristic::ShorterLeftoverAxis,
            SplitHeuristic::LongerLeftoverAxis,
            SplitHeuristic::MinimizeArea,
            SplitHeuristic::MaximizeArea,
            SplitHeuristic::ShorterAxis,
            SplitHeuristic::LongerAxis,
        ] {
            let mut bin = GuillotineBin::new(48, 40);
            let (inserted, rejected) = bin.insert_list(&nodes, true, choice, method);
            assert_eq!(nodes.len(), inserted.len() + rejected.len());
            assert_disjoint(bin.as_slice());
            within_bin(bin.as_slice(), 48, 40);
            bin.grow(10, 10);
            bin.insert_list(&nodes, true, choice, method);
            assert_disjoint(bin.as_slice());
            within_bin(bin.as_slice(), 58, 50);
        }
    }
}

#[test]
fn visualize_draws_placed_content() {
    let mut bin = GuillotineBin::new(4, 3);
    bin.insert(&Dimension::with_id(1, 2, 2, 0), false, RectHeuristic::BestAreaFit, SplitHeuristic::MinimizeArea);
    assert_eq!("##..\n##..\n....\n", bin.visualize());
    let mut m = bin_new(BinType::MaxRects, 3, 3);
    assert!(m.insert(&Dimension::with_padding(1, 1, 1)).is_some());
    assert_eq!("...\n.#.\n...\n", m.visualize());
    assert_eq!("\n\n\n\n\n", bin_new(BinType::MaxRects, 0, 5).visualize());
}

#[test]
fn fresh_bins_start_with_one_full_region() {
    for bin_type in [BinType::MaxRects, BinType::Guillotine] {
        let mut bin = bin_new(bin_type, 8, 8);
        assert!(bin.insert(&Dimension::with_padding(5, 5, 1)).is_some());
        bin.grow(8, 8);
        let r = bin.insert(&Dimension::new(8, 8)).unwrap();
        assert!(r.x() >= 8 || r.y() >= 8);
    }
    let g = GuillotineBin::new(8, 5);
    let free: Vec<(i32, i32, i32, i32)> = g.free_slice().iter().map(|f| (f.x, f.y, f.w, f.h)).collect();
    assert_eq!(vec![(0, 0, 8, 5)], free);
}

#[test]
fn identifiers_from_drawn_values() {
    assert_eq!(1, id_from_draw(0));
    assert_eq!(1, id_from_draw(isize::MIN));
    assert_eq!(7, id_from_draw(-7));
    assert_eq!(42, id_from_draw(42));
}

#[test]
fn flip_twice_and_default_rectangle() {
    let d = Dimension::with_id(3, 4, 9, 2);
    let mut e = d;
    e.flip();
    e.flip();
    assert_eq!(d, e);
    let r = Rectangle::default();
    assert_eq!((0, 0, 0, 0, 0), (r.x(), r.y(), r.width(), r.height(), r.dim().padding()));
    assert!(r.id() >= 1);
}
