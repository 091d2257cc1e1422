use graph_to_data::{
    color_distance, color_filtering, column_runs, csv_grid, find_long_components, gold,
    grid_fraction, CombinedVerticals, GraphMultiNode, Color, Error, ImagePixel, Image, LineDetectionSettings, Mask,
    MultiNode, QuadrilateralU32, Range, UnitInterval, UnitPoint, UnitQuadrilateral,
    VerticalComponent, VerticalComponentCombined, VerticalComponentList, X,
};

fn mask_from(width: u32, height: u32, f: impl Fn(u32, u32) -> bool) -> Mask {
    let mut hits = Vec::new();
    for y in 0..height {
        for x in 0..width {
            hits.push(f(x, y));
        }
    }
    Mask { width, height, hits }
}

fn vc(y_min: u32, y_max: u32) -> VerticalComponent {
    VerticalComponent { y_min, y_max }
}

#[test]
fn color_distance_sums_three_channels_and_saturates() {
    let a = Color { r: 10, g: 20, b: 30, a: 0 };
    let b = Color { r: 13, g: 15, b: 31, a: 255 };
    assert_eq!(color_distance(&a, &b), 9);
    let black = Color::rgb(0, 0, 0);
    let white = Color::rgb(255, 255, 255);
    assert_eq!(color_distance(&black, &white), 255);
}

#[test]
fn gray_equivalent_uses_the_median_channel() {
    let c = Color::rgb(200, 10, 90);
    assert_eq!(c.gray_equivalent(), Color::rgb(90, 90, 90));
}

#[test]
fn zero_radius_masks_exactly_the_target() {
    let img = Image::new(3, 1, vec![Color::rgb(1, 2, 3), Color::rgb(9, 9, 9), Color { r: 1, g: 2, b: 3, a: 0 }]).unwrap();
    let m = color_filtering(&img, &Color::rgb(1, 2, 3), 0);
    assert_eq!(m.hits, vec![true, false, true]);
}

#[test]
fn nested_tracks_are_infinitely_far_either_way() {
    let outer = GraphMultiNode { ys: vec![MultiNode::new(vc(1, 1)), MultiNode::new(vc(1, 1)), MultiNode::new(vc(1, 1))] };
    let inner = GraphMultiNode { ys: vec![MultiNode::empty(), MultiNode::new(vc(3, 3)), MultiNode::empty()] };
    assert_eq!(outer.distance(&inner), u32::MAX);
    assert_eq!(inner.distance(&outer), u32::MAX);
    let right = GraphMultiNode { ys: vec![MultiNode::empty(), MultiNode::new(vc(3, 3)), MultiNode::new(vc(3, 3))] };
    let left = GraphMultiNode { ys: vec![MultiNode::new(vc(1, 1)), MultiNode::new(vc(1, 1)), MultiNode::empty()] };
    assert_eq!(left.distance(&right), 2);
}

#[test]
fn unit_radius_masks_exactly_the_target() {
    let img = Image::new(3, 1, vec![Color::rgb(1, 2, 3), Color::rgb(1, 2, 4), Color { r: 1, g: 2, b: 3, a: 7 }]).unwrap();
    let m = color_filtering(&img, &Color::rgb(1, 2, 3), 1);
    assert_eq!(m.hits, vec![true, false, true]);
}

#[test]
fn image_refuses_wrong_pixel_count() {
    assert!(Image::new(2, 2, vec![gold(); 3]).is_none());
}

#[test]
fn runs_of_a_column() {
    let col = [true, true, false, false, true, false, true];
    let m = mask_from(1, 7, |_, y| col[y as usize]);
    assert_eq!(column_runs(&m, 0), vec![vc(0, 1), vc(4, 4), vc(6, 6)]);
    let empty = mask_from(1, 3, |_, _| false);
    assert!(column_runs(&empty, 0).is_empty());
}

#[test]
fn run_list_counts() {
    let m = mask_from(3, 4, |x, y| (x == 1 && y != 2) || (x == 2 && y == 0));
    let l = VerticalComponentList::convert(&m);
    assert_eq!(l.component_count(), 3);
    assert_eq!(l.counts(), vec![0, 2, 1]);
    assert_eq!(l.max_component_count(), Some(2));
}

#[test]
fn vertical_distance_and_mean() {
    assert_eq!(vc(10, 20).distance_to(&vc(25, 30)), 5);
    assert_eq!(vc(25, 30).distance_to(&vc(10, 20)), 5);
    assert_eq!(vc(10, 20).distance_to(&vc(20, 30)), 0);
    assert_eq!(vc(3, 8).mean(), 5);
}

#[test]
fn long_ranges_are_found() {
    let counts = vec![1, 1, 1, 2, 2, 0, 0, 0, 1, 1, 1, 1];
    let r = find_long_components(&counts, 3);
    assert_eq!(
        r,
        vec![
            Range { start: X(0), end: X(3), count: 1 },
            Range { start: X(5), end: X(8), count: 0 },
            Range { start: X(8), end: X(12), count: 1 },
        ]
    );
    let trailing_empty = vec![2, 2, 0, 0, 0];
    assert_eq!(find_long_components(&trailing_empty, 2), vec![Range { start: X(0), end: X(2), count: 2 }]);
}

#[test]
fn extracting_takes_runs_positionally() {
    let m = mask_from(4, 6, |x, y| (x < 3 && (y == 1 || y == 4)) || (x == 3 && y == 2));
    let mut l = VerticalComponentList::convert(&m);
    let ranges = find_long_components(&l.counts(), 2);
    assert_eq!(ranges, vec![Range { start: X(0), end: X(3), count: 2 }]);
    let tracks = l.extract_components(&ranges);
    assert_eq!(tracks.len(), 2);
    assert_eq!(tracks[0].ys[1].verticals, vec![vc(1, 1)]);
    assert_eq!(tracks[1].ys[1].verticals, vec![vc(4, 4)]);
    assert!(tracks[0].ys[3].verticals.is_empty());
    assert_eq!(l.counts(), vec![0, 0, 0, 1]);
    let strips = l.combining_horizontally();
    assert_eq!(strips.len(), 1);
    assert_eq!(strips[0].x_start, X(3));
    assert_eq!(strips[0].combined, vec![VerticalComponentCombined { y_min: 2, y_max: 2 }]);
}

#[test]
fn loose_runs_grow_into_strips() {
    let m = mask_from(4, 10, |x, y| (x == 0 && y == 2) || (x == 1 && (y == 3 || y == 4)) || (x == 2 && y == 8));
    let l = VerticalComponentList::convert(&m);
    let strips = l.combining_horizontally();
    assert_eq!(strips.len(), 2);
    assert_eq!(strips[0].x_start, X(0));
    assert_eq!(
        strips[0].combined,
        vec![VerticalComponentCombined { y_min: 2, y_max: 2 }, VerticalComponentCombined { y_min: 3, y_max: 4 }]
    );
    assert_eq!(strips[1].x_start, X(2));
}

#[test]
fn touching_strips_merge_into_their_hull() {
    let mut a = CombinedVerticals {
        x_start: X(2),
        combined: vec![VerticalComponentCombined { y_min: 5, y_max: 6 }, VerticalComponentCombined { y_min: 6, y_max: 7 }],
    };
    let b = CombinedVerticals {
        x_start: X(3),
        combined: vec![VerticalComponentCombined { y_min: 8, y_max: 9 }, VerticalComponentCombined { y_min: 9, y_max: 9 }],
    };
    assert!(a.distance_to(&b));
    a.merge(b);
    assert_eq!(a.x_start, X(2));
    assert_eq!(
        a.combined,
        vec![
            VerticalComponentCombined { y_min: 5, y_max: 6 },
            VerticalComponentCombined { y_min: 6, y_max: 9 },
            VerticalComponentCombined { y_min: 9, y_max: 9 },
        ]
    );
    let far = CombinedVerticals { x_start: X(20), combined: vec![VerticalComponentCombined { y_min: 0, y_max: 0 }] };
    assert!(!a.distance_to(&far));
}

#[test]
fn cell_mean_and_distance() {
    let mut a = MultiNode::new(vc(10, 12));
    a.combine(MultiNode::new(vc(20, 30)));
    assert_eq!(a.mean(), Some(20));
    let b = MultiNode::new(vc(15, 16));
    assert_eq!(a.distance(&b), 3);
    assert_eq!(MultiNode::empty().mean(), None);
    assert_eq!(MultiNode::empty().distance(&b), u32::MAX);
}

#[test]
fn unit_interval_checks_its_range() {
    assert_eq!(UnitInterval::new(3, 2), Err(Error::OutOfRange));
    assert_eq!(UnitInterval::new(1, 0), Err(Error::OutOfRange));
    let u = UnitInterval::new(1, 3).unwrap();
    assert_eq!(u.scale(200), 66);
    assert!(u.exceeds_ratio(1, 4));
    assert!(!u.exceeds_ratio(1, 3));
    assert!(u.is_exceeded_by(1, 2));
    assert!(UnitPoint::new(u, UnitInterval { num: 2, den: 1 }).is_none());
}

#[test]
fn rectangle_from_two_corners() {
    let corner = UnitPoint::new(UnitInterval::new(3, 4).unwrap(), UnitInterval::new(1, 10).unwrap()).unwrap();
    let opposite = UnitPoint::new(UnitInterval::new(1, 4).unwrap(), UnitInterval::new(9, 10).unwrap()).unwrap();
    let q = UnitQuadrilateral::rectangular(corner, opposite);
    assert_eq!(q.lt.x, UnitInterval::new(1, 4).unwrap());
    assert_eq!(q.rb.y, UnitInterval::new(9, 10).unwrap());
    let px: QuadrilateralU32 = q.transform([200, 100]);
    assert_eq!(px.lt, (50, 10));
    assert_eq!(px.rb, (150, 90));
    assert_eq!(px.width(), 100);
    assert_eq!(px.height(), 80);
    let full = UnitQuadrilateral::unit_square().transform([640, 480]);
    assert_eq!((full.width(), full.height()), (640, 480));
}

#[test]
fn grid_positions_stay_inside_the_limits() {
    assert_eq!(grid_fraction(0, 100), (1, 101));
    assert_eq!(grid_fraction(99, 100), (100, 101));
}

#[test]
fn csv_table_merges_columns() {
    let plots = vec![vec![(1, 10), (3, 30)], vec![(0, 5), (3, 7), (4, 8)]];
    let (xs, table) = csv_grid(&plots);
    assert_eq!(xs, vec![0, 1, 3, 4]);
    assert_eq!(table[0], vec![None, Some(10), Some(30), None]);
    assert_eq!(table[1], vec![Some(5), None, Some(7), Some(8)]);
}

#[test]
fn tracer_follows_a_line_and_stops_at_a_jump() {
    let red = Color::rgb(255, 0, 0);
    let white = Color::rgb(255, 255, 255);
    let mut pixels = Vec::new();
    for y in 0..100u32 {
        for x in 0..10u32 {
            let row = if x < 6 { 50 + x } else { 90 };
            pixels.push(if y == row { red } else { white });
        }
    }
    let img = Image::new(10, 100, pixels).unwrap();
    let seed = ImagePixel { x: 2, y: 52, color: red };
    let path = img.detect_line(seed, &LineDetectionSettings::default());
    assert_eq!(path, vec![(0, 50), (1, 51), (2, 52), (3, 53), (4, 54), (5, 55)]);
    let off = ImagePixel { x: 2, y: 10, color: red };
    assert_eq!(img.detect_line(off, &LineDetectionSettings::default()), vec![(2, 10)]);
}

#[test]
fn later_strip_merges_into_the_strip_it_touches() {
    let m = mask_from(3, 8, |x, y| (x == 0 && y == 0) || (x == 1 && (y == 1 || y == 5)) || (x == 2 && (2..=6).contains(&y)));
    let l = VerticalComponentList::convert(&m);
    assert_eq!(l.counts(), vec![1, 2, 1]);
    let strips = l.combining_horizontally();
    assert_eq!(strips.len(), 1);
    assert_eq!(strips[0].x_start, X(0));
    assert_eq!(
        strips[0].combined,
        vec![
            VerticalComponentCombined { y_min: 0, y_max: 0 },
            VerticalComponentCombined { y_min: 1, y_max: 5 },
            VerticalComponentCombined { y_min: 2, y_max: 6 },
        ]
    );
}
