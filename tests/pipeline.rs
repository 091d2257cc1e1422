use graph_to_data::{
    aggregate_graphs, color_filtering, extract_colors, group_large_components_and_remaining,
    line_detection, stitch, Color, Error, GraphMultiNode, Image, Settings, UnitInterval,
};

fn white() -> Color {
    Color::rgb(255, 255, 255)
}

fn red() -> Color {
    Color::rgb(255, 0, 0)
}

fn blue() -> Color {
    Color::rgb(0, 0, 153)
}

fn image_from(width: u32, height: u32, f: impl Fn(u32, u32) -> Color) -> Image {
    let mut pixels = Vec::new();
    for y in 0..height {
        for x in 0..width {
            pixels.push(f(x, y));
        }
    }
    Image::new(width, height, pixels).unwrap()
}

fn means(g: &GraphMultiNode) -> Vec<Option<u32>> {
    g.ys.iter().map(|m| m.mean()).collect()
}

fn curve_row(x: u32) -> u32 {
    40 + x / 3
}

#[test]
fn single_curve_gives_one_track_at_its_rows() {
    let img = image_from(200, 200, |x, y| if y == curve_row(x) { blue() } else { white() });
    let settings = Settings::default();
    let detected = line_detection(&img, &settings, 200, 200).ok().unwrap();
    assert_eq!(detected.colors.len(), 1);
    assert_eq!(detected.colors[0], blue());
    assert_eq!(detected.graphs.len(), 1);
    let tracks = &detected.graphs[0].1;
    assert_eq!(tracks.len(), 1);
    let m = means(&tracks[0]);
    for x in 0..200u32 {
        assert_eq!(m[x as usize], Some(curve_row(x)));
    }
}

#[test]
fn small_dot_is_not_a_curve() {
    let img = image_from(200, 200, |x, y| {
        if x == 100 && (90..=92).contains(&y) {
            red()
        } else {
            white()
        }
    });
    let settings = Settings::default();
    assert_eq!(settings.step1_width_minimial_fraction, UnitInterval::new(3, 10).unwrap());
    assert!(extract_colors(&img, &settings).is_empty());
    match line_detection(&img, &settings, 200, 200) {
        Err(e) => assert_eq!(e, Error::NoColorsFound),
        Ok(_) => panic!("a dot must not be detected as a curve"),
    }
}

#[test]
fn two_horizontal_lines_give_two_constant_tracks() {
    let img = image_from(200, 200, |_, y| if y == 50 || y == 150 { red() } else { white() });
    let settings = Settings::default();
    let mask = color_filtering(&img, &red(), settings.step1_step2_color_radius);
    let (tracks, remaining) = group_large_components_and_remaining(&mask, &settings);
    assert_eq!(tracks.len(), 2);
    assert!(remaining.is_empty());
    for x in 0..200 {
        assert_eq!(tracks[0].ys[x].mean(), Some(50));
        assert_eq!(tracks[1].ys[x].mean(), Some(150));
    }
}

#[test]
fn gap_of_five_pixels_is_stitched() {
    let img = image_from(200, 200, |x, y| {
        if y == 100 && !(97..102).contains(&x) {
            red()
        } else {
            white()
        }
    });
    let mut settings = Settings::default();
    settings.step4_component_jump_height_fraction = UnitInterval::new(1, 20).unwrap();
    let mask = color_filtering(&img, &red(), settings.step1_step2_color_radius);
    let (tracks, mut remaining) = group_large_components_and_remaining(&mask, &settings);
    assert_eq!(tracks.len(), 2);
    let stitched = stitch(tracks, &mut remaining, &settings, &mask);
    assert_eq!(stitched.len(), 1);
    let m = means(&stitched[0]);
    for x in 0..200usize {
        if (97..102).contains(&x) {
            assert_eq!(m[x], None);
        } else {
            assert_eq!(m[x], Some(100));
        }
    }
}

#[test]
fn stitching_twice_changes_nothing() {
    let img = image_from(200, 200, |x, y| {
        if (y == 100 && !(97..102).contains(&x)) || (y == 20 && x < 150) {
            red()
        } else {
            white()
        }
    });
    let mut settings = Settings::default();
    settings.step4_component_jump_height_fraction = UnitInterval::new(1, 20).unwrap();
    let mask = color_filtering(&img, &red(), settings.step1_step2_color_radius);
    let (tracks, mut remaining) = group_large_components_and_remaining(&mask, &settings);
    let once = stitch(tracks, &mut remaining, &settings, &mask);
    let before: Vec<Vec<Option<u32>>> = once.iter().map(means).collect();
    let mut none = Vec::new();
    let twice = stitch(once, &mut none, &settings, &mask);
    let after: Vec<Vec<Option<u32>>> = twice.iter().map(means).collect();
    assert_eq!(before, after);
}

#[test]
fn disjoint_tracks_aggregate_into_one() {
    let img = image_from(200, 200, |x, y| {
        if (y == 30 && x < 100) || (y == 160 && x >= 110) {
            red()
        } else {
            white()
        }
    });
    let settings = Settings::default();
    let mask = color_filtering(&img, &red(), settings.step1_step2_color_radius);
    let (tracks, _) = group_large_components_and_remaining(&mask, &settings);
    assert_eq!(tracks.len(), 2);
    let agg = aggregate_graphs(tracks, 200);
    assert_eq!(agg.len(), 1);
    let m = means(&agg[0]);
    assert_eq!(m[10], Some(30));
    assert_eq!(m[150], Some(160));
}

#[test]
fn overlapping_tracks_stay_apart() {
    let img = image_from(200, 200, |_, y| if y == 50 || y == 150 { red() } else { white() });
    let settings = Settings::default();
    let mask = color_filtering(&img, &red(), settings.step1_step2_color_radius);
    let (tracks, _) = group_large_components_and_remaining(&mask, &settings);
    let agg = aggregate_graphs(tracks, 200);
    assert_eq!(agg.len(), 2);
}

#[test]
fn resolution_below_minimum_is_refused() {
    let img = image_from(200, 200, |_, _| white());
    let settings = Settings::default();
    match line_detection(&img, &settings, 99, 200) {
        Err(e) => assert_eq!(e, Error::InvalidResolution { steps_x: 99, steps_y: 200 }),
        Ok(_) => panic!("expected an error"),
    }
}

#[test]
fn small_region_is_refused() {
    let img = image_from(50, 60, |_, _| white());
    let settings = Settings::default();
    match line_detection(&img, &settings, 100, 100) {
        Err(e) => assert_eq!(e, Error::RegionTooSmall { width: 50, height: 60 }),
        Ok(_) => panic!("expected an error"),
    }
}

#[test]
fn opening_removes_a_thin_line() {
    let img = image_from(200, 200, |x, y| if y == curve_row(x) { blue() } else { white() });
    let mut settings = Settings::default();
    settings.step1_close_count = 1;
    match line_detection(&img, &settings, 200, 200) {
        Ok(d) => {
            assert!(d.colors.is_empty());
            assert!(d.graphs.is_empty());
        }
        Err(_) => panic!("the palette holds the curve colour"),
    }
}

#[test]
fn opening_keeps_a_thick_band() {
    let img = image_from(200, 200, |_, y| if (60..66).contains(&y) { blue() } else { white() });
    let mut settings = Settings::default();
    settings.step1_close_count = 1;
    let d = line_detection(&img, &settings, 200, 200).ok().unwrap();
    assert_eq!(d.colors, vec![blue()]);
    assert_eq!(d.graphs.len(), 1);
    assert_eq!(d.graphs[0].1[0].ys[5].mean(), Some(62));
}

#[test]
fn overlay_paints_the_curve_in_the_highlight_colour() {
    let img = image_from(200, 200, |x, y| if y == curve_row(x) { blue() } else { white() });
    let mut settings = Settings::default();
    let detected = line_detection(&img, &settings, 200, 200).ok().unwrap();
    let overlay = detected.final_image_with_plots(&img, &settings).unwrap();
    let at = |im: &Image, x: u32, y: u32| im.pixels[(y * im.width + x) as usize];
    assert_eq!(at(&overlay, 30, curve_row(30)), graph_to_data::gold());
    assert_eq!(at(&overlay, 30, 0), white());
    settings.step6_fit_graph_color = None;
    let plain = detected.final_image_with_plots(&img, &settings).unwrap();
    assert_eq!(at(&plain, 30, curve_row(30)), blue());
}

#[test]
fn curves_of_a_mask_keep_every_hit() {
    let img = image_from(200, 200, |x, y| {
        if (y == 100 && !(97..102).contains(&x)) || (x == 150 && (10..40).contains(&y)) {
            red()
        } else {
            white()
        }
    });
    let mut settings = Settings::default();
    settings.step4_component_jump_height_fraction = UnitInterval::new(1, 20).unwrap();
    let mask = color_filtering(&img, &red(), settings.step1_step2_color_radius);
    let (tracks, remaining) = graph_to_data::curves_of_mask(&mask, &settings);
    for x in 0..200u32 {
        for y in 0..200u32 {
            if mask.hits[(y * 200 + x) as usize] {
                let in_track = tracks.iter().any(|t| t.ys[x as usize].verticals.iter().any(|v| v.y_min <= y && y <= v.y_max));
                let in_strip = remaining.iter().any(|s| {
                    x >= s.x_start.0
                        && ((x - s.x_start.0) as usize) < s.combined.len()
                        && s.combined[(x - s.x_start.0) as usize].y_min <= y
                        && y <= s.combined[(x - s.x_start.0) as usize].y_max
                });
                assert!(in_track || in_strip);
            }
        }
    }
}

#[test]
fn mask_filters_follow_the_fractions() {
    let settings = Settings::default();
    let band = image_from(200, 200, |_, y| if (0..30).contains(&y) { red() } else { white() });
    let tall = color_filtering(&band, &red(), settings.step1_step2_color_radius);
    assert!(!graph_to_data::passes_filters(&tall, &settings));
    let short = image_from(200, 200, |x, y| if y == 5 && x < 50 { red() } else { white() });
    let narrow = color_filtering(&short, &red(), settings.step1_step2_color_radius);
    assert!(!graph_to_data::passes_filters(&narrow, &settings));
    let line = image_from(200, 200, |x, y| if y == 5 && x < 70 { red() } else { white() });
    let wide = color_filtering(&line, &red(), settings.step1_step2_color_radius);
    assert!(graph_to_data::passes_filters(&wide, &settings));
    assert!(graph_to_data::survives_opening_exec(&wide, 0));
    assert!(!graph_to_data::survives_opening_exec(&wide, 1));
}

#[test]
fn clipping_takes_the_smaller_level() {
    assert_eq!(graph_to_data::clip_to_mask(&vec![255, 0, 255, 7], &vec![255, 255, 0, 3]), vec![255, 0, 0, 3]);
}

#[test]
fn opening_keeps_a_block_and_drops_a_line() {
    let img = image_from(10, 10, |x, y| if (x < 3 && y < 3) || y == 8 { red() } else { white() });
    let mask = color_filtering(&img, &red(), 5);
    assert!(graph_to_data::survives_opening_exec(&mask, 1));
    let line = image_from(10, 10, |_, y| if y == 8 { red() } else { white() });
    let thin = color_filtering(&line, &red(), 5);
    assert!(!graph_to_data::survives_opening_exec(&thin, 1));
}
