use pcbcap::capacitance::{CapacitanceParams, adjacent_pairs, capacitance_report, overlap_counts};
use pcbcap::components::{CellId, ConnectedComponents};
use pcbcap::gerber::Image;
use pcbcap::matcher::{PixelMap, match_nets};
use pcbcap::netindex::{NetInfos, Point, UNITS_PER_MM};
use pcbcap::raster::{Artwork, Bitmap, RasterError};
use pcbcap::registry::register_nets;
use pcbcap::xorwow::{Xorwow, palette};

fn bitmap(rows: &[&str]) -> Bitmap {
    let height = rows.len();
    let width = if height > 0 { rows[0].len() } else { 0 };
    let mut pixels = Vec::new();
    for r in rows {
        for c in r.chars() {
            pixels.push(if c == '#' { 255 } else { 0 });
        }
    }
    Bitmap { height, width, pixels }
}

fn layer_components(rows: &[&str]) -> ConnectedComponents {
    let art = Artwork::new(&vec![bitmap(rows)]).unwrap();
    let mut cc = art.connected_components();
    cc.remove(0)
}

#[test]
fn components_partition_the_copper() {
    let cc = layer_components(&["##..#", "#...#", "..#..", "####."]);
    assert_eq!(cc.components.len(), 3);
    let mut seen = vec![0usize; 20];
    for (k, comp) in cc.components.iter().enumerate() {
        assert!(!comp.is_empty());
        for c in comp {
            let q = c.iy as usize * 5 + c.ix as usize;
            seen[q] += 1;
            assert_eq!(cc.labels[q], k + 1);
        }
    }
    let set: Vec<usize> = vec![0, 1, 4, 5, 9, 12, 15, 16, 17, 18];
    assert_eq!(cc.labels, vec![1, 1, 0, 0, 2, 1, 0, 0, 0, 2, 0, 0, 3, 0, 0, 3, 3, 3, 3, 0]);
    for q in 0..20 {
        assert_eq!(seen[q], if set.contains(&q) { 1 } else { 0 });
    }
    assert_eq!(cc.components[0][0], CellId { iy: 0, ix: 0 });
    assert_eq!(cc.components[1][0], CellId { iy: 0, ix: 4 });
    assert_eq!(cc.components[2][0], CellId { iy: 2, ix: 2 });
    assert_eq!(cc.components[2].len(), 5);
}

#[test]
fn diagonal_pixels_stay_apart() {
    let cc = layer_components(&["#.#", ".#.", "#.#"]);
    assert_eq!(cc.components.len(), 5);
    for comp in &cc.components {
        assert_eq!(comp.len(), 1);
    }
    assert_eq!(cc.labels, vec![1, 0, 2, 0, 3, 0, 4, 0, 5]);
}

#[test]
fn empty_layer_has_no_components_and_no_colours() {
    let cc = layer_components(&["...", "..."]);
    assert_eq!(cc.components.len(), 0);
    assert_eq!(cc.labels, vec![0; 6]);
    let mut xw = Xorwow::new(1);
    let p = palette(&mut xw, cc.components.len());
    assert!(p.is_empty());
}

#[test]
fn layers_combine_into_masks() {
    let art = Artwork::new(&vec![bitmap(&["#.", ".."]), bitmap(&["##", ".#"])]).unwrap();
    let cc = art.connected_components();
    assert_eq!(cc.len(), 2);
    assert_eq!(cc[0].labels, vec![1, 0, 0, 0]);
    assert_eq!(cc[1].labels, vec![1, 1, 0, 1]);
}

#[test]
fn raster_errors() {
    assert!(matches!(Artwork::new(&vec![]), Err(RasterError::NoLayers)));
    let two = Artwork::new(&vec![bitmap(&["#."]), bitmap(&["#", "."])]);
    assert!(matches!(two, Err(RasterError::DimensionMismatch { layer: 1, rows: 2, columns: 1 })));
    let many: Vec<Bitmap> = (0..17).map(|_| bitmap(&["#"])).collect();
    assert!(matches!(Artwork::new(&many), Err(RasterError::TooManyLayers(17))));
}

#[test]
fn pixel_centre_maps_back() {
    // 254 dpi: one pixel is 0.1 mm.
    let m = PixelMap { dpi: 254, x0: 0, y0: 0, height: 10, width: 10 };
    let tenth = UNITS_PER_MM / 10;
    for row in 0..10i128 {
        for col in 0..10i128 {
            let p = Point { x: col * tenth + tenth / 2, y: (10 - row) * tenth - tenth / 2 };
            assert_eq!(m.pixel_of(p), Some((row as usize, col as usize)));
        }
    }
    assert_eq!(m.pixel_of(Point { x: -tenth, y: tenth / 2 }), None);
    assert_eq!(m.column_row(Point { x: -tenth, y: tenth / 2 }), (-2, 9));
    assert_eq!(m.column_row(Point { x: 25 * tenth / 2, y: 25 * tenth / 2 }), (12, -3));
    assert_eq!(m.pixel_of(Point { x: tenth / 2, y: 20 * tenth }), None);
}

fn single_pixel_board(gerber_a: &str, gerber_b: &str, layer_a: &[&str], layer_b: &[&str]) -> (Vec<pcbcap::capacitance::CapEntry>, pcbcap::registry::Registry, Vec<usize>) {
    let art = Artwork::new(&vec![bitmap(layer_a), bitmap(layer_b)]).unwrap();
    let cc = art.connected_components();
    let h = layer_a.len();
    let w = layer_a[0].len();
    let m = PixelMap { dpi: 600, x0: 0, y0: 0, height: h, width: w };
    let mut names = Vec::new();
    let mut outside = Vec::new();
    for (l, text) in [gerber_a, gerber_b].iter().enumerate() {
        let info = NetInfos::from_image(&Image::parse(text).unwrap());
        let lm = match_nets(&info, &cc[l], &m);
        outside.push(lm.out_of_bounds);
        names.push(lm.names);
    }
    let (reg, ids) = register_nets(&names);
    let counts = overlap_counts(&cc, &ids, h * w);
    let params = CapacitanceParams { dpi: 600, eps_milli: 4200, thickness_um: 1600, cap_min_af: 0 };
    (capacitance_report(&counts, &params), reg, outside)
}

#[test]
fn one_pixel_overlap_capacitance() {
    let (report, reg, outside) = single_pixel_board(
        "%FSLAX26Y26*%%MOMM*%%TO.N,GND*%X21167Y21166D03*",
        "%FSLAX26Y26*%%MOMM*%%TO.N,VCC*%X21167Y21166D03*",
        &["#"],
        &["#"],
    );
    assert_eq!(outside, vec![0, 0]);
    assert_eq!(reg.id_to_name, vec!["N/C".to_string(), "GND".to_string(), "VCC".to_string()]);
    assert_eq!(report.len(), 1);
    assert_eq!((report[0].net_a, report[0].net_b), (1, 2));
    assert_eq!(report[0].overlap, 1);
    // 8.854e-12 * 4.2 * (25.4/600 mm)^2 / 1.6 mm = 41.65 aF
    assert_eq!(report[0].attofarads, 42);
    let pf = report[0].attofarads as f64 * 1e-6;
    let exact = 8.854e-12 * 4.2 * (25.4f64 / 600.0).powi(2) * 1e-6 / 1.6e-3 / 1e-12;
    assert!((pf - exact).abs() < 1e-6);
    assert_eq!(format!("{:.3}", pf), format!("{:.3}", exact));
}

#[test]
fn disjoint_nets_give_empty_report() {
    let (report, _, _) = single_pixel_board(
        "%FSLAX26Y26*%%MOMM*%%TO.N,GND*%X21167Y21166D03*",
        "%FSLAX26Y26*%%MOMM*%%TO.N,VCC*%X63500Y21166D03*",
        &["#.."],
        &["..#"],
    );
    assert!(report.is_empty());
}

#[test]
fn same_net_and_unconnected_give_nothing() {
    let (report, _, _) = single_pixel_board(
        "%FSLAX26Y26*%%MOMM*%%TO.N,GND*%X21167Y21166D03*",
        "%FSLAX26Y26*%%MOMM*%%TO.N,GND*%X21167Y21166D03*",
        &["##"],
        &["##"],
    );
    assert!(report.is_empty());
    let (report, _, _) = single_pixel_board("G04 nothing*", "%FSLAX26Y26*%%MOMM*%%TO.N,VCC*%X21167Y21166D03*", &["#"], &["#"]);
    assert!(report.is_empty());
}

#[test]
fn threshold_filters_small_capacitances() {
    let art = Artwork::new(&vec![bitmap(&["#"]), bitmap(&["#"])]).unwrap();
    let cc = art.connected_components();
    let ids = vec![vec![1usize], vec![2usize]];
    let counts = overlap_counts(&cc, &ids, 1);
    assert_eq!(counts, vec![(1, 2, 1)]);
    let low = CapacitanceParams { dpi: 600, eps_milli: 4200, thickness_um: 1600, cap_min_af: 41 };
    assert_eq!(capacitance_report(&counts, &low).len(), 1);
    let high = CapacitanceParams { dpi: 600, eps_milli: 4200, thickness_um: 1600, cap_min_af: 42 };
    assert_eq!(capacitance_report(&counts, &high).len(), 0);
    // twice the thickness halves it: 20.8 aF
    let thick = CapacitanceParams { dpi: 600, eps_milli: 4200, thickness_um: 3200, cap_min_af: 0 };
    assert_eq!(capacitance_report(&counts, &thick)[0].attofarads, 21);
}

#[test]
fn report_is_sorted_by_capacitance() {
    let counts = vec![(1usize, 2usize, 10u128), (1, 3, 2), (2, 3, 5)];
    let p = CapacitanceParams { dpi: 600, eps_milli: 4200, thickness_um: 1600, cap_min_af: 0 };
    let r = capacitance_report(&counts, &p);
    let order: Vec<(usize, usize)> = r.iter().map(|e| (e.net_a, e.net_b)).collect();
    assert_eq!(order, vec![(1, 3), (2, 3), (1, 2)]);
    assert_eq!(r[2].attofarads, 417);
}

#[test]
fn layer_adjacency_skips_the_first_downward_pair() {
    assert_eq!(adjacent_pairs(1), vec![]);
    assert_eq!(adjacent_pairs(2), vec![(0, 1)]);
    assert_eq!(adjacent_pairs(4), vec![(0, 1), (1, 2), (2, 1), (2, 3), (3, 2)]);
}

#[test]
fn last_claim_wins_and_conflicts_are_counted() {
    let cc = layer_components(&["##"]);
    let info = NetInfos::from_image(&Image::parse("%FSLAX26Y26*%%MOMM*%%TO.N,A*%X21167Y21166D03*%TO.N,B*%X63500Y21166D03*X999999999Y0D03*").unwrap());
    let m = PixelMap { dpi: 600, x0: 0, y0: 0, height: 1, width: 2 };
    let lm = match_nets(&info, &cc, &m);
    assert_eq!(lm.names, vec![Some("B".to_string())]);
    assert_eq!(lm.conflicts, 1);
    assert_eq!(lm.out_of_bounds, 1);
    assert_eq!(lm.hits, vec![vec![Some(1)], vec![Some(1), None]]);
}
