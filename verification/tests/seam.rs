use panoloom::gcgraph::GcGraph;
use panoloom::imgproc::GrayImage;
use panoloom::seam::{find_seams_graph_cut_color, masks_intersect, overlap_roi};
use panoloom::warp::PixelImage;

#[test]
fn max_flow_tiny_graph() {
    // 2 vertices: v0 strongly source, v1 strongly sink, weak middle edge.
    let mut g = GcGraph::new(2, 1);
    let a = g.add_vtx();
    let b = g.add_vtx();
    g.add_term_weights(a, 10, 0);
    g.add_term_weights(b, 0, 10);
    g.add_edges(a, b, 1, 1);
    let flow = g.max_flow();
    assert!((flow as f64 - 1.0).abs() < 1e-6);
    assert!(g.in_source_segment(a));
    assert!(!g.in_source_segment(b));
}

#[test]
fn seam_splits_overlap() {
    // Two identical flat images overlapping by half: every overlap pixel
    // must end up in exactly one mask.
    let img = PixelImage::new(8, 4, 3, vec![128u8; 8 * 4 * 3]);
    let images = vec![img.clone(), img];
    let corners = vec![(0, 0), (4, 0)];
    let mut masks = vec![
        GrayImage::new(8, 4, vec![255; 32]),
        GrayImage::new(8, 4, vec![255; 32]),
    ];
    find_seams_graph_cut_color(&images, &corners, &mut masks);
    for y in 0..4usize {
        for x in 4..8usize {
            let a = masks[0].data[y * 8 + x] != 0;
            let b = masks[1].data[y * 8 + x - 4] != 0;
            assert!(a ^ b, "overlap pixel ({x},{y}) owned by {}", a as u8 + b as u8);
        }
    }
}

#[test]
fn a_path_carries_what_its_narrowest_edge_lets_through() {
    // source -7-> 0 -5-> 1 -3-> 2 -9-> sink, and a side way 0 -1-> 2.
    let mut g = GcGraph::new(3, 3);
    let (a, b, c) = (g.add_vtx(), g.add_vtx(), g.add_vtx());
    g.add_term_weights(a, 7, 0);
    g.add_term_weights(c, 0, 9);
    g.add_edges(a, b, 5, 0);
    g.add_edges(b, c, 3, 0);
    g.add_edges(a, c, 1, 0);
    assert_eq!(g.max_flow(), 4);
    assert!(g.in_source_segment(a));
    assert!(g.in_source_segment(b));
    assert!(!g.in_source_segment(c));
}

#[test]
fn both_terminals_of_a_vertex_cancel_out() {
    let mut g = GcGraph::new(2, 1);
    let (v, alone) = (g.add_vtx(), g.add_vtx());
    g.add_edges(v, alone, 0, 0);
    g.add_term_weights(v, 5, 3);
    assert_eq!(g.max_flow(), 3);
    assert!(g.in_source_segment(v));
}

#[test]
fn the_seam_follows_where_the_images_agree() {
    // 12 columns each, the last 6 of one under the first 6 of the other. The
    // images differ everywhere but in the third column of the overlap.
    let (w, h) = (12usize, 3usize);
    let left = vec![10u8; w * h * 3];
    let mut right = vec![200u8; w * h * 3];
    for y in 0..h {
        for x in 2..4 {
            for c in 0..3 {
                right[(y * w + x) * 3 + c] = 10;
            }
        }
    }
    let images = vec![PixelImage::new(w, h, 3, left), PixelImage::new(w, h, 3, right)];
    let corners = vec![(0, 0), (6, 0)];
    let mut masks = vec![
        GrayImage::new(w, h, vec![255; w * h]),
        GrayImage::new(w, h, vec![255; w * h]),
    ];
    find_seams_graph_cut_color(&images, &corners, &mut masks);
    for y in 0..h {
        for x in 6..12 {
            let first = masks[0].at(x, y) != 0;
            let second = masks[1].at(x - 6, y) != 0;
            assert!(first ^ second);
            assert_eq!(first, x < 9, "column {x} of row {y}");
        }
        // Outside the overlap nothing changes.
        for x in 0..6 {
            assert_eq!(masks[0].at(x, y), 255);
            assert_eq!(masks[1].at(x + 6, y), 255);
        }
    }
}

#[test]
fn images_apart_keep_their_masks() {
    let img = PixelImage::new(4, 4, 3, vec![0u8; 48]);
    let images = vec![img.clone(), img];
    let mut masks = vec![
        GrayImage::new(4, 4, vec![255; 16]),
        GrayImage::new(4, 4, vec![255; 16]),
    ];
    find_seams_graph_cut_color(&images, &[(0, 0), (4, 0)], &mut masks);
    assert!(masks.iter().all(|m| m.data.iter().all(|&v| v == 255)));
}

#[test]
fn rectangles_that_touch_do_not_overlap() {
    assert_eq!(overlap_roi((0, 0), (10, 0), (10, 10), (5, 5)), None);
    assert_eq!(
        overlap_roi((0, 0), (6, -2), (10, 10), (10, 10)),
        Some((6, 0, 4, 8))
    );
}

#[test]
fn masks_meet_only_where_both_are_set() {
    let a = GrayImage::new(4, 1, vec![255, 255, 0, 0]);
    let b = GrayImage::new(4, 1, vec![0, 0, 255, 255]);
    let c = GrayImage::new(4, 1, vec![0, 255, 255, 255]);
    assert!(!masks_intersect((0, 0), (0, 0), &a, &b, (0, 0, 4, 1)));
    assert!(masks_intersect((0, 0), (0, 0), &a, &c, (0, 0, 4, 1)));
    assert!(masks_intersect((0, 0), (-1, 0), &a, &b, (0, 0, 3, 1)));
}

#[test]
fn capacities_add_up_in_the_cut() {
    // Cutting the second vertex off costs its 2 from the source and the 3
    // over the arc; keeping it costs its 9 to the sink; giving both away
    // costs 4 + 2.
    let mut g = GcGraph::new(2, 1);
    let (a, b) = (g.add_vtx(), g.add_vtx());
    g.add_term_weights(a, 3, 0);
    g.add_term_weights(a, 1, 0);
    g.add_term_weights(b, 2, 9);
    g.add_edges(a, b, 3, 100);
    assert_eq!(g.max_flow(), 5);
    assert!(g.in_source_segment(a));
    assert!(!g.in_source_segment(b));
}

#[test]
fn every_covered_point_gets_one_owner() {
    let image = |w: usize, h: usize, seed: usize| {
        let data = (0..w * h * 3).map(|i| ((i * 37 + seed * 91) % 251) as u8).collect();
        PixelImage::new(w, h, 3, data)
    };
    let images = vec![image(8, 5, 1), image(7, 6, 2), image(6, 6, 3)];
    let corners = vec![(0, 0), (4, -1), (2, 2)];
    let mut masks: Vec<GrayImage> = images
        .iter()
        .map(|m| GrayImage::new(m.width, m.height, vec![255; m.width * m.height]))
        .collect();
    // A hole in the first mask.
    masks[0].data[2 * 8 + 5] = 0;
    let owners = |masks: &[GrayImage], x: i32, y: i32| -> Vec<usize> {
        (0..3)
            .filter(|&i| {
                let (dx, dy) = (x - corners[i].0, y - corners[i].1);
                let (w, h) = (masks[i].width as i32, masks[i].height as i32);
                (0..w).contains(&dx)
                    && (0..h).contains(&dy)
                    && masks[i].data[(dy * w + dx) as usize] != 0
            })
            .collect()
    };
    let before = masks.clone();
    find_seams_graph_cut_color(&images, &corners, &mut masks);
    for y in -3..10 {
        for x in -3..14 {
            let (was, is) = (owners(&before, x, y), owners(&masks, x, y));
            assert_eq!(is.len(), was.len().min(1));
            assert!(is.iter().all(|i| was.contains(i)));
        }
    }
}
