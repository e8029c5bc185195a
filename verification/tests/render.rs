//! The renderable sampling: one segment per displayed cell, remapped into
//! the visible canvas when the full padded field is shown.

use flowfield::field::{ForceField, GradientField};
use flowfield::flow::FlowField;
use flowfield::vec2::Vec2i;

fn seg(sx: i64, sy: i64, ex: i64, ey: i64) -> (Vec2i, Vec2i) {
    (Vec2i { x: sx, y: sy }, Vec2i { x: ex, y: ey })
}

#[test]
fn display_visible_segments() {
    // A 4x4 padded grid whose visible part is its middle 2x2 cells; every
    // cell holds (2.0, 0.0), so each arrow spans two cells along +x.
    let mut g = FlowField::new(2_000, 2_000, 1_000, 500).unwrap();
    g.merge(&ForceField::Gradient(GradientField::new(2_000, 0)));
    assert_eq!(g.visible_bounds(), [[1, 1], [3, 3]]);
    let segs = g.display(false);
    assert_eq!(segs.len(), 4);
    let got: Vec<(Vec2i, Vec2i)> = segs.iter().map(|s| (s.start, s.end)).collect();
    assert_eq!(
        got,
        vec![
            seg(0, 0, 2_000, 0),
            seg(0, 1_000, 2_000, 1_000),
            seg(1_000, 0, 3_000, 0),
            seg(1_000, 1_000, 3_000, 1_000),
        ]
    );
}

#[test]
fn display_complete_remaps_into_canvas() {
    let mut g = FlowField::new(2_000, 2_000, 1_000, 500).unwrap();
    g.merge(&ForceField::Gradient(GradientField::new(2_000, 0)));
    let segs = g.display(true);
    assert_eq!(segs.len(), 16);
    // The padded extent [-1000, 3000] maps linearly onto [0, 2000].
    assert_eq!((segs[0].start, segs[0].end), seg(0, 0, 1_000, 0));
    assert_eq!((segs[15].start, segs[15].end), seg(1_500, 1_500, 2_500, 1_500));
}

#[test]
fn display_empty_visible_range() {
    // A grid with no padding whose visible corner clamps onto row zero:
    // the visible range holds no full cell rows, so nothing is drawn.
    let g = FlowField::new(2_000, 1_000, 1_000, 0).unwrap();
    assert_eq!(g.visible_bounds(), [[0, 0], [1, 0]]);
    assert_eq!(g.display(false).len(), 0);
}
