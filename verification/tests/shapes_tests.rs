use fbcon::framebuffer::FramebufferDevice;
use fbcon::shapes::{draw_circle, draw_line, draw_triangle, fill_circle};

fn plotted(fb: &FramebufferDevice, color: u32) -> Vec<(usize, usize)> {
    let mut pts = Vec::new();
    for y in 0..fb.height() {
        for x in 0..fb.width() {
            if fb.read_cell(x, y).unwrap() == color {
                pts.push((x, y));
            }
        }
    }
    pts
}

#[test]
fn horizontal_line_plots_exactly_its_five_points() {
    let mut fb = FramebufferDevice::new(8, 3, 32).unwrap();
    draw_line(&mut fb, 0, 0, 4, 0, 0xC0FFEE);
    let pts = plotted(&fb, 0xC0FFEE);
    assert_eq!(pts, vec![(0, 0), (1, 0), (2, 0), (3, 0), (4, 0)]);
}

#[test]
fn diagonal_line_plots_exactly_the_diagonal() {
    let mut fb = FramebufferDevice::new(8, 8, 32).unwrap();
    draw_line(&mut fb, 0, 0, 3, 3, 0xC0FFEE);
    let pts = plotted(&fb, 0xC0FFEE);
    assert_eq!(pts, vec![(0, 0), (1, 1), (2, 2), (3, 3)]);
}

#[test]
fn vertical_line_plots_exactly_its_points() {
    let mut fb = FramebufferDevice::new(4, 8, 16).unwrap();
    draw_line(&mut fb, 2, 5, 2, 1, 7);
    let pts = plotted(&fb, 7);
    assert_eq!(pts, vec![(2, 1), (2, 2), (2, 3), (2, 4), (2, 5)]);
}

#[test]
fn line_visits_both_endpoints_whatever_the_direction() {
    let mut fb = FramebufferDevice::new(10, 10, 40).unwrap();
    draw_line(&mut fb, 1, 2, 7, 5, 4);
    let pts = plotted(&fb, 4);
    assert!(pts.contains(&(1, 2)));
    assert!(pts.contains(&(7, 5)));
    let mut fb2 = FramebufferDevice::new(10, 10, 40).unwrap();
    draw_line(&mut fb2, 7, 5, 1, 2, 4);
    let rev = plotted(&fb2, 4);
    assert!(rev.contains(&(1, 2)));
    assert!(rev.contains(&(7, 5)));
}

#[test]
fn line_clips_at_the_frame_edge() {
    let mut fb = FramebufferDevice::new(3, 3, 12).unwrap();
    draw_line(&mut fb, 0, 0, 6, 0, 1);
    let pts = plotted(&fb, 1);
    assert_eq!(pts, vec![(0, 0), (1, 0), (2, 0)]);
}

#[test]
fn circle_is_symmetric_under_its_eight_reflections() {
    let mut fb = FramebufferDevice::new(21, 21, 84).unwrap();
    draw_circle(&mut fb, 10, 10, 5, 0xFFFFFF);
    let pts = plotted(&fb, 0xFFFFFF);
    assert!(!pts.is_empty());
    // the four extreme points of the circle are plotted
    assert!(pts.contains(&(15, 10)));
    assert!(pts.contains(&(5, 10)));
    assert!(pts.contains(&(10, 15)));
    assert!(pts.contains(&(10, 5)));
    for &(x, y) in &pts {
        assert!(pts.contains(&(20 - x, y)));
        assert!(pts.contains(&(x, 20 - y)));
        assert!(pts.contains(&(20 - x, 20 - y)));
    }
}

#[test]
fn filled_circle_is_the_exact_disk() {
    let mut fb = FramebufferDevice::new(5, 5, 20).unwrap();
    fill_circle(&mut fb, 2, 2, 1, 3);
    let pts = plotted(&fb, 3);
    assert_eq!(pts, vec![(2, 1), (1, 2), (2, 2), (3, 2), (2, 3)]);
}

#[test]
fn triangle_draws_its_three_edges() {
    let mut fb = FramebufferDevice::new(8, 8, 32).unwrap();
    draw_triangle(&mut fb, 0, 0, 4, 0, 0, 4, 2);
    let pts = plotted(&fb, 2);
    // the two straight edges
    for i in 0..5 {
        assert!(pts.contains(&(i, 0)));
        assert!(pts.contains(&(0, i)));
    }
    // the hypotenuse from (4, 0) to (0, 4) passes through its midpoint
    assert!(pts.contains(&(2, 2)));
    // the interior stays untouched
    assert!(!pts.contains(&(1, 1)));
}
