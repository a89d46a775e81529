use polarcoaster::trace::{Event, Trace};
use polarcoaster::viewport::{interpolate, layout, to_viewport, x_axis, y_axis};
use polarcoaster::viewport::{Axis, Fraction, Point, Viewport};
use polarcoaster::grid::GridPosition;

fn trace_of(depths: Vec<usize>) -> Trace {
    let mut events = Vec::new();
    let mut max_depth = 0;
    for d in &depths {
        events.push(Event::Query { term: String::from("q") });
        if *d > max_depth {
            max_depth = *d;
        }
    }
    Trace::new(max_depth, depths, events).unwrap()
}

fn pixels(f: Fraction) -> f64 {
    f.num as f64 / f.den as f64
}

fn point(x_num: u128, x_den: u128, y_num: u128, y_den: u128) -> Point {
    Point { x: Fraction { num: x_num, den: x_den }, y: Fraction { num: y_num, den: y_den } }
}

#[test]
fn horizontal_axis_fills_three_fifths() {
    assert_eq!(x_axis(2, 960), Axis { step: 2880, origin: 1920, den: 10 });
    assert_eq!(x_axis(5, 1000), Axis { step: 3000, origin: 8000, den: 40 });
}

#[test]
fn vertical_axis_fills_four_fifths() {
    assert_eq!(y_axis(2, 540), Axis { step: 4320, origin: 1080, den: 20 });
    assert_eq!(y_axis(3, 100), Axis { step: 800, origin: 300, den: 30 });
}

#[test]
fn axes_of_a_grid_without_extent_take_one_step() {
    assert_eq!(x_axis(1, 960), Axis { step: 2880, origin: 1920, den: 10 });
    assert_eq!(x_axis(0, 960), Axis { step: 2880, origin: 1920, den: 10 });
    assert_eq!(y_axis(0, 540), Axis { step: 4320, origin: 540, den: 10 });
}

#[test]
fn grid_place_goes_to_its_point() {
    let p = to_viewport(
        GridPosition { column: 1, half: true, row: 2 },
        Axis { step: 2880, origin: 1920, den: 10 },
        Axis { step: 4320, origin: 1080, den: 20 },
    );
    assert_eq!(p, point(3 * 2880 + 1920, 10, 2 * 4320 + 1080, 20));
}

#[test]
fn lays_out_a_small_tree() {
    let trace = trace_of(vec![0, 1, 2, 1, 2]);
    let l = layout(trace.depths(), trace.max_depth(), Viewport { width: 960, height: 540 });
    assert_eq!(l.grid.width, 2);
    assert_eq!(l.x_axis, Axis { step: 2880, origin: 1920, den: 10 });
    assert_eq!(l.y_axis, Axis { step: 4320, origin: 1080, den: 20 });
    assert_eq!(
        l.positions,
        vec![
            point(4800, 10, 1080, 20),
            point(1920, 10, 5400, 20),
            point(1920, 10, 9720, 20),
            point(7680, 10, 5400, 20),
            point(7680, 10, 9720, 20),
        ]
    );
    assert_eq!(pixels(l.positions[0].x), 480.0);
    assert_eq!(pixels(l.positions[0].y), 54.0);
    assert_eq!(pixels(l.positions[4].x), 768.0);
    assert_eq!(pixels(l.positions[4].y), 486.0);
}

#[test]
fn lays_out_a_lone_root() {
    let trace = trace_of(vec![0]);
    let l = layout(trace.depths(), trace.max_depth(), Viewport { width: 960, height: 540 });
    assert_eq!(l.positions, vec![point(1920, 10, 540, 10)]);
    assert_eq!(pixels(l.positions[0].x), 192.0);
    assert_eq!(pixels(l.positions[0].y), 54.0);
}

#[test]
fn lays_out_a_single_column() {
    let trace = trace_of(vec![0, 1, 2]);
    let l = layout(trace.depths(), trace.max_depth(), Viewport { width: 100, height: 100 });
    assert_eq!(l.grid.width, 1);
    assert_eq!(
        l.positions,
        vec![point(200, 10, 200, 20), point(200, 10, 1000, 20), point(200, 10, 1800, 20)]
    );
}

#[test]
fn lays_out_a_single_level_under_the_root_in_an_empty_viewport() {
    let trace = trace_of(vec![0, 1, 1]);
    let l = layout(trace.depths(), trace.max_depth(), Viewport { width: 0, height: 0 });
    assert_eq!(l.positions, vec![point(0, 10, 0, 10), point(0, 10, 0, 10), point(0, 10, 0, 10)]);
}

#[test]
fn scale_and_offset_divide_out() {
    let depths = vec![0, 1, 2, 2, 3, 1, 2, 3, 3, 2, 1, 1, 2];
    let trace = trace_of(depths.clone());
    let l = layout(trace.depths(), trace.max_depth(), Viewport { width: 960, height: 540 });
    for i in 0..depths.len() {
        let cell = l.grid.cells[i];
        let half_columns = 2 * cell.column as u128 + if cell.half { 1 } else { 0 };
        let p = l.positions[i];
        assert_eq!((p.x.num - l.x_axis.origin) / l.x_axis.step, half_columns);
        assert_eq!((p.x.num - l.x_axis.origin) % l.x_axis.step, 0);
        assert_eq!((p.y.num - l.y_axis.origin) / l.y_axis.step, cell.row as u128);
        assert_eq!((p.y.num - l.y_axis.origin) % l.y_axis.step, 0);
        let scale_x = 960.0 * 0.6 / 4.0;
        let offset_x = (960.0 - 4.0 * scale_x) / 2.0;
        let column = half_columns as f64 / 2.0;
        assert!(((pixels(p.x) - offset_x) / scale_x - column).abs() < 1e-9);
        let scale_y = 540.0 * 0.8 / 3.0;
        let offset_y = (540.0 - 3.0 * scale_y) / 2.0;
        assert!(((pixels(p.y) - offset_y) / scale_y - cell.row as f64).abs() < 1e-9);
    }
}

#[test]
fn nodes_stay_inside_the_viewport() {
    let depths = vec![0, 1, 2, 2, 3, 1, 2, 3, 3, 2, 1, 1, 2];
    let trace = trace_of(depths.clone());
    let l = layout(trace.depths(), trace.max_depth(), Viewport { width: 960, height: 540 });
    for i in 0..depths.len() {
        assert!(192.0 <= pixels(l.positions[i].x) && pixels(l.positions[i].x) <= 768.0);
        assert!(54.0 <= pixels(l.positions[i].y) && pixels(l.positions[i].y) <= 486.0);
    }
}

#[test]
fn point_a_quarter_of_the_way() {
    let a = point(100, 10, 200, 20);
    let b = point(300, 10, 0, 20);
    assert_eq!(interpolate(a, b, 1, 4), Some(point(600, 40, 600, 80)));
    assert_eq!(interpolate(a, b, 0, 4), Some(point(400, 40, 800, 80)));
    assert_eq!(interpolate(a, b, 4, 4), Some(point(1200, 40, 0, 80)));
}

#[test]
fn no_point_without_a_period_or_beyond_the_end() {
    let a = point(100, 10, 200, 20);
    let b = point(300, 10, 0, 20);
    assert_eq!(interpolate(a, b, 0, 0), None);
    assert_eq!(interpolate(a, b, 5, 4), None);
}

#[test]
fn no_point_between_points_in_different_units() {
    let a = point(100, 10, 200, 20);
    assert_eq!(interpolate(a, point(300, 11, 0, 20), 1, 4), None);
    assert_eq!(interpolate(a, point(300, 10, 0, 21), 1, 4), None);
}

#[test]
fn no_point_that_does_not_fit() {
    let a = point(u128::MAX, 10, 200, 20);
    let b = point(300, 10, 0, 20);
    assert_eq!(interpolate(a, b, 1, 4), None);
    assert_eq!(interpolate(b, a, 1, 4), None);
    assert_eq!(interpolate(point(1, u128::MAX, 1, 1), point(1, u128::MAX, 1, 1), 1, 4), None);
    assert_eq!(interpolate(point(1, 1, 1, u128::MAX), point(1, 1, 1, u128::MAX), 1, 4), None);
    assert_eq!(interpolate(point(1, 1, u128::MAX, 1), point(1, 1, 1, 1), 1, 4), None);
}
