use polarcoaster::animator::Animator;
use polarcoaster::trace::{Event, Trace};
use polarcoaster::tree::reconstruct;
use polarcoaster::viewport::{layout, Fraction, Point, Viewport};

fn state(a: &Animator) -> (usize, usize, u32) {
    (a.from_index(), a.to_index(), a.elapsed())
}

#[test]
fn starts_on_the_first_segment() {
    let a = Animator::new(vec![0, 1, 2, 1, 0, 3, 4], 1500).unwrap();
    assert_eq!(state(&a), (0, 1, 0));
    assert_eq!(a.ticks_per_segment(), 1500);
    assert_eq!(a.last_sample(), 0);
    assert_eq!(a.path(), &vec![0, 1, 2, 1, 0, 3, 4]);
    assert_eq!((a.from_node(), a.to_node()), (0, 1));
}

#[test]
fn no_cart_without_a_walk_or_a_period() {
    assert_eq!(Animator::new(vec![], 1500), None);
    assert_eq!(Animator::new(vec![0, 1], 0), None);
    assert_eq!(Animator::new(vec![], 0), None);
}

#[test]
fn cart_on_a_single_node_stays_there() {
    let mut a = Animator::new(vec![0], 10).unwrap();
    assert_eq!(state(&a), (0, 0, 0));
    a.advance(25);
    assert_eq!(state(&a), (0, 0, 5));
    a.reset();
    assert_eq!(state(&a), (0, 0, 0));
}

#[test]
fn zero_elapsed_time_changes_nothing() {
    let mut a = Animator::new(vec![0, 1, 2, 1, 0, 3, 4], 1500).unwrap();
    a.advance(4000);
    let before = state(&a);
    assert_eq!(before, (2, 3, 1000));
    a.advance(0);
    assert_eq!(state(&a), before);
    a.advance(0);
    assert_eq!(state(&a), before);
}

#[test]
fn sampling_twice_at_one_time_changes_nothing() {
    let mut a = Animator::new(vec![0, 1, 2], 1000).unwrap();
    a.sample(1500);
    assert_eq!(state(&a), (1, 2, 500));
    assert_eq!(a.last_sample(), 1500);
    a.sample(1500);
    assert_eq!(state(&a), (1, 2, 500));
    assert_eq!(a.last_sample(), 1500);
}

#[test]
fn sampling_passes_the_time_since_the_last_sample() {
    let mut a = Animator::new(vec![0, 1, 2], 1000).unwrap();
    a.sample(700);
    assert_eq!(state(&a), (0, 1, 700));
    a.sample(1900);
    assert_eq!(state(&a), (1, 2, 900));
    a.sample(4000);
    assert_eq!(state(&a), (1, 2, 0));
    assert_eq!(a.last_sample(), 4000);
}

#[test]
fn clock_that_goes_back_lets_no_time_pass() {
    let mut a = Animator::new(vec![0, 1, 2], 1000).unwrap();
    a.sample(1500);
    a.sample(1000);
    assert_eq!(state(&a), (1, 2, 500));
    assert_eq!(a.last_sample(), 1000);
    a.sample(1200);
    assert_eq!(state(&a), (1, 2, 700));
}

#[test]
fn two_and_a_half_segments_on_a_walk_of_two() {
    let mut a = Animator::new(vec![0, 1], 1000).unwrap();
    a.advance(2500);
    assert_eq!(state(&a), (0, 1, 500));
    assert_eq!(a.elapsed() as f64 / a.ticks_per_segment() as f64, 0.5);
}

#[test]
fn two_and_a_half_segments_on_a_walk_of_three() {
    let mut a = Animator::new(vec![0, 1, 2], 1000).unwrap();
    a.advance(2500);
    assert_eq!(state(&a), (2, 0, 500));
    assert_eq!((a.from_node(), a.to_node()), (2, 0));
}

#[test]
fn full_segment_moves_the_cart_on() {
    let mut a = Animator::new(vec![0, 1, 2], 1000).unwrap();
    a.advance(999);
    assert_eq!(state(&a), (0, 1, 999));
    a.advance(1);
    assert_eq!(state(&a), (1, 2, 0));
}

#[test]
fn small_steps_add_up() {
    let mut a = Animator::new(vec![0, 1, 2, 1, 0, 3, 4], 1500).unwrap();
    let mut b = Animator::new(vec![0, 1, 2, 1, 0, 3, 4], 1500).unwrap();
    for _ in 0..1000 {
        a.advance(16);
    }
    b.advance(16000);
    assert_eq!(state(&a), state(&b));
    assert_eq!(state(&b), (3, 4, 1000));
}

#[test]
fn longest_time_passes_at_once() {
    let mut a = Animator::new(vec![0, 1, 2], 1).unwrap();
    a.advance(u64::MAX);
    assert_eq!(state(&a), (0, 1, 0));
    let mut b = Animator::new(vec![0, 1, 2], u32::MAX).unwrap();
    b.advance(u64::MAX);
    assert_eq!(state(&b), (2, 0, 0));
}

#[test]
fn reset_puts_the_cart_back() {
    let mut a = Animator::new(vec![0, 1, 2, 1, 0, 3, 4], 1500).unwrap();
    a.sample(7000);
    assert_eq!(state(&a), (4, 5, 1000));
    a.reset();
    assert_eq!(state(&a), (0, 1, 0));
    assert_eq!(a.last_sample(), 7000);
    assert_eq!(a.path(), &vec![0, 1, 2, 1, 0, 3, 4]);
    assert_eq!(a.ticks_per_segment(), 1500);
}

#[test]
fn cart_lies_between_the_nodes_of_its_segment() {
    let depths = vec![0, 1, 2, 1, 2];
    let mut events = Vec::new();
    for _ in 0..depths.len() {
        events.push(Event::Rule { rule: String::from("r") });
    }
    let trace = Trace::new(2, depths, events).unwrap();
    let tree = reconstruct(trace.depths());
    let l = layout(trace.depths(), trace.max_depth(), Viewport { width: 960, height: 540 });
    let mut a = Animator::new(tree.cart_path, 1500).unwrap();
    a.advance(500);
    let p = a.cart_position(&l.positions).unwrap();
    assert_eq!(
        p,
        Point {
            x: Fraction { num: 4800 * 1000 + 1920 * 500, den: 15000 },
            y: Fraction { num: 1080 * 1000 + 5400 * 500, den: 30000 },
        }
    );
    assert_eq!(p.x.num as f64 / p.x.den as f64, 384.0);
    assert_eq!(p.y.num as f64 / p.y.den as f64, 126.0);
    a.advance(1000);
    assert_eq!((a.from_node(), a.to_node()), (1, 2));
    let p = a.cart_position(&l.positions).unwrap();
    assert_eq!(p.x, Fraction { num: 1920 * 1500, den: 15000 });
    assert_eq!(p.y, Fraction { num: 5400 * 1500, den: 30000 });
}

#[test]
fn no_cart_position_without_the_positions_of_its_nodes() {
    let a = Animator::new(vec![0, 3], 1500).unwrap();
    let here = Point { x: Fraction { num: 1, den: 1 }, y: Fraction { num: 1, den: 1 } };
    assert_eq!(a.cart_position(&vec![here, here, here]), None);
    assert_eq!(a.cart_position(&vec![]), None);
    let b = Animator::new(vec![3, 0], 1500).unwrap();
    assert_eq!(b.cart_position(&vec![here, here, here]), None);
    assert!(a.cart_position(&vec![here, here, here, here]).is_some());
}
