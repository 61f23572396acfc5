use ratatui_elemental::axis::{axify, get_axis_rect, increase_axis, AxisSizes};
use ratatui_elemental::fit::gap_total;
use ratatui_elemental::geometry::{content_area, Direction, Padding, Region, Vec2};
use ratatui_elemental::policy::{LayoutParams, Size};

#[test]
fn axis_sizes_follow_the_direction() {
    let v = Vec2::new(7, 3);
    assert_eq!(
        AxisSizes::from_u16vec2(v, Direction::Horizontal),
        AxisSizes { main_axis: 7, cross_axis: 3 }
    );
    assert_eq!(
        AxisSizes::from_u16vec2(v, Direction::Vertical),
        AxisSizes { main_axis: 3, cross_axis: 7 }
    );
    assert_eq!(axify(v, Direction::Vertical), AxisSizes { main_axis: 3, cross_axis: 7 });
}

#[test]
fn axis_sizes_round_trip() {
    let v = Vec2::new(12, 5);
    assert_eq!(axify(v, Direction::Horizontal).to_u16vec2(Direction::Horizontal), v);
    assert_eq!(axify(v, Direction::Vertical).to_u16vec2(Direction::Vertical), v);
    let a = AxisSizes { main_axis: 9, cross_axis: 2 };
    assert_eq!(a.to_u16vec2(Direction::Vertical), Vec2 { x: 2, y: 9 });
    assert_eq!(a.to_u16vec2(Direction::Horizontal), Vec2 { x: 9, y: 2 });
}

#[test]
fn axis_sizes_min_is_component_wise() {
    let a = AxisSizes { main_axis: 4, cross_axis: 9 };
    let b = AxisSizes { main_axis: 6, cross_axis: 1 };
    assert_eq!(a.min(b), AxisSizes { main_axis: 4, cross_axis: 1 });
    assert_eq!(b.min(a), AxisSizes { main_axis: 4, cross_axis: 1 });
}

#[test]
fn pad_adds_both_sides_per_axis() {
    let padding = Padding::new(1, 2, 3, 4);
    let a = AxisSizes { main_axis: 10, cross_axis: 20 };
    assert_eq!(a.pad(padding, Direction::Horizontal), AxisSizes { main_axis: 13, cross_axis: 27 });
    assert_eq!(a.pad(padding, Direction::Vertical), AxisSizes { main_axis: 17, cross_axis: 23 });
}

#[test]
fn pad_stops_at_the_largest_length() {
    let padding = Padding::uniform(u16::MAX);
    let a = AxisSizes { main_axis: 10, cross_axis: 0 };
    assert_eq!(
        a.pad(padding, Direction::Horizontal),
        AxisSizes { main_axis: u16::MAX, cross_axis: u16::MAX }
    );
}

#[test]
fn increase_sums_along_and_keeps_the_largest_across() {
    let a = AxisSizes::default();
    let a = a.increase(Vec2::new(10, 3), Direction::Horizontal);
    let a = a.increase(Vec2::new(12, 2), Direction::Horizontal);
    assert_eq!(a, AxisSizes { main_axis: 22, cross_axis: 3 });
    let b = AxisSizes::default();
    let b = b.increase(Vec2::new(10, 3), Direction::Vertical);
    let b = b.increase(Vec2::new(12, 2), Direction::Vertical);
    assert_eq!(b, AxisSizes { main_axis: 5, cross_axis: 12 });
}

#[test]
fn increase_axis_moves_the_offset_on() {
    assert_eq!(increase_axis(4, Direction::Horizontal, Vec2::new(10, 3)), 14);
    assert_eq!(increase_axis(4, Direction::Vertical, Vec2::new(10, 3)), 7);
    assert_eq!(increase_axis(u16::MAX - 1, Direction::Horizontal, Vec2::new(10, 3)), u16::MAX);
}

#[test]
fn get_axis_rect_shortens_from_the_front() {
    let rect = Region::new(2, 3, 20, 10);
    assert_eq!(
        get_axis_rect(Vec2::new(5, 4), Direction::Horizontal, rect),
        Region { x: 7, y: 3, width: 15, height: 10 }
    );
    assert_eq!(
        get_axis_rect(Vec2::new(5, 4), Direction::Vertical, rect),
        Region { x: 2, y: 7, width: 20, height: 6 }
    );
    assert_eq!(
        get_axis_rect(Vec2::new(25, 0), Direction::Horizontal, rect),
        Region { x: 27, y: 3, width: 0, height: 10 }
    );
}

#[test]
fn content_area_is_what_the_padding_leaves() {
    assert_eq!(content_area(Vec2::new(24, 8), Padding::uniform(1)), Vec2::new(22, 6));
    assert_eq!(content_area(Vec2::new(24, 8), Padding::new(3, 4, 0, 5)), Vec2::new(17, 3));
}

#[test]
fn content_area_never_goes_below_zero() {
    assert_eq!(content_area(Vec2::new(3, 1), Padding::uniform(2)), Vec2::new(0, 0));
    assert_eq!(content_area(Vec2::new(0, 0), Padding::uniform(u16::MAX)), Vec2::new(0, 0));
}

#[test]
fn padding_sums_per_dimension() {
    assert_eq!(Padding::new(1, 2, 3, 4).sums(), Vec2::new(3, 7));
    assert_eq!(Padding::uniform(u16::MAX).sums(), Vec2::new(u16::MAX, u16::MAX));
    assert_eq!(Padding::default(), Padding::uniform(0));
}

#[test]
fn intersection_is_the_shared_rectangle() {
    let a = Region::new(0, 0, 50, 10);
    let b = Region::new(40, 5, 20, 20);
    assert_eq!(a.intersect(b), Region { x: 40, y: 5, width: 10, height: 5 });
    assert_eq!(b.intersect(a), Region { x: 40, y: 5, width: 10, height: 5 });
    assert_eq!(a.intersect(a), a);
}

#[test]
fn intersection_of_strangers_is_empty() {
    let a = Region::new(0, 0, 50, 10);
    let b = Region::new(60, 2, 5, 5);
    let r = a.intersect(b);
    assert_eq!(r, Region { x: 60, y: 2, width: 0, height: 5 });
    let c = Region::new(10, 30, 5, 5);
    assert_eq!(a.intersect(c), Region { x: 10, y: 30, width: 5, height: 0 });
}

#[test]
fn intersection_at_the_edge_of_the_grid() {
    let a = Region::new(u16::MAX - 2, 0, 10, 4);
    let b = Region::new(0, 0, u16::MAX, 2);
    assert_eq!(a.intersect(b), Region { x: u16::MAX - 2, y: 0, width: 2, height: 2 });
}

#[test]
fn gap_total_counts_the_spaces_between() {
    assert_eq!(gap_total(2, 0), 0);
    assert_eq!(gap_total(2, 1), 0);
    assert_eq!(gap_total(2, 2), 2);
    assert_eq!(gap_total(3, 5), 12);
    assert_eq!(gap_total(0, 1000), 0);
    assert_eq!(gap_total(u16::MAX, 3), u16::MAX);
    assert_eq!(gap_total(1, usize::MAX), u16::MAX);
}

#[test]
fn policies_tell_clamping_and_growing() {
    assert!(Size::Fixed(3).should_clamp());
    assert!(Size::Grow.should_clamp());
    assert!(!Size::Fit.should_clamp());
    assert!(Size::Grow.is_grow());
    assert!(!Size::Fit.is_grow());
    assert!(!Size::Fixed(0).is_grow());
    assert_eq!(Size::default(), Size::Fit);
}

#[test]
fn layout_params_pick_the_policy_per_axis() {
    let params = LayoutParams { width: Size::Fixed(4), height: Size::Grow, ..Default::default() };
    assert_eq!(params.main_size(Direction::Horizontal), Size::Fixed(4));
    assert_eq!(params.cross_size(Direction::Horizontal), Size::Grow);
    assert_eq!(params.main_size(Direction::Vertical), Size::Grow);
    assert_eq!(params.cross_size(Direction::Vertical), Size::Fixed(4));
}

#[test]
fn default_params_fit_and_stack() {
    let params = LayoutParams::default();
    assert_eq!(params.width, Size::Fit);
    assert_eq!(params.height, Size::Fit);
    assert_eq!(params.direction, Direction::Vertical);
    assert_eq!(params.padding, Padding::uniform(0));
    assert_eq!(params.gap, 0);
    assert_eq!(Direction::default(), Direction::Vertical);
    assert_eq!(Vec2::default(), Vec2::zero());
}
