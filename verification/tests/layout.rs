use ratatui::buffer::Buffer;
use ratatui_elemental::geometry::{Direction, Padding, Region, Vec2};
use ratatui_elemental::policy::{LayoutParams, Size};
use ratatui_elemental::store::{ElWidget, ElementCtx, ElementIdx, LayoutError};

struct Blank;

impl ElWidget for Blank {
    fn render_element(&self, _area: Region, _buf: &mut Buffer) {}
}

fn node(ctx: &mut ElementCtx, params: LayoutParams, children: &[ElementIdx]) -> ElementIdx {
    ctx.element(Blank, params, Some(children))
}

fn leaf(ctx: &mut ElementCtx, width: Size, height: Size) -> ElementIdx {
    ctx.element(Blank, LayoutParams { width, height, ..Default::default() }, None)
}

fn size(ctx: &ElementCtx, idx: ElementIdx) -> (u16, u16) {
    let e = ctx.get(idx).unwrap();
    (e.size.x, e.size.y)
}

fn position(ctx: &ElementCtx, idx: ElementIdx) -> (u16, u16) {
    let e = ctx.get(idx).unwrap();
    (e.position.x, e.position.y)
}

fn row(width: Size, height: Size) -> LayoutParams {
    LayoutParams { width, height, direction: Direction::Horizontal, ..Default::default() }
}

#[test]
fn scenario_two_fixed_children() {
    let mut ctx = ElementCtx::default();
    let a = leaf(&mut ctx, Size::Fixed(10), Size::Fixed(3));
    let b = leaf(&mut ctx, Size::Fixed(14), Size::Fixed(3));
    let root = node(
        &mut ctx,
        LayoutParams {
            width: Size::Fixed(24),
            height: Size::Fixed(8),
            direction: Direction::Horizontal,
            padding: Padding::uniform(1),
            gap: 0,
        },
        &[a, b],
    );
    assert_eq!(ctx.calculate_layout(root), Ok(()));
    assert_eq!(position(&ctx, a), (1, 1));
    assert_eq!(position(&ctx, b), (11, 1));
    assert_eq!(size(&ctx, root), (24, 8));
    assert_eq!(size(&ctx, a), (10, 3));
    assert_eq!(size(&ctx, b), (14, 3));
}

#[test]
fn fixed_is_absolute_at_the_root() {
    let mut ctx = ElementCtx::default();
    let big = leaf(&mut ctx, Size::Fixed(300), Size::Fixed(200));
    let grow = leaf(&mut ctx, Size::Grow, Size::Grow);
    let root = node(&mut ctx, row(Size::Fixed(17), Size::Fixed(5)), &[big, grow]);
    assert_eq!(ctx.calculate_layout(root), Ok(()));
    assert_eq!(size(&ctx, root), (17, 5));
}

#[test]
fn fixed_child_keeps_its_size_under_a_fitting_parent() {
    let mut ctx = ElementCtx::default();
    let child = leaf(&mut ctx, Size::Fixed(300), Size::Fixed(200));
    let root = node(&mut ctx, row(Size::Fit, Size::Fit), &[child]);
    assert_eq!(ctx.calculate_layout(root), Ok(()));
    assert_eq!(size(&ctx, child), (300, 200));
}

#[test]
fn fixed_child_is_held_to_the_parents_content_area() {
    let mut ctx = ElementCtx::default();
    let child = leaf(&mut ctx, Size::Fixed(30), Size::Fixed(20));
    let root = node(
        &mut ctx,
        LayoutParams {
            width: Size::Fixed(24),
            height: Size::Fixed(8),
            padding: Padding::new(1, 2, 3, 1),
            ..Default::default()
        },
        &[child],
    );
    assert_eq!(ctx.calculate_layout(root), Ok(()));
    assert_eq!(size(&ctx, child), (21, 4));
    assert_eq!(size(&ctx, root), (24, 8));
}

#[test]
fn each_axis_is_held_by_its_own_policy() {
    let mut ctx = ElementCtx::default();
    let child = leaf(&mut ctx, Size::Fixed(30), Size::Fixed(20));
    let root = node(&mut ctx, row(Size::Fit, Size::Fixed(8)), &[child]);
    assert_eq!(ctx.calculate_layout(root), Ok(()));
    assert_eq!(size(&ctx, child), (30, 8));
    assert_eq!(size(&ctx, root), (30, 8));

    let mut ctx = ElementCtx::default();
    let child = leaf(&mut ctx, Size::Fixed(30), Size::Fixed(20));
    let root = node(&mut ctx, row(Size::Fixed(8), Size::Fit), &[child]);
    assert_eq!(ctx.calculate_layout(root), Ok(()));
    assert_eq!(size(&ctx, child), (8, 20));
    assert_eq!(size(&ctx, root), (8, 20));
}

#[test]
fn fit_matches_single_child() {
    let mut ctx = ElementCtx::default();
    let child = leaf(&mut ctx, Size::Fixed(13), Size::Fixed(4));
    let root = node(&mut ctx, row(Size::Fit, Size::Fit), &[child]);
    assert_eq!(ctx.calculate_layout(root), Ok(()));
    assert_eq!(size(&ctx, root), size(&ctx, child));
    assert_eq!(size(&ctx, root), (13, 4));
}

#[test]
fn fit_without_children_is_the_padding() {
    let mut ctx = ElementCtx::default();
    let root = ctx.element(
        Blank,
        LayoutParams { padding: Padding::new(1, 2, 3, 4), gap: 9, ..Default::default() },
        None,
    );
    assert_eq!(ctx.calculate_layout(root), Ok(()));
    assert_eq!(size(&ctx, root), (3, 7));
}

#[test]
fn fit_adds_children_padding_and_gaps() {
    let mut ctx = ElementCtx::default();
    let a = leaf(&mut ctx, Size::Fixed(10), Size::Fixed(3));
    let b = leaf(&mut ctx, Size::Fixed(12), Size::Fixed(5));
    let c = leaf(&mut ctx, Size::Fixed(4), Size::Fixed(1));
    let root = node(
        &mut ctx,
        LayoutParams {
            direction: Direction::Horizontal,
            padding: Padding::new(1, 2, 3, 4),
            gap: 2,
            ..Default::default()
        },
        &[a, b, c],
    );
    assert_eq!(ctx.calculate_layout(root), Ok(()));
    assert_eq!(size(&ctx, root), (10 + 12 + 4 + 2 * 2 + 3, 5 + 7));
    assert_eq!(position(&ctx, a), (1, 3));
    assert_eq!(position(&ctx, b), (1 + 10 + 2, 3));
    assert_eq!(position(&ctx, c), (1 + 10 + 2 + 12 + 2, 3));
}

#[test]
fn vertical_children_stack_downwards() {
    let mut ctx = ElementCtx::default();
    let a = leaf(&mut ctx, Size::Fixed(10), Size::Fixed(3));
    let b = leaf(&mut ctx, Size::Fixed(12), Size::Fixed(5));
    let root = node(
        &mut ctx,
        LayoutParams { direction: Direction::Vertical, gap: 1, ..Default::default() },
        &[a, b],
    );
    assert_eq!(ctx.calculate_layout(root), Ok(()));
    assert_eq!(size(&ctx, root), (12, 3 + 5 + 1));
    assert_eq!(position(&ctx, a), (0, 0));
    assert_eq!(position(&ctx, b), (0, 4));
}

#[test]
fn grow_fills_parent() {
    let mut ctx = ElementCtx::default();
    let child = leaf(&mut ctx, Size::Grow, Size::Fit);
    let root = node(&mut ctx, row(Size::Fixed(100), Size::Fixed(5)), &[child]);
    assert_eq!(ctx.calculate_layout(root), Ok(()));
    assert_eq!(size(&ctx, child).0, 100);
}

#[test]
fn grow_fills_parent_around_its_own_content() {
    let mut ctx = ElementCtx::default();
    let inner = leaf(&mut ctx, Size::Fixed(30), Size::Fixed(2));
    let child = node(&mut ctx, row(Size::Grow, Size::Fit), &[inner]);
    let root = node(&mut ctx, row(Size::Fixed(100), Size::Fixed(5)), &[child]);
    assert_eq!(ctx.calculate_layout(root), Ok(()));
    assert_eq!(ctx.calculate_layout(root), Ok(()));
    assert_eq!(size(&ctx, inner), (30, 2));
    assert_eq!(size(&ctx, child), (100, 2));
}

#[test]
fn equal_split() {
    let mut ctx = ElementCtx::default();
    let a = leaf(&mut ctx, Size::Grow, Size::Fit);
    let b = leaf(&mut ctx, Size::Grow, Size::Fit);
    let root = node(&mut ctx, row(Size::Fixed(100), Size::Fixed(5)), &[a, b]);
    assert_eq!(ctx.calculate_layout(root), Ok(()));
    assert_eq!(size(&ctx, a).0, 50);
    assert_eq!(size(&ctx, b).0, 50);
    assert_eq!(position(&ctx, b), (50, 0));
}

#[test]
fn grow_shares_what_the_fixed_sibling_leaves() {
    let mut ctx = ElementCtx::default();
    let fixed = leaf(&mut ctx, Size::Fixed(10), Size::Grow);
    let a = leaf(&mut ctx, Size::Grow, Size::Grow);
    let b = leaf(&mut ctx, Size::Grow, Size::Fixed(2));
    let root = node(&mut ctx, row(Size::Fixed(36), Size::Fixed(12)), &[fixed, a, b]);
    assert_eq!(ctx.calculate_layout(root), Ok(()));
    assert_eq!(size(&ctx, fixed), (10, 10));
    assert_eq!(size(&ctx, a), (13, 10));
    assert_eq!(size(&ctx, b), (13, 2));
}

#[test]
fn grow_across_takes_the_cross_remainder() {
    let mut ctx = ElementCtx::default();
    let a = leaf(&mut ctx, Size::Fixed(4), Size::Grow);
    let b = leaf(&mut ctx, Size::Fixed(4), Size::Grow);
    let root = node(
        &mut ctx,
        LayoutParams {
            width: Size::Fixed(20),
            height: Size::Fixed(9),
            direction: Direction::Horizontal,
            padding: Padding::uniform(1),
            gap: 0,
        },
        &[a, b],
    );
    assert_eq!(ctx.calculate_layout(root), Ok(()));
    assert_eq!(size(&ctx, a), (4, 7));
    assert_eq!(size(&ctx, b), (4, 7));
}

#[test]
fn remainder_is_held_to_the_content_area() {
    let mut ctx = ElementCtx::default();
    let child = leaf(&mut ctx, Size::Grow, Size::Grow);
    let root = node(
        &mut ctx,
        LayoutParams {
            width: Size::Fixed(20),
            height: Size::Fixed(10),
            direction: Direction::Horizontal,
            padding: Padding::new(2, 3, 1, 1),
            gap: 0,
        },
        &[child],
    );
    assert_eq!(ctx.calculate_layout(root), Ok(()));
    assert_eq!(size(&ctx, child), (15, 8));
    assert_eq!(position(&ctx, child), (2, 1));
}

#[test]
fn oversubscribed_parent_hands_out_nothing() {
    let mut ctx = ElementCtx::default();
    let a = leaf(&mut ctx, Size::Fixed(8), Size::Fixed(1));
    let b = leaf(&mut ctx, Size::Fixed(8), Size::Fixed(1));
    let g = leaf(&mut ctx, Size::Grow, Size::Fixed(1));
    let root = node(&mut ctx, row(Size::Fixed(10), Size::Fixed(3)), &[a, b, g]);
    assert_eq!(ctx.calculate_layout(root), Ok(()));
    assert_eq!(size(&ctx, a), (8, 1));
    assert_eq!(size(&ctx, b), (8, 1));
    assert_eq!(size(&ctx, g), (0, 1));
    assert_eq!(size(&ctx, root), (10, 3));
}

#[test]
fn sizes_are_never_negative() {
    let mut ctx = ElementCtx::default();
    let a = leaf(&mut ctx, Size::Fixed(5), Size::Fixed(5));
    let g = leaf(&mut ctx, Size::Grow, Size::Grow);
    let root = node(
        &mut ctx,
        LayoutParams {
            width: Size::Fixed(3),
            height: Size::Fixed(2),
            direction: Direction::Horizontal,
            padding: Padding::uniform(4),
            gap: 7,
        },
        &[a, g],
    );
    assert_eq!(ctx.calculate_layout(root), Ok(()));
    assert_eq!(size(&ctx, a), (0, 0));
    assert_eq!(size(&ctx, g), (0, 0));
    assert_eq!(size(&ctx, root), (3, 2));
}

#[test]
fn positions_are_monotonic_along_the_main_axis() {
    let mut ctx = ElementCtx::default();
    let widths = [3u16, 0, 7, 1, 12];
    let kids: Vec<ElementIdx> =
        widths.iter().map(|w| leaf(&mut ctx, Size::Fixed(*w), Size::Fixed(2))).collect();
    let root = node(
        &mut ctx,
        LayoutParams {
            direction: Direction::Horizontal,
            padding: Padding::new(2, 0, 1, 0),
            gap: 3,
            ..Default::default()
        },
        &kids,
    );
    assert_eq!(ctx.calculate_layout(root), Ok(()));
    for i in 0..kids.len() - 1 {
        let (x0, y0) = position(&ctx, kids[i]);
        let (x1, y1) = position(&ctx, kids[i + 1]);
        assert_eq!(x1, x0 + size(&ctx, kids[i]).0 + 3);
        assert_eq!(y1, y0);
    }
    assert_eq!(position(&ctx, kids[0]), (2, 1));
}

#[test]
fn nested_positions_start_at_the_parents_position() {
    let mut ctx = ElementCtx::default();
    let x = leaf(&mut ctx, Size::Fixed(2), Size::Fixed(1));
    let y = leaf(&mut ctx, Size::Fixed(2), Size::Fixed(1));
    let inner = node(
        &mut ctx,
        LayoutParams {
            direction: Direction::Vertical,
            padding: Padding::uniform(1),
            ..Default::default()
        },
        &[x, y],
    );
    let first = leaf(&mut ctx, Size::Fixed(5), Size::Fixed(1));
    let root = node(
        &mut ctx,
        LayoutParams {
            direction: Direction::Horizontal,
            padding: Padding::uniform(2),
            ..Default::default()
        },
        &[first, inner],
    );
    assert_eq!(ctx.calculate_layout(root), Ok(()));
    assert_eq!(position(&ctx, inner), (7, 2));
    assert_eq!(position(&ctx, x), (8, 3));
    assert_eq!(position(&ctx, y), (8, 4));
    assert_eq!(size(&ctx, inner), (4, 4));
    assert_eq!(size(&ctx, root), (5 + 4 + 4, 4 + 4));
}

#[test]
fn layout_is_idempotent() {
    let mut ctx = ElementCtx::default();
    let a = leaf(&mut ctx, Size::Fixed(10), Size::Grow);
    let b = leaf(&mut ctx, Size::Grow, Size::Grow);
    let c = leaf(&mut ctx, Size::Fit, Size::Fixed(2));
    let inner = node(
        &mut ctx,
        LayoutParams {
            width: Size::Fit,
            height: Size::Fixed(6),
            direction: Direction::Horizontal,
            padding: Padding::uniform(1),
            gap: 1,
        },
        &[a, b, c],
    );
    let d = leaf(&mut ctx, Size::Grow, Size::Fixed(3));
    let root = node(
        &mut ctx,
        LayoutParams {
            width: Size::Fixed(40),
            height: Size::Fixed(12),
            direction: Direction::Vertical,
            padding: Padding::uniform(1),
            gap: 1,
        },
        &[inner, d],
    );
    let all = [a, b, c, inner, d, root];
    assert_eq!(ctx.calculate_layout(root), Ok(()));
    let once: Vec<_> = all.iter().map(|i| (size(&ctx, *i), position(&ctx, *i))).collect();
    assert_eq!(ctx.calculate_layout(root), Ok(()));
    let twice: Vec<_> = all.iter().map(|i| (size(&ctx, *i), position(&ctx, *i))).collect();
    assert_eq!(once, twice);
}

#[test]
fn growing_node_holds_its_children_to_the_size_it_had() {
    let mut ctx = ElementCtx::default();
    let inner = leaf(&mut ctx, Size::Fixed(10), Size::Fixed(1));
    let grower = node(&mut ctx, row(Size::Grow, Size::Fit), &[inner]);
    let root = node(&mut ctx, row(Size::Fixed(100), Size::Fixed(5)), &[grower]);
    assert_eq!(ctx.calculate_layout(root), Ok(()));
    assert_eq!(size(&ctx, inner), (0, 1));
    assert_eq!(size(&ctx, grower), (100, 1));
    assert_eq!(ctx.calculate_layout(root), Ok(()));
    assert_eq!(size(&ctx, inner), (10, 1));
    assert_eq!(size(&ctx, grower), (100, 1));
    assert_eq!(ctx.calculate_layout(root), Ok(()));
    assert_eq!(size(&ctx, inner), (10, 1));
}

#[test]
fn passes_can_be_run_one_by_one() {
    let mut ctx = ElementCtx::default();
    let a = leaf(&mut ctx, Size::Fixed(4), Size::Fixed(2));
    let g = leaf(&mut ctx, Size::Grow, Size::Fixed(2));
    let root = node(&mut ctx, row(Size::Fixed(20), Size::Fit), &[a, g]);
    ctx.calculate_fit_sizes(root);
    assert_eq!(size(&ctx, root), (20, 2));
    assert_eq!(size(&ctx, g), (0, 2));
    assert_eq!(position(&ctx, g), (0, 0));
    ctx.grow_children_of(root);
    assert_eq!(size(&ctx, g), (16, 2));
    ctx.calculate_grow_sizes(root);
    assert_eq!(size(&ctx, g), (16, 2));
    ctx.calculate_positions(root);
    assert_eq!(position(&ctx, a), (0, 0));
    assert_eq!(position(&ctx, g), (4, 0));
}

#[test]
fn layout_of_a_subtree_leaves_the_rest_alone() {
    let mut ctx = ElementCtx::default();
    let a = leaf(&mut ctx, Size::Fixed(4), Size::Fixed(2));
    let sub = node(&mut ctx, row(Size::Fit, Size::Fit), &[a]);
    let other = leaf(&mut ctx, Size::Fixed(9), Size::Fixed(9));
    let root = node(&mut ctx, row(Size::Fit, Size::Fit), &[sub, other]);
    assert_eq!(ctx.calculate_layout(sub), Ok(()));
    assert_eq!(size(&ctx, sub), (4, 2));
    assert_eq!(size(&ctx, other), (0, 0));
    assert_eq!(size(&ctx, root), (0, 0));
}

#[test]
fn new_nodes_start_empty_at_the_origin() {
    let mut ctx = ElementCtx::new();
    let params = LayoutParams { width: Size::Fixed(7), gap: 3, ..Default::default() };
    let a = ctx.element(Blank, params, None);
    let e = ctx.get(a).unwrap();
    assert_eq!(e.size, Vec2::zero());
    assert_eq!(e.position, Vec2::zero());
    assert_eq!(e.layout_params, params);
    assert!(e.children.is_empty());
    let b = ctx.element(Blank, LayoutParams::default(), Some(&[a]));
    assert_eq!(*ctx.get(b).unwrap().children, vec![a]);
    assert!(a != b);
    assert!(ctx.has(a) && ctx.has(b));
}

#[test]
fn children_can_be_given_to_a_root_later() {
    let mut ctx = ElementCtx::default();
    let a = leaf(&mut ctx, Size::Fixed(4), Size::Fixed(2));
    let b = leaf(&mut ctx, Size::Fixed(6), Size::Fixed(1));
    let root = leaf(&mut ctx, Size::Fit, Size::Fit);
    assert_eq!(root.children(&mut ctx, &[a, b]), root);
    assert_eq!(*ctx.get(root).unwrap().children, vec![a, b]);
    assert_eq!(ctx.calculate_layout(root), Ok(()));
    assert_eq!(size(&ctx, root), (6, 3));
}

#[test]
fn reserve_keeps_what_is_there() {
    let mut ctx = ElementCtx::default();
    let a = leaf(&mut ctx, Size::Fixed(4), Size::Fixed(2));
    ctx.reserve(0);
    ctx.reserve(100);
    ctx.reserve(usize::MAX);
    assert!(ctx.has(a));
    assert_eq!(ctx.get(a).unwrap().layout_params.width, Size::Fixed(4));
    let mut kids = vec![a];
    for _ in 0..200 {
        kids.push(leaf(&mut ctx, Size::Fixed(1), Size::Fixed(1)));
    }
    let root = node(&mut ctx, row(Size::Fit, Size::Fit), &kids);
    assert_eq!(ctx.calculate_layout(root), Ok(()));
    assert_eq!(size(&ctx, root), (204, 2));
}

#[test]
fn foreign_handle_is_reported() {
    let mut other = ElementCtx::default();
    let mut last = leaf(&mut other, Size::Fit, Size::Fit);
    for _ in 0..8 {
        last = leaf(&mut other, Size::Fit, Size::Fit);
    }
    let mut ctx = ElementCtx::default();
    let own = leaf(&mut ctx, Size::Fixed(3), Size::Fixed(3));
    assert!(!ctx.has(last));
    assert!(matches!(ctx.get(last), Err(LayoutError::InvalidHandle)));
    assert_eq!(ctx.calculate_layout(last), Err(LayoutError::InvalidHandle));
    let mut buf = Buffer::empty(ratatui::layout::Rect::new(0, 0, 4, 4));
    assert_eq!(
        ctx.render(last, Region::new(0, 0, 4, 4), &mut buf),
        Err(LayoutError::InvalidHandle)
    );
    assert_eq!(size(&ctx, own), (0, 0));
    assert!(ctx.get(own).is_ok());
}

#[test]
fn empty_arena_knows_no_handle() {
    let mut other = ElementCtx::default();
    let handle = leaf(&mut other, Size::Fit, Size::Fit);
    let empty = ElementCtx::new();
    assert!(!empty.has(handle));
    assert!(empty.get(handle).is_err());
}

#[test]
fn sizes_stop_at_the_largest_length() {
    let mut ctx = ElementCtx::default();
    let a = leaf(&mut ctx, Size::Fixed(40000), Size::Fixed(1));
    let b = leaf(&mut ctx, Size::Fixed(40000), Size::Fixed(1));
    let root = node(&mut ctx, row(Size::Fit, Size::Fit), &[a, b]);
    assert_eq!(ctx.calculate_layout(root), Ok(()));
    assert_eq!(size(&ctx, root), (u16::MAX, 1));
    assert_eq!(position(&ctx, b), (40000, 0));
}

#[test]
fn setters_change_the_node() {
    let mut ctx = ElementCtx::default();
    let a = leaf(&mut ctx, Size::Fixed(4), Size::Fixed(2));
    let b = leaf(&mut ctx, Size::Fixed(4), Size::Fixed(2));
    let root = node(&mut ctx, row(Size::Fit, Size::Fit), &[a, b]);
    let spaced = LayoutParams { gap: 5, ..ctx.get(root).unwrap().layout_params };
    assert_eq!(ctx.set_layout_params(root, spaced), Ok(()));
    let wider = LayoutParams { width: Size::Fixed(7), ..ctx.get(a).unwrap().layout_params };
    assert_eq!(ctx.set_layout_params(a, wider), Ok(()));
    assert_eq!(ctx.get(b).unwrap().layout_params.width, Size::Fixed(4));
    assert_eq!(ctx.get(root).unwrap().children.as_slice(), &[a, b]);
    assert_eq!(ctx.calculate_layout(root), Ok(()));
    assert_eq!(size(&ctx, root), (7 + 5 + 4, 2));
    assert_eq!(position(&ctx, b), (12, 0));
}

#[test]
fn setters_report_a_foreign_handle() {
    let mut other = ElementCtx::default();
    let mut last = leaf(&mut other, Size::Fit, Size::Fit);
    for _ in 0..8 {
        last = leaf(&mut other, Size::Fit, Size::Fit);
    }
    let mut ctx = ElementCtx::default();
    let own = leaf(&mut ctx, Size::Fixed(3), Size::Fixed(3));
    assert_eq!(
        ctx.set_layout_params(last, LayoutParams::default()),
        Err(LayoutError::InvalidHandle)
    );
    assert_eq!(ctx.set_position(last, Vec2::new(1, 1)), Err(LayoutError::InvalidHandle));
    assert_eq!(ctx.set_size(last, Vec2::new(1, 1)), Err(LayoutError::InvalidHandle));
    assert_eq!(ctx.set_position(own, Vec2::new(1, 2)), Ok(()));
    assert_eq!(ctx.set_size(own, Vec2::new(3, 4)), Ok(()));
    assert_eq!(position(&ctx, own), (1, 2));
    assert_eq!(size(&ctx, own), (3, 4));
    assert_eq!(ctx.get(own).unwrap().layout_params.width, Size::Fixed(3));
}

#[test]
fn growing_node_reads_the_size_it_was_given() {
    let mut ctx = ElementCtx::default();
    let inner = leaf(&mut ctx, Size::Fixed(10), Size::Fixed(1));
    let grower = node(&mut ctx, row(Size::Grow, Size::Fit), &[inner]);
    let root = node(&mut ctx, row(Size::Fixed(100), Size::Fixed(5)), &[grower]);
    assert_eq!(ctx.set_size(grower, Vec2::new(6, 0)), Ok(()));
    assert_eq!(ctx.calculate_layout(root), Ok(()));
    assert_eq!(size(&ctx, inner), (6, 1));
    assert_eq!(size(&ctx, grower), (100, 1));
}

#[test]
fn below_follows_the_children() {
    let mut ctx = ElementCtx::default();
    let a = leaf(&mut ctx, Size::Fit, Size::Fit);
    let b = leaf(&mut ctx, Size::Fit, Size::Fit);
    let c = leaf(&mut ctx, Size::Fit, Size::Fit);
    let inner = node(&mut ctx, row(Size::Fit, Size::Fit), &[a, b]);
    let root = node(&mut ctx, row(Size::Fit, Size::Fit), &[inner]);
    assert!(ctx.is_below(root, root));
    assert!(ctx.is_below(root, inner));
    assert!(ctx.is_below(root, a));
    assert!(ctx.is_below(root, b));
    assert!(ctx.is_below(inner, b));
    assert!(!ctx.is_below(root, c));
    assert!(!ctx.is_below(inner, root));
    assert!(!ctx.is_below(a, b));
    assert!(!ctx.is_below(a, inner));
}

#[test]
fn a_child_can_take_children() {
    let mut ctx = ElementCtx::default();
    let a = leaf(&mut ctx, Size::Fixed(4), Size::Fixed(2));
    let b = leaf(&mut ctx, Size::Fixed(3), Size::Fixed(1));
    let c = leaf(&mut ctx, Size::Fixed(5), Size::Fixed(1));
    let inner = node(&mut ctx, row(Size::Fit, Size::Fit), &[a]);
    let root = node(&mut ctx, row(Size::Fit, Size::Fit), &[inner]);
    assert!(!ctx.is_parentless(inner));
    assert!(!ctx.is_below(b, inner) && !ctx.is_below(c, inner));
    let before = ctx.get(inner).unwrap().layout_params;
    assert_eq!(inner.children(&mut ctx, &[b, c]), inner);
    assert_eq!(ctx.get(inner).unwrap().children.as_slice(), &[b, c]);
    assert_eq!(ctx.get(inner).unwrap().layout_params, before);
    assert_eq!(ctx.get(root).unwrap().children.as_slice(), &[inner]);
    assert!(ctx.is_parentless(a));
    assert!(!ctx.is_parentless(inner));
    assert!(ctx.is_below(root, c));
    assert!(!ctx.is_below(root, a));
    assert_eq!(ctx.calculate_layout(root), Ok(()));
    assert_eq!(size(&ctx, inner), (8, 1));
    assert_eq!(size(&ctx, root), (8, 1));
    assert_eq!(position(&ctx, c), (3, 0));
    assert_eq!(size(&ctx, a), (0, 0));
}

#[test]
fn roots_are_the_nodes_without_a_parent() {
    let mut ctx = ElementCtx::default();
    let a = leaf(&mut ctx, Size::Fit, Size::Fit);
    let b = leaf(&mut ctx, Size::Fit, Size::Fit);
    let c = leaf(&mut ctx, Size::Fit, Size::Fit);
    assert!(ctx.is_parentless(a) && ctx.is_parentless(b) && ctx.is_parentless(c));
    let inner = node(&mut ctx, row(Size::Fit, Size::Fit), &[a, b]);
    let root = node(&mut ctx, row(Size::Fit, Size::Fit), &[inner]);
    assert!(!ctx.is_parentless(a));
    assert!(!ctx.is_parentless(b));
    assert!(!ctx.is_parentless(inner));
    assert!(ctx.is_parentless(c));
    assert!(ctx.is_parentless(root));
}

#[test]
fn children_follow_the_roots_position() {
    let mut ctx = ElementCtx::default();
    let a = leaf(&mut ctx, Size::Fixed(4), Size::Fixed(2));
    let b = leaf(&mut ctx, Size::Fixed(3), Size::Fixed(2));
    let root = node(
        &mut ctx,
        LayoutParams {
            direction: Direction::Vertical,
            padding: Padding::new(1, 0, 2, 0),
            gap: 1,
            ..Default::default()
        },
        &[a, b],
    );
    assert_eq!(ctx.set_position(root, Vec2::new(10, 20)), Ok(()));
    assert_eq!(ctx.calculate_layout(root), Ok(()));
    assert_eq!(position(&ctx, root), (10, 20));
    assert_eq!(position(&ctx, a), (11, 22));
    assert_eq!(position(&ctx, b), (11, 25));
}

#[test]
fn growing_child_stays_inside_the_padding() {
    let mut ctx = ElementCtx::default();
    let inner = leaf(&mut ctx, Size::Fixed(50), Size::Fixed(1));
    let grower = node(&mut ctx, row(Size::Grow, Size::Fit), &[inner]);
    let root = node(
        &mut ctx,
        LayoutParams {
            width: Size::Fixed(100),
            height: Size::Fixed(5),
            direction: Direction::Horizontal,
            padding: Padding::new(10, 0, 0, 0),
            gap: 0,
        },
        &[grower],
    );
    assert_eq!(ctx.calculate_layout(root), Ok(()));
    assert_eq!(size(&ctx, grower), (90, 1));
    assert_eq!(ctx.calculate_layout(root), Ok(()));
    assert_eq!(size(&ctx, inner), (50, 1));
    assert_eq!(size(&ctx, grower), (90, 1));
    assert_eq!(position(&ctx, grower), (10, 0));
    assert_eq!(size(&ctx, root), (100, 5));
}

#[test]
fn growing_children_leave_room_for_the_gaps() {
    let mut ctx = ElementCtx::default();
    let fixed = leaf(&mut ctx, Size::Fixed(4), Size::Fixed(1));
    let a = leaf(&mut ctx, Size::Grow, Size::Fixed(1));
    let b = leaf(&mut ctx, Size::Grow, Size::Fixed(1));
    let root = node(
        &mut ctx,
        LayoutParams {
            width: Size::Fixed(30),
            height: Size::Fixed(3),
            direction: Direction::Horizontal,
            padding: Padding::new(1, 1, 0, 0),
            gap: 2,
        },
        &[fixed, a, b],
    );
    assert_eq!(ctx.calculate_layout(root), Ok(()));
    assert_eq!(size(&ctx, fixed), (4, 1));
    assert_eq!(size(&ctx, a), (10, 1));
    assert_eq!(size(&ctx, b), (10, 1));
    assert_eq!(position(&ctx, fixed), (1, 0));
    assert_eq!(position(&ctx, a), (7, 0));
    assert_eq!(position(&ctx, b), (19, 0));
}

#[test]
fn growing_children_end_where_the_content_area_ends() {
    let mut ctx = ElementCtx::default();
    let fixed = leaf(&mut ctx, Size::Fixed(10), Size::Grow);
    let a = leaf(&mut ctx, Size::Grow, Size::Grow);
    let b = leaf(&mut ctx, Size::Grow, Size::Fixed(2));
    let root = node(
        &mut ctx,
        LayoutParams {
            width: Size::Fixed(36),
            height: Size::Fixed(12),
            direction: Direction::Horizontal,
            padding: Padding::uniform(1),
            gap: 0,
        },
        &[fixed, a, b],
    );
    assert_eq!(ctx.calculate_layout(root), Ok(()));
    assert_eq!(size(&ctx, fixed), (10, 10));
    assert_eq!(size(&ctx, a), (12, 10));
    assert_eq!(size(&ctx, b), (12, 2));
    assert_eq!(position(&ctx, b), (23, 1));
}

#[test]
fn held_down_parent_adds_nothing_to_its_children() {
    let mut ctx = ElementCtx::default();
    let grower = ctx.element(
        Blank,
        LayoutParams {
            width: Size::Grow,
            padding: Padding::new(25, 25, 0, 0),
            ..Default::default()
        },
        None,
    );
    let fitting = node(&mut ctx, row(Size::Fit, Size::Fit), &[grower]);
    let root = node(&mut ctx, row(Size::Fixed(10), Size::Fixed(3)), &[fitting]);
    assert_eq!(ctx.calculate_layout(root), Ok(()));
    assert_eq!(size(&ctx, root), (10, 3));
    assert_eq!(size(&ctx, fitting), (10, 0));
    assert_eq!(size(&ctx, grower), (50, 0));
}

#[test]
fn growing_children_fill_what_is_left_and_no_more() {
    let mut ctx = ElementCtx::default();
    let a = leaf(&mut ctx, Size::Fixed(7), Size::Fixed(1));
    let b = leaf(&mut ctx, Size::Grow, Size::Fixed(1));
    let c = leaf(&mut ctx, Size::Grow, Size::Fixed(1));
    let d = leaf(&mut ctx, Size::Grow, Size::Fixed(1));
    let root = node(
        &mut ctx,
        LayoutParams {
            width: Size::Fixed(40),
            height: Size::Fixed(3),
            direction: Direction::Horizontal,
            padding: Padding::new(2, 3, 0, 0),
            gap: 1,
        },
        &[a, b, c, d],
    );
    assert_eq!(ctx.calculate_layout(root), Ok(()));
    let widths: Vec<u16> = [a, b, c, d].iter().map(|i| size(&ctx, *i).0).collect();
    assert_eq!(widths, vec![7, 8, 8, 8]);
    let taken: u16 = widths.iter().sum();
    assert!(taken + 3 + 5 <= 40);
    assert_eq!(position(&ctx, d), (2 + 7 + 1 + 8 + 1 + 8 + 1, 0));
}
