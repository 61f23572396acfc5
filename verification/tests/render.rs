use ratatui::buffer::Buffer;
use ratatui::layout::Rect;
use ratatui_elemental::geometry::{Direction, Padding, Region, Vec2};
use ratatui_elemental::policy::{LayoutParams, Size};
use ratatui_elemental::render::PaintCall;
use ratatui_elemental::store::{ElWidget, ElementCtx, ElementIdx};

struct Fill(&'static str);

impl ElWidget for Fill {
    fn render_element(&self, area: Region, buf: &mut Buffer) {
        for y in area.y..area.y + area.height {
            for x in area.x..area.x + area.width {
                buf[(x, y)].set_symbol(self.0);
            }
        }
    }
}

fn fixed(ctx: &mut ElementCtx, mark: &'static str, w: u16, h: u16, kids: &[ElementIdx]) -> ElementIdx {
    ctx.element(
        Fill(mark),
        LayoutParams {
            width: Size::Fixed(w),
            height: Size::Fixed(h),
            direction: Direction::Horizontal,
            ..Default::default()
        },
        Some(kids),
    )
}

fn lines(buf: &Buffer) -> Vec<String> {
    buf.content()
        .chunks(buf.area.width as usize)
        .map(|line| line.iter().map(|cell| cell.symbol()).collect())
        .collect()
}

fn inside(call: &PaintCall, area: Region) -> bool {
    let r = call.area;
    r.width == 0
        || r.height == 0
        || (area.x <= r.x
            && r.x as u32 + r.width as u32 <= area.x as u32 + area.width as u32
            && area.y <= r.y
            && r.y as u32 + r.height as u32 <= area.y as u32 + area.height as u32)
}

#[test]
fn children_paint_over_their_parent_in_order() {
    let mut ctx = ElementCtx::default();
    let a = fixed(&mut ctx, "a", 2, 1, &[]);
    let b = fixed(&mut ctx, "b", 3, 2, &[]);
    let root = ctx.element(
        Fill("."),
        LayoutParams {
            width: Size::Fixed(8),
            height: Size::Fixed(3),
            direction: Direction::Horizontal,
            padding: Padding::new(1, 0, 0, 0),
            gap: 1,
        },
        Some(&[a, b]),
    );
    assert!(ctx.calculate_layout(root).is_ok());
    let mut buf = Buffer::empty(Rect::new(0, 0, 10, 4));
    assert!(ctx.render(root, Region::new(0, 0, 10, 4), &mut buf).is_ok());
    assert_eq!(lines(&buf), vec![".aa.bbb.  ", "....bbb.  ", "........  ", "          "]);
}

#[test]
fn plan_lists_the_nodes_in_pre_order() {
    let mut ctx = ElementCtx::default();
    let x = fixed(&mut ctx, "x", 1, 1, &[]);
    let a = fixed(&mut ctx, "a", 2, 1, &[x]);
    let b = fixed(&mut ctx, "b", 3, 2, &[]);
    let root = fixed(&mut ctx, ".", 8, 3, &[a, b]);
    assert!(ctx.calculate_layout(root).is_ok());
    let area = Region::new(0, 0, 10, 4);
    let plan = ctx.render_plan(root, area);
    let widgets: Vec<_> = [root, a, x, b].iter().map(|i| ctx.get(*i).unwrap().widget).collect();
    assert_eq!(plan.iter().map(|c| c.widget).collect::<Vec<_>>(), widgets);
    assert_eq!(plan[0].area, Region::new(0, 0, 8, 3));
    assert_eq!(plan[1].area, Region::new(0, 0, 2, 1));
    assert_eq!(plan[2].area, Region::new(0, 0, 1, 1));
    assert_eq!(plan[3].area, Region::new(2, 0, 3, 2));
}

#[test]
fn render_never_exceeds_the_surface() {
    let mut ctx = ElementCtx::default();
    let far = fixed(&mut ctx, "f", 30, 30, &[]);
    let a = fixed(&mut ctx, "a", 40, 2, &[]);
    let b = fixed(&mut ctx, "b", 40, 20, &[far]);
    let root = ctx.element(
        Fill("."),
        LayoutParams { direction: Direction::Horizontal, ..Default::default() },
        Some(&[a, b]),
    );
    assert!(ctx.calculate_layout(root).is_ok());
    let area = Region::new(0, 0, 50, 10);
    let plan = ctx.render_plan(root, area);
    assert_eq!(plan.len(), 4);
    for call in plan.iter() {
        assert!(inside(call, area));
    }
    assert_eq!(plan[0].area, Region::new(0, 0, 50, 10));
    assert_eq!(plan[2].area, Region::new(40, 0, 10, 10));
    let mut buf = Buffer::empty(Rect::new(0, 0, 50, 10));
    assert!(ctx.render(root, area, &mut buf).is_ok());
    assert_eq!(buf[(49, 9)].symbol(), "f");
    assert_eq!(buf[(39, 0)].symbol(), "a");
    assert_eq!(buf[(39, 2)].symbol(), ".");
}

#[test]
fn node_beside_the_surface_paints_nothing() {
    let mut ctx = ElementCtx::default();
    let a = fixed(&mut ctx, "a", 60, 2, &[]);
    let b = fixed(&mut ctx, "b", 5, 2, &[]);
    let root = ctx.element(
        Fill("."),
        LayoutParams { direction: Direction::Horizontal, ..Default::default() },
        Some(&[a, b]),
    );
    assert!(ctx.calculate_layout(root).is_ok());
    let area = Region::new(0, 0, 50, 10);
    let plan = ctx.render_plan(root, area);
    assert_eq!(plan[2].area.width, 0);
    assert_eq!(plan[2].area.x, 60);
    let mut buf = Buffer::empty(Rect::new(0, 0, 50, 10));
    assert!(ctx.render(root, area, &mut buf).is_ok());
    assert_eq!(buf[(49, 1)].symbol(), "a");
}

#[test]
fn children_are_clipped_by_the_surface_not_by_their_parent() {
    let mut ctx = ElementCtx::default();
    let wide = fixed(&mut ctx, "w", 6, 1, &[]);
    let root = ctx.element(
        Fill("."),
        LayoutParams {
            width: Size::Fit,
            height: Size::Fixed(2),
            direction: Direction::Horizontal,
            padding: Padding::new(3, 0, 0, 0),
            gap: 0,
        },
        Some(&[wide]),
    );
    assert!(ctx.calculate_layout(root).is_ok());
    assert_eq!(ctx.get(root).unwrap().size, Vec2::new(9, 2));
    let surface = Region::new(2, 0, 5, 2);
    let plan = ctx.render_plan(root, surface);
    assert_eq!(plan[0].area, Region::new(2, 0, 5, 2));
    assert_eq!(plan[1].area, Region::new(3, 0, 4, 1));
}

#[test]
fn split_area_is_the_nodes_part_of_the_area() {
    let mut ctx = ElementCtx::default();
    let a = fixed(&mut ctx, "a", 4, 3, &[]);
    let root = ctx.element(
        Fill("."),
        LayoutParams { padding: Padding::uniform(2), ..Default::default() },
        Some(&[a]),
    );
    assert!(ctx.calculate_layout(root).is_ok());
    let node = ctx.get(a).unwrap();
    assert_eq!(node.area(), Region::new(2, 2, 4, 3));
    assert_eq!(node.split_area(Region::new(0, 0, 5, 10)), Region::new(2, 2, 3, 3));
    assert_eq!(node.split_area(Region::new(3, 3, 50, 1)), Region::new(3, 3, 3, 1));
}
