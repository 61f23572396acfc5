use ratatui::buffer::Buffer;
use ratatui::layout::Rect;
use ratatui::style::{Color, Stylize};
use ratatui::widgets::{Block, BorderType, Widget};
use ratatui_elemental::geometry::{Direction, Padding, Region};
use ratatui_elemental::policy::{LayoutParams, Size};
use ratatui_elemental::store::{ElWidget, ElementCtx, ElementIdx};

struct Framed(Block<'static>);

impl ElWidget for Framed {
    fn render_element(&self, area: Region, buf: &mut Buffer) {
        let rect = Rect { x: area.x, y: area.y, width: area.width, height: area.height };
        self.0.clone().render(rect, buf);
    }
}

fn surface(buf: &Buffer) -> Region {
    Region { x: buf.area.x, y: buf.area.y, width: buf.area.width, height: buf.area.height }
}

fn buffer_to_string(buf: &Buffer) -> String {
    buf.content()
        .chunks(buf.area.width as usize)
        .flat_map(|line| line.iter().map(|cell| cell.symbol()).chain(["\n"]))
        .collect()
}

fn parent_block() -> Framed {
    Framed(Block::bordered().border_type(BorderType::Rounded).title_top("parent").fg(Color::Red))
}

fn child_block(idx: usize) -> Framed {
    Framed(Block::bordered().border_type(BorderType::Rounded).title_top(format!("child #{idx}")))
}

fn fixed_child(ctx: &mut ElementCtx, idx: usize, width: u16, height: u16) -> ElementIdx {
    ctx.element(
        child_block(idx),
        LayoutParams { width: Size::Fixed(width), height: Size::Fixed(height), ..Default::default() },
        None,
    )
}

#[test]
fn test_fixed_size() {
    let mut buf = Buffer::empty(Rect::new(0, 0, 50, 10));
    let mut ctx = ElementCtx::default();
    let root = ctx.element(
        Framed(Block::bordered().border_type(BorderType::Rounded).fg(Color::Red)),
        LayoutParams { width: Size::Fixed(24), height: Size::Fixed(8), ..Default::default() },
        None,
    );
    assert!(ctx.calculate_layout(root).is_ok());
    let area = surface(&buf);
    assert!(ctx.render(root, area, &mut buf).is_ok());
    println!("\ntest_fixed_size\n{}", buffer_to_string(&buf));
    let node = ctx.get(root).unwrap();
    assert_eq!((node.size.x, node.size.y), (24, 8));
    assert_eq!(buf[(0, 0)].symbol(), "╭");
    assert_eq!(buf[(23, 7)].symbol(), "╯");
    assert_eq!(buf[(24, 0)].symbol(), " ");
}

#[test]
fn test_fixed_size_with_children() {
    let mut buf = Buffer::empty(Rect::new(0, 0, 50, 10));
    let mut ctx = ElementCtx::default();
    let children = &[fixed_child(&mut ctx, 0, 10, 3), fixed_child(&mut ctx, 1, 10 + 2, 3)];
    let root = ctx.element(
        parent_block(),
        LayoutParams {
            width: Size::Fixed(24),
            height: Size::Fixed(8),
            direction: Direction::Vertical,
            padding: Padding::uniform(1),
            ..Default::default()
        },
        Some(children),
    );
    assert!(ctx.calculate_layout(root).is_ok());
    let area = surface(&buf);
    assert!(ctx.render(root, area, &mut buf).is_ok());
    println!("\ntest_fixed_size_with_children\n{}", buffer_to_string(&buf));
    let first = ctx.get(children[0]).unwrap();
    let second = ctx.get(children[1]).unwrap();
    assert_eq!((first.size.x, first.size.y), (10, 3));
    assert_eq!((second.size.x, second.size.y), (12, 3));
    assert_eq!((first.position.x, first.position.y), (1, 1));
    assert_eq!((second.position.x, second.position.y), (1, 4));
}

#[test]
fn test_fixed_size_with_children_clamp_children() {
    let mut buf = Buffer::empty(Rect::new(0, 0, 50, 10));
    let mut ctx = ElementCtx::default();
    let children = &[fixed_child(&mut ctx, 0, 10, 3), fixed_child(&mut ctx, 1, 10 + 20, 3)];
    let root = ctx.element(
        parent_block(),
        LayoutParams {
            width: Size::Fixed(24),
            height: Size::Fixed(8),
            direction: Direction::Vertical,
            padding: Padding::uniform(1),
            ..Default::default()
        },
        Some(children),
    );
    assert!(ctx.calculate_layout(root).is_ok());
    let area = surface(&buf);
    assert!(ctx.render(root, area, &mut buf).is_ok());
    println!("\ntest_fixed_size_with_children_clamp_children\n{}", buffer_to_string(&buf));
    let parent = ctx.get(root).unwrap();
    let wide = ctx.get(children[1]).unwrap();
    assert_eq!((parent.size.x, parent.size.y), (24, 8));
    assert_eq!((wide.size.x, wide.size.y), (22, 3));
}

#[test]
fn test_fit() {
    let mut buf = Buffer::empty(Rect::new(0, 0, 50, 10));
    let mut ctx = ElementCtx::default();
    let children = &[fixed_child(&mut ctx, 0, 10, 3), fixed_child(&mut ctx, 1, 10 + 2, 3)];
    let root = ctx.element(
        parent_block(),
        LayoutParams {
            width: Size::Fit,
            height: Size::Fit,
            direction: Direction::Vertical,
            padding: Padding::uniform(1),
            ..Default::default()
        },
        Some(children),
    );
    assert!(ctx.calculate_layout(root).is_ok());
    let area = surface(&buf);
    assert!(ctx.render(root, area, &mut buf).is_ok());
    println!("\ntest_fit\n{}", buffer_to_string(&buf));
    let parent = ctx.get(root).unwrap();
    assert_eq!((parent.size.x, parent.size.y), (12 + 2, 3 + 3 + 2));
}

#[test]
fn test_horizontal() {
    let mut buf = Buffer::empty(Rect::new(0, 0, 50, 10));
    let mut ctx = ElementCtx::default();
    let children = &[fixed_child(&mut ctx, 0, 10, 3), fixed_child(&mut ctx, 1, 10 + 2, 3)];
    let root = ctx.element(
        parent_block(),
        LayoutParams {
            width: Size::Fit,
            height: Size::Fit,
            direction: Direction::Horizontal,
            padding: Padding::uniform(1),
            ..Default::default()
        },
        Some(children),
    );
    assert!(ctx.calculate_layout(root).is_ok());
    let area = surface(&buf);
    assert!(ctx.render(root, area, &mut buf).is_ok());
    println!("\ntest_horizontal\n{}", buffer_to_string(&buf));
    let parent = ctx.get(root).unwrap();
    let second = ctx.get(children[1]).unwrap();
    assert_eq!((parent.size.x, parent.size.y), (10 + 12 + 2, 3 + 2));
    assert_eq!((second.position.x, second.position.y), (11, 1));
}

#[test]
fn test_gap() {
    let mut buf = Buffer::empty(Rect::new(0, 0, 50, 10));
    let mut ctx = ElementCtx::default();
    let children = &[fixed_child(&mut ctx, 0, 10, 3), fixed_child(&mut ctx, 1, 10 + 2, 3)];
    let root = ctx.element(
        parent_block(),
        LayoutParams {
            width: Size::Fit,
            height: Size::Fit,
            direction: Direction::Horizontal,
            padding: Padding::uniform(1),
            gap: 2,
        },
        Some(children),
    );
    assert!(ctx.calculate_layout(root).is_ok());
    let area = surface(&buf);
    assert!(ctx.render(root, area, &mut buf).is_ok());
    println!("\ntest_gap\n{}", buffer_to_string(&buf));
    let parent = ctx.get(root).unwrap();
    let second = ctx.get(children[1]).unwrap();
    assert_eq!((parent.size.x, parent.size.y), (10 + 12 + 2 + 2, 3 + 2));
    assert_eq!((second.position.x, second.position.y), (1 + 10 + 2, 1));
}

#[test]
fn test_grow() {
    let mut buf = Buffer::empty(Rect::new(0, 0, 50, 24));
    let mut ctx = ElementCtx::default();
    let child0 = ctx.element(
        Framed(
            Block::bordered().border_type(BorderType::Rounded).title_top("child #0".to_string()),
        ),
        LayoutParams { width: Size::Fixed(10), height: Size::Grow, ..Default::default() },
        None,
    );
    let child2 = ctx.element(
        Framed(
            Block::bordered().border_type(BorderType::Rounded).title_top("child #2".to_string()),
        ),
        LayoutParams { width: Size::Grow, height: Size::Grow, ..Default::default() },
        None,
    );
    let child3 = ctx.element(
        Framed(
            Block::bordered().border_type(BorderType::Rounded).title_top("child #3".to_string()),
        ),
        LayoutParams { width: Size::Grow, height: Size::Grow, ..Default::default() },
        None,
    );
    let child1 = ctx.element(
        Framed(
            Block::bordered().border_type(BorderType::Rounded).title_top("child #1".to_string()),
        ),
        LayoutParams {
            width: Size::Grow,
            padding: Padding::uniform(1),
            height: Size::Grow,
            direction: Direction::Vertical,
            ..Default::default()
        },
        Some(&[child2, child3]),
    );
    let root = ctx.element(
        parent_block(),
        LayoutParams {
            width: Size::Fixed(36),
            height: Size::Fixed(12),
            direction: Direction::Horizontal,
            padding: Padding::uniform(1),
            ..Default::default()
        },
        Some(&[child0, child1]),
    );
    assert!(ctx.calculate_layout(root).is_ok());
    let area = surface(&buf);
    assert!(ctx.render(root, area, &mut buf).is_ok());
    println!("\ntest_grow\n{}", buffer_to_string(&buf));
    let narrow = ctx.get(child0).unwrap();
    let wide = ctx.get(child1).unwrap();
    assert_eq!((narrow.size.x, narrow.size.y), (10, 10));
    assert_eq!((wide.size.x, wide.size.y), (24, 10));
    assert_eq!((wide.position.x, wide.position.y), (11, 1));
    let upper = ctx.get(child2).unwrap();
    let lower = ctx.get(child3).unwrap();
    assert_eq!((upper.size.x, upper.size.y), (22, 4));
    assert_eq!((lower.size.x, lower.size.y), (22, 4));
    assert_eq!((upper.position.x, upper.position.y), (12, 2));
    assert_eq!((lower.position.x, lower.position.y), (12, 6));
    let outer = ctx.get(root).unwrap();
    assert_eq!((outer.size.x, outer.size.y), (36, 12));
}

#[test]
fn test_multiple_children() {
    let mut buf = Buffer::empty(Rect::new(0, 0, 50, 20));
    let mut ctx = ElementCtx::default();
    let child = |ctx: &mut ElementCtx, idx: usize, height: u16| {
        ctx.element(
            child_block(idx),
            LayoutParams {
                padding: Padding::uniform(1),
                width: Size::Fixed(16),
                height: Size::Fixed(height),
                ..Default::default()
            },
            None,
        )
    };
    let subchildren = &[child(&mut ctx, 0, 6), child(&mut ctx, 1, 6)];
    let children =
        &[child(&mut ctx, 2, 14).children(&mut ctx, subchildren), child(&mut ctx, 3, 14)];
    let root = ctx.element(
        parent_block(),
        LayoutParams {
            width: Size::Fit,
            height: Size::Fit,
            direction: Direction::Horizontal,
            padding: Padding::uniform(1),
            ..Default::default()
        },
        Some(children),
    );
    assert!(ctx.calculate_layout(root).is_ok());
    let area = surface(&buf);
    assert!(ctx.render(root, area, &mut buf).is_ok());
    println!("\ntest_horizontal\n{}", buffer_to_string(&buf));
    let parent = ctx.get(root).unwrap();
    let inner = ctx.get(subchildren[1]).unwrap();
    assert_eq!((parent.size.x, parent.size.y), (16 + 16 + 2, 14 + 2));
    assert_eq!((inner.size.x, inner.size.y), (14, 6));
    assert_eq!((inner.position.x, inner.position.y), (2, 2 + 6));
}
