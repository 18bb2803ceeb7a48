use font8x8::unicode::BasicFonts;
use font8x8::UnicodeFonts;
use watch_lib::{
    get_pixel_by_index, set_pixel, text_pixel, BoundingRect, Listener, RectUIElement, SignalGraph,
    TextUIElement, UIContext, UIElement, Value, FRAME_BYTES, SCREEN_HEIGHT, SCREEN_WIDTH,
};

type Compute = fn(&[Value]) -> Value;

fn rect(x: i16, y: i16, width: u8, height: u8) -> BoundingRect {
    BoundingRect { x, y, width, height }
}

fn fill(r: BoundingRect, color: u8) -> UIElement {
    UIElement::Rect(RectUIElement::new(r, color))
}

fn pixel(ctx: &UIContext<Compute>, x: usize, y: usize) -> u8 {
    get_pixel_by_index(ctx.get_screen_buffer(), y * SCREEN_WIDTH as usize + x)
}

fn screen() -> BoundingRect {
    rect(0, 0, SCREEN_WIDTH, SCREEN_HEIGHT)
}

#[test]
fn set_pixel_packs_msb_first() {
    let mut buf = vec![0u8; FRAME_BYTES];
    set_pixel(&mut buf, 0, 0, true);
    assert_eq!(buf[0], 0x80);
    set_pixel(&mut buf, 9, 1, true);
    assert_eq!(buf[25 + 1], 0x40);
    set_pixel(&mut buf, 0, 0, false);
    assert_eq!(buf[0], 0);
    assert_eq!(get_pixel_by_index(&buf, 200 + 9), 1);
    assert_eq!(get_pixel_by_index(&buf, 200 + 8), 0);
}

#[test]
fn pixel_by_index_outside_is_zero() {
    let buf = vec![0xFFu8; FRAME_BYTES];
    assert_eq!(get_pixel_by_index(&buf, 40_000), 0);
    assert_eq!(get_pixel_by_index(&buf, 39_999), 1);
    assert_eq!(get_pixel_by_index(&buf[..10], 100), 0);
}

#[test]
fn text_pixel_reads_glyph_rows_from_the_low_bit() {
    let font = BasicFonts::new();
    let glyph = font.get('A').unwrap();
    for y in 0..8u8 {
        for x in 0..8u8 {
            let expected = (glyph[y as usize] >> x) & 1;
            assert_eq!(text_pixel(&font, "A", x, y), expected);
        }
    }
    assert_eq!(text_pixel(&font, "A", 8, 0), 0);
    for x in 0..8u8 {
        assert_eq!(text_pixel(&font, "A", x, 8), glyph[0] >> x & 1);
        assert_eq!(text_pixel(&font, "A", x, 13), glyph[5] >> x & 1);
    }
    assert_eq!(text_pixel(&font, "\u{263A}", 3, 3), 0);
}

#[test]
fn new_context_has_nothing_waiting() {
    let ctx: UIContext<Compute> = UIContext::new(BasicFonts::new(), SignalGraph::new());
    assert!(!ctx.is_dirty(0));
    assert_eq!(ctx.element_count_now(), 1);
    assert_eq!(ctx.get_screen_buffer().len(), FRAME_BYTES);
}

#[test]
fn mount_hands_out_fresh_ids_and_marks_them() {
    let mut ctx: UIContext<Compute> = UIContext::new(BasicFonts::new(), SignalGraph::new());
    ctx.handle_draw_requests();
    let a = ctx.mount(0, fill(rect(0, 0, 4, 4), 1));
    let b = ctx.mount(a, fill(rect(1, 1, 2, 2), 0));
    assert_eq!((a, b), (1, 2));
    assert!(ctx.is_dirty(a) && ctx.is_dirty(b));
    assert!(!ctx.is_dirty(0));
    match ctx.get_element(a) {
        Some(UIElement::Rect(r)) => assert_eq!(r.children(), &vec![b]),
        _ => panic!("expected a rectangle"),
    }
}

#[test]
fn many_dirty_elements_force_a_full_redraw() {
    let mut ctx: UIContext<Compute> = UIContext::new(BasicFonts::new(), SignalGraph::new());
    ctx.handle_draw_requests();
    for i in 0..17i16 {
        ctx.mount(0, fill(rect(i * 10, 0, 2, 2), 1));
    }
    ctx.handle_draw_requests();
    assert_eq!(ctx.get_redraw_regions(), &vec![screen()]);
}

#[test]
fn few_small_dirty_elements_redraw_in_part() {
    let mut ctx: UIContext<Compute> = UIContext::new(BasicFonts::new(), SignalGraph::new());
    ctx.handle_draw_requests();
    ctx.mount(0, fill(rect(10, 10, 5, 5), 1));
    ctx.mount(0, fill(rect(100, 100, 5, 5), 1));
    ctx.handle_draw_requests();
    let regions = ctx.get_redraw_regions();
    assert!(regions.len() <= 2);
    assert!(!regions.contains(&screen()));
    assert_eq!(pixel(&ctx, 12, 12), 1);
    assert_eq!(pixel(&ctx, 102, 102), 1);
    assert_eq!(pixel(&ctx, 50, 50), 0);
}

#[test]
fn large_dirty_area_forces_a_full_redraw() {
    let mut ctx: UIContext<Compute> = UIContext::new(BasicFonts::new(), SignalGraph::new());
    ctx.handle_draw_requests();
    ctx.mount(0, fill(rect(0, 0, 120, 100), 1));
    ctx.handle_draw_requests();
    assert_eq!(ctx.get_redraw_regions(), &vec![screen()]);
}

#[test]
fn later_sibling_paints_over_earlier() {
    let mut ctx: UIContext<Compute> = UIContext::new(BasicFonts::new(), SignalGraph::new());
    ctx.mount(0, fill(rect(0, 0, 20, 20), 1));
    ctx.mount(0, fill(rect(10, 10, 20, 20), 0));
    ctx.handle_draw_requests();
    assert_eq!(pixel(&ctx, 5, 5), 1);
    assert_eq!(pixel(&ctx, 15, 15), 0);
    assert_eq!(pixel(&ctx, 25, 25), 0);
}

#[test]
fn clean_sibling_is_repainted_where_damage_reaches_it() {
    let mut ctx: UIContext<Compute> = UIContext::new(BasicFonts::new(), SignalGraph::new());
    let back = ctx.mount(0, fill(rect(0, 0, 40, 40), 1));
    ctx.handle_draw_requests();
    assert_eq!(pixel(&ctx, 5, 5), 1);
    ctx.mount(0, fill(rect(0, 0, 10, 10), 0));
    ctx.handle_draw_requests();
    assert_eq!(pixel(&ctx, 5, 5), 0);
    assert_eq!(pixel(&ctx, 20, 20), 1);
    assert!(!ctx.is_dirty(back));
}

#[test]
fn child_offsets_add_up() {
    let mut ctx: UIContext<Compute> = UIContext::new(BasicFonts::new(), SignalGraph::new());
    let outer = ctx.mount(0, fill(rect(50, 60, 40, 40), 0));
    ctx.mount(outer, fill(rect(5, 5, 2, 2), 1));
    ctx.handle_draw_requests();
    assert_eq!(pixel(&ctx, 55, 65), 1);
    assert_eq!(pixel(&ctx, 56, 66), 1);
    assert_eq!(pixel(&ctx, 57, 67), 0);
    assert_eq!(pixel(&ctx, 5, 5), 0);
}

#[test]
fn text_on_filled_screen_shows_glyph() {
    let mut g: SignalGraph<Compute> = SignalGraph::new();
    let label = g.signal(Value::Text("A".to_string()));
    let mut ctx = UIContext::new(BasicFonts::new(), g);
    let back = ctx.mount(0, fill(screen(), 1));
    ctx.mount(back, UIElement::Text(TextUIElement::new(label, rect(0, 0, 8, 8))));
    ctx.handle_draw_requests();
    let glyph = BasicFonts::new().get('A').unwrap();
    let row0 = glyph[0].reverse_bits();
    let buf = ctx.get_screen_buffer();
    assert_eq!(buf[0], row0);
    for b in 1..25 {
        assert_eq!(buf[b], 0xFF);
    }
    for y in 0..8usize {
        for x in 0..8usize {
            assert_eq!(pixel(&ctx, x, y), (glyph[y] >> x) & 1);
        }
    }
    assert_eq!(pixel(&ctx, 3, 9), 1);
}

#[test]
fn text_change_marks_its_element_dirty() {
    let mut g: SignalGraph<Compute> = SignalGraph::new();
    let label = g.signal(Value::Text("A".to_string()));
    g.subscribe(label, Listener::Watch);
    let mut ctx = UIContext::new(BasicFonts::new(), g);
    let t = ctx.mount(0, UIElement::Text(TextUIElement::new(label, rect(16, 16, 16, 8))));
    ctx.handle_draw_requests();
    assert!(!ctx.is_dirty(t));
    ctx.set_signal(label, Value::Text("B".to_string()));
    assert!(ctx.is_dirty(t));
    assert_eq!(ctx.take_notices().len(), 1);
    ctx.handle_draw_requests();
    let glyph = BasicFonts::new().get('B').unwrap();
    for y in 0..8usize {
        for x in 0..8usize {
            assert_eq!(pixel(&ctx, 16 + x, 16 + y), (glyph[y] >> x) & 1);
        }
    }
    ctx.set_signal(label, Value::Text("B".to_string()));
    assert!(!ctx.is_dirty(t));
}

#[test]
fn derived_text_marks_its_element_dirty() {
    let mut g: SignalGraph<Compute> = SignalGraph::new();
    let counter = g.signal(Value::Int(0));
    let parity: Compute = |v: &[Value]| match &v[0] {
        Value::Int(i) if i % 2 == 0 => Value::Text("on".to_string()),
        _ => Value::Text("off".to_string()),
    };
    let toggled = g.derived(counter, parity);
    let mut ctx = UIContext::new(BasicFonts::new(), g);
    let t = ctx.mount(0, UIElement::Text(TextUIElement::new(toggled, rect(0, 0, 24, 8))));
    ctx.handle_draw_requests();
    ctx.set_signal(counter, Value::Int(1));
    assert!(ctx.is_dirty(t));
    ctx.handle_draw_requests();
    ctx.set_signal(counter, Value::Int(3));
    assert!(!ctx.is_dirty(t));
}

#[test]
fn element_added_to_root_is_drawn() {
    let mut ctx: UIContext<Compute> = UIContext::new(BasicFonts::new(), SignalGraph::new());
    let holder = ctx.mount(0, fill(rect(0, 0, 10, 10), 0));
    let inner = ctx.mount(holder, fill(rect(100, 100, 3, 3), 1));
    ctx.add_to_root(inner);
    ctx.handle_draw_requests();
    assert_eq!(pixel(&ctx, 100, 100), 1);
}
