use sanbox::color::BACKGROUND;
use sanbox::renderer::{itoa_push, set_bg, set_fg, write_ansi_color, TextRenderer};

fn digits(n: u8) -> String {
    let mut buf = Vec::new();
    itoa_push(&mut buf, n);
    String::from_utf8(buf).unwrap()
}

#[test]
fn itoa_push_writes_decimal_without_leading_zeros() {
    assert_eq!(digits(0), "0");
    assert_eq!(digits(7), "7");
    assert_eq!(digits(10), "10");
    assert_eq!(digits(99), "99");
    assert_eq!(digits(100), "100");
    assert_eq!(digits(205), "205");
    assert_eq!(digits(255), "255");
}

#[test]
fn itoa_push_round_trips_every_byte() {
    for n in 0..=255u8 {
        assert_eq!(digits(n).parse::<u8>().unwrap(), n);
        assert!(digits(n).len() == 1 || !digits(n).starts_with('0'));
    }
}

#[test]
fn itoa_push_appends() {
    let mut buf = b"x".to_vec();
    itoa_push(&mut buf, 42);
    assert_eq!(buf, b"x42".to_vec());
}

#[test]
fn write_ansi_color_emits_truecolor_command() {
    let mut buf = Vec::new();
    write_ansi_color(&mut buf, 38, (1, 22, 255));
    assert_eq!(buf, b"\x1b[38;2;1;22;255m".to_vec());
    buf.clear();
    write_ansi_color(&mut buf, 48, (0, 0, 0));
    assert_eq!(buf, b"\x1b[48;2;0;0;0m".to_vec());
}

#[test]
fn set_fg_skips_repeated_colour() {
    let mut buf = Vec::new();
    let mut prev = None;
    set_fg(&mut buf, (1, 2, 3), &mut prev);
    set_fg(&mut buf, (1, 2, 3), &mut prev);
    assert_eq!(buf, b"\x1b[38;2;1;2;3m".to_vec());
    assert_eq!(prev, Some((1, 2, 3)));
    set_fg(&mut buf, (4, 5, 6), &mut prev);
    assert_eq!(buf, b"\x1b[38;2;1;2;3m\x1b[38;2;4;5;6m".to_vec());
}

#[test]
fn set_bg_skips_repeated_colour() {
    let mut buf = Vec::new();
    let mut prev = Some((9, 9, 9));
    set_bg(&mut buf, (9, 9, 9), &mut prev);
    assert!(buf.is_empty());
    set_bg(&mut buf, (10, 9, 9), &mut prev);
    assert_eq!(buf, b"\x1b[48;2;10;9;9m".to_vec());
    assert_eq!(prev, Some((10, 9, 9)));
}

#[test]
fn sim_size_maps_cells_to_pixels() {
    let r = TextRenderer::new();
    let s = r.sim_size(80, 24);
    assert_eq!((s.width, s.pixel_h, s.font_scale), (80, 48, 3));
    let s = r.sim_size(0, 0);
    assert_eq!((s.width, s.pixel_h, s.font_scale), (0, 0, 3));
    let s = r.sim_size(u16::MAX, u16::MAX);
    assert_eq!((s.width, s.pixel_h), (65535, 131070));
}

fn sgr(kind: u8, c: (u8, u8, u8)) -> Vec<u8> {
    format!("\x1b[{};2;{};{};{}m", kind, c.0, c.1, c.2).into_bytes()
}

#[test]
fn render_draws_half_blocks() {
    let a = (200, 10, 10);
    let b = (10, 200, 10);
    // two columns, one terminal row: (a over b) and (a over nothing)
    let fb = vec![Some(a), Some(a), Some(b), None];
    let mut r = TextRenderer::new();
    let mut buf = b"stale".to_vec();
    r.render(&fb, 2, 2, &mut buf);
    let mut want = b"\x1b[H".to_vec();
    want.extend(sgr(38, a));
    want.extend(sgr(48, b));
    want.extend("▀".as_bytes());
    want.extend(sgr(48, BACKGROUND));
    want.extend("▀".as_bytes());
    want.extend(b"\x1b[0m");
    assert_eq!(buf, want);
}

#[test]
fn render_draws_lower_block_space_and_rows() {
    let a = (1, 2, 3);
    // one column, two terminal rows: (nothing over a), then (a over a), then (nothing over nothing) is cut off
    let fb = vec![None, Some(a), Some(a), Some(a), None];
    let mut r = TextRenderer::new();
    let mut buf = Vec::new();
    r.render(&fb, 1, 5, &mut buf);
    let mut want = b"\x1b[H".to_vec();
    want.extend(sgr(38, a));
    want.extend(sgr(48, BACKGROUND));
    want.extend("▄".as_bytes());
    want.extend(b"\r\n");
    want.extend(sgr(48, a));
    want.push(b' ');
    want.extend(b"\x1b[0m");
    assert_eq!(buf, want);
}

#[test]
fn render_empty_cells_show_background() {
    let fb = vec![None; 4];
    let mut r = TextRenderer::new();
    let mut buf = Vec::new();
    r.render(&fb, 2, 2, &mut buf);
    let mut want = b"\x1b[H".to_vec();
    want.extend(sgr(48, BACKGROUND));
    want.extend(b"  \x1b[0m");
    assert_eq!(buf, want);
}

#[test]
fn render_of_degenerate_frames() {
    let mut r = TextRenderer::new();
    let mut buf = Vec::new();
    r.render(&[Some((1, 1, 1)), None], 2, 1, &mut buf);
    assert_eq!(buf, b"\x1b[H\x1b[0m".to_vec());
    r.render(&[], 0, 6, &mut buf);
    assert_eq!(buf, b"\x1b[H\r\n\r\n\x1b[0m".to_vec());
}

#[test]
fn render_into_appends() {
    let mut r = TextRenderer::new();
    let mut buf = b"ab".to_vec();
    r.render_into(&[], 0, 0, &mut buf);
    assert_eq!(buf, b"ab\x1b[H\x1b[0m".to_vec());
}
