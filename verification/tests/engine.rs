use pyco8::engine::shader::{shader_stage_of, Shader, ShaderStage};
use pyco8::engine::sprites::SpriteSheet;
use pyco8::engine::window::{
    centered_viewport, frame_commands, handle_event, square_side, DrawCommand, EventAction,
    WindowEvent,
};
use pyco8::text::{is_whitespace, lines_of};

fn sprite_line(first: char, rest: char) -> String {
    let mut s = String::new();
    s.push(first);
    for _ in 1..64 {
        s.push(rest);
    }
    s
}

#[test]
fn sprite_sheet_reads_one_sprite_per_line() {
    let text = format!("{}\n{}\n", sprite_line('1', '0'), sprite_line('0', '2'));
    let sheet = SpriteSheet::from_text(&text);
    assert_eq!(sheet.len(), 2);
    let s0 = sheet.sprite(0);
    assert_eq!(s0[0], b'1');
    assert_eq!(s0[1], b'0');
    let s1 = sheet.sprite(1);
    assert_eq!(s1[0], b'0');
    assert_eq!(s1[63], b'2');
}

#[test]
fn sprite_sheet_accepts_crlf_lines() {
    let text = format!("{}\r\n{}", sprite_line('3', '4'), sprite_line('5', '6'));
    let sheet = SpriteSheet::from_text(&text);
    assert_eq!(sheet.len(), 2);
    assert_eq!(sheet.sprite(1)[0], b'5');
}

#[test]
fn sprite_pixels_columns_outer_rows_inner() {
    let mut line: Vec<u8> = vec![b'0'; 64];
    line[1] = b'7'; // column 1, row 0
    line[8] = b'3'; // column 0, row 1
    let text = String::from_utf8(line).unwrap();
    let sheet = SpriteSheet::from_text(&text);
    let px = sheet.pixels(0, 10, 20);
    assert_eq!(px.len(), 64);
    assert_eq!((px[0].x, px[0].y, px[0].color), (10, 20, 0));
    assert_eq!((px[1].x, px[1].y, px[1].color), (10, 21, 3));
    assert_eq!((px[8].x, px[8].y, px[8].color), (11, 20, 7));
    assert_eq!((px[63].x, px[63].y), (17, 27));
}

#[test]
fn shader_link_releases_shaders_once() {
    let mut s = Shader::new(7);
    assert_eq!(s.program(), 7);
    assert!(!s.is_linked());
    s.add_shader(1);
    s.add_shader(2);
    assert_eq!(s.shaders(), vec![1, 2]);
    assert_eq!(s.link(), Some(vec![1, 2]));
    assert!(s.is_linked());
    assert!(s.shaders().is_empty());
    assert_eq!(s.link(), None);
    assert!(s.shaders().is_empty());
}

#[test]
fn shader_stage_by_file_name() {
    assert!(matches!(shader_stage_of("a/pixel.vert"), Some(ShaderStage::Vertex)));
    assert!(matches!(shader_stage_of("color.frag"), Some(ShaderStage::Fragment)));
    assert!(shader_stage_of("readme.txt").is_none());
    assert!(shader_stage_of("vert").is_none());
    assert!(matches!(shader_stage_of(".frag"), Some(ShaderStage::Fragment)));
}

#[test]
fn window_events() {
    assert!(matches!(
        handle_event(true, &WindowEvent::CloseRequested),
        (false, EventAction::Nothing)
    ));
    assert!(matches!(
        handle_event(true, &WindowEvent::Resized(640, 480)),
        (true, EventAction::ResizeSurface(640, 480))
    ));
    assert!(matches!(
        handle_event(true, &WindowEvent::Other),
        (true, EventAction::Nothing)
    ));
}

#[test]
fn frame_draws_corners_and_sprite() {
    let cmds = frame_commands();
    assert_eq!(cmds.len(), 5);
    assert!(matches!(cmds[1], DrawCommand::Pixel { x: 127, y: 0, color: 1 }));
    assert!(matches!(cmds[3], DrawCommand::Pixel { x: 127, y: 127, color: 1 }));
    assert!(matches!(cmds[4], DrawCommand::Sprite { x: 10, y: 10, sprite: 0 }));
}

#[test]
fn viewport_is_centered_square() {
    assert_eq!(square_side(800, 600), 600);
    assert_eq!(square_side(300, 500), 300);
    let v = centered_viewport(800, 600, 600);
    assert_eq!((v.x, v.y, v.width, v.height), (100, 0, 600, 600));
    let v = centered_viewport(301, 500, 301);
    assert_eq!((v.x, v.y, v.width, v.height), (0, 99, 301, 301));
    let v = centered_viewport(u32::MAX, u32::MAX, u32::MAX);
    assert_eq!((v.x, v.y, v.width), (0, 0, i32::MAX));
}

/// Every string of length up to `n` over `alphabet`.
fn all_strings(alphabet: &[char], n: usize) -> Vec<String> {
    let mut out = vec![String::new()];
    let mut layer = vec![String::new()];
    for _ in 0..n {
        let mut next = Vec::new();
        for s in &layer {
            for c in alphabet {
                let mut t = s.clone();
                t.push(*c);
                next.push(t);
            }
        }
        out.extend(next.iter().cloned());
        layer = next;
    }
    out
}

#[test]
fn lines_like_std() {
    for text in all_strings(&['a', '\r', '\n'], 6) {
        let ours = lines_of(&text);
        let std: Vec<String> = text.lines().map(|l| l.to_string()).collect();
        assert_eq!(ours, std, "{:?}", text);
    }
}

#[test]
fn whitespace_like_std() {
    for c in (0u32..=0x10FFFF).filter_map(char::from_u32) {
        assert_eq!(is_whitespace(c), c.is_whitespace(), "{:?}", c);
    }
}
