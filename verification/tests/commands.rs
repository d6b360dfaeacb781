use breakwater::parser::{parse_command, Command, PARSER_LOOKAHEAD};

/// A scan buffer as the session builds it: the input bytes followed by the
/// zero-filled lookahead margin.
fn with_margin(input: &str) -> Vec<u8> {
    let mut buf = input.as_bytes().to_vec();
    buf.extend(std::iter::repeat(0u8).take(PARSER_LOOKAHEAD));
    buf
}

fn commands_of(input: &str) -> (Vec<Command>, usize) {
    parse_command(&with_margin(input)).unwrap()
}

#[test]
fn parse_help_command() {
    let (cmds, last) = commands_of("HELP\n");
    assert_eq!(cmds, vec![Command::Help]);
    assert_eq!(last, 3);
}

#[test]
fn parse_size_command() {
    let (cmds, last) = commands_of("SIZE\n");
    assert_eq!(cmds, vec![Command::Size]);
    assert_eq!(last, 3);
}

#[test]
fn parse_size_without_newline() {
    let (cmds, _) = commands_of("SIZE");
    assert_eq!(cmds, vec![Command::Size]);
}

#[test]
fn parse_pixel_get_command() {
    let (cmds, last) = commands_of("PX 10 10\n");
    assert_eq!(cmds, vec![Command::PixelGet { x: 10, y: 10 }]);
    assert_eq!(last, 8);
}

#[test]
fn parse_pixel_set_command() {
    let (cmds, last) = commands_of("PX 10 10 000000\n");
    assert_eq!(cmds, vec![Command::PixelSet { c: 0, x: 10, y: 10 }]);
    assert_eq!(last, 15);
}

#[test]
fn parse_pixel_set_color_layout() {
    // rr=ab, gg=cd, bb=ef is stored blue-high, red-low.
    let (cmds, _) = commands_of("PX 1 2 abcdef\n");
    assert_eq!(cmds, vec![Command::PixelSet { c: 0xefcdab, x: 1, y: 2 }]);
}

#[test]
fn parse_pixel_set_with_alpha_drops_alpha() {
    let (cmds, _) = commands_of("PX 1 2 abcdef7f\n");
    assert_eq!(cmds, vec![Command::PixelSet { c: 0xefcdab, x: 1, y: 2 }]);
}

#[test]
fn parse_offset_command() {
    let (cmds, last) = commands_of("OFFSET 10 10\n");
    assert_eq!(cmds, vec![Command::Offset { x: 10, y: 10 }]);
    assert_eq!(last, 12);
}

#[test]
fn parse_multiple_simple_commands() {
    let (cmds, _) = commands_of("HELP\nSIZE\nHELP\n");
    assert_eq!(cmds, vec![Command::Help, Command::Size, Command::Help]);
}

#[test]
fn parse_multiple_pixel_commands() {
    let (cmds, _) = commands_of("PX 10 10\nPX 20 20 000000\nPX 30 30\n");
    assert_eq!(
        cmds,
        vec![
            Command::PixelGet { x: 10, y: 10 },
            Command::PixelSet { c: 0, x: 20, y: 20 },
            Command::PixelGet { x: 30, y: 30 },
        ]
    );
}

#[test]
fn parse_garbage_finds_nothing() {
    let (cmds, last) = commands_of("not a pixelflut command with newline\n");
    assert_eq!(cmds, vec![]);
    assert_eq!(last, 0);
}

#[test]
fn parse_tolerates_garbage_between_commands() {
    let (cmds, _) = commands_of("bla bla bla\nSIZE\nblub\nbla");
    assert_eq!(cmds, vec![Command::Size]);
}

#[test]
fn parse_incomplete_command_consumes_nothing() {
    let (cmds, last) = commands_of("PX 12 3");
    assert_eq!(cmds, vec![]);
    assert_eq!(last, 0);
}

#[test]
fn parse_five_digit_coordinate_is_not_a_command() {
    let (cmds, _) = commands_of("PX 99999 0 abcdef\n");
    assert_eq!(cmds, vec![]);
}

#[test]
fn parse_stops_short_of_the_margin() {
    // Without the margin behind it, a trailing command is left unread.
    let buf = b"SIZE\n".to_vec();
    let (cmds, last) = parse_command(&buf).unwrap();
    assert_eq!(cmds, vec![]);
    assert_eq!(last, 0);
}
