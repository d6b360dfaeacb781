use breakwater::execute::help_text;
use breakwater::session::Session;
use breakwater::FrameBuffer;

/// Drives one connection: delivers the input in chunks of at most `chunk`
/// bytes and collects every reply until the connection closes.
fn run_connection_chunked(input: &str, fb: &mut FrameBuffer, chunk: usize) -> String {
    assert!(chunk > 0);
    let mut session = Session::new();
    let mut replies: Vec<u8> = Vec::new();
    let bytes = input.as_bytes();
    let mut pos = 0;
    while pos < bytes.len() {
        let end = pos.saturating_add(chunk).min(bytes.len());
        let (r, closed) = session.feed(&bytes[pos..end], fb);
        assert!(!closed);
        replies.extend_from_slice(&r);
        pos = end;
    }
    loop {
        let (r, closed) = session.feed(&[], fb);
        replies.extend_from_slice(&r);
        if closed {
            break;
        }
    }
    String::from_utf8(replies).unwrap()
}

fn run_connection(input: &str, fb: &mut FrameBuffer) -> String {
    run_connection_chunked(input, fb, 200_000)
}

#[test]
fn test_correct_responses_to_general_commands() {
    let help = String::from_utf8(help_text()).unwrap();
    let cases: Vec<(&str, &str)> = vec![
        ("", ""),
        ("\n", ""),
        ("not a pixelflut command", ""),
        ("not a pixelflut command with newline\n", ""),
        ("SIZE", "SIZE 1920 1080\n"),
        ("SIZE\n", "SIZE 1920 1080\n"),
        ("SIZE\nSIZE\n", "SIZE 1920 1080\nSIZE 1920 1080\n"),
        ("HELP", help.as_str()),
        ("HELP\n", help.as_str()),
        ("bla bla bla\nSIZE\nblub\nbla", "SIZE 1920 1080\n"),
    ];
    for (input, expected) in cases {
        let mut fb = FrameBuffer::new(1920, 1080);
        assert_eq!(expected, run_connection(input, &mut fb), "input: {input:?}");
    }
}

#[test]
fn test_setting_pixel() {
    let cases: Vec<(&str, &str)> = vec![
        // Without alpha
        ("PX 0 0 ffffff\nPX 0 0\n", "PX 0 0 ffffff\n"),
        ("PX 0 0 abcdef\nPX 0 0\n", "PX 0 0 abcdef\n"),
        ("PX 0 42 abcdef\nPX 0 42\n", "PX 0 42 abcdef\n"),
        ("PX 42 0 abcdef\nPX 42 0\n", "PX 42 0 abcdef\n"),
        // With alpha, which is parsed and dropped
        ("PX 0 0 ffffffaa\nPX 0 0\n", "PX 0 0 ffffff\n"),
        ("PX 0 0 abcdefaa\nPX 0 0\n", "PX 0 0 abcdef\n"),
        ("PX 0 1 abcdefaa\nPX 0 1\n", "PX 0 1 abcdef\n"),
        ("PX 1 0 abcdefaa\nPX 1 0\n", "PX 1 0 abcdef\n"),
        // Parsable but outside the canvas: silently dropped, silently empty
        ("PX 9999 0 abcdef\nPX 9999 0\n", ""),
        ("PX 0 9999 abcdef\nPX 9999 0\n", ""),
        ("PX 9999 9999 abcdef\nPX 9999 9999\n", ""),
        // Not even parsable: too many digits
        ("PX 99999 0 abcdef\nPX 0 99999\n", ""),
        ("PX 0 99999 abcdef\nPX 0 99999\n", ""),
        ("PX 99999 99999 abcdef\nPX 99999 99999\n", ""),
        // Invalid inputs degrade to scanning on
        ("PX 0 abcdef\nPX 0 0\n", "PX 0 0 000000\n"),
        ("PX -1 0 abcdef\nPX 0 0\n", "PX 0 0 000000\n"),
        ("bla bla bla\nPX 0 0\n", "PX 0 0 000000\n"),
        // Offset moves the draw position; the echo stays relative
        (
            "OFFSET 10 10\nPX 0 0 ffffff\nPX 0 0\nPX 42 42\n",
            "PX 0 0 ffffff\nPX 42 42 000000\n",
        ),
        ("OFFSET 0 0\nPX 0 42 abcdef\nPX 0 42\n", "PX 0 42 abcdef\n"),
    ];
    for (input, expected) in cases {
        let mut fb = FrameBuffer::new(1920, 1080);
        assert_eq!(expected, run_connection(input, &mut fb), "input: {input:?}");
    }
}

#[test]
fn test_drawing_rect() {
    // width, height, offset_x, offset_y of a filled rectangle
    let cases: Vec<(usize, usize, usize, usize)> = vec![
        (5, 5, 0, 0),
        (10, 10, 100, 200),
        (50, 40, 30, 20),
    ];
    for (width, height, offset_x, offset_y) in cases {
        let fb_w = 1920;
        let mut fb = FrameBuffer::new(fb_w, 1080);
        let mut color: u32 = 0;
        let mut fill_commands = String::new();
        let mut read_commands = String::new();
        let mut combined_commands = String::new();
        let mut combined_commands_expected = String::new();

        for x in offset_x..offset_x + width {
            for y in offset_y..offset_y + height {
                fill_commands += &format!("PX {x} {y} {color:06x}\n");
                read_commands += &format!("PX {x} {y}\n");
                color += 1;
                combined_commands += &format!("PX {x} {y} {color:06x}\nPX {x} {y}\n");
                combined_commands_expected += &format!("PX {x} {y} {color:06x}\n");
                color += 1;
            }
        }

        assert_eq!("", run_connection(&fill_commands, &mut fb));
        assert_eq!(fill_commands, run_connection(&read_commands, &mut fb));
        assert_eq!(
            combined_commands_expected,
            run_connection(&combined_commands, &mut fb)
        );

        // Pixels around the rectangle stay black.
        let border_reads = format!(
            "PX {} {}\nPX {} {}\n",
            offset_x + width,
            offset_y,
            offset_x,
            offset_y + height
        );
        let border_expected = format!(
            "PX {} {} 000000\nPX {} {} 000000\n",
            offset_x + width,
            offset_y,
            offset_x,
            offset_y + height
        );
        assert_eq!(border_expected, run_connection(&border_reads, &mut fb));
    }
}

#[test]
fn test_uppercase_color_echoes_lowercase() {
    let mut fb = FrameBuffer::new(1920, 1080);
    let out = run_connection("PX 3 4 ABCDEF
PX 3 4
", &mut fb);
    assert_eq!("PX 3 4 abcdef
", out);
}

#[test]
fn test_read_idempotent() {
    let mut fb = FrameBuffer::new(1920, 1080);
    assert_eq!("", run_connection("PX 7 9 123456\n", &mut fb));
    let out = run_connection("PX 7 9\nPX 7 9\nPX 7 9\n", &mut fb);
    assert_eq!("PX 7 9 123456\nPX 7 9 123456\nPX 7 9 123456\n", out);
}

#[test]
fn test_fresh_canvas_reads_black() {
    let mut fb = FrameBuffer::new(1920, 1080);
    assert_eq!("PX 5 5 000000\n", run_connection("PX 5 5\n", &mut fb));
}

#[test]
fn test_bounds_silent() {
    let mut fb = FrameBuffer::new(1920, 1080);
    assert_eq!("", run_connection("PX 9999 0 abcdef\nPX 9999 0\n", &mut fb));
}

#[test]
fn test_offset_semantics() {
    let mut fb = FrameBuffer::new(1920, 1080);
    let out = run_connection("OFFSET 10 10\nPX 0 0 ffffff\nPX 0 0\n", &mut fb);
    assert_eq!("PX 0 0 ffffff\n", out);
    // The absolute pixel touched lies behind the offset.
    assert_eq!(fb.get(10, 10), Some(0xffffff));
    assert_eq!(fb.get(0, 0), Some(0));
}

#[test]
fn test_noise_tolerance() {
    let mut fb = FrameBuffer::new(1920, 1080);
    let out = run_connection("garbage\nSIZE\nmore garbage\n", &mut fb);
    assert_eq!("SIZE 1920 1080\n", out);
}

#[test]
fn test_fragmentation_invariance() {
    let input = "PX 3 7 aabbcc\nPX 3 7\n";
    let mut whole_fb = FrameBuffer::new(1920, 1080);
    let whole = run_connection(input, &mut whole_fb);
    for chunk in 1..=input.len() {
        let mut fb = FrameBuffer::new(1920, 1080);
        let out = run_connection_chunked(input, &mut fb, chunk);
        assert_eq!(whole, out, "chunk size {chunk}");
        assert_eq!(fb.get(3, 7), whole_fb.get(3, 7), "chunk size {chunk}");
    }
}

#[test]
fn test_fragmentation_invariance_every_split_of_one_command() {
    let input = "OFFSET 2 3\nPX 11 22 0f1e2d\n";
    let mut whole_fb = FrameBuffer::new(1920, 1080);
    run_connection(input, &mut whole_fb);
    let bytes = input.as_bytes();
    for k in 0..=bytes.len() {
        let mut fb = FrameBuffer::new(1920, 1080);
        let mut session = Session::new();
        let (r1, c1) = session.feed(&bytes[..k], &mut fb);
        let (r2, c2) = session.feed(&bytes[k..], &mut fb);
        assert_eq!(fb.get(13, 25), whole_fb.get(13, 25), "split at {k}");
        assert_eq!(fb.get(13, 25), Some(0x2d1e0f));
        // A write produces no replies however the bytes were split.
        assert!(r1.is_empty() && r2.is_empty());
        // Only the empty half of a degenerate split may close early,
        // and only when nothing was left over.
        if k > 0 {
            assert!(!c2 || k == bytes.len());
            let _ = c1;
        }
    }
}

#[test]
fn test_oversized_leftover_is_capped_not_fatal() {
    let mut fb = FrameBuffer::new(1920, 1080);
    let mut session = Session::new();
    // A long tail that never completes a command is cut to the margin...
    let (r, closed) = session.feed("A".repeat(50).as_bytes(), &mut fb);
    assert!(r.is_empty() && !closed);
    // ...and the connection keeps working.
    let (r, closed) = session.feed(b"SIZE\n", &mut fb);
    assert_eq!(String::from_utf8(r).unwrap(), "SIZE 1920 1080\n");
    assert!(!closed);
}

#[test]
fn test_concurrent_disjoint_writes_read_back() {
    // Distinct coordinates written through many interleaved connections
    // read back exactly the values written.
    let n = 16;
    let mut fb = FrameBuffer::new(1920, 1080);
    let mut sessions: Vec<Session> = (0..n).map(|_| Session::new()).collect();
    let commands: Vec<String> = (0..n)
        .map(|i| format!("PX {} {} {:06x}\n", 100 + i, 200 + 2 * i, 0x111 * (i as u32 + 1)))
        .collect();
    // Interleave the deliveries byte by byte across the connections.
    let max_len = commands.iter().map(|c| c.len()).max().unwrap();
    for pos in 0..max_len {
        for (i, cmd) in commands.iter().enumerate() {
            if pos < cmd.len() {
                let (r, closed) = sessions[i].feed(&cmd.as_bytes()[pos..pos + 1], &mut fb);
                assert!(r.is_empty() && !closed);
            }
        }
    }
    for i in 0..n {
        let expected = format!("PX {} {} {:06x}\n", 100 + i, 200 + 2 * i, 0x111 * (i as u32 + 1));
        let out = run_connection(
            &format!("PX {} {}\n", 100 + i, 200 + 2 * i),
            &mut fb,
        );
        assert_eq!(expected, out);
    }
}

#[test]
fn test_help_text_is_the_fixed_usage_block() {
    let mut fb = FrameBuffer::new(1920, 1080);
    let out = run_connection("HELP\n", &mut fb);
    let expected = "Pixelflut server powered by breakwater https://github.com/sbernauer/breakwater\n\
Available commands:\n\
HELP: Show this help\n\
PX x y rrggbb: Color the pixel (x,y) with the given hexadecimal color\n\
PX x y rrggbbaa: Color the pixel (x,y) with the given hexadecimal color rrggbb (alpha channel is ignored for now)\n\
PX x y: Get the color value of the pixel (x,y)\n\
SIZE: Get the size of the drawing surface, e.g. `SIZE 1920 1080`\n\
OFFSET x y: Apply offset (x,y) to all further pixel draws on this connection\n";
    assert_eq!(expected, out);
}
