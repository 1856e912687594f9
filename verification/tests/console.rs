use staros_pc::loader::console::{serial_bytes, Console, UCS2_CHUNK};

#[test]
fn a_line_feed_gets_its_carriage_return_on_both_channels() {
    let out = Console::new(true, true).write_str("a\nb");
    assert_eq!(out.serial, b"a\r\nb");
    assert_eq!(out.firmware, vec![vec![0x61, 0x0D, 0x0A, 0x62, 0]]);
}

#[test]
fn a_channel_that_is_absent_gets_nothing() {
    let out = Console::new(false, true).write_str("x");
    assert_eq!((out.serial.as_slice(), out.firmware.len()), (&b"x"[..], 0));
    let out = Console::new(true, false).write_str("x");
    assert_eq!((out.serial.len(), out.firmware), (0, vec![vec![0x78, 0]]));
}

#[test]
fn the_firmware_is_never_called_once_it_is_gone() {
    let mut console = Console::new(true, true);
    console.firmware_is_gone();
    assert!(console.have_serial());
    let out = console.write_str("x");
    assert!(out.firmware.is_empty());
    assert_eq!(out.serial, b"x");
}

#[test]
fn a_long_text_comes_in_terminated_chunks() {
    let text = "y".repeat(2 * UCS2_CHUNK + 1);
    let out = Console::new(true, false).write_str(&text);
    let lens: Vec<usize> = out.firmware.iter().map(Vec::len).collect();
    assert_eq!(lens, [UCS2_CHUNK + 1, UCS2_CHUNK + 1, 2]);
    assert!(out.firmware.iter().all(|c| c.last() == Some(&0)));
    let exact = Console::new(true, false).write_str(&"y".repeat(UCS2_CHUNK));
    assert_eq!(exact.firmware.len(), 1);
    assert!(Console::new(true, true).write_str("").firmware.is_empty());
}

#[test]
fn what_is_no_single_code_unit_becomes_a_question_mark() {
    let out = Console::new(true, true).write_str("\u{E9}\u{20AC}\u{1F600}");
    assert_eq!(out.firmware, vec![vec![0xE9, 0x20AC, 0x3F, 0]]);
    assert_eq!(out.serial, "\u{E9}\u{20AC}\u{1F600}".as_bytes());
}

#[test]
fn bytes_for_the_serial_port_alone_get_their_carriage_returns() {
    assert_eq!(serial_bytes(b"\na\n\n"), b"\r\na\r\n\r\n");
    assert_eq!(serial_bytes(b""), b"");
}
