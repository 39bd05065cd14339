use grid_game::terminal::{dimensions_from_window_size, local_mode_flags};

const LINUX_ECHO: u64 = 0o10;
const LINUX_ICANON: u64 = 0o2;
const MACOS_ECHO: u64 = 0o10;
const MACOS_ICANON: u64 = 0x100;

#[test]
fn echo_and_canonical_switched_together() {
    assert_eq!(local_mode_flags(0, LINUX_ECHO, LINUX_ICANON, true), 0o12);
    assert_eq!(local_mode_flags(0xffff_ffff, LINUX_ECHO, LINUX_ICANON, false), 0xffff_fff5);
    assert_eq!(local_mode_flags(0x100, LINUX_ECHO, LINUX_ICANON, true), 0x10a);
    assert_eq!(local_mode_flags(0x10a, LINUX_ECHO, LINUX_ICANON, false), 0x100);
    let off = local_mode_flags(0x8b1, LINUX_ECHO, LINUX_ICANON, false);
    assert_eq!(local_mode_flags(off, LINUX_ECHO, LINUX_ICANON, true), 0x8bb);
}

#[test]
fn platform_bits_are_taken_as_given() {
    assert_eq!(local_mode_flags(0x1_0000_0000, MACOS_ECHO, MACOS_ICANON, true), 0x1_0000_0108);
    assert_eq!(local_mode_flags(0xffff, MACOS_ECHO, MACOS_ICANON, false), 0xfef7);
}

#[test]
fn window_size_to_dimensions() {
    let d = dimensions_from_window_size(40, 120);
    assert_eq!((d.x, d.y), (120, 40));
}
