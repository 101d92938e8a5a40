use tiny_dfr::config::{LayerType, CONFIG_PATH};
use tiny_dfr::device::{
    device_setup, is_touch_bar, name_field, open_mode, restricted_mode, AccessModes, OpenMode,
    DEVICE_NAME, NAME_SIZE, TIMEOUT_MS,
};
use tiny_dfr::icon::{
    check_icon_type, icon_search_paths, IconError, IconFileType, ICON_DIR, ICON_SIZE,
};

#[test]
fn touch_bars_are_known_by_their_name() {
    assert!(is_touch_bar("Apple Inc. Touch Bar Display Touchpad"));
    assert!(is_touch_bar("MacBookPro17,1 Touch Bar"));
    assert!(is_touch_bar(" Touch Bar"));
    assert!(is_touch_bar("\u{e9}\u{20ac} Touch Bar\u{e9}"));
    assert!(!is_touch_bar("Touch Bar"));
    assert!(!is_touch_bar(" Touch  Bar"));
    assert!(!is_touch_bar(" touch bar"));
    assert!(!is_touch_bar("Apple Internal Keyboard / Trackpad"));
    assert!(!is_touch_bar(" Touch Ba"));
    assert!(!is_touch_bar(""));
}

#[test]
fn names_are_filled_up_with_zeros() {
    assert_eq!(name_field(b""), [0; NAME_SIZE]);
    let field = name_field(b"ab\xff");
    assert_eq!(&field[..4], &[97, 98, 255, 0]);
    assert!(field[3..].iter().all(|b| *b == 0));
    let full: Vec<u8> = (1..=80).collect();
    assert_eq!(name_field(&full).to_vec(), full);
}

#[test]
fn the_virtual_keyboard_introduces_itself() {
    let setup = device_setup();
    assert_eq!(setup.bustype, 0x19);
    assert_eq!(setup.vendor, 0x1209);
    assert_eq!(setup.product, 0x316e);
    assert_eq!(setup.version, 1);
    assert_eq!(setup.ff_effects_max, 0);
    let name = DEVICE_NAME.as_bytes();
    assert_eq!(DEVICE_NAME, "Dynamic Function Row Virtual Input Device");
    assert_eq!(name.len(), 41);
    assert_eq!(&setup.name[..41], name);
    assert!(setup.name[41..].iter().all(|b| *b == 0));
}

#[test]
fn access_modes_open_files() {
    let none = OpenMode { read: false, write: false };
    let read = OpenMode { read: true, write: false };
    let write = OpenMode { read: false, write: true };
    let both = OpenMode { read: true, write: true };
    assert_eq!(restricted_mode(libc::O_RDONLY), read);
    assert_eq!(restricted_mode(libc::O_WRONLY), write);
    assert_eq!(restricted_mode(libc::O_RDWR), both);
    assert_eq!(restricted_mode(libc::O_RDWR | libc::O_NONBLOCK | libc::O_CLOEXEC), both);
    assert_eq!(restricted_mode(libc::O_WRONLY | libc::O_APPEND), write);
    assert_eq!(restricted_mode(libc::O_RDONLY | libc::O_CLOEXEC), read);
    assert_eq!(restricted_mode(3), none);
    assert_eq!(restricted_mode(-1), none);
}

#[test]
fn access_modes_can_be_given() {
    let modes = AccessModes { mask: 0x30, read_only: 0x10, write_only: 0x20, read_write: 0x30 };
    assert_eq!(open_mode(0x11, modes), OpenMode { read: true, write: false });
    assert_eq!(open_mode(0x2f, modes), OpenMode { read: false, write: true });
    assert_eq!(open_mode(0xff, modes), OpenMode { read: true, write: true });
    assert_eq!(open_mode(0x0f, modes), OpenMode { read: false, write: false });
}

#[test]
fn the_backlight_is_looked_at_every_half_minute() {
    assert_eq!(TIMEOUT_MS, 30 * 1000);
}

#[test]
fn vector_icons_are_accepted() {
    assert_eq!(check_icon_type(IconFileType::SVG), Ok(()));
}

#[test]
fn bitmap_icons_are_refused() {
    assert_eq!(check_icon_type(IconFileType::PNG), Err(IconError::Png));
    assert_eq!(check_icon_type(IconFileType::XPM), Err(IconError::Xpm));
    assert_eq!(IconError::Png.message(), "PNG icons are not support");
    assert_eq!(IconError::Xpm.message(), "Legacy XPM icons are not supported");
}

#[test]
fn own_icons_come_before_those_of_the_system() {
    assert_eq!(
        icon_search_paths(ICON_DIR, vec!["/usr/share/icons", "/usr/share/pixmaps"]),
        vec!["/usr/share/tiny-dfr/", "/usr/share/icons", "/usr/share/pixmaps"]
    );
    assert_eq!(icon_search_paths(7, vec![]), vec![7]);
    assert_eq!(ICON_SIZE, 16);
}

#[test]
fn layers_have_their_places() {
    assert_eq!(LayerType::Function.index(), 0);
    assert_eq!(LayerType::Special.index(), 1);
    assert_eq!(CONFIG_PATH, "/etc/tiny-dfr.conf");
}
