use punto_rs::devices::{device_kind, is_keyboard, is_pointer, on_seat0, udev_record_path};
use punto_rs::events::DeviceKind;
use punto_rs::instance::{lock_directory_ok, lock_file_ok};

#[test]
fn keyboards_and_pointers_are_told_by_their_keys() {
    assert!(is_keyboard(&vec![1, 30, 44, 57]));
    assert!(!is_keyboard(&vec![30, 57]));
    assert!(is_pointer(&vec![0x110, 0x111]));
    assert!(!is_pointer(&vec![30, 44, 57]));
}

#[test]
fn device_list_names_the_keyboards() {
    let keyboard = vec![30, 44, 57];
    let mouse = vec![0x110];
    let none: Vec<String> = Vec::new();
    assert_eq!(device_kind("AT keyboard", &none, true, &keyboard), Some(DeviceKind::Keyboard));
    assert_eq!(device_kind("Mouse", &none, true, &mouse), Some(DeviceKind::Pointer));
    assert_eq!(device_kind("Mouse", &none, false, &mouse), None);
    let filter = vec!["Keyboard B".to_string()];
    assert_eq!(device_kind("Keyboard A", &filter, false, &keyboard), None);
    assert_eq!(device_kind("Keyboard B", &filter, false, &mouse), Some(DeviceKind::Keyboard));
    assert_eq!(device_kind("Keyboard A", &filter, true, &mouse), Some(DeviceKind::Pointer));
}

#[test]
fn udev_record_decides_the_seat() {
    assert!(on_seat0(""));
    assert!(on_seat0("E:ID_INPUT=1\nE:ID_SEAT=seat0\n"));
    assert!(on_seat0("E:ID_SEAT=seat0\r\nE:ID_SEAT=seat1\r\n"));
    assert!(!on_seat0("E:ID_INPUT=1\nE:ID_SEAT=seat1\n"));
    assert!(!on_seat0("E:ID_SEAT=seat1\nE:ID_SEAT=seat0\n"));
    assert!(!on_seat0("E:ID_SEAT=seat0\r"));
    assert!(on_seat0("E:ID_SEATS=seat1\n"));
}

#[test]
fn udev_record_path_takes_major_and_minor_from_the_device_id() {
    assert_eq!(udev_record_path(0xd40), "/run/udev/data/c13:64");
    assert_eq!(udev_record_path(0x1000_0010_0000), "/run/udev/data/c4096:256");
    assert_eq!(udev_record_path(0), "/run/udev/data/c0:0");
}

#[test]
fn lock_needs_a_private_directory_and_file() {
    assert!(lock_directory_ok(true, 0, 0, 0o40700));
    assert!(lock_directory_ok(true, 1000, 1000, 0o755));
    assert!(!lock_directory_ok(true, 1000, 1000, 0o775));
    assert!(!lock_directory_ok(true, 1000, 1000, 0o702));
    assert!(!lock_directory_ok(false, 0, 0, 0o700));
    assert!(!lock_directory_ok(true, 1000, 0, 0o700));
    assert!(lock_file_ok(true, 0, 0, 1));
    assert!(!lock_file_ok(true, 0, 0, 2));
    assert!(!lock_file_ok(false, 0, 0, 1));
    assert!(!lock_file_ok(true, 1, 0, 1));
}
