use image_filter::drives::{
    drive_type_name, eject_next, ioctl_code, macos_drive, macos_volume_name, sort_drives, volume_device_path,
    volume_label, windows_drive, DriveFlags, DriveInfo, EjectNext, EjectStep,
};

fn flags(removable: bool, fixed: bool) -> DriveFlags {
    DriveFlags { removable, fixed, remote: false, cdrom: false, ramdisk: false }
}

fn drive(mount: &str, ty: &str) -> DriveInfo {
    DriveInfo { mount_point: mount.to_string(), drive_type: ty.to_string(), label: format!("L{}", mount), available: true }
}

fn utf16(s: &str) -> Vec<u16> {
    s.encode_utf16().collect()
}

#[test]
fn drive_type_names() {
    assert_eq!(drive_type_name(flags(true, true)), "removable");
    assert_eq!(drive_type_name(flags(false, true)), "fixed");
    let net = DriveFlags { removable: false, fixed: false, remote: true, cdrom: true, ramdisk: false };
    assert_eq!(drive_type_name(net), "network");
    let cd = DriveFlags { removable: false, fixed: false, remote: false, cdrom: true, ramdisk: true };
    assert_eq!(drive_type_name(cd), "cdrom");
    let ram = DriveFlags { removable: false, fixed: false, remote: false, cdrom: false, ramdisk: true };
    assert_eq!(drive_type_name(ram), "ramdisk");
    assert_eq!(drive_type_name(flags(false, false)), "unknown");
}

#[test]
fn windows_drive_labels() {
    let d = windows_drive('E', flags(true, false), "");
    assert_eq!(d.mount_point, "E:\\");
    assert_eq!(d.label, "E:\\ (可移动)");
    assert_eq!(d.drive_type, "removable");
    assert!(d.available);
    let d = windows_drive('E', flags(true, false), "CANON_DC");
    assert_eq!(d.label, "CANON_DC (E) 可移动");
    let d = windows_drive('C', flags(false, true), "System");
    assert_eq!(d.label, "System (C)");
    let d = windows_drive('D', flags(false, true), "");
    assert_eq!(d.label, "D:\\");
}

#[test]
fn drives_sorted_removable_first_then_by_mount() {
    let ds = vec![drive("D:\\", "fixed"), drive("F:\\", "removable"), drive("C:\\", "fixed"), drive("E:\\", "removable")];
    let s = sort_drives(&ds);
    let mounts: Vec<&str> = s.iter().map(|d| d.mount_point.as_str()).collect();
    assert_eq!(mounts, vec!["E:\\", "F:\\", "C:\\", "D:\\"]);
    assert_eq!(s[0].label, "LE:\\");
    assert!(sort_drives(&vec![]).is_empty());
}

#[test]
fn macos_volumes() {
    assert!(macos_drive(".Trashes".to_string(), "/Volumes/.Trashes".to_string()).is_none());
    let d = macos_drive("EOS_DIGITAL".to_string(), "/Volumes/EOS_DIGITAL".to_string()).unwrap();
    assert_eq!(d.mount_point, "/Volumes/EOS_DIGITAL");
    assert_eq!(d.drive_type, "removable");
    assert_eq!(d.label, "EOS_DIGITAL");
    assert!(d.available);
}

#[test]
fn volume_label_stops_at_nul() {
    let mut buf = utf16("CANON");
    buf.push(0);
    buf.extend(utf16("junk"));
    assert_eq!(volume_label(&buf), "CANON");
    assert_eq!(volume_label(&utf16("NO_NUL")), "NO_NUL");
    assert_eq!(volume_label(&[0, 65]), "");
    assert_eq!(volume_label(&utf16("照片")), "照片");
}

#[test]
fn volume_label_replaces_lone_surrogates() {
    assert_eq!(volume_label(&[0x41, 0xD800, 0x42]), "A\u{FFFD}B");
    assert_eq!(volume_label(&[0xD83D, 0xDE00]), "\u{1F600}");
}

#[test]
fn device_path_of_mount_point() {
    assert_eq!(volume_device_path("E:\\"), "\\\\.\\E:");
    assert_eq!(volume_device_path("E:"), "\\\\.\\E:");
    assert_eq!(volume_device_path("E:\\\\"), "\\\\.\\E:");
}

#[test]
fn macos_volume_name_is_last_component() {
    assert_eq!(macos_volume_name("/Volumes/SD_CARD"), "SD_CARD");
    assert_eq!(macos_volume_name("/Volumes/SD_CARD/"), "SD_CARD");
    assert_eq!(macos_volume_name("SD"), "SD");
}

#[test]
fn eject_sequence() {
    assert!(matches!(eject_next(EjectStep::Lock, true), EjectNext::Step(EjectStep::Dismount)));
    assert!(matches!(eject_next(EjectStep::Dismount, true), EjectNext::Step(EjectStep::AllowRemoval)));
    assert!(matches!(eject_next(EjectStep::AllowRemoval, false), EjectNext::Step(EjectStep::Eject)));
    assert!(matches!(eject_next(EjectStep::AllowRemoval, true), EjectNext::Step(EjectStep::Eject)));
    assert!(matches!(eject_next(EjectStep::Eject, true), EjectNext::Done));
    match eject_next(EjectStep::Lock, false) {
        EjectNext::Fail(m) => assert_eq!(m, "锁卷失败（设备被占用?）"),
        _ => panic!("lock failure must stop"),
    }
    match eject_next(EjectStep::Dismount, false) {
        EjectNext::Fail(m) => assert_eq!(m, "卸载卷失败"),
        _ => panic!("dismount failure must stop"),
    }
    match eject_next(EjectStep::Eject, false) {
        EjectNext::Fail(m) => assert_eq!(m, "弹出失败（设备可能不支持热插拔）"),
        _ => panic!("eject failure must stop"),
    }
}

#[test]
fn ioctl_codes() {
    assert_eq!(ioctl_code(EjectStep::Lock), 0x0009_0018);
    assert_eq!(ioctl_code(EjectStep::Dismount), 0x0009_0020);
    assert_eq!(ioctl_code(EjectStep::AllowRemoval), 0x002D_4804);
    assert_eq!(ioctl_code(EjectStep::Eject), 0x002D_4808);
}
