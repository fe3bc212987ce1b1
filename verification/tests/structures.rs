use corekernel::fat::DirectoryEntry;
use corekernel::graphics::{Point, Rect, Color, Bitmap};
use corekernel::devices::{Bus, InterruptIndex, QemuExitCode, SECTOR_SIZE, PIC_1_OFFSET};

fn entry(name: [u8; 8], ext: [u8; 3], attributes: u8) -> DirectoryEntry {
    DirectoryEntry {
        name,
        ext,
        attributes,
        reserved: 0,
        ctime_tenth: 0,
        ctime: 0,
        cdate: 0,
        adate: 0,
        cluster_high: 0,
        time: 0,
        date: 0,
        cluster_low: 0,
        size: 0,
    }
}

#[test]
fn directory_entry_flags() {
    let e = entry(*b"HELLO   ", *b"TXT", 0x20);
    assert!(!e.is_free());
    assert!(!e.is_end());
    assert!(!e.is_long_name());
    let mut f = e;
    f.name[0] = 0xE5;
    assert!(f.is_free());
    let mut g = e;
    g.name[0] = 0x00;
    assert!(g.is_end());
    let h = entry(*b"HELLO   ", *b"TXT", 0x0F);
    assert!(h.is_long_name());
}

#[test]
fn directory_entry_cluster_joins_halves() {
    let mut e = entry(*b"A       ", *b"   ", 0);
    e.cluster_high = 0x0012;
    e.cluster_low = 0x3456;
    assert_eq!(e.get_cluster(), 0x0012_3456);
}

#[test]
fn filename_drops_padding_and_adds_the_dot() {
    let e = entry(*b"HELLO   ", *b"TXT", 0x20);
    assert_eq!(e.get_filename(), "HELLO.TXT");
    let f = entry(*b"README  ", *b"   ", 0x20);
    assert_eq!(f.get_filename(), "README");
    let g = entry(*b"        ", *b"C  ", 0x20);
    assert_eq!(g.get_filename(), ".C");
}

#[test]
fn rect_intersection_overlapping() {
    let a = Rect::new(0, 0, 10, 10);
    let b = Rect::new(5, 5, 10, 10);
    let c = a.intersect(&b).unwrap();
    assert_eq!((c.x, c.y, c.width, c.height), (5, 5, 5, 5));
    // intersection with a contained rectangle is that rectangle
    let inner = Rect::new(2, 3, 4, 5);
    let d = a.intersect(&inner).unwrap();
    assert_eq!((d.x, d.y, d.width, d.height), (2, 3, 4, 5));
}

#[test]
fn rect_intersection_disjoint_is_none() {
    let a = Rect::new(0, 0, 10, 10);
    let b = Rect::new(10, 0, 5, 5);
    assert!(a.intersect(&b).is_none());
    let c = Rect::new(-20, -20, 5, 5);
    assert!(a.intersect(&c).is_none());
}

#[test]
fn point_and_color_constructors() {
    let p = Point::new(-3, 7);
    assert_eq!((p.x, p.y), (-3, 7));
    let c = Color::new(1, 2, 3);
    assert_eq!((c.r, c.g, c.b, c.a), (1, 2, 3, 255));
    let d = Color::with_alpha(4, 5, 6, 7);
    assert_eq!((d.r, d.g, d.b, d.a), (4, 5, 6, 7));
}

#[test]
fn bitmap_buffer_is_zeroed_rgba() {
    let b = Bitmap::new(4, 3);
    assert_eq!(b.buffer_as_slice().len(), 4 * 3 * 4);
    assert!(b.buffer_as_slice().iter().all(|&x| x == 0));
}

#[test]
fn device_identifiers() {
    assert_eq!(SECTOR_SIZE, 512);
    assert_eq!(Bus::Primary.io_base(), 0x1F0);
    assert_eq!(Bus::Secondary.io_base(), 0x170);
    assert_eq!(InterruptIndex::Timer.as_u8(), PIC_1_OFFSET);
    assert_eq!(InterruptIndex::Keyboard.as_u8(), PIC_1_OFFSET + 1);
    assert_eq!(InterruptIndex::Keyboard.as_usize(), 33);
    assert_eq!(QemuExitCode::Success.code(), 0x10);
    assert_eq!(QemuExitCode::Failed.code(), 0x11);
}
