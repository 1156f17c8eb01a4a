//! The command line, the console, images and address spaces.
use k1k::bytes::{put_u32, put_u64};
use k1k::kernel::cmdline::{
    cmdline, cmdline_has, cmdline_u64, cmdline_value, keep, CMDLINE_MAX,
};
use k1k::kernel::console::{glyph, pixel_offset, FbConsole, Format, Op};
use k1k::kernel::loader::{load, LoadError, LoadedImage};
use k1k::kernel::start::{boot_page, regions, Region};
use k1k::kernel::vmm::{page_chunks, share_kernel_half, Teardown, USER_STACK_TOP};
use k1k::rt::info::{arg, args, boot_info, granted, INFO_BASE};
use k1k::rt::abi::Cap;
use x86_64::structures::paging::{PageTable, PageTableFlags};
use x86_64::PhysAddr;

#[test]
fn command_line_words() {
    let line = cmdline(b"quiet log=debug heap=64 key= log=late");
    assert!(cmdline_has(line, "quiet"));
    assert!(!cmdline_has(line, "log"));
    assert_eq!(cmdline_value(line, "log"), Some("debug".to_string()));
    assert_eq!(cmdline_value(line, "key"), Some(String::new()));
    assert_eq!(cmdline_value(line, "lo"), None);
    assert_eq!(cmdline_u64(line, "heap"), Some(64));
    assert_eq!(cmdline_u64(line, "log"), None);
    assert_eq!(cmdline_u64(line, "nothing"), None);
    assert_eq!(cmdline(&[0xFF]), "");
    let long = vec![b'a'; 5000];
    assert_eq!(keep(&long).len(), CMDLINE_MAX - 1);
    assert_eq!(keep(b"abc"), b"abc");
}

const RGB: Format = Format { red: 16, green: 8, blue: 0 };

/// A screen of characters that follows the console's operations.
fn run(c: &mut FbConsole, lines: &mut Vec<Vec<u8>>, s: &[u8]) {
    for ch in s {
        for op in c.put_char(*ch) {
            match op {
                Op::Draw { ch, col, row } => lines[row][col] = ch,
                Op::Scroll => {
                    let n = lines[0].len();
                    lines.remove(0);
                    lines.push(vec![b' '; n]);
                }
                Op::Clear => {
                    for l in lines.iter_mut() {
                        l.fill(b' ');
                    }
                }
            }
        }
    }
}

#[test]
fn console_text() {
    let mut c = FbConsole::new(8 * 10, 16 * 3, RGB);
    assert_eq!((c.cols, c.rows), (10, 3));
    assert_eq!(c.fg, 0xD0D0D0);
    assert_eq!(c.bg, 0x0B0E14);
    assert_eq!(c.rgb(1, 2, 3), 0x010203);
    c.set_fg(0xFF, 0, 0);
    assert_eq!(c.fg, 0xFF0000);
    let mut lines = vec![vec![b' '; 10]; 3];
    run(&mut c, &mut lines, b"ab\tc\nx\x07");
    assert_eq!(lines[0], b"ab  c     ");
    assert_eq!(lines[1], b"x?        ");
    run(&mut c, &mut lines, b"\x08y\rz");
    assert_eq!(lines[1], b"zy        ");
    // A full line wraps, and the last line scrolls.
    run(&mut c, &mut lines, b"\n0123456789A");
    assert_eq!(lines[0], b"zy        ");
    assert_eq!(lines[1], b"0123456789");
    assert_eq!(lines[2], b"A         ");
    assert_eq!((c.col, c.row), (1, 2));
    assert_eq!(c.clear(), Op::Clear);
    assert_eq!((c.col, c.row), (0, 0));
}

#[test]
fn glyph_pixels() {
    let mut font = vec![0u8; 4096];
    font[b'A' as usize * 16] = 0b1000_0001;
    let g = glyph(&font, b'A', 1, 0);
    assert_eq!(g.len(), 128);
    assert_eq!(g[..8], [1, 0, 0, 0, 0, 0, 0, 1]);
    assert!(g[8..].iter().all(|p| *p == 0));
    assert_eq!(pixel_offset(3, 2, 4096, 32), 2 * 4096 + 12);
}

/// An image with one segment.
fn image() -> Vec<u8> {
    let mut b = vec![0u8; 64 + 56 + 16];
    b[..4].copy_from_slice(&[0x7F, b'E', b'L', b'F']);
    b[4] = 2;
    b[5] = 1;
    b[16] = 2;
    b[18] = 0x3E;
    put_u64(&mut b, 24, 0x40_0010);
    put_u64(&mut b, 32, 64);
    b[54] = 56;
    b[56] = 1;
    put_u32(&mut b, 64, 1);
    put_u32(&mut b, 68, 5);
    put_u64(&mut b, 72, 120);
    put_u64(&mut b, 80, 0x40_0010);
    put_u64(&mut b, 96, 16);
    put_u64(&mut b, 104, 0x2000);
    b
}

#[test]
fn a_good_image_loads() {
    let l = load(&image());
    assert_eq!(l.result, Ok(LoadedImage { entry: 0x40_0010 }));
    assert_eq!(l.segments.len(), 1);
    let s = l.segments[0];
    assert_eq!((s.vaddr, s.memsz, s.offset, s.filesz), (0x40_0010, 0x2000, 120, 16));
    assert!(s.executable && !s.writable);
    assert_eq!((s.first_page, s.pages), (0x40_0000, 3));
}

#[test]
fn bad_images_are_refused() {
    assert_eq!(load(&[]).result, Err(LoadError::BadMagic));
    let mut b = image();
    b[0] = 0;
    assert_eq!(load(&b).result, Err(LoadError::BadMagic));
    let mut b = image();
    b[4] = 1;
    assert_eq!(load(&b).result, Err(LoadError::Unsupported));
    let mut b = image();
    b[16] = 3;
    assert_eq!(load(&b).result, Err(LoadError::Unsupported));
    let mut b = image();
    b[54] = 55;
    assert_eq!(load(&b).result, Err(LoadError::Unsupported));
    let mut b = image();
    put_u64(&mut b, 32, 1000);
    assert_eq!(load(&b).result, Err(LoadError::Truncated));
    let mut b = image();
    put_u64(&mut b, 80, 0x1000);
    assert_eq!(load(&b).result, Err(LoadError::BadSegment));
    let mut b = image();
    put_u64(&mut b, 104, 8);
    assert_eq!(load(&b).result, Err(LoadError::BadSegment));
    let mut b = image();
    put_u64(&mut b, 72, 121);
    assert_eq!(load(&b).result, Err(LoadError::Truncated));
    let mut b = image();
    put_u64(&mut b, 24, 0);
    assert_eq!(load(&b).result, Err(LoadError::BadSegment));
    let mut b = image();
    put_u32(&mut b, 64, 2);
    assert_eq!(load(&b).result, Err(LoadError::BadSegment));
}

fn present(t: &mut PageTable, i: usize, addr: u64) {
    t[i].set_addr(PhysAddr::new(addr), PageTableFlags::PRESENT | PageTableFlags::WRITABLE);
}

#[test]
fn a_new_space_shares_the_kernel_half() {
    let mut kernel = PageTable::new();
    present(&mut kernel, 0, 0x1000);
    present(&mut kernel, 256, 0x2000);
    present(&mut kernel, 511, 0x3000);
    let mut t = PageTable::new();
    present(&mut t, 5, 0x9000);
    share_kernel_half(&mut t, &kernel);
    assert!(t[0].is_unused());
    assert_eq!(t[5].addr().as_u64(), 0x9000);
    assert_eq!(t[256].addr().as_u64(), 0x2000);
    assert_eq!(t[511].addr().as_u64(), 0x3000);
    assert!(t[300].is_unused());
}

#[test]
fn teardown_frees_every_frame_below_once() {
    // Top level 0x1000, then 0x2000, 0x3000 and 0x4000, which maps two frames;
    // the level above it also maps a large page.
    let mut l4 = PageTable::new();
    let mut l3 = PageTable::new();
    let mut l2 = PageTable::new();
    let mut l1 = PageTable::new();
    present(&mut l4, 3, 0x2000);
    present(&mut l4, 300, 0xAAAA_0000);
    present(&mut l3, 0, 0x3000);
    present(&mut l2, 7, 0x4000);
    l2[8].set_addr(
        PhysAddr::new(0x20_0000),
        PageTableFlags::PRESENT | PageTableFlags::HUGE_PAGE,
    );
    present(&mut l1, 1, 0x5000);
    present(&mut l1, 2, 0x6000);
    let mut t = Teardown::free_user_half(&mut l4);
    assert!(l4[3].is_unused());
    // The kernel half stays.
    assert_eq!(l4[300].addr().as_u64(), 0xAAAA_0000);
    let mut freed = Vec::new();
    while let Some((frame, _)) = t.next() {
        let table = match frame {
            0x2000 => &l3,
            0x3000 => &l2,
            0x4000 => &l1,
            _ => panic!(),
        };
        freed.extend(t.visit(table));
    }
    freed.sort();
    assert_eq!(freed, [0x2000, 0x3000, 0x4000, 0x5000, 0x6000]);
}

#[test]
fn copies_never_cross_a_page() {
    assert_eq!(page_chunks(0x1FF0, 0x1020), [(0x1FF0, 16), (0x2000, 4096), (0x3000, 16)]);
    assert_eq!(page_chunks(0x1000, 8), [(0x1000, 8)]);
    assert!(page_chunks(0x1000, 0).is_empty());
}

#[test]
fn a_service_finds_its_arguments() {
    let heap = 0x0000_7fff_1000_0000;
    let page = boot_page(7, heap, b"name=hello\ncaps=fs=0, control = 1");
    let i = boot_info(&page).unwrap();
    assert_eq!((i.task_id, i.heap_base, i.heap_size), (7, heap, 4 << 20));
    assert_eq!(i.stack_top, USER_STACK_TOP);
    assert_eq!(args(&page), "name=hello\ncaps=fs=0, control = 1");
    assert_eq!(arg(&page, "name"), Some("hello".to_string()));
    assert_eq!(arg(&page, "none"), None);
    assert_eq!(granted(&page, "fs"), Some(Cap(0)));
    assert_eq!(granted(&page, "control"), Some(Cap(1)));
    assert_eq!(granted(&page, "net"), None);
    let r = regions(heap);
    assert_eq!(r[0], Region { base: USER_STACK_TOP - 16 * 4096, pages: 16 });
    assert_eq!(r[1], Region { base: heap, pages: 1024 });
    assert_eq!(r[2], Region { base: INFO_BASE, pages: 1 });
    // Arguments that do not fit are cut off; a page of another kernel is none.
    let page = boot_page(1, heap, &[b'x'; 2000]);
    assert_eq!(args(&page).len(), 1024);
    assert_eq!(boot_info(&[0u8; 4096]), None);
    assert_eq!(boot_info(&page[..10]), None);
}
