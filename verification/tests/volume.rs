//! FAT volumes, paths, the file service and its start from disk.
use k1k::bytes::{get_u32, put_u32, put_u64};
use k1k::rt::abi::{Cap, Error, RIGHT_SEND};
use k1k::rt::file::File;
use k1k::rt::fsproto::{
    DirRec, BADF, CLOSE, INVAL, IO, ISDIR, LIST, NOCONN, NOENT, NOSPC, NOTDIR, OK, OPEN, READ, STAT,
    TOOBIG,
};
use k1k::rt::server::Request;
use k1k::svc::fat::{stored_name, to_83, BlockDevice, DirEntry, Fat, FatKind, Image};
use k1k::svc::init::{
    launch_args, named_grant, prepare, read_manifest, readme, started_of, Problem,
};
use k1k::svc::manifest;
use k1k::svc::paths::{components, leaf_name, split_parent};
use k1k::svc::serve::{dispatch, locate, op_close, op_list, op_open, op_read, op_stat, Located};

struct Disk {
    img: Vec<u8>,
    /// Reads of this sector fail.
    bad: Option<u64>,
}

impl BlockDevice for Disk {
    fn read(&mut self, lba: u64, count: usize, out: &mut [u8]) -> Result<(), ()> {
        if let Some(b) = self.bad {
            if lba <= b && b < lba + count as u64 {
                return Err(());
            }
        }
        let at = lba as usize * 512;
        for (i, o) in out.iter_mut().enumerate() {
            *o = self.img.get(at + i).copied().unwrap_or(0);
        }
        Ok(())
    }
}

fn put16(b: &mut [u8], at: usize, v: u16) {
    b[at] = v as u8;
    b[at + 1] = (v / 256) as u8;
}

/// A volume under construction.
struct Vol {
    img: Vec<u8>,
    kind: FatKind,
    data: usize,
    next: u32,
    root: usize,
}

impl Vol {
    fn new(kind: FatKind) -> Self {
        let (total, fat_size, root_entries) = match kind {
            FatKind::Fat12 => (200usize, 1usize, 32usize),
            FatKind::Fat16 => (4200, 17, 32),
            FatKind::Fat32 => (300, 3, 0),
        };
        let mut img = vec![0u8; total * 512];
        put16(&mut img, 11, 512);
        img[13] = 1;
        put16(&mut img, 14, 1);
        img[16] = 1;
        put16(&mut img, 17, root_entries as u16);
        put16(&mut img, 19, total as u16);
        let label = if kind == FatKind::Fat32 {
            put_u32(&mut img, 36, fat_size as u32);
            put_u32(&mut img, 44, 2);
            71
        } else {
            put16(&mut img, 22, fat_size as u16);
            43
        };
        img[label..label + 11].copy_from_slice(b"TESTDISK   ");
        img[510] = 0x55;
        img[511] = 0xAA;
        let root = (1 + fat_size) * 512;
        let data = root + root_entries * 32;
        let mut v = Vol { img, kind, data, next: 2, root };
        if kind == FatKind::Fat32 {
            v.link(2, 0x0FFF_FFFF);
            v.next = 3;
        }
        v
    }

    fn link(&mut self, c: u32, to: u32) {
        let fat = 512;
        match self.kind {
            FatKind::Fat32 => put_u32(&mut self.img, fat + c as usize * 4, to),
            FatKind::Fat16 => put16(&mut self.img, fat + c as usize * 2, to as u16),
            FatKind::Fat12 => {
                let at = fat + c as usize * 3 / 2;
                let old = self.img[at] as u16 + self.img[at + 1] as u16 * 256;
                let to = to as u16 & 0xFFF;
                let new = if c % 2 == 1 {
                    (old & 0x000F) | (to << 4)
                } else {
                    (old & 0xF000) | to
                };
                put16(&mut self.img, at, new);
            }
        }
    }

    fn at(&self, c: u32) -> usize {
        self.data + (c as usize - 2) * 512
    }

    /// Store bytes in a chain of clusters, with a gap between every two.
    fn store(&mut self, bytes: &[u8]) -> u32 {
        let first = self.next;
        let mut c = first;
        let mut rest = bytes;
        loop {
            let n = rest.len().min(512);
            let at = self.at(c);
            self.img[at..at + n].copy_from_slice(&rest[..n]);
            rest = &rest[n..];
            if rest.is_empty() {
                self.link(c, 0x0FFF_FFFF);
                self.next = c + 1;
                return first;
            }
            self.link(c, c + 2);
            c += 2;
        }
    }

    /// Where entry `i` of a directory is; 0 is the root.
    fn slot(&self, dir: u32, i: usize) -> usize {
        if dir == 0 && self.kind == FatKind::Fat32 {
            self.at(2) + i * 32
        } else if dir == 0 {
            self.root + i * 32
        } else {
            self.at(dir) + i * 32
        }
    }

    fn entry(&mut self, dir: u32, i: usize, name: &[u8; 11], attr: u8, cluster: u32, size: u32) {
        let at = self.slot(dir, i);
        self.img[at..at + 11].copy_from_slice(name);
        self.img[at + 11] = attr;
        put16(&mut self.img, at + 20, (cluster / 0x1_0000) as u16);
        put16(&mut self.img, at + 26, (cluster % 0x1_0000) as u16);
        put_u32(&mut self.img, at + 28, size);
    }

    fn disk(self) -> Disk {
        Disk { img: self.img, bad: None }
    }
}

const MANIFEST: &str = "hello HELLO.ELF fs\nghost NOSUCH.ELF\nbad HELLO.ELF net\n";

/// README.TXT and SVC/ with a manifest, a large file and a directory.
fn volume(kind: FatKind) -> Disk {
    let mut v = Vol::new(kind);
    let readme = v.store(b"hello disk \n");
    let man = v.store(MANIFEST.as_bytes());
    let big: Vec<u8> = (0..2000u32).map(|i| (i % 251) as u8).collect();
    let elf = v.store(&big);
    let svc = v.store(&[0u8; 512]);
    let sub = v.store(&[0u8; 512]);
    v.entry(0, 0, b"TESTDISK   ", 0x08, 0, 0);
    v.entry(0, 1, b"README  TXT", 0x20, readme, 12);
    v.entry(0, 2, b"\xE5LD     TXT", 0x20, readme, 12);
    v.entry(0, 3, b"SVC        ", 0x10, svc, 0);
    v.entry(svc, 0, b"MANIFESTTXT", 0x20, man, MANIFEST.len() as u32);
    v.entry(svc, 1, b"HELLO   ELF", 0x20, elf, 2000);
    v.entry(svc, 2, b"SUB        ", 0x10, sub, 0);
    v.entry(sub, 0, b"LEAF       ", 0x20, readme, 5);
    v.disk()
}

fn mounted(kind: FatKind) -> (Fat, Disk, Vec<u8>) {
    let mut d = volume(kind);
    let f = Fat::mount(&mut d).unwrap();
    (f, d, vec![0u8; 4096])
}

const KINDS: [FatKind; 3] = [FatKind::Fat12, FatKind::Fat16, FatKind::Fat32];

#[test]
fn mount_reads_the_geometry() {
    for kind in KINDS {
        let (f, _, _) = mounted(kind);
        assert_eq!(f.kind, kind);
        assert_eq!(&f.label, b"TESTDISK   ");
        assert_eq!(f.cluster_bytes(), 512);
    }
    let (f, _, _) = mounted(FatKind::Fat12);
    assert_eq!((f.fat_start, f.root_start, f.data_start, f.total_clusters), (1, 2, 4, 196));
}

#[test]
fn bad_volumes_do_not_mount() {
    let mut d = volume(FatKind::Fat12);
    d.bad = Some(0);
    assert_eq!(Fat::mount(&mut d).err(), Some("cannot read boot sector"));
    let mut d = volume(FatKind::Fat12);
    d.img[510] = 0;
    assert_eq!(Fat::mount(&mut d).err(), Some("no boot signature"));
    let mut d = volume(FatKind::Fat12);
    d.img[13] = 0;
    assert_eq!(Fat::mount(&mut d).err(), Some("unsupported geometry"));
    let mut d = volume(FatKind::Fat12);
    d.img[12] = 4;
    assert_eq!(Fat::mount(&mut d).err(), Some("unsupported geometry"));
    // Less space than its own tables need.
    let mut d = volume(FatKind::Fat12);
    put16(&mut d.img, 19, 2);
    assert_eq!(Fat::mount(&mut d).err(), Some("unsupported geometry"));
}

#[test]
fn names_in_eight_and_three() {
    assert_eq!(to_83("readme.txt"), Some(*b"README  TXT"));
    assert_eq!(to_83("SVC"), Some(*b"SVC        "));
    assert_eq!(to_83("a.b"), Some(*b"A       B  "));
    assert_eq!(to_83("toolongname.txt"), None);
    assert_eq!(to_83("a.text"), None);
    assert_eq!(stored_name(b"Hello.Elf"), Some(*b"HELLO   ELF"));
}

#[test]
fn files_are_read_whole_and_in_parts() {
    for kind in KINDS {
        let (mut f, mut d, mut s) = mounted(kind);
        let svc = f.lookup(&mut d, 0, b"svc", &mut s).unwrap().unwrap();
        assert!(svc.is_dir());
        let e = f.lookup(&mut d, svc.cluster, b"hello.elf", &mut s).unwrap().unwrap();
        assert_eq!(e.size, 2000);
        let mut out = vec![0u8; 2000];
        assert_eq!(f.read_file(&mut d, &e, &mut s, &mut out), Ok(2000));
        assert!((0..2000).all(|i| out[i] == (i % 251) as u8));
        let mut part = [0u8; 100];
        assert_eq!(f.read_at(&mut d, &e, 470, &mut s, &mut part), Ok(100));
        assert!((0..100).all(|i| part[i] == ((470 + i) % 251) as u8));
        // A read past the end is short; one at the end is empty.
        assert_eq!(f.read_at(&mut d, &e, 1950, &mut s, &mut part), Ok(50));
        assert_eq!(f.read_at(&mut d, &e, 2000, &mut s, &mut part), Ok(0));
        assert_eq!(f.next_cluster(&mut d, e.cluster), Ok(Some(e.cluster + 2)));
        let mut c = [0u8; 512];
        assert_eq!(f.read_cluster(&mut d, e.cluster, &mut c), Ok(()));
        assert_eq!(c[..], out[..512]);
        assert_eq!(f.lookup(&mut d, 0, b"nothing", &mut s).unwrap().map(|x| x.size), None);
    }
}

#[test]
fn listings_skip_labels_and_deleted_entries() {
    for kind in KINDS {
        let (mut f, mut d, mut s) = mounted(kind);
        let mut all: Vec<DirEntry> = Vec::new();
        f.read_dir(&mut d, 0, &mut s, &mut all).unwrap();
        let names: Vec<[u8; 11]> = all.iter().map(|e| e.name).collect();
        assert_eq!(names, [*b"README  TXT", *b"SVC        "]);
    }
}

#[test]
fn a_chain_that_bites_its_tail_ends_in_an_error() {
    let mut v = Vol::new(FatKind::Fat16);
    v.link(10, 10);
    v.entry(0, 0, b"LOOP       ", 0x10, 10, 0);
    let at = v.at(10);
    for i in 0..16 {
        v.img[at + i * 32] = 0xE5;
    }
    let mut d = v.disk();
    let mut f = Fat::mount(&mut d).unwrap();
    let mut s = vec![0u8; 512];
    // A cluster number no volume has.
    assert!(f.read_cluster(&mut d, 0, &mut s).is_err());
    assert!(f.read_cluster(&mut d, 1, &mut s).is_err());
}

#[test]
fn paths_walk_the_tree() {
    let (mut f, mut d, mut s) = mounted(FatKind::Fat16);
    let svc = f.lookup(&mut d, 0, b"SVC", &mut s).unwrap().unwrap().cluster;
    let mut split = |p: &str| split_parent(&mut f, &mut d, p, &mut s);
    assert_eq!(split("/README.TXT"), Ok((0, *b"README  TXT")));
    assert_eq!(split("/svc/hello.elf"), Ok((svc, *b"HELLO   ELF")));
    assert_eq!(split("//svc/./sub/../hello.elf"), Ok((svc, *b"HELLO   ELF")));
    assert_eq!(split("/../../README.TXT"), Ok((0, *b"README  TXT")));
    assert_eq!(split("README.TXT"), Err(()));
    assert_eq!(split(""), Err(()));
    assert_eq!(split("/"), Err(()));
    assert_eq!(split("/nodir/x"), Err(()));
    assert_eq!(split("/README.TXT/x"), Err(()));
    assert_eq!(split("/svc/namethatistoolong"), Err(()));
    let long = format!("/{}", "a/".repeat(200));
    assert_eq!(split(&long), Err(()));
    assert_eq!(leaf_name("/SVC/A.B"), b"A.B");
    assert_eq!(leaf_name("A.B"), b"A.B");
    assert_eq!(leaf_name("/SVC/"), b"");
    assert_eq!(components(b"/a//./b"), [b"a".to_vec(), b"b".to_vec()]);
}

fn path_request(buf: &mut [u8], path: &str) {
    put_u64(buf, 0, 128);
    put_u64(buf, 8, path.len() as u64);
    buf[128..128 + path.len()].copy_from_slice(path.as_bytes());
}

#[test]
fn open_read_close() {
    let (mut f, mut d, mut s) = mounted(FatKind::Fat32);
    let mut open: [Option<DirEntry>; 32] = [None; 32];
    let mut buf = vec![0u8; 8192];
    path_request(&mut buf, "/SVC/HELLO.ELF");
    assert_eq!(op_open(&mut f, &mut d, &mut s, &mut open, &buf), (OK, 1, 0));
    path_request(&mut buf, "/SVC");
    assert_eq!(op_open(&mut f, &mut d, &mut s, &mut open, &buf).0, ISDIR);
    path_request(&mut buf, "/SVC/NONE");
    assert_eq!(op_open(&mut f, &mut d, &mut s, &mut open, &buf).0, NOENT);
    put_u64(&mut buf, 8, 0);
    assert_eq!(op_open(&mut f, &mut d, &mut s, &mut open, &buf).0, INVAL);
    // Read 600 bytes from offset 400.
    put_u64(&mut buf, 0, 1);
    put_u64(&mut buf, 8, 400);
    put_u64(&mut buf, 16, 1000);
    put_u64(&mut buf, 24, 600);
    assert_eq!(op_read(&mut f, &mut d, &mut s, &open, &mut buf), (OK, 600, 0));
    assert!((0..600).all(|i| buf[1000 + i] == ((400 + i) % 251) as u8));
    put_u64(&mut buf, 16, 8000);
    assert_eq!(op_read(&mut f, &mut d, &mut s, &open, &mut buf).0, NOSPC);
    put_u64(&mut buf, 24, 0x8001);
    assert_eq!(op_read(&mut f, &mut d, &mut s, &open, &mut buf).0, TOOBIG);
    put_u64(&mut buf, 24, 10);
    put_u64(&mut buf, 0, 2);
    assert_eq!(op_read(&mut f, &mut d, &mut s, &open, &mut buf).0, BADF);
    put_u64(&mut buf, 0, 1);
    assert_eq!(op_close(&mut open, &buf).0, OK);
    assert_eq!(op_close(&mut open, &buf).0, BADF);
    // Every handle in use.
    path_request(&mut buf, "/README.TXT");
    for i in 0..32 {
        assert_eq!(op_open(&mut f, &mut d, &mut s, &mut open, &buf), (OK, i + 1, 0));
    }
    assert_eq!(op_open(&mut f, &mut d, &mut s, &mut open, &buf).0, NOSPC);
}

#[test]
fn stat_and_list() {
    let (mut f, mut d, mut s) = mounted(FatKind::Fat12);
    let mut buf = vec![0u8; 4096];
    path_request(&mut buf, "/");
    assert_eq!(op_stat(&mut f, &mut d, &mut s, &buf), (OK, 0, 1));
    path_request(&mut buf, "/readme.txt");
    assert_eq!(op_stat(&mut f, &mut d, &mut s, &buf), (OK, 12, 0));
    path_request(&mut buf, "/nope");
    assert_eq!(op_stat(&mut f, &mut d, &mut s, &buf).0, NOENT);
    path_request(&mut buf, "/SVC");
    put_u64(&mut buf, 16, 2);
    put_u64(&mut buf, 24, 512);
    assert_eq!(op_list(&mut f, &mut d, &mut s, &mut buf), (OK, 2, 0));
    assert_eq!(&buf[512..523], b"MANIFESTTXT");
    assert_eq!(get_u32(&buf, 512 + 12), MANIFEST.len() as u32);
    assert_eq!(&buf[528..539], b"HELLO   ELF");
    put_u64(&mut buf, 16, 0);
    assert_eq!(op_list(&mut f, &mut d, &mut s, &mut buf).0, INVAL);
    put_u64(&mut buf, 16, 2);
    put_u64(&mut buf, 24, 4090);
    assert_eq!(op_list(&mut f, &mut d, &mut s, &mut buf).0, NOSPC);
    put_u64(&mut buf, 24, 512);
    path_request(&mut buf, "/README.TXT");
    assert_eq!(op_list(&mut f, &mut d, &mut s, &mut buf).0, NOTDIR);
    // A disk that fails is reported, not guessed at.
    let root = f.root_start as u64;
    d.bad = Some(root);
    path_request(&mut buf, "/README.TXT");
    assert_eq!(op_stat(&mut f, &mut d, &mut s, &buf).0, IO);
    assert!(matches!(locate(&mut f, &mut d, &mut s, "/README.TXT"), Located::Unreadable));
}

fn request(op: u64) -> Request {
    Request { op, req_len: 64, want: 0, client: 7, cap: None }
}

#[test]
fn a_client_reads_back_what_is_on_the_disk() {
    let (mut f, mut d, mut s) = mounted(FatKind::Fat16);
    let mut open: [Option<DirEntry>; 32] = [None; 32];
    let mut buf = vec![0u8; 16 * 4096];
    let words = |r: (u64, u64, u64)| [r.0, r.1, r.2, u64::MAX];
    let ask = k1k::rt::file::open(&mut buf, "/SVC/HELLO.ELF").unwrap();
    assert_eq!(ask.op, OPEN);
    let r = dispatch(&mut f, &mut d, &mut s, &mut open, Some(&mut buf), &request(ask.op));
    let h = k1k::rt::file::open_done(&words(r)).unwrap();
    assert_eq!(h, File(1));
    // Part of the file, over its end.
    let mut part = [0u8; 700];
    let mut reading = k1k::rt::file::read(h, 1900, 700);
    let ask = reading.next(&mut buf).unwrap().unwrap();
    assert_eq!(ask.op, READ);
    let r = dispatch(&mut f, &mut d, &mut s, &mut open, Some(&mut buf), &request(ask.op));
    assert_eq!(reading.on_reply(&words(r), &buf, &mut part), Ok(Some(100)));
    assert!((0..100).all(|i| part[i] == ((1900 + i) % 251) as u8));
    // All of it.
    let mut whole: Vec<u8> = Vec::new();
    let mut all = k1k::rt::file::read_all(h);
    let mut rounds = 0;
    let n = loop {
        let ask = all.next(&mut buf).unwrap();
        assert_eq!(ask.op, READ);
        let r = dispatch(&mut f, &mut d, &mut s, &mut open, Some(&mut buf), &request(ask.op));
        rounds += 1;
        if let Some(n) = all.on_reply(&words(r), &buf, &mut whole).unwrap() {
            break n;
        }
    };
    assert_eq!((n, rounds), (2000, 3));
    assert_eq!(all.on_reply(&[NOENT, 0, 0, 0], &buf, &mut whole), Err(Error::Inval));
    assert_eq!(whole.len(), 2000);
    assert!((0..2000).all(|i| whole[i] == (i % 251) as u8));
    let ask = k1k::rt::file::stat(&mut buf, "/SVC").unwrap();
    assert_eq!(ask.op, STAT);
    let r = dispatch(&mut f, &mut d, &mut s, &mut open, Some(&mut buf), &request(ask.op));
    assert!(k1k::rt::file::stat_done(&words(r)).unwrap().is_dir);
    let ask = k1k::rt::file::list(&mut buf, "/SVC", 8).unwrap().unwrap();
    assert_eq!(ask.op, LIST);
    let r = dispatch(&mut f, &mut d, &mut s, &mut open, Some(&mut buf), &request(ask.op));
    let mut recs = [DirRec { name: [0; 11], attr: 0, size: 0 }; 8];
    assert_eq!(k1k::rt::file::list_done(&words(r), &buf, &mut recs), Ok(3));
    assert_eq!(&recs[1].name, b"HELLO   ELF");
    assert_eq!(recs[1].size, 2000);
    assert!(recs[2].is_dir());
    let ask = k1k::rt::file::close(&mut buf, h).unwrap();
    assert_eq!(ask.op, CLOSE);
    let r = dispatch(&mut f, &mut d, &mut s, &mut open, Some(&mut buf), &request(ask.op));
    assert_eq!(r.0, OK);
    assert!(open.iter().all(|o| o.is_none()));
    // Without a buffer there is no connection; unknown requests are refused.
    assert_eq!(dispatch(&mut f, &mut d, &mut s, &mut open, None, &request(OPEN)).0, NOCONN);
    assert_eq!(dispatch(&mut f, &mut d, &mut s, &mut open, Some(&mut buf), &request(99)).0, INVAL);
}

#[test]
fn services_start_from_the_manifest() {
    let (mut f, mut d, mut s) = mounted(FatKind::Fat16);
    let text = read_manifest(&mut f, &mut d, &mut s).unwrap();
    assert_eq!(text, MANIFEST);
    let p = manifest::parse(&text);
    assert!(p.errors.is_empty());
    assert_eq!(p.entries.len(), 3);
    let r = prepare(&mut f, &mut d, &mut s, &p.entries[0]).ok().unwrap();
    assert_eq!(r.image, "/SVC/HELLO.ELF");
    assert_eq!((r.meta.size, r.pages), (2000, 1));
    assert_eq!(r.grants.len(), 1);
    assert_eq!((r.grants[0].cap, r.grants[0].rights), (Cap(3), RIGHT_SEND));
    assert_eq!(r.args, "name=hello\ncaps=fs=0");
    let e = prepare(&mut f, &mut d, &mut s, &p.entries[1]).err().unwrap();
    assert_eq!(e, Problem::NoFile);
    assert_eq!(e.why(&p.entries[1]), "/SVC/NOSUCH.ELF: no such file");
    let e = prepare(&mut f, &mut d, &mut s, &p.entries[2]).err().unwrap();
    assert_eq!(e, Problem::UnknownCap(0));
    assert_eq!(e.why(&p.entries[2]), "unknown capability 'net'");
    let q = manifest::parse("a /SVC\nb /NO/X.ELF\n");
    let e = prepare(&mut f, &mut d, &mut s, &q.entries[0]).err().unwrap();
    assert_eq!(e.why(&q.entries[0]), "/SVC: not an ELF image");
    let e = prepare(&mut f, &mut d, &mut s, &q.entries[1]).err().unwrap();
    assert_eq!(e.why(&q.entries[1]), "/NO/X.ELF: no such directory");
    d.bad = Some(f.data_start as u64 + (r.meta.cluster as u64 - 2) + 8);
    assert_eq!(readme(&mut f, &mut d, &mut s), Some("hello disk".to_string()));
    d.bad = Some(f.root_start as u64);
    let e = prepare(&mut f, &mut d, &mut s, &manifest::parse("a /X.ELF").entries[0]);
    assert_eq!(e.err(), Some(Problem::UnreadableDirectory));
    assert_eq!(started_of(3), (3, false));
    assert_eq!(started_of(25), (24, true));
    assert_eq!(named_grant("fs").map(|g| g.rights), Some(RIGHT_SEND));
    assert_eq!(named_grant("control").map(|g| g.cap), Some(Cap(1)));
    assert_eq!(named_grant("root"), None);
    assert_eq!(
        launch_args("x", &vec![("fs".to_string(), 0), ("control".to_string(), 1)]),
        "name=x\ncaps=fs=0,control=1"
    );
}

#[test]
fn a_volume_without_a_manifest() {
    let mut d = Vol::new(FatKind::Fat12).disk();
    let mut f = Fat::mount(&mut d).unwrap();
    let mut s = vec![0u8; 4096];
    assert_eq!(read_manifest(&mut f, &mut d, &mut s), Err("no /SVC directory on the disk"));
    assert_eq!(readme(&mut f, &mut d, &mut s), None);
    let mut v = Vol::new(FatKind::Fat12);
    let svc = v.store(&[0u8; 512]);
    v.entry(0, 0, b"SVC        ", 0x10, svc, 0);
    let mut d = v.disk();
    let mut f = Fat::mount(&mut d).unwrap();
    assert_eq!(read_manifest(&mut f, &mut d, &mut s), Err("no MANIFEST.TXT in /SVC"));
    let mut v = Vol::new(FatKind::Fat12);
    let svc = v.store(&[0u8; 512]);
    v.entry(0, 0, b"SVC        ", 0x10, svc, 0);
    v.entry(svc, 0, b"MANIFESTTXT", 0x20, 0, 0);
    let mut d = v.disk();
    let mut f = Fat::mount(&mut d).unwrap();
    assert_eq!(read_manifest(&mut f, &mut d, &mut s), Err("manifest is empty or too large"));
}

#[test]
fn a_volume_in_memory() {
    let mut d = Image::new(volume(FatKind::Fat12).img);
    let mut f = Fat::mount(&mut d).unwrap();
    let mut s = vec![0u8; 4096];
    assert_eq!(readme(&mut f, &mut d, &mut s), Some("hello disk".to_string()));
    let mut out = vec![0u8; 512];
    assert_eq!(d.read(199, 1, &mut out), Ok(()));
    assert_eq!(d.read(200, 1, &mut out), Err(()));
    assert_eq!(d.read(u64::MAX, 1, &mut out), Err(()));
    assert_eq!(d.read(0, 1, &mut out), Ok(()));
    assert_eq!(out[510..], [0x55, 0xAA]);
}

/// A device that remembers what was read of it.
struct Logged {
    disk: Disk,
    log: Vec<(u64, usize)>,
}

impl BlockDevice for Logged {
    fn read(&mut self, lba: u64, count: usize, out: &mut [u8]) -> Result<(), ()> {
        self.log.push((lba, count));
        self.disk.read(lba, count, out)
    }
}

#[test]
fn a_cluster_is_read_once_and_in_order() {
    let (mut f, disk, _) = mounted(FatKind::Fat16);
    f.sectors_per_cluster = 40;
    let first = f.data_start as u64 + 40;
    let mut d = Logged { disk, log: Vec::new() };
    let mut out = vec![9u8; 41 * 512];
    assert_eq!(f.read_cluster(&mut d, 3, &mut out), Ok(()));
    assert_eq!(d.log, [(first, 16), (first + 16, 16), (first + 32, 8)]);
    let at = first as usize * 512;
    assert_eq!(out[..40 * 512], d.disk.img[at..at + 40 * 512]);
    assert!(out[40 * 512..].iter().all(|b| *b == 9));
    // A read that fails is the last one; no cluster, no read.
    d.log.clear();
    d.disk.bad = Some(first + 20);
    assert_eq!(f.read_cluster(&mut d, 3, &mut out), Err(()));
    assert_eq!(d.log, [(first, 16), (first + 16, 16)]);
    d.log.clear();
    assert_eq!(f.read_cluster(&mut d, 1, &mut out), Err(()));
    assert!(d.log.is_empty());
}

#[test]
fn a_name_that_does_not_fit_is_not_looked_for() {
    let (mut f, disk, _) = mounted(FatKind::Fat16);
    let mut d = Logged { disk, log: Vec::new() };
    let mut buf = vec![0u8; 64 * 512];
    for name in [&b"ninechars.txt"[..], b"a.long"] {
        assert!(matches!(f.lookup(&mut d, 0, name, &mut buf), Ok(None)));
        assert!(d.log.is_empty());
    }
    assert!(matches!(f.lookup(&mut d, 0, b"nobody", &mut buf), Ok(None)));
    assert!(!d.log.is_empty());
}
