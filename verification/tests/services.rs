//! The runtime's protocol code and the small services.
use k1k::bytes::{get_u64, put_u32, put_u64};
use k1k::rt::abi::{
    check, Cap, Error, Message, NO_CAP, RIGHT_GRANT, RIGHT_MAP_READ, RIGHT_MAP_WRITE, RIGHT_RECV, RIGHT_SEND,
};
use k1k::rt::calls;
use k1k::rt::calls::{Grant, Info, LogBuf, Span};
use k1k::rt::file::{Ask, FileClient};
use k1k::rt::fsproto::{
    put_dir_rec, req_bytes, req_mut, req_u64, status_name, DirRec, BYE, CONNECT, MAX_READ, NOENT, OK,
    REGISTER_BUF, STAT,
};
use k1k::rt::server::{Server, Step};
use k1k::svc::blk;
use k1k::svc::blk::{answer, trim, Transfer};
use k1k::svc::demo::{pong_reply, shared_text, PONG};
use k1k::svc::hello::{first_line, names, next, plural, Stage};
use k1k::svc::kbd::{has_data, Decoder, CAPS, LSHIFT, MAX_LINE};
use k1k::svc::manifest::{caps_arg, parse};
use k1k::svc::nvme::{
    admin_depth, doorbell_stride, idle, namespace, read_command, Act, Event, Nvme, NvmeError, Pages,
    Phase, Queue, MAX_SPINS, READY_TRIES, REG_CC,
};

#[test]
fn results_of_system_calls() {
    assert_eq!(check(5), Ok(5));
    assert_eq!(check(-1), Err(Error::Perm));
    assert_eq!(check(-2), Err(Error::Again));
    assert_eq!(check(-3), Err(Error::Fault));
    assert_eq!(check(-4), Err(Error::Inval));
    assert_eq!(check(-5), Err(Error::NoSys));
    assert_eq!(check(-6), Err(Error::NoMem));
    assert_eq!(Error::from_raw(-77), Error::Unknown);
    assert_eq!(calls::slot(3), Ok(Cap(3)));
    assert_eq!(calls::slot(-1), Err(Error::Perm));
    let i = Info::decode([55, 9]);
    assert_eq!((i.uptime_ms, i.task_id), (55, 9));
    let m = Message::decode(4, [1, 2, 3, NO_CAP]);
    assert_eq!((m.sender, m.words[1], m.cap), (4, 2, None));
    assert_eq!(Message::decode(4, [1, 2, 3, 6]).cap, Some(Cap(6)));
}

#[test]
fn calls_carry_their_arguments() {
    let c = calls::send_cap(Cap(1), Cap(2), RIGHT_SEND, 9);
    assert_eq!((c.nr, c.a0, c.a1, c.a2, c.a3), (7, 1, 2, RIGHT_SEND as u64, 9));
    let c = calls::port_out(Cap(1), 4, 1, 0x20);
    assert_eq!((c.nr, c.a0), (21, 1));
    let c = calls::exit(-2);
    assert_eq!(c.a0 as i64, -2);
    assert_eq!(Grant::full(Cap(4)).rights, u32::MAX);
    assert_eq!(Grant::with(Cap(4), RIGHT_GRANT).rights, RIGHT_GRANT);
    let name = Span { ptr: 0x1000, len: 5 };
    let args = Span { ptr: 0x2000, len: 9 };
    let g = [Grant::with(Cap(7), RIGHT_RECV)];
    let d = calls::spawn_with(Cap(0), Cap(3), 4096, name, &g, args).unwrap();
    assert_eq!(d[..8], [0, 3, 4096, 0x1000, 5, 1, 0x2000, 9]);
    assert_eq!(d[8..10], [7, RIGHT_RECV as u64]);
    let many = [Grant::full(Cap(1)); 9];
    assert_eq!(
        calls::spawn_with(Cap(0), Cap(3), 4096, name, &many, args),
        Err(Error::Inval)
    );
    let long = Span { ptr: 0x2000, len: 1025 };
    assert_eq!(calls::spawn_with(Cap(0), Cap(3), 4096, name, &g, long), Err(Error::Inval));
    let d = calls::spawn(Cap(0), Cap(3), 4096, name);
    assert_eq!(d[5], 0);
}

#[test]
fn log_lines_are_cut_at_their_buffer() {
    let mut b = LogBuf::new();
    b.write_str("abc");
    b.write_str("def");
    assert_eq!(b.as_bytes(), b"abcdef");
    b.write_str(&"x".repeat(600));
    assert_eq!(b.as_bytes().len(), 512);
    assert_eq!(&b.as_bytes()[..7], b"abcdefx");
}

#[test]
fn requests_stay_in_their_buffer() {
    let mut buf = vec![0u8; 256];
    put_u64(&mut buf, 8, 42);
    assert_eq!(req_u64(&buf, 1), 42);
    assert_eq!(req_u64(&buf, 100), 0);
    assert_eq!(req_bytes(&buf, 250, 6).map(|s| s.len()), Some(6));
    assert_eq!(req_bytes(&buf, 250, 7), None);
    assert_eq!(req_bytes(&buf, u64::MAX, 2), None);
    assert!(req_mut(&mut buf, 0, 256).is_some());
    assert!(req_mut(&mut buf, 1, 256).is_none());
    let rec = DirRec { name: *b"HELLO   ELF", attr: 0x20, size: 0x0102 };
    assert!(put_dir_rec(&mut buf, 240, &rec));
    assert_eq!(&buf[240..251], b"HELLO   ELF");
    assert_eq!(buf[251..256], [0x20, 2, 1, 0, 0]);
    assert!(!put_dir_rec(&mut buf, 241, &rec));
    assert_eq!(status_name(OK), "ok");
    assert_eq!(status_name(NOENT), "no such file");
    assert_eq!(status_name(77), "unknown status");
    let mut out = [0u8; 13];
    assert_eq!(rec.display(&mut out), "HELLO.ELF");
    let dir = DirRec { name: *b"SVC        ", attr: 0x10, size: 0 };
    assert_eq!(dir.display(&mut out), "SVC");
    let bad = DirRec { name: [0xFF; 11], attr: 0, size: 0 };
    assert_eq!(bad.display(&mut out), "?");
}

#[test]
fn a_file_client_introduces_itself() {
    let c = FileClient::new(Cap(1), Cap(2), Cap(3), 16);
    let (a, b) = c.handshake();
    assert_eq!((a.a0, a.a1, a.a2, a.a3), (1, 2, RIGHT_SEND as u64, CONNECT));
    assert_eq!(
        (b.a0, b.a1, b.a2, b.a3),
        (1, 3, (RIGHT_MAP_READ | RIGHT_MAP_WRITE) as u64, REGISTER_BUF + (16 << 32))
    );
    let m = c.message(Ask { op: STAT, req_len: 64, want: 5 });
    assert_eq!((m.nr, m.a0, m.a1, m.a2, m.a3), (4, 1, STAT, 64, 5));
    assert_eq!(c.disconnect().a1, BYE);
    assert_eq!(c.buffer_cap(), Cap(3));
    let mut buf = vec![0u8; 4096];
    let ask = k1k::rt::file::stat(&mut buf, "/README.TXT").unwrap();
    assert_eq!(ask.op, STAT);
    assert_eq!(get_u64(&buf, 8), 11);
    assert!(k1k::rt::file::stat(&mut buf, "").is_err());
    assert!(k1k::rt::file::stat(&mut buf, &"x".repeat(256)).is_err());
    assert_eq!(k1k::rt::file::stat_done(&[OK, 12, 1, 0]).map(|s| (s.size, s.is_dir)), Ok((12, true)));
    assert!(k1k::rt::file::stat_done(&[NOENT, 0, 0, 0]).is_err());
    assert!(k1k::rt::file::open_done(&[NOENT, 0, 0, 0]).is_err());
    let file = k1k::rt::file::File(1);
    assert_eq!(k1k::rt::file::read(file, 0, 0).next(&mut buf), Ok(None));
    let small = k1k::rt::file::read(file, 0, 100).next(&mut vec![0u8; 130]);
    assert_eq!(small, Err(Error::NoMem));
    assert_eq!(MAX_READ, 32768);
}

fn msg(sender: u32, words: [u64; 4]) -> Message {
    Message::decode(sender as u64, words)
}

#[test]
fn a_server_keeps_its_clients_apart() {
    let mut s = Server::new(Cap(9));
    // A request without a connection is answered to nobody.
    let first = match s.on_message(&msg(5, [STAT, 64, 0, NO_CAP])) {
        Step::Serve(r) => r,
        _ => panic!(),
    };
    assert!(s.reply(&first).is_err());
    assert_eq!(s.error(&first, NOENT), None);
    assert_eq!(s.on_message(&msg(5, [CONNECT, 0, 0, 20])), Step::Again);
    assert_eq!(s.client_count(), 1);
    assert_eq!(
        s.on_message(&msg(5, [REGISTER_BUF + (16 << 32), 0, 0, 21])),
        Step::MapBuffer { task: 5, buf: Cap(21), pages: 16 }
    );
    assert!(s.register(5, Cap(21), 16, Ok(0x7000_0000)));
    assert_eq!(s.client_buffer(5), Some((0x7000_0000, 16 * 4096)));
    assert_eq!(s.client_buffer(6), None);
    let r = match s.on_message(&msg(5, [STAT, 64, 7, NO_CAP])) {
        Step::Serve(r) => r,
        _ => panic!(),
    };
    assert_eq!((r.op, r.req_len, r.want, r.client), (STAT, 64, 7, 5));
    assert_eq!(s.reply(&r), Ok(Cap(20)));
    let e = s.error(&r, NOENT).unwrap();
    assert_eq!((e.a0, e.a1), (20, NOENT));
    // The other task's reply endpoint is its own.
    s.on_message(&msg(6, [CONNECT, 0, 0, 30]));
    let r6 = match s.on_message(&msg(6, [STAT, 64, 7, NO_CAP])) {
        Step::Serve(r) => r,
        _ => panic!(),
    };
    assert_eq!(s.reply(&r6), Ok(Cap(30)));
    assert!(s.client(6).unwrap().has_reply());
    // A buffer that cannot be mapped is none.
    assert!(s.register(6, Cap(31), 4, Err(Error::NoMem)));
    assert_eq!(s.client_buffer(6), None);
    s.on_message(&msg(5, [BYE, 0, 0, NO_CAP]));
    assert!(s.client(5).is_none());
    s.drop_client(6);
    assert_eq!(s.client_count(), 0);
    for t in 0..16 {
        assert!(s.connect(100 + t, Cap(t)));
    }
    assert!(!s.connect(200, Cap(1)));
    assert!(s.connect(100, Cap(77)));
    assert_eq!(s.client(100).unwrap().reply, Some(Cap(77)));
}

#[test]
fn manifest_lines() {
    let p = parse("# services\n\nhello HELLO.ELF fs,control # greet\nshell /BIN/SH.ELF\r\nlone\na b c d\nx y a,,b\n");
    let e: Vec<(&str, &str, usize, usize)> = p
        .entries
        .iter()
        .map(|e| (e.name.as_str(), e.image.as_str(), e.caps.len(), e.line))
        .collect();
    assert_eq!(e, [("hello", "HELLO.ELF", 2, 3), ("shell", "/BIN/SH.ELF", 0, 4)]);
    assert_eq!(p.entries[0].caps, ["fs", "control"]);
    assert_eq!(
        p.errors,
        [
            (5, "expected: name image [caps]".to_string()),
            (6, "too many fields".to_string()),
            (7, "empty capability name".to_string())
        ]
    );
    let long = format!("{} X.ELF", "n".repeat(33));
    assert_eq!(parse(&long).errors, [(1, "invalid service name".to_string())]);
    assert_eq!(parse("h\u{e9} X.ELF").errors, [(1, "invalid service name".to_string())]);
    assert_eq!(caps_arg(&[("fs".to_string(), 0), ("net".to_string(), 1)]), "caps=fs=0,net=1");
    assert_eq!(caps_arg(&[]), "caps=");
}

fn type_keys(d: &mut Decoder, codes: &[u8]) -> Option<String> {
    let mut line = None;
    for c in codes {
        if let Some(l) = d.feed(*c) {
            line = Some(l);
        }
    }
    line
}

#[test]
fn keys_make_lines() {
    let mut d = Decoder::new();
    // h, shift+i, release shift, backspace, o, Enter.
    let line = type_keys(&mut d, &[0x23, 0xA3, LSHIFT, 0x17, LSHIFT + 0x80, 0x0E, 0x18, 0x1C]);
    assert_eq!(line, Some("ho".to_string()));
    // Caps lock turns letters around, not digits.
    let line = type_keys(&mut d, &[CAPS, 0x1E, 0x02, LSHIFT, 0x1E, 0x02, LSHIFT + 0x80, CAPS, 0x1C]);
    assert_eq!(line, Some("A1a!".to_string()));
    assert_eq!(type_keys(&mut d, &[0x0E, 0x1C]), Some(String::new()));
    assert_eq!(type_keys(&mut d, &[0x7F, 0x58]), None);
    let mut many = vec![0x1Eu8; 200];
    many.push(0x1C);
    assert_eq!(type_keys(&mut d, &many), Some("a".repeat(MAX_LINE)));
    assert!(has_data(0x1D));
    assert!(!has_data(0x1C));
}

#[test]
fn block_requests() {
    let mut c = blk::Client::new();
    let w = |a: u64, b: u64, n: u64| [a, b, n, NO_CAP];
    assert_eq!(
        c.on_message(&w(blk::REGISTER_BUF + (16 << 32), 0, 0), Some(Cap(3)), 512),
        blk::Act::Attach { cap: Cap(3), pages: 16 }
    );
    assert_eq!(c.on_message(&w(blk::REGISTER_BUF, 0, 0), None, 512), blk::Act::NoBuffer);
    assert_eq!(c.on_message(&w(blk::READ, 0, 1), None, 512), blk::Act::Nothing);
    assert_eq!(c.on_message(&w(blk::SET_REPLY, 0, 0), Some(Cap(4)), 512), blk::Act::Nothing);
    assert_eq!(
        c.on_message(&w(blk::READ, 0, 1), None, 512),
        blk::Act::Refuse { reply: Cap(4) }
    );
    c.attach(0x10_0000, 16);
    assert_eq!(
        c.on_message(&w(blk::READ, 7, 16), None, 512),
        blk::Act::Transfer { lba: 7, count: 16, phys: 0x10_0000, reply: Cap(4) }
    );
    assert_eq!(
        c.on_message(&w(blk::READ, 7, 17), None, 512),
        blk::Act::Refuse { reply: Cap(4) }
    );
    assert_eq!(
        c.on_message(&w(blk::READ, 7, 0), None, 512),
        blk::Act::Refuse { reply: Cap(4) }
    );
    assert_eq!(c.on_message(&w(50, 0, 0), None, 512), blk::Act::Unknown(50));
    assert_eq!(answer(true, 4, 512), (blk::STATUS_OK, 4, 512));
    assert_eq!(answer(false, 4, 512), (blk::STATUS_ERR, 4, 512));
    assert_eq!(trim(b"QEMU NVMe  \0\0"), "QEMU NVMe");
    assert_eq!(trim(&[0xFF]), "?");
}

#[test]
fn long_reads_go_in_pieces() {
    let mut t = Transfer::new(100, 40);
    let mut out = vec![0u8; 40 * 512];
    let mut asked = Vec::new();
    while let Some((lba, n)) = t.next() {
        asked.push((lba, n));
        let shared = vec![lba as u8; 16 * 512];
        t.on_reply(blk::STATUS_OK, &shared, &mut out).unwrap();
    }
    assert_eq!(asked, [(100, 16), (116, 16), (132, 8)]);
    assert_eq!((out[0], out[16 * 512], out[32 * 512], out[40 * 512 - 1]), (100, 116, 132, 132));
    let mut t = Transfer::new(0, 1);
    assert_eq!(t.on_reply(blk::STATUS_ERR, &[0u8; 512], &mut vec![0u8; 512]), Err(()));
}

fn ident() -> Vec<u8> {
    let mut p = vec![0u8; 4096];
    put_u64(&mut p, 0, 1000);
    put_u32(&mut p, 128, 9 << 16);
    p[8..12].copy_from_slice(b"SN01");
    p
}

#[test]
fn the_controller_comes_up_step_by_step() {
    let pages = Pages { admin_sq: 0x1000, admin_cq: 0x2000, ident: 0x3000, io_sq: 0x4000, io_cq: 0x5000 };
    let mut n = Nvme::new(pages, true);
    let page = ident();
    assert!(matches!(
        n.step(Event::Probed { cap: 0x0000_0001_0000_001F, cc: 0x46_0001 }, &page),
        Act::Disable(0x46_0000)
    ));
    assert_eq!((n.stride, n.admin.depth), (8, 32));
    assert!(matches!(n.step(Event::Status(1), &page), Act::Sleep));
    match n.step(Event::Status(0), &page) {
        Act::Setup(w) => {
            assert_eq!(w[0].value, 0x001F_001F);
            assert_eq!((w[1].value, w[2].value), (0x1000, 0x2000));
            assert_eq!((w[3].off, w[3].value), (REG_CC, 0x46_0001));
        }
        _ => panic!(),
    }
    match n.step(Event::Status(1), &page) {
        Act::Command(c) => assert_eq!((c[0], c[6], c[10]), (6, 0x3000, 1)),
        _ => panic!(),
    }
    let s = n.submit(true, &[6u32; 16]).ok().unwrap();
    assert_eq!((s.at, s.doorbell, s.tail, s.cid), (0, 0x1000, 1, 0));
    assert_eq!(n.complete(true, 0, 0).map(|c| c.cid), None);
    let c = n.complete(true, 77, 0x1_0000).unwrap();
    assert_eq!((c.result, c.doorbell, c.head), (Ok(77), 0x1008, 1));
    match n.step(Event::Done(c.result), &page) {
        Act::Command(c) => assert_eq!((c[0], c[1], c[10]), (6, 1, 0)),
        _ => panic!(),
    }
    assert_eq!(&n.serial[4..8], b"SN01");
    match n.step(Event::Done(Ok(0)), &page) {
        Act::Command(c) => {
            assert_eq!((c[0], c[6], c[10], c[11]), (5, 0x5000, 0x3F_0001, 3));
        }
        _ => panic!(),
    }
    assert_eq!((n.blocks, n.block_size), (1000, 512));
    match n.step(Event::Done(Ok(0)), &page) {
        Act::Command(c) => {
            assert_eq!((c[0], c[6], c[10], c[11]), (1, 0x4000, 0x3F_0001, 0x1_0001));
        }
        _ => panic!(),
    }
    assert_eq!(n.read_phys(0, 1, 0).err(), Some(NvmeError::NotReady));
    assert!(matches!(n.step(Event::Done(Ok(0)), &page), Act::Stop));
    assert_eq!(n.phase, Phase::Ready);
    let s = n.read_phys(0x1_0000_0002, 16, 0x8000).ok().unwrap();
    assert_eq!(s.doorbell, 0x1010);
    assert_eq!((s.entry[0], s.entry[6], s.entry[8]), (2, 0x8000, 0x9000));
    assert_eq!((s.entry[10], s.entry[11], s.entry[12]), (2, 1, 15));
    assert_eq!(n.read_phys(0, 17, 0x8000).err(), Some(NvmeError::NotReady));
    let c = n.complete(false, 0, 0x1_0000 + (5 << 17)).unwrap();
    assert_eq!(c.result, Err(NvmeError::Status(5)));
}

#[test]
fn a_status_nobody_waits_for_stops_the_controller() {
    let pages = Pages { admin_sq: 1, admin_cq: 2, ident: 3, io_sq: 4, io_cq: 5 };
    let mut n = Nvme::new(pages, true);
    assert_eq!((n.stride, n.admin.depth, n.admin.id), (0, 64, 0));
    assert!(n.model.iter().chain(n.serial.iter()).all(|b| *b == 0));
    assert!(matches!(n.step(Event::Status(0), &ident()), Act::Stop));
    assert_eq!(n.phase, Phase::Probe);
    n.step(Event::Probed { cap: 0, cc: 0 }, &ident());
    n.step(Event::Status(0), &ident());
    n.step(Event::Status(1), &ident());
    assert_eq!(n.phase, Phase::Controller);
    assert!(matches!(n.step(Event::Status(1), &ident()), Act::Stop));
    assert_eq!(n.phase, Phase::Controller);
}

#[test]
fn a_controller_that_never_answers_times_out() {
    let pages = Pages { admin_sq: 0, admin_cq: 0, ident: 0, io_sq: 0, io_cq: 0 };
    let mut n = Nvme::new(pages, false);
    n.step(Event::Probed { cap: 0, cc: 0 }, &ident());
    let mut looks = 0;
    while n.phase != Phase::Failed(NvmeError::Timeout) {
        n.step(Event::Status(1), &ident());
        looks += 1;
    }
    assert_eq!(looks, READY_TRIES + 1);
    assert_eq!(idle(MAX_SPINS, None), Err(NvmeError::Timeout));
    assert_eq!(idle(7, None), Ok(8));
    assert_eq!(idle(7, Some(true)), Ok(7));
    assert_eq!(idle(7, Some(false)), Err(NvmeError::Timeout));
    assert_eq!(NvmeError::from(Error::NoMem), NvmeError::Sys(Error::NoMem));
}

#[test]
fn queues_wrap_and_flip_their_phase() {
    let mut q = Queue::new(1, 2);
    assert_eq!(q.submit(&[2u32; 16], 4).tail, 1);
    let s = q.submit(&[2u32; 16], 4);
    assert_eq!((s.at, s.tail, s.cid), (64, 0, 1));
    assert_eq!(s.entry[0], 2 + 0x1_0000);
    assert_eq!(q.completion_at(), 0);
    assert!(q.complete(0, 0x1_0000, 4).is_some());
    assert_eq!(q.completion_at(), 16);
    assert_eq!(q.complete(0, 0x1_0001, 4).unwrap().head, 0);
    // The second round has the other phase.
    assert!(q.complete(0, 0x1_0000, 4).is_none());
    assert!(q.complete(0, 0, 4).is_some());
    assert_eq!(doorbell_stride(0), 4);
    assert_eq!(doorbell_stride(0x2_0000_0000), 16);
    assert_eq!(admin_depth(0xFFFF), 64);
    assert_eq!(admin_depth(7), 8);
    let mut p = ident();
    put_u32(&mut p, 128, 40 << 16);
    assert_eq!(namespace(&p), None);
    assert_eq!(namespace(&ident()), Some((1000, 512)));
    assert_eq!(read_command(0, 8, 0x8000, 512).unwrap()[8], 0);
    assert_eq!(read_command(0, 9, 0x8200, 512).unwrap()[8], 0x9000);
}

#[test]
fn ping_and_pong() {
    assert_eq!(pong_reply(4, 9), (5, 9, PONG));
    let mut page = vec![0u8; 4096];
    page[256..259].copy_from_slice(b"ack");
    assert_eq!(shared_text(&page), "ack");
    page[256] = 0xFF;
    assert_eq!(shared_text(&page), "<bad utf8>");
}

#[test]
fn hello_survives_every_failure() {
    assert_eq!(next(Stage::Find, false), Stage::Done);
    assert_eq!(next(Stage::Connect, false), Stage::Done);
    assert_eq!(next(Stage::List, false), Stage::Stat);
    assert_eq!(next(Stage::Open, false), Stage::Done);
    let mut s = Stage::Find;
    let mut steps = 0;
    while s != Stage::Done {
        s = next(s, true);
        steps += 1;
    }
    assert_eq!(steps, 9);
    let recs = [
        DirRec { name: *b"HELLO   ELF", attr: 0, size: 1 },
        DirRec { name: *b"SVC        ", attr: 0x10, size: 0 },
        DirRec { name: [0xFF; 11], attr: 0, size: 0 },
    ];
    assert_eq!(names(&recs, 2), "HELLO.ELF SVC");
    assert_eq!(names(&recs, 9), "HELLO.ELF SVC ?");
    assert_eq!(names(&recs, 0), "");
    assert_eq!((plural(1), plural(2)), ("y", "ies"));
    assert_eq!(first_line(b"one\ntwo"), "one");
    assert_eq!(first_line(b"one"), "one");
    assert_eq!(first_line(&[0xFF]), "?");
}

#[test]
fn a_long_read_takes_several_requests() {
    let content: Vec<u8> = (0..100_000usize).map(|i| (i % 251) as u8).collect();
    let mut buf = vec![0u8; 16 * 4096];
    // A server that answers as the file has it.
    let serve = |buf: &mut [u8]| {
        let off = (get_u64(buf, 8) as usize).min(content.len());
        let count = get_u64(buf, 24) as usize;
        assert!(count <= 32768);
        let n = count.min(content.len() - off);
        buf[128..128 + n].copy_from_slice(&content[off..off + n]);
        [0u64, n as u64, 0, 0]
    };
    let mut run = |offset: u64, len: usize| {
        let mut out = vec![0u8; len];
        let mut part = k1k::rt::file::read(k1k::rt::file::File(1), offset, len);
        let mut rounds = 0;
        while let Some(_ask) = part.next(&mut buf).unwrap() {
            let words = serve(&mut buf);
            rounds += 1;
            if let Some(n) = part.on_reply(&words, &buf, &mut out).unwrap() {
                assert_eq!(n, part.done);
                break;
            }
        }
        let from = (offset as usize).min(content.len());
        assert_eq!(&out[..part.done], &content[from..from + part.done]);
        (part.done, rounds)
    };
    assert_eq!(run(0, 40_000), (40_000, 2));
    assert_eq!(run(90_000, 40_000), (10_000, 1));
    assert_eq!(run(0, 200_000), (100_000, 4));
    assert_eq!(run(100_000, 10), (0, 1));
    assert_eq!(run(u64::MAX, 10), (0, 1));
    // What the server refuses, and an offset past all offsets.
    let mut part = k1k::rt::file::read(k1k::rt::file::File(1), u64::MAX, 10);
    let mut out = [0u8; 10];
    assert_eq!(part.on_reply(&[1, 0, 0, 0], &[0u8; 256], &mut out), Err(Error::Inval));
    assert_eq!(part.on_reply(&[0, 9, 0, 0], &[7u8; 256], &mut out), Ok(Some(9)));
    assert_eq!(out, [7, 7, 7, 7, 7, 7, 7, 7, 7, 0]);
    assert_eq!(part.next(&mut [0u8; 256]), Err(Error::Inval));
}

#[test]
fn defaults_are_zero() {
    let m = Message::default();
    assert_eq!((m.sender, m.words, m.cap), (0, [0; 4], None));
    assert_eq!(Info::default(), Info { uptime_ms: 0, task_id: 0 });
    let d = calls::DevInfo::default();
    assert_eq!((d.vendor, d.device, d.class, d.subclass, d.bus, d.slot, d.func), (0, 0, 0, 0, 0, 0, 0));
    assert_eq!(d.bars, [calls::Bar::default(); 6]);
    assert_eq!(calls::Bar::default().size, 0);
    assert_eq!(k1k::rt::heap::HeapStats::default().allocs, 0);
    assert!(LogBuf::default().as_bytes().is_empty());
    let rec = DirRec { name: *b"README  TXT", attr: 0x20, size: 7 };
    assert_eq!(rec, rec);
    assert_ne!(rec, DirRec { size: 8, ..rec });
}
