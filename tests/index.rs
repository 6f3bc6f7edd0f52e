use la_tools::git_index::{
    parse, parse_mut, patch_index, round_up, take_name, take_name_mut, SliceReader,
    SliceReaderMut, Span,
};

fn push_u32(out: &mut Vec<u8>, x: u32) {
    out.extend_from_slice(&x.to_be_bytes());
}

fn entry(out: &mut Vec<u8>, size: u32, hash: [u8; 20], name: &[u8]) {
    for i in 0..9u32 {
        push_u32(out, i + 1);
    }
    push_u32(out, size);
    out.extend_from_slice(&hash);
    out.extend_from_slice(&(name.len() as u16).to_be_bytes());
    out.extend_from_slice(name);
    let total = 62 + name.len() + 1;
    let padded = (total + 7) / 8 * 8;
    out.extend(std::iter::repeat(0u8).take(padded - 62 - name.len()));
}

fn sample_index() -> Vec<u8> {
    let mut b = b"DIRC".to_vec();
    push_u32(&mut b, 2);
    push_u32(&mut b, 2);
    entry(&mut b, 1000, [7u8; 20], b"a/b.dat");
    entry(&mut b, 5, [9u8; 20], b"x/y.dat");
    b.extend_from_slice(&[0xEE; 20]);
    b
}

#[test]
fn parses_entries_and_footer() {
    let b = sample_index();
    let v = parse(&b).expect("well-formed index");
    assert_eq!(v.header.magic, *b"DIRC");
    assert_eq!(v.header.version, 2);
    assert_eq!(v.header.entry_count, 2);
    assert_eq!(v.entries.len(), 2);
    assert_eq!(v.entries[0].name, b"a/b.dat");
    assert_eq!(v.entries[0].header.size, 1000);
    assert_eq!(v.entries[0].header.sha1, vec![7u8; 20]);
    assert_eq!(v.entries[0].header.ctime_s, 1);
    assert_eq!(v.entries[0].header.gid, 9);
    assert_eq!(v.entries[0].header.flags, 7);
    assert_eq!(v.entries[1].name, b"x/y.dat");
    assert_eq!(v.entries[1].header.size, 5);
    assert_eq!(v.footer, &[0xEE; 20][..]);
}

#[test]
fn rejects_other_versions() {
    let mut b = sample_index();
    b[7] = 3;
    assert!(parse(&b).is_none());
    assert!(parse_mut(&b).is_none());
}

#[test]
fn rejects_short_input() {
    let b = sample_index();
    assert!(parse(&b[..11]).is_none());
    assert!(parse(&b[..12 + 62 + 3]).is_none());
    assert!(parse(&[]).is_none());
}

#[test]
fn rejects_nonzero_padding() {
    let mut b = sample_index();
    // the name "a/b.dat" ends at 12 + 62 + 7; its padding follows
    b[12 + 62 + 8] = 1;
    assert!(parse(&b).is_none());
}

#[test]
fn empty_index_has_only_footer() {
    let mut b = b"DIRC".to_vec();
    push_u32(&mut b, 2);
    push_u32(&mut b, 0);
    b.extend_from_slice(b"tail");
    let v = parse(&b).unwrap();
    assert!(v.entries.is_empty());
    assert_eq!(v.footer, b"tail");
}

#[test]
fn parse_mut_gives_positions() {
    let b = sample_index();
    let v = parse_mut(&b).unwrap();
    assert_eq!(v.entries.len(), 2);
    assert_eq!(v.entries[0].at, 12);
    assert_eq!(v.entries[0].name, Span { start: 74, len: 7 });
    assert_eq!(v.entries[1].at, 12 + 72);
    assert_eq!(v.entries[1].header.size, 5);
    assert_eq!(v.footer, Span { start: 12 + 144, len: 20 });
}

#[test]
fn patch_rewrites_only_the_named_entry() {
    let mut b = sample_index();
    let before = b.clone();
    assert_eq!(patch_index(&mut b, b"x/y.dat", 0x01020304, &[0xAB; 20]), Some(()));
    let v = parse(&b).unwrap();
    assert_eq!(v.entries[0].header.size, 1000);
    assert_eq!(v.entries[0].header.sha1, vec![7u8; 20]);
    assert_eq!(v.entries[1].header.size, 0x01020304);
    assert_eq!(v.entries[1].header.sha1, vec![0xAB; 20]);
    let at = 12 + 72 + 36;
    assert_eq!(&b[at..at + 4], &[1, 2, 3, 4]);
    assert_eq!(&b[..at], &before[..at]);
    assert_eq!(&b[at + 24..], &before[at + 24..]);
}

#[test]
fn patch_without_match_changes_nothing() {
    let mut b = sample_index();
    let before = b.clone();
    assert_eq!(patch_index(&mut b, b"nope", 1, &[0; 20]), Some(()));
    assert_eq!(b, before);
}

#[test]
fn patch_of_malformed_index_fails() {
    let mut b = sample_index();
    b[7] = 1;
    let before = b.clone();
    assert_eq!(patch_index(&mut b, b"a/b.dat", 1, &[0; 20]), None);
    assert_eq!(b, before);
}

#[test]
fn round_up_to_eight() {
    assert_eq!(round_up(0, 8), 0);
    assert_eq!(round_up(1, 8), 8);
    assert_eq!(round_up(8, 8), 8);
    assert_eq!(round_up(70, 8), 72);
}

#[test]
fn take_name_strips_padding() {
    let data = [b'a', b'b', 0, 0, 0, 0, 0, 0, 0, 0, 9];
    let mut r = SliceReader(&data);
    assert_eq!(r.len(), 11);
    assert_eq!(r.iter().count(), 11);
    // 2 name bytes + 62 header bytes + 1 NUL round up to 72: 10 bytes here
    assert_eq!(take_name(&mut r), Some(&b"ab"[..]));
    assert_eq!(r.len(), 1);
    let mut m = SliceReaderMut { rest: &data, offset: 100 };
    assert_eq!(take_name_mut(&mut m), Some(Span { start: 100, len: 2 }));
    assert_eq!(m.offset, 110);
    assert_eq!(m.len(), 1);
    assert_eq!(m.iter().count(), 1);
}

#[test]
fn take_name_without_nul_fails() {
    let data = [b'a', b'b'];
    let mut r = SliceReader(&data);
    assert_eq!(take_name(&mut r), None);
}

#[test]
fn take_front_splits() {
    let data = [1u8, 2, 3];
    let mut r = SliceReader(&data);
    assert_eq!(r.take_front(2), Some(&[1u8, 2][..]));
    assert_eq!(r.take_front(2), None);
    assert_eq!(r.take_front(1), Some(&[3u8][..]));
    let mut m = SliceReaderMut { rest: &data, offset: 5 };
    assert_eq!(m.take_front(1), Some(Span { start: 5, len: 1 }));
    assert_eq!(m.take_front(3), None);
}

#[test]
fn take_name_failures_leave_or_skip_the_field() {
    // no NUL: nothing is consumed
    let no_nul = [b'a', b'b', b'c'];
    let mut r = SliceReader(&no_nul);
    assert_eq!(take_name(&mut r), None);
    assert_eq!(r.len(), 3);
    let mut m = SliceReaderMut { rest: &no_nul, offset: 4 };
    assert_eq!(take_name_mut(&mut m), None);
    assert_eq!((m.len(), m.offset), (3, 4));
    // padding runs past the end: nothing is consumed
    let short = [b'a', b'b', 0];
    let mut r = SliceReader(&short);
    assert_eq!(take_name(&mut r), None);
    assert_eq!(r.len(), 3);
    let mut m = SliceReaderMut { rest: &short, offset: 4 };
    assert_eq!(take_name_mut(&mut m), None);
    assert_eq!((m.len(), m.offset), (3, 4));
    // a padding byte is not NUL: the whole field is consumed
    let bad = [b'a', b'b', 0, 0, 0, 5, 0, 0, 0, 0, 9];
    let mut r = SliceReader(&bad);
    assert_eq!(take_name(&mut r), None);
    assert_eq!(r.len(), 1);
    let mut m = SliceReaderMut { rest: &bad, offset: 4 };
    assert_eq!(take_name_mut(&mut m), None);
    assert_eq!((m.len(), m.offset), (1, 14));
}
