use legion::mp4::{AtomHeader, Mp4Error, StcoAtom, STCO_FOUR_CC};

#[test]
fn test_stco() {
    let src_box = StcoAtom {
        version: 0,
        flags: 0,
        entries: vec![267, 1970, 2535, 2803, 11843, 22223, 33584],
    };
    let mut buf = Vec::new();
    src_box.write_atom(&mut buf);
    assert_eq!(buf.len(), src_box.size() as usize);

    let (header, pos) = AtomHeader::read(&buf, 0).unwrap();
    assert_eq!(header.name, StcoAtom::four_cc());
    assert_eq!(src_box.size(), header.size);

    let (dst_box, _end) = StcoAtom::read_atom(&buf, pos, header.size).unwrap();
    assert_eq!(src_box, dst_box);
}

#[test]
fn stco_bytes_are_big_endian() {
    let atom = StcoAtom { version: 1, flags: 0x00_0203, entries: vec![0x0102_0304] };
    let mut buf = Vec::new();
    let written = atom.write_atom(&mut buf);
    assert_eq!(written, 20);
    assert_eq!(
        buf,
        vec![0, 0, 0, 20, b's', b't', b'c', b'o', 1, 0, 2, 3, 0, 0, 0, 1, 1, 2, 3, 4]
    );
    assert_eq!(STCO_FOUR_CC, 0x7374_636f);
}

#[test]
fn stco_size_counts_entries() {
    let atom = StcoAtom { version: 0, flags: 0, entries: vec![] };
    assert_eq!(atom.size(), 16);
    let atom = StcoAtom { version: 0, flags: 0, entries: vec![1, 2, 3] };
    assert_eq!(atom.size(), 28);
}

#[test]
fn stco_summary_counts_entries() {
    let atom = StcoAtom { version: 0, flags: 0, entries: vec![267, 1970, 2535, 2803, 11843, 22223, 33584] };
    assert_eq!(atom.summary(), "entries=7");
    let empty = StcoAtom { version: 0, flags: 0, entries: vec![] };
    assert_eq!(empty.summary(), "entries=0");
    let many = StcoAtom { version: 0, flags: 0, entries: vec![5; 1234] };
    assert_eq!(many.summary(), "entries=1234");
}

#[test]
fn truncated_atom_is_refused() {
    let atom = StcoAtom { version: 0, flags: 0, entries: vec![1, 2, 3] };
    let mut buf = Vec::new();
    atom.write_atom(&mut buf);
    buf.truncate(buf.len() - 2);
    let (header, pos) = AtomHeader::read(&buf, 0).unwrap();
    assert_eq!(StcoAtom::read_atom(&buf, pos, header.size), Err(Mp4Error::UnexpectedEof));
    assert_eq!(AtomHeader::read(&buf[..5], 0), Err(Mp4Error::UnexpectedEof));
}

#[test]
fn large_header_uses_extended_size() {
    let header = AtomHeader { name: StcoAtom::four_cc(), size: 0x1_0000_0000 };
    let mut buf = Vec::new();
    assert_eq!(header.write(&mut buf), 16);
    assert_eq!(&buf[0..4], &[0, 0, 0, 1]);
    let (read, pos) = AtomHeader::read(&buf, 0).unwrap();
    assert_eq!(read, header);
    assert_eq!(pos, 16);
}
