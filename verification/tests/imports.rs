use dlldeps::{
    dependencies, find_deps, read_imports, Action, Builder, DepRecord, Event, Failure,
    FailureKind, Identity, RawImports, RawName,
};

const HEADERS: usize = 0x200;
const SECTION_RVA: u32 = 0x1000;
const SECTION_SIZE: usize = 0x200;
const NT: usize = 64;
const OPTIONAL: usize = NT + 24;

fn put16(image: &mut [u8], at: usize, value: u16) {
    image[at..at + 2].copy_from_slice(&value.to_le_bytes());
}

fn put32(image: &mut [u8], at: usize, value: u32) {
    image[at..at + 4].copy_from_slice(&value.to_le_bytes());
}

/// A PE32+ image with one section, whose content is `section`, and whose
/// import directory is at `import_rva`.
fn image_with(section: &[u8], import_rva: u32) -> Vec<u8> {
    assert!(section.len() <= SECTION_SIZE);
    let mut image = vec![0u8; HEADERS + SECTION_SIZE];
    put16(&mut image, 0, 0x5A4D);
    put32(&mut image, 60, NT as u32);
    put32(&mut image, NT, 0x0000_4550);
    put16(&mut image, NT + 4, 0x8664);
    put16(&mut image, NT + 6, 1);
    put16(&mut image, NT + 20, 240);
    put16(&mut image, NT + 22, 0x2022);
    put16(&mut image, OPTIONAL, 0x020B);
    put32(&mut image, OPTIONAL + 32, 0x1000);
    put32(&mut image, OPTIONAL + 36, 0x200);
    put32(&mut image, OPTIONAL + 56, 0x2000);
    put32(&mut image, OPTIONAL + 60, HEADERS as u32);
    put32(&mut image, OPTIONAL + 108, 16);
    put32(&mut image, OPTIONAL + 112 + 8, import_rva);
    put32(&mut image, OPTIONAL + 112 + 12, 40);
    let header = OPTIONAL + 240;
    image[header..header + 6].copy_from_slice(b".idata");
    put32(&mut image, header + 8, SECTION_SIZE as u32);
    put32(&mut image, header + 12, SECTION_RVA);
    put32(&mut image, header + 16, SECTION_SIZE as u32);
    put32(&mut image, header + 20, HEADERS as u32);
    put32(&mut image, header + 36, 0xC000_0040);
    image[HEADERS..HEADERS + section.len()].copy_from_slice(section);
    image
}

/// A section that holds one import descriptor per name, the terminating
/// descriptor, and then the names as written.
fn import_section(names: &[&[u8]]) -> Vec<u8> {
    let table = (names.len() + 1) * 20;
    let mut section = vec![0u8; table];
    for (i, name) in names.iter().enumerate() {
        let at = section.len() as u32;
        put32(&mut section, i * 20 + 12, SECTION_RVA + at);
        put32(&mut section, i * 20 + 16, SECTION_RVA + 0x1F0);
        section.extend_from_slice(name);
    }
    section
}

fn image_importing(names: &[&[u8]]) -> Vec<u8> {
    image_with(&import_section(names), SECTION_RVA)
}

fn parse_failure(detail: &str) -> Failure {
    Failure::new(FailureKind::Parse, detail.to_string())
}

#[test]
fn names_come_in_table_order() {
    let image = image_importing(&[b"KERNEL32.dll\0", b"user32.dll\0", b"a.dll\0"]);
    assert_eq!(
        find_deps(&image),
        Ok(vec!["KERNEL32.dll".to_string(), "user32.dll".to_string(), "a.dll".to_string()])
    );
}

#[test]
fn repeated_name_is_listed_each_time() {
    let image = image_importing(&[b"a.dll\0", b"a.dll\0"]);
    assert_eq!(find_deps(&image), Ok(vec!["a.dll".to_string(), "a.dll".to_string()]));
}

#[test]
fn empty_import_table_declares_nothing() {
    let image = image_importing(&[]);
    assert_eq!(find_deps(&image), Ok(Vec::new()));
}

#[test]
fn image_without_import_directory_declares_nothing() {
    let image = image_with(&[], 0);
    assert_eq!(find_deps(&image), Ok(Vec::new()));
}

#[test]
fn name_in_utf8_is_decoded() {
    let image = image_importing(&["b\u{e9}ta.dll\0".as_bytes()]);
    assert_eq!(find_deps(&image), Ok(vec!["b\u{e9}ta.dll".to_string()]));
}

#[test]
fn name_that_is_not_utf8_is_a_decode_failure() {
    let image = image_importing(&[b"good.dll\0", b"b\xFFd.dll\0", b"later.dll\0"]);
    let failure = find_deps(&image).unwrap_err();
    assert_eq!(failure.kind, FailureKind::NameDecode);
    assert_eq!(failure.detail, "invalid utf-8 sequence of 1 bytes from index 1");
}

#[test]
fn empty_bytes_are_out_of_bounds() {
    assert_eq!(find_deps(&[]), Err(parse_failure("bounds check failed")));
}

#[test]
fn wrong_signature_is_a_parse_failure() {
    let mut image = image_importing(&[b"a.dll\0"]);
    image[0] = b'X';
    assert_eq!(find_deps(&image), Err(parse_failure("unknown magic number")));
}

#[test]
fn image_of_the_other_width_is_a_parse_failure() {
    let mut image = image_importing(&[b"a.dll\0"]);
    put16(&mut image, OPTIONAL, 0x010B);
    assert_eq!(find_deps(&image), Err(parse_failure("try again with correct parser")));
}

#[test]
fn import_directory_outside_every_section_is_a_parse_failure() {
    let image = image_with(&import_section(&[b"a.dll\0"]), 0x8000);
    assert_eq!(find_deps(&image), Err(parse_failure("bounds check failed")));
}

#[test]
fn name_outside_every_section_is_a_parse_failure() {
    let mut section = import_section(&[b"a.dll\0"]);
    put32(&mut section, 12, 0x9000);
    let image = image_with(&section, SECTION_RVA);
    assert_eq!(find_deps(&image), Err(parse_failure("bounds check failed")));
}

#[test]
fn name_without_terminator_is_a_parse_failure() {
    let mut section = vec![b'x'; SECTION_SIZE];
    for byte in section.iter_mut().take(40) {
        *byte = 0;
    }
    put32(&mut section, 12, SECTION_RVA + 40);
    put32(&mut section, 16, SECTION_RVA + 0x1F0);
    let image = image_with(&section, SECTION_RVA);
    assert_eq!(find_deps(&image), Err(parse_failure("encoding error")));
}

#[test]
fn first_failure_in_table_order_is_returned() {
    let mut section = import_section(&[b"a.dll\0", b"\xC3\0", b"c.dll\0"]);
    put32(&mut section, 12, 0x9000);
    let image = image_with(&section, SECTION_RVA);
    assert_eq!(find_deps(&image), Err(parse_failure("bounds check failed")));
}

#[test]
fn loaded_image_feeds_the_traversal() {
    let image = image_importing(&[b"b.dll\0", b"c.dll\0"]);
    let mut builder = Builder::new(vec!["a.exe".to_string()], vec!["/lib".to_string()]);
    builder.step(Event::Located(Some("/app/a.exe".to_string())));
    assert_eq!(builder.action(), Action::Load { path: "/app/a.exe".to_string() });
    builder.step(Event::loaded(Ok(&image)));
    assert_eq!(
        builder.action(),
        Action::Probe { dir: "/lib".to_string(), name: "b.dll".to_string() }
    );
    builder.step(Event::Located(None));
    builder.step(Event::Located(None));
    assert!(builder.is_finished());
    let map = builder.map();
    assert_eq!(
        map.get(&Identity::resolved("/app/a.exe")),
        Some(&DepRecord::Found(vec!["b.dll".to_string(), "c.dll".to_string()]))
    );
    assert_eq!(map.get(&Identity::unresolved("b.dll")), Some(&DepRecord::NotFound));
    assert_eq!(map.get(&Identity::unresolved("c.dll")), Some(&DepRecord::NotFound));
}

#[test]
fn image_without_imports_is_found_with_no_dependencies() {
    let image = image_with(&[], 0);
    let mut builder = Builder::new(vec!["leaf.dll".to_string()], vec!["/lib".to_string()]);
    builder.step(Event::Located(Some("/lib/leaf.dll".to_string())));
    builder.step(Event::loaded(Ok(&image)));
    assert!(builder.is_finished());
    assert_eq!(
        builder.map().get(&Identity::resolved("/lib/leaf.dll")),
        Some(&DepRecord::Found(Vec::new()))
    );
}

fn text(name: &str) -> RawName {
    RawName::Text(name.to_string())
}

#[test]
fn rejected_image_is_a_parse_failure() {
    assert_eq!(
        dependencies(RawImports::Rejected("unknown magic number".to_string())),
        Err(parse_failure("unknown magic number"))
    );
}

#[test]
fn corrupt_directory_is_a_parse_failure() {
    assert_eq!(
        dependencies(RawImports::Corrupt("invalid data".to_string())),
        Err(parse_failure("invalid data"))
    );
}

#[test]
fn absent_directory_declares_nothing() {
    assert_eq!(dependencies(RawImports::Absent), Ok(Vec::new()));
}

#[test]
fn table_of_texts_is_the_dependency_list() {
    assert_eq!(dependencies(RawImports::Table(Vec::new())), Ok(Vec::new()));
    assert_eq!(
        dependencies(RawImports::Table(vec![text("b.dll"), text("a.dll"), text("b.dll")])),
        Ok(vec!["b.dll".to_string(), "a.dll".to_string(), "b.dll".to_string()])
    );
}

#[test]
fn first_name_that_is_no_text_decides() {
    let table = vec![
        text("a.dll"),
        RawName::Undecodable("invalid utf-8".to_string()),
        RawName::Corrupt("bounds check failed".to_string()),
        text("d.dll"),
    ];
    assert_eq!(
        dependencies(RawImports::Table(table)),
        Err(Failure::new(FailureKind::NameDecode, "invalid utf-8".to_string()))
    );
    let table = vec![
        RawName::Corrupt("encoding error".to_string()),
        RawName::Undecodable("invalid utf-8".to_string()),
    ];
    assert_eq!(dependencies(RawImports::Table(table)), Err(parse_failure("encoding error")));
}

#[test]
fn undecodable_name_after_a_corrupt_one_does_not_decide() {
    let mut section = import_section(&[b"a.dll\0", b"\xC3\0", b"c.dll\0"]);
    put32(&mut section, 12, 0x9000);
    assert_eq!(
        find_deps(&image_with(&section, SECTION_RVA)),
        Err(parse_failure("bounds check failed"))
    );
    let section = import_section(&[b"a.dll\0", b"\xC3\0", b"c.dll\0"]);
    assert_eq!(
        find_deps(&image_with(&section, SECTION_RVA)),
        Err(Failure::new(
            FailureKind::NameDecode,
            "incomplete utf-8 byte sequence from index 0".to_string()
        ))
    );
}

#[test]
fn bytes_too_few_for_a_dos_header_are_rejected() {
    for len in [0usize, 1, 2, 16, 63] {
        let mut bytes = vec![0u8; len];
        if len >= 2 {
            bytes[0] = b'M';
            bytes[1] = b'Z';
        }
        assert_eq!(find_deps(&bytes), Err(parse_failure("bounds check failed")));
    }
}

#[test]
fn bytes_that_hold_a_dos_header_are_judged_by_their_content() {
    let bytes = vec![0u8; 64];
    assert_eq!(find_deps(&bytes), Err(parse_failure("unknown magic number")));
    let image = image_importing(&[b"a.dll\0"]);
    assert_eq!(find_deps(&image[..63]), Err(parse_failure("bounds check failed")));
    assert_eq!(find_deps(&image), Ok(vec!["a.dll".to_string()]));
}

fn misaligned() -> Failure {
    parse_failure("address misaligned")
}

#[test]
fn nt_headers_at_four_modulo_eight_are_turned_down() {
    let mut bytes = vec![0u8; 256];
    bytes[0] = b'M';
    bytes[1] = b'Z';
    bytes[60] = 0x44;
    assert_eq!(find_deps(&bytes), Err(misaligned()));
}

#[test]
fn nt_headers_at_an_odd_offset_are_turned_down() {
    let mut image = image_importing(&[b"a.dll\0"]);
    put32(&mut image, 60, 0x42);
    assert_eq!(find_deps(&image), Err(misaligned()));
    put32(&mut image, 60, 0x41);
    assert_eq!(find_deps(&image), Err(misaligned()));
}

#[test]
fn nt_headers_at_a_multiple_of_eight_are_read() {
    let plain = image_importing(&[b"a.dll\0"]);
    let mut image = vec![0u8; plain.len()];
    image[..64].copy_from_slice(&plain[..64]);
    put32(&mut image, 60, 72);
    let headers = OPTIONAL + 240 + 40 - NT;
    image[72..72 + headers].copy_from_slice(&plain[NT..NT + headers]);
    image[HEADERS..].copy_from_slice(&plain[HEADERS..]);
    assert_eq!(find_deps(&image), Ok(vec!["a.dll".to_string()]));
}

#[test]
fn optional_header_of_a_size_that_is_no_multiple_of_four_is_turned_down() {
    let mut image = image_importing(&[b"a.dll\0"]);
    put16(&mut image, NT + 20, 242);
    assert_eq!(find_deps(&image), Err(misaligned()));
    put16(&mut image, NT + 20, 241);
    assert_eq!(find_deps(&image), Err(misaligned()));
}

#[test]
fn section_out_of_step_with_its_place_in_memory_is_turned_down() {
    let header = OPTIONAL + 240;
    let mut image = image_importing(&[b"a.dll\0"]);
    put32(&mut image, header + 20, HEADERS as u32 + 2);
    assert_eq!(find_deps(&image), Err(misaligned()));
    let mut image = image_importing(&[b"a.dll\0"]);
    put32(&mut image, header + 12, SECTION_RVA + 1);
    assert_eq!(find_deps(&image), Err(misaligned()));
}

#[test]
fn headers_beyond_the_bytes_are_left_to_the_parser() {
    let mut image = image_importing(&[b"a.dll\0"]);
    put32(&mut image, 60, 0x1000);
    assert_eq!(find_deps(&image), Err(parse_failure("bounds check failed")));
    let mut image = image_importing(&[b"a.dll\0"]);
    put16(&mut image, NT + 6, 2000);
    put32(&mut image, OPTIONAL + 240 + 20, HEADERS as u32 + 2);
    assert_eq!(find_deps(&image), Err(parse_failure("data insanity")));
}

#[test]
fn bytes_are_read_wherever_they_lie() {
    let image = image_importing(&[b"KERNEL32.dll\0", b"a.dll\0"]);
    let expected = Ok(vec!["KERNEL32.dll".to_string(), "a.dll".to_string()]);
    for shift in 0..9 {
        let mut shifted = vec![0xAAu8; shift];
        shifted.extend_from_slice(&image);
        assert_eq!(find_deps(&shifted[shift..]), expected);
    }
}

#[test]
fn image_cut_short_is_not_filled_up() {
    let image = image_importing(&[b"a.dll\0"]);
    for cut in 1..8 {
        let end = OPTIONAL + 240 + 40 - cut;
        assert_eq!(find_deps(&image[..end]), Err(parse_failure("bounds check failed")));
    }
}

#[test]
fn data_directory_without_an_entry_for_imports_declares_nothing() {
    for entries in [0u32, 1] {
        let mut image = image_importing(&[b"a.dll\0"]);
        put32(&mut image, OPTIONAL + 108, entries);
        assert_eq!(find_deps(&image), Ok(Vec::new()));
    }
    let mut image = image_importing(&[b"a.dll\0"]);
    put32(&mut image, OPTIONAL + 108, 2);
    assert_eq!(find_deps(&image), Ok(vec!["a.dll".to_string()]));
}

#[test]
fn parser_verdicts_are_kept_as_they_come() {
    assert_eq!(read_imports(&[]), RawImports::Rejected("bounds check failed".to_string()));
    assert_eq!(read_imports(&[0u8; 64]), RawImports::Rejected("unknown magic number".to_string()));
    assert_eq!(read_imports(&image_with(&[], 0)), RawImports::Absent);
    assert_eq!(read_imports(&image_importing(&[])), RawImports::Table(Vec::new()));
    assert_eq!(
        read_imports(&image_with(&import_section(&[b"a.dll\0"]), 0x8000)),
        RawImports::Corrupt("bounds check failed".to_string())
    );
    let mut section = import_section(&[b"a.dll\0", b"\xC3\0", b"c.dll\0", b"a.dll\0"]);
    put32(&mut section, 12, 0x9000);
    assert_eq!(
        read_imports(&image_with(&section, SECTION_RVA)),
        RawImports::Table(vec![
            RawName::Corrupt("bounds check failed".to_string()),
            RawName::Undecodable("incomplete utf-8 byte sequence from index 0".to_string()),
            text("c.dll"),
            text("a.dll"),
        ])
    );
}

#[test]
fn image_that_cannot_be_read_in_place_is_rejected_unasked() {
    let mut image = image_importing(&[b"a.dll\0"]);
    put16(&mut image, NT + 20, 242);
    assert_eq!(read_imports(&image), RawImports::Rejected("address misaligned".to_string()));
}

#[test]
fn reading_twice_gives_the_same() {
    let image = image_importing(&[b"b.dll\0", b"a.dll\0", b"b.dll\0"]);
    assert_eq!(read_imports(&image), read_imports(&image));
    assert_eq!(find_deps(&image), find_deps(&image.clone()));
    assert_eq!(
        find_deps(&image),
        Ok(vec!["b.dll".to_string(), "a.dll".to_string(), "b.dll".to_string()])
    );
}

#[test]
fn long_table_is_read_to_its_end() {
    let names: Vec<Vec<u8>> = (0..12).map(|i| format!("l{}.dll\0", i).into_bytes()).collect();
    let slices: Vec<&[u8]> = names.iter().map(|n| n.as_slice()).collect();
    let expected: Vec<String> = (0..12).map(|i| format!("l{}.dll", i)).collect();
    assert_eq!(find_deps(&image_importing(&slices)), Ok(expected));
}
