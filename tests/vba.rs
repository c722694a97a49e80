use calamine::error::ExcelError;
use calamine::vba::VbaProject;

const END: u32 = 0xFFFF_FFFE;
const FREE: u32 = 0xFFFF_FFFF;

fn put_u16(v: &mut Vec<u8>, x: u16) {
    v.extend_from_slice(&x.to_le_bytes());
}

fn put_u32(v: &mut Vec<u8>, x: u32) {
    v.extend_from_slice(&x.to_le_bytes());
}

fn dir_entry(name: &str, kind: u8, start: u32, size: u32) -> Vec<u8> {
    let mut e = Vec::new();
    let units: Vec<u16> = name.encode_utf16().collect();
    for u in &units {
        put_u16(&mut e, *u);
    }
    e.resize(64, 0);
    put_u16(&mut e, ((units.len() + 1) * 2) as u16);
    e.push(kind);
    e.push(1);
    put_u32(&mut e, FREE);
    put_u32(&mut e, FREE);
    put_u32(&mut e, FREE);
    e.resize(116, 0);
    put_u32(&mut e, start);
    put_u32(&mut e, size);
    e.resize(128, 0);
    e
}

/// A compound file with 512-byte sectors, no mini pool (cutoff 0), and the given streams.
fn compound_file(streams: &[(&str, Vec<u8>)]) -> Vec<u8> {
    let mut fat: Vec<u32> = vec![0xFFFF_FFFD, END];
    let mut entries = dir_entry("Root Entry", 5, END, 0);
    let mut body: Vec<u8> = Vec::new();
    for (name, data) in streams {
        let first = fat.len() as u32;
        let n = (data.len() + 511) / 512;
        for k in 0..n {
            let id = first + k as u32;
            fat.push(if k + 1 == n { END } else { id + 1 });
        }
        let mut padded = data.clone();
        padded.resize(n * 512, 0);
        body.extend_from_slice(&padded);
        entries.extend_from_slice(&dir_entry(name, 2, if n == 0 { END } else { first }, data.len() as u32));
    }
    assert!(fat.len() <= 128 && entries.len() <= 512);
    let mut image = vec![0xD0, 0xCF, 0x11, 0xE0, 0xA1, 0xB1, 0x1A, 0xE1];
    image.resize(24, 0);
    put_u16(&mut image, 0x3E);
    put_u16(&mut image, 3);
    put_u16(&mut image, 0xFFFE);
    put_u16(&mut image, 9);
    put_u16(&mut image, 6);
    image.resize(44, 0);
    put_u32(&mut image, 1);
    put_u32(&mut image, 1);
    put_u32(&mut image, 0);
    put_u32(&mut image, 0);
    put_u32(&mut image, END);
    put_u32(&mut image, 0);
    put_u32(&mut image, END);
    put_u32(&mut image, 0);
    put_u32(&mut image, 0);
    for _ in 1..109 {
        put_u32(&mut image, FREE);
    }
    assert_eq!(image.len(), 512);
    let mut fat_sector = Vec::new();
    for id in &fat {
        put_u32(&mut fat_sector, *id);
    }
    fat_sector.resize(512, 0xFF);
    image.extend_from_slice(&fat_sector);
    entries.resize(512, 0);
    image.extend_from_slice(&entries);
    image.extend_from_slice(&body);
    image
}

/// A compound file whose streams all live in the mini pool (64-byte mini
/// sectors, cutoff 4096): FAT in sector 0, directory in 1, mini FAT in 2,
/// the mini stream from sector 3 on.
fn compound_file_with_mini_pool(streams: &[(&str, Vec<u8>)]) -> Vec<u8> {
    let mut minifat: Vec<u32> = Vec::new();
    let mut ministream: Vec<u8> = Vec::new();
    let mut entries = Vec::new();
    let mut children = Vec::new();
    for (name, data) in streams {
        let first = minifat.len() as u32;
        let n = (data.len() + 63) / 64;
        for k in 0..n {
            let id = first + k as u32;
            minifat.push(if k + 1 == n { END } else { id + 1 });
        }
        let mut padded = data.clone();
        padded.resize(n * 64, 0);
        ministream.extend_from_slice(&padded);
        children.extend_from_slice(&dir_entry(name, 2, first, data.len() as u32));
    }
    let regular = (ministream.len() + 511) / 512;
    let mut fat: Vec<u32> = vec![0xFFFF_FFFD, END, END];
    for k in 0..regular {
        fat.push(if k + 1 == regular { END } else { 4 + k as u32 });
    }
    entries.extend_from_slice(&dir_entry("Root Entry", 5, 3, ministream.len() as u32));
    entries.extend_from_slice(&children);
    let mut image = vec![0xD0, 0xCF, 0x11, 0xE0, 0xA1, 0xB1, 0x1A, 0xE1];
    image.resize(24, 0);
    put_u16(&mut image, 0x3E);
    put_u16(&mut image, 3);
    put_u16(&mut image, 0xFFFE);
    put_u16(&mut image, 9);
    put_u16(&mut image, 6);
    image.resize(44, 0);
    put_u32(&mut image, 1);
    put_u32(&mut image, 1);
    put_u32(&mut image, 0);
    put_u32(&mut image, 4096);
    put_u32(&mut image, 2);
    put_u32(&mut image, 1);
    put_u32(&mut image, END);
    put_u32(&mut image, 0);
    put_u32(&mut image, 0);
    for _ in 1..109 {
        put_u32(&mut image, FREE);
    }
    let mut sector = Vec::new();
    for id in &fat {
        put_u32(&mut sector, *id);
    }
    sector.resize(512, 0xFF);
    image.extend_from_slice(&sector);
    entries.resize(512, 0);
    image.extend_from_slice(&entries);
    let mut sector = Vec::new();
    for id in &minifat {
        put_u32(&mut sector, *id);
    }
    sector.resize(512, 0xFF);
    image.extend_from_slice(&sector);
    ministream.resize(regular * 512, 0);
    image.extend_from_slice(&ministream);
    image
}

fn literal_form(b: &[u8]) -> Vec<u8> {
    let mut c = vec![0x01];
    for chunk in b.chunks(8) {
        c.extend_from_slice(&[chunk.len() as u8, 0x80, 0x00]);
        c.extend_from_slice(chunk);
    }
    c
}

fn sized(v: &mut Vec<u8>, tag: u16, data: &[u8]) {
    put_u16(v, tag);
    put_u32(v, data.len() as u32);
    v.extend_from_slice(data);
}

fn dir_stream() -> Vec<u8> {
    let mut d = Vec::new();
    for (tag, len) in [(0x01u16, 4u32), (0x02, 4), (0x14, 4)] {
        put_u16(&mut d, tag);
        put_u32(&mut d, len);
        put_u32(&mut d, 0);
    }
    put_u16(&mut d, 0x03);
    put_u32(&mut d, 2);
    put_u16(&mut d, 1252);
    sized(&mut d, 0x04, b"VBAProject");
    sized(&mut d, 0x05, b"");
    sized(&mut d, 0x40, b"");
    sized(&mut d, 0x06, b"");
    sized(&mut d, 0x3D, b"");
    put_u16(&mut d, 0x07);
    put_u32(&mut d, 4);
    put_u32(&mut d, 0);
    put_u16(&mut d, 0x08);
    put_u32(&mut d, 4);
    put_u32(&mut d, 0);
    put_u16(&mut d, 0x09);
    put_u32(&mut d, 4);
    put_u32(&mut d, 0x1234);
    put_u16(&mut d, 2);
    sized(&mut d, 0x0C, b"");
    sized(&mut d, 0x3C, b"");
    // first reference: registered
    sized(&mut d, 0x16, b"stdole");
    sized(&mut d, 0x3E, b"s\0t\0d\0o\0l\0e\0");
    put_u16(&mut d, 0x0D);
    let libid: &[u8] = b"*\\G{00020430-0000-0000-C000-000000000046}#2.0#0#C:\\Windows\\system32\\stdole2.tlb#OLE Automation";
    put_u32(&mut d, (libid.len() + 10) as u32);
    put_u32(&mut d, libid.len() as u32);
    d.extend_from_slice(libid);
    d.extend_from_slice(&[0; 6]);
    // second reference: project
    sized(&mut d, 0x16, b"Lib");
    sized(&mut d, 0x3E, b"L\0i\0b\0");
    put_u16(&mut d, 0x0E);
    let absolute: &[u8] = b"*\\CC:\\libs\\lib.xlam";
    put_u32(&mut d, 0);
    put_u32(&mut d, absolute.len() as u32);
    d.extend_from_slice(absolute);
    put_u32(&mut d, 3);
    d.extend_from_slice(b"rel");
    d.extend_from_slice(&[0; 6]);
    // end of references
    put_u16(&mut d, 0x0F);
    put_u32(&mut d, 2);
    put_u16(&mut d, 1);
    put_u16(&mut d, 0x13);
    put_u32(&mut d, 2);
    put_u16(&mut d, 0xFFFF);
    // module
    sized(&mut d, 0x19, b"Module1");
    sized(&mut d, 0x47, b"M\0o\0d\0u\0l\0e\0001\0");
    sized(&mut d, 0x1A, b"Module1");
    sized(&mut d, 0x32, b"M\0o\0d\0u\0l\0e\0001\0");
    sized(&mut d, 0x1C, b"");
    sized(&mut d, 0x48, b"");
    put_u16(&mut d, 0x31);
    put_u32(&mut d, 4);
    put_u32(&mut d, 5);
    put_u16(&mut d, 0x1E);
    put_u32(&mut d, 4);
    put_u32(&mut d, 0);
    put_u16(&mut d, 0x2C);
    put_u32(&mut d, 2);
    put_u16(&mut d, 0xFFFF);
    put_u16(&mut d, 0x21);
    put_u32(&mut d, 0);
    put_u16(&mut d, 0x2B);
    put_u32(&mut d, 0);
    d
}

const SOURCE: &str = "Attribute VB_Name = \"Module1\"\r\nSub Hello()\r\nEnd Sub\r\n";

fn project_text() -> Vec<u8> {
    b"ID=\"{1}\"\r\nDocument=ThisWorkbook/&H00000000\r\nModule=Module1\r\nModule=Sheet1\r\nClass=ThisWorkbook\r\nBaseClass=Form1\r\nName=\"VBAProject\"\r\n\r\n[Host Extender Info]\r\n&H00000001=x\r\n".to_vec()
}

fn sample() -> Vec<u8> {
    let project = project_text();
    let mut module = vec![0xAA; 5];
    module.extend_from_slice(&literal_form(SOURCE.as_bytes()));
    compound_file(&[
        ("PROJECT", project),
        ("dir", literal_form(&dir_stream())),
        ("Module1", module),
    ])
}

#[test]
fn missing_signature_is_rejected() {
    let mut image = sample();
    image[0] = 0;
    match VbaProject::new(&image) {
        Err(ExcelError::Malformed(m)) => assert_eq!(m, "invalid OLE signature"),
        _ => panic!("expected a signature error"),
    }
}

#[test]
fn partial_last_sector_is_rejected() {
    let mut image = sample();
    image.push(0);
    match VbaProject::new(&image) {
        Err(ExcelError::Malformed(m)) => assert_eq!(m, "last sector has invalid size"),
        _ => panic!("expected a sector size error"),
    }
}

#[test]
fn short_image_is_an_io_error() {
    assert!(matches!(VbaProject::new(&[0xD0, 0xCF]), Err(ExcelError::Io(_))));
}

#[test]
fn streams_are_found_by_name_and_cut_to_size() {
    let project = VbaProject::new(&sample()).unwrap();
    let s = project.get_stream("PROJECT").unwrap().unwrap();
    assert_eq!(s, project_text());
    assert!(project.get_stream("nothing").unwrap().is_none());
}

#[test]
fn project_stream_gives_extensions() {
    let project = VbaProject::new(&sample()).unwrap();
    let modules = project.get_code_modules().unwrap();
    let find = |n: &str| modules.iter().find(|(k, _)| k == n).map(|(_, v)| *v);
    assert_eq!(find("Module1"), Some("bas"));
    assert_eq!(find("Sheet1"), Some("bas"));
    assert_eq!(find("ThisWorkbook"), Some("cls"));
    assert_eq!(find("ThisWorkbook/&H00000000"), Some("cls"));
    assert_eq!(find("Form1"), Some("frm"));
    assert_eq!(modules.len(), 5);
}

#[test]
fn dir_stream_gives_references_and_modules() {
    let project = VbaProject::new(&sample()).unwrap();
    let (references, modules) = project.read_vba().unwrap();
    assert_eq!(references.len(), 2);
    assert_eq!(references[0].name, "stdole");
    assert_eq!(references[0].description, "OLE Automation");
    assert_eq!(references[0].path, "C:\\Windows\\system32\\stdole2.tlb");
    assert_eq!(references[1].name, "Lib");
    assert_eq!(references[1].description, "Lib");
    assert_eq!(references[1].path, "C:\\libs\\lib.xlam");
    assert_eq!(modules.len(), 1);
    assert_eq!(modules[0].name, "Module1");
    assert_eq!(modules[0].stream_name, "Module1");
    assert_eq!(modules[0].text_offset, 5);
}

#[test]
fn module_source_is_recovered() {
    let project = VbaProject::new(&sample()).unwrap();
    let (_, modules) = project.read_vba().unwrap();
    assert_eq!(project.read_module(&modules[0]).unwrap(), SOURCE);
}

#[test]
fn unknown_reference_record_is_malformed() {
    let mut d = dir_stream();
    let at = d.windows(6).position(|w| w == b"stdole").unwrap() - 6;
    d[at] = 0x99;
    let image = compound_file(&[("dir", literal_form(&d))]);
    let project = VbaProject::new(&image).unwrap();
    assert!(matches!(project.read_vba(), Err(ExcelError::Malformed(_))));
}

#[test]
fn missing_dir_stream_is_malformed() {
    let image = compound_file(&[("PROJECT", b"Module=A\r\n".to_vec())]);
    let project = VbaProject::new(&image).unwrap();
    assert!(matches!(project.read_vba(), Err(ExcelError::Malformed(_))));
    assert_eq!(project.get_code_modules().unwrap(), vec![("A".to_string(), "bas")]);
}

#[test]
fn small_streams_come_from_the_mini_pool() {
    let text: Vec<u8> = (0..150u32).map(|i| b'a' + (i % 26) as u8).collect();
    let image = compound_file_with_mini_pool(&[("first", vec![7; 10]), ("text", text.clone())]);
    let project = VbaProject::new(&image).unwrap();
    assert_eq!(project.get_stream("text").unwrap().unwrap(), text);
    assert_eq!(project.get_stream("first").unwrap().unwrap(), vec![7; 10]);
}

#[test]
fn looping_chain_is_an_error_not_a_hang() {
    let mut image = compound_file(&[("PROJECT", vec![b'x'; 600])]);
    // The stream's second sector points back to its first.
    let fat_entry = 512 + 4 * 3;
    image[fat_entry..fat_entry + 4].copy_from_slice(&2u32.to_le_bytes());
    let project = VbaProject::new(&image).unwrap();
    assert!(matches!(project.get_stream("PROJECT"), Err(ExcelError::Malformed(_))));
}

#[test]
fn references_follow_name_records_in_order() {
    let project = VbaProject::new(&sample()).unwrap();
    let (references, _) = project.read_vba().unwrap();
    let names: Vec<&str> = references.iter().map(|r| r.name.as_str()).collect();
    assert_eq!(names, vec!["stdole", "Lib"]);
}

#[test]
fn invalid_module_text_is_an_encoding_error() {
    let mut d = dir_stream();
    let at = d.windows(4).position(|w| w == [0x31, 0x00, 0x04, 0x00]).unwrap();
    d[at + 6..at + 10].copy_from_slice(&0u32.to_le_bytes());
    let image = compound_file(&[("dir", literal_form(&d)), ("Module1", literal_form(&[0xFF, 0xFE]))]);
    let project = VbaProject::new(&image).unwrap();
    let (_, modules) = project.read_vba().unwrap();
    assert!(matches!(project.read_module(&modules[0]), Err(ExcelError::Encoding(_))));
}

#[test]
fn unknown_module_record_is_malformed() {
    let mut d = dir_stream();
    let at = d.windows(2).rposition(|w| w == [0x2B, 0x00]).unwrap();
    d[at] = 0x77;
    let image = compound_file(&[("dir", literal_form(&d))]);
    let project = VbaProject::new(&image).unwrap();
    assert!(matches!(project.read_vba(), Err(ExcelError::Malformed(_))));
}

#[test]
fn missing_streams_name_themselves() {
    let image = compound_file(&[]);
    let project = VbaProject::new(&image).unwrap();
    match project.read_vba() {
        Err(ExcelError::Malformed(m)) => assert_eq!(m, "cannot find 'dir' stream"),
        _ => panic!("expected a missing dir stream"),
    }
    match project.get_code_modules() {
        Err(ExcelError::Malformed(m)) => assert_eq!(m, "cannot find 'PROJECT' stream"),
        _ => panic!("expected a missing PROJECT stream"),
    }
}

#[test]
fn test_vba() {
    let project = VbaProject::new(&sample()).unwrap();
    let vba = project.read_vba();
    assert!(vba.is_ok());
    let (references, modules) = vba.unwrap();
    assert_eq!(references.len(), 2);
    for module in &modules {
        let data = project.read_module(module).unwrap();
        assert_eq!(data, SOURCE);
    }
}

#[test]
fn ragged_body_is_reported_for_any_sector_shift() {
    let mut image = sample();
    image[30] = 1;
    image[32] = 40;
    image.push(0);
    match VbaProject::new(&image) {
        Err(ExcelError::Malformed(m)) => assert_eq!(m, "last sector has invalid size"),
        _ => panic!("expected a sector size error"),
    }
}
