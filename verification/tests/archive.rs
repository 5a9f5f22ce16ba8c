use manga_bay::api::{manga_archive, series_params};
use manga_bay::archive::{cbz_archive, crc32_of};
use manga_bay::{AppError, CreateMangaRequest};

const PNG_PAGE: &str = "iVBORw0KGgoAAAANSUhEUgAAAAEAAAABCAYAAAAfFcSJAAAADUlEQVR42mNk+M9QDwADhgGAWjR9awAAAABJRU5ErkJggg==";

fn u16_at(b: &[u8], at: usize) -> u16 {
    u16::from_le_bytes([b[at], b[at + 1]])
}

fn u32_at(b: &[u8], at: usize) -> u32 {
    u32::from_le_bytes([b[at], b[at + 1], b[at + 2], b[at + 3]])
}

/// Walks a stored ZIP archive by its central directory and returns each
/// entry's name and bytes, checking the local headers and checksums on the way.
fn entries(zip: &[u8]) -> Vec<(String, Vec<u8>)> {
    let end = zip.len() - 22;
    assert_eq!(u32_at(zip, end), 0x0605_4b50);
    let count = u16_at(zip, end + 10) as usize;
    let size = u32_at(zip, end + 12) as usize;
    let offset = u32_at(zip, end + 16) as usize;
    assert_eq!(offset + size, end);
    let mut at = offset;
    let mut out = Vec::new();
    for _ in 0..count {
        assert_eq!(u32_at(zip, at), 0x0201_4b50);
        let crc = u32_at(zip, at + 16);
        let len = u32_at(zip, at + 20) as usize;
        let name_len = u16_at(zip, at + 28) as usize;
        let local = u32_at(zip, at + 42) as usize;
        let name = String::from_utf8(zip[at + 46..at + 46 + name_len].to_vec()).unwrap();
        assert_eq!(u32_at(zip, local), 0x0403_4b50);
        assert_eq!(u16_at(zip, local + 8), 0);
        assert_eq!(u32_at(zip, local + 14), crc);
        let data_at = local + 30 + u16_at(zip, local + 26) as usize;
        let data = zip[data_at..data_at + len].to_vec();
        assert_eq!(crc32_of(&data), crc);
        out.push((name, data));
        at += 46 + name_len;
    }
    out
}

#[test]
fn crc32_check_values() {
    assert_eq!(crc32_of(b""), 0);
    assert_eq!(crc32_of(b"123456789"), 0xCBF4_3926);
    assert_eq!(crc32_of(b"abc"), 0x3524_41C2);
}

#[test]
fn one_page_archive_byte_for_byte() {
    let zip = cbz_archive(&vec![b"abc".to_vec()]).unwrap();
    let mut expected: Vec<u8> = vec![
        0x50, 0x4b, 0x03, 0x04, 20, 0, 0, 0, 0, 0, 0, 0, 0x21, 0, 0xc2, 0x41, 0x24, 0x35, 3, 0, 0, 0, 3, 0, 0, 0, 9, 0,
        0, 0,
    ];
    expected.extend_from_slice(b"00001.bin");
    expected.extend_from_slice(b"abc");
    expected.extend_from_slice(&[
        0x50, 0x4b, 0x01, 0x02, 20, 0, 20, 0, 0, 0, 0, 0, 0, 0, 0x21, 0, 0xc2, 0x41, 0x24, 0x35, 3, 0, 0, 0, 3, 0, 0, 0,
        9, 0, 0, 0, 0, 0, 0, 0, 0, 0, 0, 0, 0, 0, 0, 0, 0, 0,
    ]);
    expected.extend_from_slice(b"00001.bin");
    expected.extend_from_slice(&[0x50, 0x4b, 0x05, 0x06, 0, 0, 0, 0, 1, 0, 1, 0, 55, 0, 0, 0, 42, 0, 0, 0, 0, 0]);
    assert_eq!(zip, expected);
}

#[test]
fn empty_archive_is_only_the_end_record() {
    let zip = cbz_archive(&Vec::new()).unwrap();
    assert_eq!(zip, vec![0x50, 0x4b, 0x05, 0x06, 0, 0, 0, 0, 0, 0, 0, 0, 0, 0, 0, 0, 0, 0, 0, 0, 0, 0]);
}

#[test]
fn pages_are_named_in_order_by_their_image_type() {
    let png = vec![0x89, 0x50, 0x4e, 0x47, 1, 2];
    let jpg = vec![0xff, 0xd8, 0xff, 0xe0];
    let gif = b"GIF89a..".to_vec();
    let webp = b"RIFF\x00\x00\x00\x00WEBPVP8 ".to_vec();
    let other = b"plain".to_vec();
    let zip = cbz_archive(&vec![png.clone(), jpg.clone(), gif.clone(), webp.clone(), other.clone()]).unwrap();
    let got = entries(&zip);
    let names: Vec<&str> = got.iter().map(|(n, _)| n.as_str()).collect();
    assert_eq!(names, vec!["00001.png", "00002.jpg", "00003.gif", "00004.webp", "00005.bin"]);
    let data: Vec<Vec<u8>> = got.into_iter().map(|(_, d)| d).collect();
    assert_eq!(data, vec![png, jpg, gif, webp, other]);
}

#[test]
fn readme_upload_becomes_a_two_page_archive() {
    let request = CreateMangaRequest {
        title: "Capítulo 1".into(),
        author: "Eiichiro Oda".into(),
        series_code: Some("OP-001".into()),
        series_title: Some("One Piece".into()),
        alternative_titles: Some(vec!["One Piece (PT-BR)".into(), "ワンピース".into()]),
        pages: Some(vec![PNG_PAGE.to_string(), PNG_PAGE.to_string()]),
    };
    let zip = manga_archive(request.pages.as_ref().unwrap()).unwrap();
    let got = entries(&zip);
    assert_eq!(got.len(), 2);
    assert_eq!(got[0].0, "00001.png");
    assert_eq!(got[1].0, "00002.png");
    assert_eq!(&got[0].1[..4], &[0x89, 0x50, 0x4e, 0x47]);
    assert_eq!(got[0].1, got[1].1);
    let params = series_params(request);
    assert_eq!(params.alternative_titles, Some("One Piece (PT-BR),ワンピース".to_string()));
    assert_eq!(params.series_title, Some("One Piece".to_string()));
}

#[test]
fn upload_with_a_bad_page_is_refused_at_that_page() {
    match manga_archive(&vec![PNG_PAGE.to_string(), "not base64!".to_string()]) {
        Err(AppError::BadRequest(m)) => assert!(m.starts_with("Invalid Base64 page 1: "), "{}", m),
        other => panic!("unexpected {:?}", other.map(|b| b.len())),
    }
}

#[test]
fn data_uri_pages_are_accepted() {
    let zip = manga_archive(&vec![format!("data:image/png;base64,{}", PNG_PAGE)]).unwrap();
    assert_eq!(entries(&zip)[0].0, "00001.png");
}
