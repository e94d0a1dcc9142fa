use arkana::envelope::qr::image::decode_luma;
use arkana::envelope::qr::fragment::{
    AssembleFragmentsError, EnvelopeFragmentationError, FragmentDeserializeError, FragmentedEnvelope,
};
use arkana::envelope::qr::image::{
    decode_image, decode_images, encode_image, gather_payloads, payloads_from_symbols, DecodeQrError,
    QR_CAPACITY,
};
use arkana::envelope::qr::tar::{numbered_name, pack, unpack, File, PackError, UnpackError};
use arkana::envelope::qr::{
    deserialize, deserialize_payloads, encode_png_files, extract_images, serialize, DeserializeError,
    ExtractImagesError, SerializeError,
};

fn joined(header: &[u8], ciphertext: &[u8]) -> Vec<u8> {
    let mut all = header.to_vec();
    all.extend_from_slice(ciphertext);
    all
}

#[test]
fn container_roundtrip() {
    let header = b"kdf: argon2id; cipher: chacha20poly1305".to_vec();
    let ciphertext: Vec<u8> = (0..300u32).map(|i| (i * 31 + 7) as u8).collect();
    let container = serialize(&header, &ciphertext).unwrap();
    let files = unpack(&container).unwrap();
    assert_eq!(files.len(), 3);
    assert_eq!(files[0].path, "00001.png");
    assert_eq!(files[2].path, "00003.png");
    assert_eq!(deserialize(&container).unwrap(), joined(&header, &ciphertext));
}

#[test]
fn container_in_reverse_order_still_reads() {
    let header = b"h".to_vec();
    let ciphertext = vec![0x42u8; 250];
    let container = serialize(&header, &ciphertext).unwrap();
    let mut files = unpack(&container).unwrap();
    files.reverse();
    let repacked = pack(&files).unwrap();
    assert_eq!(deserialize(&repacked).unwrap(), joined(&header, &ciphertext));
}

#[test]
fn container_missing_a_symbol_reports_it() {
    let container = serialize(b"abc", &[1u8; 300]).unwrap();
    let mut files = unpack(&container).unwrap();
    files.remove(1);
    let repacked = pack(&files).unwrap();
    match deserialize(&repacked) {
        Err(DeserializeError::AssembleFragments(AssembleFragmentsError::MissingFragments(m))) => {
            assert_eq!(m, vec![2])
        }
        other => panic!("unexpected {:?}", other),
    }
}

#[test]
fn single_png_is_read_directly() {
    let container = serialize(b"", b"onesymbol").unwrap();
    let files = unpack(&container).unwrap();
    assert_eq!(files.len(), 1);
    assert_eq!(deserialize(&files[0].content).unwrap(), b"onesymbol".to_vec());
}

#[test]
fn too_large_envelope_is_refused() {
    let header = vec![0u8; 176 * 65535 + 1];
    match serialize(&header, b"") {
        Err(SerializeError::EnvelopeFragmentation(e)) => {
            assert_eq!(e, EnvelopeFragmentationError::TooManyFragments(65536, 65535))
        }
        other => panic!("unexpected {:?}", other.map(|b| b.len())),
    }
}

#[test]
fn encode_image_accepts_exactly_the_capacity() {
    assert!(encode_image(&[7u8; QR_CAPACITY]).is_ok());
    assert!(encode_image(&[7u8; QR_CAPACITY + 1]).is_err());
}

#[test]
fn a_rendered_symbol_decodes_to_its_payload() {
    let payload: Vec<u8> = (0..200u32).map(|i| i as u8).collect();
    let image = encode_image(&payload).unwrap();
    assert_eq!(decode_image(&image).unwrap(), vec![payload.clone()]);
    assert_eq!(decode_images(&vec![image]), vec![payload]);
}

#[test]
fn png_files_are_numbered() {
    let images = vec![encode_image(b"a").unwrap(), encode_image(b"b").unwrap()];
    let files = encode_png_files(&images).unwrap();
    assert_eq!(files.len(), 2);
    assert_eq!(files[0].path, "00001.png");
    assert_eq!(files[1].path, "00002.png");
    assert!(files[0].content.starts_with(b"\x89PNG\r\n\x1a\n"));
}

#[test]
fn png_signature_with_broken_content_fails_to_load() {
    let data = b"\x89PNG\r\n\x1a\nnot really a png".to_vec();
    assert!(matches!(extract_images(&data), Err(ExtractImagesError::LoadImage(_))));
    assert!(matches!(deserialize(&data), Err(DeserializeError::ExtractImages(ExtractImagesError::LoadImage(_)))));
}

#[test]
fn jpeg_marker_with_broken_content_fails_to_load() {
    assert!(matches!(extract_images(&[0xff, 0xd8, 0x00]), Err(ExtractImagesError::LoadImage(_))));
}

#[test]
fn archive_entry_that_is_not_an_image_fails_to_load() {
    let files = vec![File { path: "00001.png".to_string(), content: b"text".to_vec() }];
    let tar = pack(&files).unwrap();
    assert!(matches!(extract_images(&tar), Err(ExtractImagesError::LoadImage(_))));
}

#[test]
fn empty_archive_has_no_images_and_misses_the_first_fragment() {
    let tar = pack(&[]).unwrap();
    assert_eq!(extract_images(&tar).unwrap().len(), 0);
    match deserialize(&tar) {
        Err(DeserializeError::AssembleFragments(AssembleFragmentsError::MissingFragments(m))) => {
            assert_eq!(m, vec![1])
        }
        other => panic!("unexpected {:?}", other),
    }
}

#[test]
fn image_without_symbol_is_skipped() {
    let blank = image::DynamicImage::ImageLuma8(image::GrayImage::from_pixel(100, 100, image::Luma([255u8])));
    assert!(decode_image(&blank).is_err());
    assert!(decode_images(&vec![blank]).is_empty());
}

#[test]
fn tar_roundtrip_keeps_names_and_contents() {
    let files = vec![
        File { path: "00001.png".to_string(), content: vec![1, 2, 3] },
        File { path: "00002.jpg".to_string(), content: vec![] },
    ];
    let tar = pack(&files).unwrap();
    let back = unpack(&tar).unwrap();
    assert_eq!(back.len(), 2);
    assert_eq!(back[0].path, "00001.png");
    assert_eq!(back[0].content, vec![1, 2, 3]);
    assert_eq!(back[1].path, "00002.jpg");
    assert!(back[1].content.is_empty());
}

#[test]
fn truncated_tar_fails_to_unpack() {
    let files = vec![File { path: "00001.png".to_string(), content: vec![9u8; 2000] }];
    let tar = pack(&files).unwrap();
    assert!(matches!(unpack(&tar[..700]), Err(UnpackError::Io(_))));
    let _ = PackError::Io(std::io::Error::other("unused"));
}

#[test]
fn entry_names_are_zero_padded() {
    let images: Vec<image::DynamicImage> = (0..12u8).map(|i| encode_image(&[i]).unwrap()).collect();
    let files = encode_png_files(&images).unwrap();
    assert_eq!(files[9].path, "00010.png");
    assert_eq!(files[11].path, "00012.png");
}

#[test]
fn fragments_fit_one_symbol_each() {
    let fe = FragmentedEnvelope::from_envelope(&[0u8; 1000], &[1u8; 1000]).unwrap();
    for f in fe.fragments() {
        assert!(f.to_bytes().len() <= QR_CAPACITY);
    }
}

fn framed_payloads(header: &[u8], ciphertext: &[u8]) -> Vec<Vec<u8>> {
    let fragmented = FragmentedEnvelope::from_envelope(header, ciphertext).unwrap();
    fragmented.fragments().iter().map(|f| f.to_bytes()).collect()
}

#[test]
fn payloads_in_any_order_read_back_the_envelope() {
    let ciphertext: Vec<u8> = (0..400u32).map(|i| (i % 251) as u8).collect();
    let mut payloads = framed_payloads(b"hdr", &ciphertext);
    assert_eq!(payloads.len(), 4);
    payloads.reverse();
    let first = payloads[0].clone();
    payloads.push(first);
    assert_eq!(deserialize_payloads(&payloads).unwrap(), joined(b"hdr", &ciphertext));
}

#[test]
fn payloads_with_a_foreign_one_report_it() {
    let mut payloads = framed_payloads(b"hdr", b"body");
    payloads.insert(1, vec![1u8, 2, 3]);
    match deserialize_payloads(&payloads) {
        Err(DeserializeError::FragmentDeserialize(e)) => {
            assert_eq!(e, FragmentDeserializeError::InvalidHeader(3))
        }
        other => panic!("unexpected {:?}", other),
    }
}

#[test]
fn no_payload_reports_the_first_fragment_missing() {
    match deserialize_payloads(&[]) {
        Err(DeserializeError::AssembleFragments(AssembleFragmentsError::MissingFragments(m))) => {
            assert_eq!(m, vec![1])
        }
        other => panic!("unexpected {:?}", other),
    }
}

#[test]
fn symbol_segments_are_joined_and_failures_skipped() {
    let decoded = vec![
        Ok(vec![b"ab".to_vec(), b"cd".to_vec()]),
        Err(rxing::Exceptions::NOT_FOUND),
        Ok(vec![]),
        Ok(vec![b"x".to_vec()]),
    ];
    let payloads = payloads_from_symbols(decoded).unwrap();
    assert_eq!(payloads, vec![b"abcd".to_vec(), Vec::new(), b"x".to_vec()]);
}

#[test]
fn no_decoded_symbol_is_not_found() {
    let decoded: Vec<Result<Vec<Vec<u8>>, rxing::Exceptions>> =
        vec![Err(rxing::Exceptions::NOT_FOUND), Err(rxing::Exceptions::FORMAT)];
    assert!(matches!(payloads_from_symbols(decoded), Err(DecodeQrError::NotFound)));
    assert!(matches!(payloads_from_symbols(Vec::new()), Err(DecodeQrError::NotFound)));
}

#[test]
fn payloads_of_images_are_gathered_in_order() {
    let reads = vec![
        Ok(vec![b"one".to_vec(), b"two".to_vec()]),
        Err(DecodeQrError::NotFound),
        Err(DecodeQrError::Detect(rxing::Exceptions::NOT_FOUND)),
        Ok(vec![b"three".to_vec()]),
    ];
    assert_eq!(
        gather_payloads(reads),
        vec![b"one".to_vec(), b"two".to_vec(), b"three".to_vec()]
    );
    assert!(gather_payloads(Vec::new()).is_empty());
}

#[test]
fn no_image_gives_no_png_file_and_no_payload() {
    assert!(encode_png_files(&Vec::new()).unwrap().is_empty());
    assert!(decode_images(&Vec::new()).is_empty());
}

#[test]
fn pixels_of_a_rendered_symbol_read_back_its_payload() {
    let image = encode_image(b"luma payload").unwrap();
    assert_eq!((image.width(), image.height()), (650, 650));
    let luma = image.to_luma8().into_raw();
    assert_eq!(decode_luma(luma, 650, 650).unwrap(), vec![b"luma payload".to_vec()]);
    assert!(matches!(decode_luma(Vec::new(), 0, 0), Err(DecodeQrError::NotFound)));
}

#[test]
fn nested_names_with_spaces_survive_the_archive() {
    let files = vec![
        File { path: "dir/sub dir/a file.png".to_string(), content: vec![1, 2, 3] },
        File { path: "x".to_string(), content: Vec::new() },
    ];
    let back = unpack(&pack(&files).unwrap()).unwrap();
    assert_eq!(back.len(), 2);
    assert_eq!(back[0].path, "dir/sub dir/a file.png");
    assert_eq!(back[0].content, vec![1, 2, 3]);
    assert_eq!(back[1].path, "x");
    assert!(back[1].content.is_empty());
}

#[test]
fn numbered_names_match_the_format_macro() {
    for n in [0usize, 7, 42, 99999, 100000, 123456789, usize::MAX] {
        assert_eq!(numbered_name(n, "png"), format!("{:05}.png", n));
    }
    assert_eq!(numbered_name(3, "jpeg"), "00003.jpeg");
}

#[test]
fn long_and_non_ascii_names_survive_the_archive() {
    let long = format!("dir/{}/file.png", "é".repeat(80));
    let files = vec![File { path: long.clone(), content: vec![7; 10] }];
    let back = unpack(&pack(&files).unwrap()).unwrap();
    assert_eq!(back.len(), 1);
    assert_eq!(back[0].path, long);
    assert_eq!(back[0].content, vec![7; 10]);
}
