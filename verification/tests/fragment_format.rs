use arkana::envelope::qr::fragment::{
    assemble_fragments, deserialize_fragments, AssembleFragmentsError, EnvelopeFragmentationError,
    Fragment, FragmentDeserializeError, FragmentedEnvelope, HEADER_SIZE,
    MAX_FRAGMENT_PAYLOAD_SIZE,
};
use sha2::Digest;

fn fragment(index: u16, total: u16, sha256: [u8; 32], data: &[u8]) -> Fragment {
    Fragment { index, total, sha256, data: data.to_vec() }
}

fn copy(f: &Fragment) -> Fragment {
    fragment(f.index, f.total, f.sha256, &f.data)
}

fn split(header: &[u8], ciphertext: &[u8]) -> Vec<Fragment> {
    let fe = FragmentedEnvelope::from_envelope(header, ciphertext).unwrap();
    fe.fragments().into_iter().map(copy).collect()
}

fn hex(bytes: &[u8]) -> String {
    bytes.iter().map(|b| format!("{:02x}", b)).collect()
}

fn joined(header: &[u8], ciphertext: &[u8]) -> Vec<u8> {
    let mut all = header.to_vec();
    all.extend_from_slice(ciphertext);
    all
}

#[test]
fn to_bytes_frames_version_index_total_digest_and_data() {
    let mut sha = [0u8; 32];
    sha[0] = 0xab;
    sha[31] = 0xcd;
    let f = fragment(0x0102, 0x0304, sha, b"xyz");
    let bytes = f.to_bytes();
    assert_eq!(bytes.len(), HEADER_SIZE + 3);
    assert_eq!(&bytes[..5], &[0x01, 0x01, 0x02, 0x03, 0x04]);
    assert_eq!(&bytes[5..37], &sha);
    assert_eq!(&bytes[37..], b"xyz");
}

#[test]
fn from_bytes_reads_back_a_framed_fragment() {
    let f = fragment(7, 9, [0x11; 32], &[0xee; MAX_FRAGMENT_PAYLOAD_SIZE]);
    let back = Fragment::from_bytes(&f.to_bytes()).unwrap();
    assert_eq!(back.index, 7);
    assert_eq!(back.total, 9);
    assert_eq!(back.sha256, [0x11; 32]);
    assert_eq!(back.data, vec![0xee; MAX_FRAGMENT_PAYLOAD_SIZE]);
    assert_eq!(back.to_bytes(), f.to_bytes());
}

#[test]
fn from_bytes_refuses_a_short_header() {
    let err = Fragment::from_bytes(&[1u8; 36]).unwrap_err();
    assert_eq!(err, FragmentDeserializeError::InvalidHeader(36));
    assert_eq!(Fragment::from_bytes(&[]).unwrap_err(), FragmentDeserializeError::InvalidHeader(0));
}

#[test]
fn from_bytes_refuses_another_version() {
    let mut bytes = fragment(1, 1, [0; 32], b"a").to_bytes();
    bytes[0] = 2;
    assert_eq!(Fragment::from_bytes(&bytes).unwrap_err(), FragmentDeserializeError::UnsupportedVersion(2));
}

#[test]
fn from_bytes_refuses_an_oversized_payload() {
    let f = fragment(1, 1, [0; 32], &[0u8; MAX_FRAGMENT_PAYLOAD_SIZE + 1]);
    assert_eq!(
        Fragment::from_bytes(&f.to_bytes()).unwrap_err(),
        FragmentDeserializeError::FragmentTooLarge(MAX_FRAGMENT_PAYLOAD_SIZE + 1)
    );
}

#[test]
fn header_only_fragment_with_empty_payload() {
    let f = Fragment::from_bytes(&fragment(3, 4, [9; 32], b"").to_bytes()).unwrap();
    assert!(f.data.is_empty());
}

#[test]
fn from_envelope_numbers_header_then_ciphertext_chunks() {
    let header = vec![0x48u8; 10];
    let ciphertext: Vec<u8> = (0..400u32).map(|i| i as u8).collect();
    let fragments = split(&header, &ciphertext);
    assert_eq!(fragments.len(), 4);
    let digest: [u8; 32] = sha2::Sha256::digest(joined(&header, &ciphertext)).into();
    for (i, f) in fragments.iter().enumerate() {
        assert_eq!(f.index as usize, i + 1);
        assert_eq!(f.total, 4);
        assert_eq!(f.sha256, digest);
    }
    assert_eq!(fragments[0].data, header);
    assert_eq!(fragments[1].data, ciphertext[..176].to_vec());
    assert_eq!(fragments[2].data, ciphertext[176..352].to_vec());
    assert_eq!(fragments[3].data, ciphertext[352..].to_vec());
}

#[test]
fn from_envelope_of_empty_parts_has_no_fragments() {
    assert!(split(b"", b"").is_empty());
    let only_cipher = split(b"", &[5u8; 176]);
    assert_eq!(only_cipher.len(), 1);
    assert_eq!(only_cipher[0].index, 1);
}

#[test]
fn from_envelope_refuses_too_many_fragments() {
    let header = vec![0u8; MAX_FRAGMENT_PAYLOAD_SIZE * 65535 + 1];
    match FragmentedEnvelope::from_envelope(&header, b"") {
        Err(e) => assert_eq!(e, EnvelopeFragmentationError::TooManyFragments(65536, 65535)),
        Ok(_) => panic!("expected too many fragments"),
    }
    let exact = vec![0u8; MAX_FRAGMENT_PAYLOAD_SIZE * 65535];
    assert_eq!(FragmentedEnvelope::from_envelope(&exact, b"").unwrap().fragments().len(), 65535);
}

#[test]
fn reassembly_gives_back_the_envelope() {
    let header = b"header bytes".to_vec();
    let ciphertext = vec![0x5au8; 500];
    let assembled = assemble_fragments(split(&header, &ciphertext)).unwrap();
    assert_eq!(assembled, joined(&header, &ciphertext));
}

#[test]
fn reassembly_does_not_depend_on_order_or_repetition() {
    let header = vec![1u8; 200];
    let ciphertext: Vec<u8> = (0..600u32).map(|i| (i * 7) as u8).collect();
    let fragments = split(&header, &ciphertext);
    let mut shuffled: Vec<Fragment> = fragments.iter().rev().map(copy).collect();
    shuffled.push(copy(&fragments[2]));
    shuffled.insert(0, copy(&fragments[4]));
    assert_eq!(assemble_fragments(shuffled).unwrap(), joined(&header, &ciphertext));
}

#[test]
fn reassembly_through_framed_payloads() {
    let header = b"hdr".to_vec();
    let ciphertext = vec![0xc3u8; 1000];
    let payloads: Vec<Vec<u8>> = split(&header, &ciphertext).iter().rev().map(|f| f.to_bytes()).collect();
    let fragments = deserialize_fragments(&payloads).unwrap();
    assert_eq!(assemble_fragments(fragments).unwrap(), joined(&header, &ciphertext));
}

#[test]
fn deserialize_fragments_reports_the_first_bad_payload() {
    let good = fragment(1, 1, [0; 32], b"a").to_bytes();
    let mut bad_version = good.clone();
    bad_version[0] = 9;
    let payloads = vec![good.clone(), vec![1u8; 3], bad_version];
    assert_eq!(deserialize_fragments(&payloads).unwrap_err(), FragmentDeserializeError::InvalidHeader(3));
}

#[test]
fn no_fragment_reports_the_first_missing() {
    match assemble_fragments(Vec::new()) {
        Err(AssembleFragmentsError::MissingFragments(m)) => assert_eq!(m, vec![1]),
        other => panic!("unexpected {:?}", other),
    }
}

#[test]
fn missing_fragments_are_listed() {
    let fragments = split(&[2u8; 100], &[3u8; 700]);
    assert_eq!(fragments.len(), 5);
    let kept: Vec<Fragment> = fragments.iter().filter(|f| f.index != 2 && f.index != 5).map(copy).collect();
    match assemble_fragments(kept) {
        Err(AssembleFragmentsError::MissingFragments(m)) => assert_eq!(m, vec![2, 5]),
        other => panic!("unexpected {:?}", other),
    }
}

#[test]
fn a_fragment_numbered_zero_makes_every_index_missing() {
    let mut fragments = split(&[2u8; 10], &[3u8; 10]);
    fragments.push(fragment(0, 2, fragments[0].sha256, b"zero"));
    match assemble_fragments(fragments) {
        Err(AssembleFragmentsError::MissingFragments(m)) => assert_eq!(m, vec![1, 2]),
        other => panic!("unexpected {:?}", other),
    }
}

#[test]
fn differing_digests_conflict() {
    let mut fragments = split(&[2u8; 10], &[3u8; 10]);
    fragments[1].sha256[0] ^= 1;
    assert!(matches!(assemble_fragments(fragments), Err(AssembleFragmentsError::ConflictingSha256)));
}

#[test]
fn duplicates_with_different_data_report_the_smallest_index() {
    let fragments = split(&[2u8; 400], &[3u8; 400]);
    let mut changed3 = copy(&fragments[2]);
    changed3.data[0] ^= 1;
    let mut changed2 = copy(&fragments[1]);
    changed2.data[0] ^= 1;
    let mut all: Vec<Fragment> = fragments.iter().map(copy).collect();
    all.push(changed3);
    all.push(changed2);
    assert!(matches!(assemble_fragments(all), Err(AssembleFragmentsError::ConflictingDuplicate(2))));
}

#[test]
fn tampered_data_fails_the_digest() {
    let mut fragments = split(&[2u8; 10], &[3u8; 10]);
    fragments[1].data[0] ^= 0xff;
    let expected = hex(&fragments[0].sha256);
    let mut tampered = vec![2u8; 10];
    tampered.extend_from_slice(&fragments[1].data);
    let actual = hex(&sha2::Sha256::digest(&tampered));
    match assemble_fragments(fragments) {
        Err(AssembleFragmentsError::Sha256Mismatch { expected: e, actual: a }) => {
            assert_eq!(e, expected);
            assert_eq!(a, actual);
            assert_eq!(e.len(), 64);
            assert_ne!(e, a);
        }
        other => panic!("unexpected {:?}", other),
    }
}

#[test]
fn fragments_carry_the_sha256_of_the_envelope() {
    let fragments = split(b"a", b"bc");
    assert_eq!(
        hex(&fragments[0].sha256),
        "ba7816bf8f01cfea414140de5dae2223b00361a396177a9cb410ff61f20015ad"
    );
}

#[test]
fn mismatch_report_is_lower_case_hex() {
    let mut fragments = split(b"", b"x");
    fragments[0].sha256 = [0u8; 32];
    fragments[0].sha256[1] = 0x0f;
    fragments[0].sha256[2] = 0xa0;
    fragments[0].sha256[31] = 0xff;
    match assemble_fragments(fragments) {
        Err(AssembleFragmentsError::Sha256Mismatch { expected, actual }) => {
            assert_eq!(&expected[..6], "000fa0");
            assert_eq!(&expected[62..], "ff");
            assert_eq!(actual, hex(&sha2::Sha256::digest(b"x")));
        }
        other => panic!("unexpected {:?}", other),
    }
}
