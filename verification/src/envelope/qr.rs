//! The QR container format: a TAR archive of PNG images, each holding one QR symbol that
//! carries one fragment of the binary envelope.
pub mod checksum;
pub mod fragment;
pub mod image;
pub mod tar;

use self::fragment::{
    assemble_fragments, assemble_outcome, deserialize_fragments, fragment_total, parse_all,
    payload_views, AssembleFragmentsError, AssembleOutcome, EnvelopeFragmentationError,
    FragmentDeserializeError, FragmentedEnvelope, MAX_FRAGMENT_TOTAL,
    envelope_fragments, envelope_payloads, law_payloads_reassemble, same_payloads, SHA_256_SIZE,
    fragment_bytes, FragmentModel, lemma_envelope_fragments_fit, lemma_fitting_frame_len, fragment_fits,
};
use self::image::{
    byte_views, decode_images, encode_image, gathered_payloads, image_luma, image_read, is_luma8,
    qr_symbol, DecodeQrError, EcLevel, QR_IMAGE_SIDE, QR_PIXELS_PER_MODULE, QR_VERSION,
};
use self::checksum::sha256;
use self::tar::{plain_ext, archive_bytes, archive_contents, entry_name, numbered_name, pack, unpack, File};
use vstd::prelude::*;

verus! {

/// A failure of the `image` crate.
#[verifier::external_type_specification]
#[verifier::external_body]
pub struct ExImageError(::image::ImageError);

/// The PNG signature.
pub open spec fn png_magic() -> Seq<u8> {
    seq![0x89u8, 0x50u8, 0x4eu8, 0x47u8, 0x0du8, 0x0au8, 0x1au8, 0x0au8]
}

/// The JPEG start-of-image marker.
pub open spec fn jpeg_magic() -> Seq<u8> {
    seq![0xffu8, 0xd8u8]
}

/// The data is a single image rather than an archive: it starts like a PNG or a JPEG file.
pub open spec fn is_single_image(data: Seq<u8>) -> bool {
    data.take(png_magic().len() as int) == png_magic() && data.len() >= png_magic().len()
        || data.take(jpeg_magic().len() as int) == jpeg_magic() && data.len() >= jpeg_magic().len()
}

/// `image::load_from_memory` decodes `bytes` as an image of a format it recognizes.
pub uninterp spec fn image_decodes(bytes: Seq<u8>) -> bool;

/// The image that `image::load_from_memory` decodes from `bytes`.
pub uninterp spec fn decoded_image(bytes: Seq<u8>) -> ::image::DynamicImage;

/// Decodes an image with `image::load_from_memory`, guessing the format from the content.
///
/// Trusted: it succeeds exactly when `image_decodes` says so, with the image that
/// `decoded_image` names; nothing is said of the pixels.
#[verifier::external_body]
pub(crate) fn load_image(bytes: &[u8]) -> (res: Result<::image::DynamicImage, ::image::ImageError>)
    ensures
        res is Ok <==> image_decodes(bytes@),
        res matches Ok(image) ==> image == decoded_image(bytes@),
{
    ::image::load_from_memory(bytes)
}

/// The PNG file that `image::DynamicImage::write_to` writes of an image.
pub uninterp spec fn png_bytes(image: ::image::DynamicImage) -> Seq<u8>;

/// Encodes an image as PNG with `image::DynamicImage::write_to`.
///
/// Trusted: the encoding depends on the image alone and gives `png_bytes` of it. The `png`
/// encoder refuses only a zero width or height and invalid colour combinations; eight-bit
/// grey-scale is valid, and writing into a `Vec` never fails, so such an image of some pixels
/// is encoded. What the file holds is not stated.
#[verifier::external_body]
fn encode_png(image: &::image::DynamicImage) -> (res: Result<Vec<u8>, ::image::ImageError>)
    ensures
        is_luma8(*image) && image_luma(*image).1 > 0 && image_luma(*image).2 > 0 ==> res is Ok,
        res matches Ok(content) ==> content@ == png_bytes(*image),
{
    let mut content = Vec::new();
    image.write_to(&mut std::io::Cursor::new(&mut content), ::image::ImageFormat::Png)?;
    Ok(content)
}

/// `data` starts with `prefix`.
fn has_prefix(data: &[u8], prefix: &[u8]) -> (res: bool)
    ensures
        res == (data@.len() >= prefix@.len() && data@.take(prefix@.len() as int) == prefix@),
{
    if data.len() < prefix.len() {
        return false;
    }
    let mut i: usize = 0;
    while i < prefix.len()
        invariant
            data@.len() >= prefix@.len(),
            i <= prefix@.len(),
            forall|j: int| 0 <= j < i ==> data@[j] == prefix@[j],
        decreases prefix@.len() - i,
    {
        if data[i] != prefix[i] {
            assert(data@.take(prefix@.len() as int)[i as int] != prefix@[i as int]);
            return false;
        }
        i = i + 1;
    }
    assert(data@.take(prefix@.len() as int) =~= prefix@);
    true
}

/// Why images could not be encoded as PNG files.
#[derive(Debug)]
pub enum EncodePngFilesError {
    Write(::image::ImageError),
}

/// Encodes each image as a PNG file named after its position: `00001.png`, `00002.png`, ...
/// File `i` holds the PNG encoding of image `i`. Grey-scale images of some pixels are always
/// encoded.
pub fn encode_png_files(images: &Vec<::image::DynamicImage>) -> (res: Result<
    Vec<File>,
    EncodePngFilesError,
>)
    ensures
        (forall|i: int|
            0 <= i < images@.len() ==> is_luma8(#[trigger] images@[i]) && image_luma(images@[i]).1
                > 0 && image_luma(images@[i]).2 > 0) ==> res is Ok,
        res matches Ok(files) ==> files@.len() == images@.len() && forall|i: int|
            0 <= i < files@.len() ==> (#[trigger] files@[i]).path@ == entry_name(
                (i + 1) as nat,
                seq!['p', 'n', 'g'],
            ) && files@[i].content@ == png_bytes(images@[i]),
{
    let mut files: Vec<File> = Vec::new();
    let mut i: usize = 0;
    while i < images.len()
        invariant
            i <= images@.len(),
            files@.len() == i,
            forall|k: int|
                0 <= k < i ==> (#[trigger] files@[k]).path@ == entry_name(
                    (k + 1) as nat,
                    seq!['p', 'n', 'g'],
                ) && files@[k].content@ == png_bytes(images@[k]),
        decreases images@.len() - i,
    {
        let content = match encode_png(&images[i]) {
            Ok(content) => content,
            Err(e) => return Err(EncodePngFilesError::Write(e)),
        };
        let ext = "png";
        proof {
            reveal_strlit("png");
        }
        assert(ext@ == seq!['p', 'n', 'g']);
        let path = numbered_name(i + 1, ext);
        files.push(File { path, content });
        i = i + 1;
    }
    Ok(files)
}

/// Why images could not be taken out of a container.
#[derive(Debug)]
pub enum ExtractImagesError {
    LoadImage(::image::ImageError),
    UnpackTar(self::tar::UnpackError),
}

/// Every file of the archive decodes as an image.
pub open spec fn all_decode(files: Seq<(Seq<char>, Seq<u8>)>) -> bool {
    forall|k: int| 0 <= k < files.len() ==> image_decodes(#[trigger] files[k].1)
}

/// The images of a container: the container itself when it is a PNG or JPEG file, otherwise
/// each file of the archive that it is, in order.
pub open spec fn container_images(data: Seq<u8>) -> Seq<::image::DynamicImage> {
    if is_single_image(data) {
        seq![decoded_image(data)]
    } else {
        archive_contents(data)->Some_0.map_values(|e: (Seq<char>, Seq<u8>)| decoded_image(e.1))
    }
}

/// Takes the images out of a container: the container itself when it is a PNG or JPEG file,
/// otherwise each file of the TAR archive that it is, in order.
pub fn extract_images(data: &[u8]) -> (res: Result<Vec<::image::DynamicImage>, ExtractImagesError>)
    ensures
        res matches Ok(images) ==> images@ == container_images(data@),
        is_single_image(data@) ==> {
            &&& res is Ok <==> image_decodes(data@)
            &&& res matches Ok(images) ==> images@.len() == 1
            &&& res matches Err(e) ==> e is LoadImage
        },
        !is_single_image(data@) ==> {
            &&& res is Ok <==> (archive_contents(data@) is Some && all_decode(
                archive_contents(data@)->Some_0,
            ))
            &&& res matches Ok(images) ==> images@.len() == archive_contents(data@)->Some_0.len()
            &&& res matches Err(e) ==> (e is UnpackTar <==> archive_contents(data@) is None)
        },
{
    let png_signature: [u8; 8] = [0x89u8, 0x50u8, 0x4eu8, 0x47u8, 0x0du8, 0x0au8, 0x1au8, 0x0au8];
    let jpeg_signature: [u8; 2] = [0xffu8, 0xd8u8];
    assert(png_signature@ =~= png_magic());
    assert(jpeg_signature@ =~= jpeg_magic());
    let png = has_prefix(data, png_signature.as_slice());
    let jpeg = has_prefix(data, jpeg_signature.as_slice());
    if png || jpeg {
        let image = match load_image(data) {
            Ok(image) => image,
            Err(e) => return Err(ExtractImagesError::LoadImage(e)),
        };
        let mut images: Vec<::image::DynamicImage> = Vec::new();
        images.push(image);
        assert(images@ =~= container_images(data@));
        return Ok(images);
    }
    let files = match unpack(data) {
        Ok(files) => files,
        Err(e) => return Err(ExtractImagesError::UnpackTar(e)),
    };
    let ghost contents = archive_contents(data@)->Some_0;
    let mut images: Vec<::image::DynamicImage> = Vec::new();
    let mut i: usize = 0;
    while i < files.len()
        invariant
            !is_single_image(data@),
            archive_contents(data@) == Some(contents),
            contents == self::tar::file_views(files@),
            i <= files@.len(),
            images@.len() == i,
            forall|k: int| 0 <= k < i ==> image_decodes(#[trigger] contents[k].1),
            forall|k: int| 0 <= k < i ==> #[trigger] images@[k] == decoded_image(contents[k].1),
        decreases files@.len() - i,
    {
        assert(contents[i as int].1 == files@[i as int].content@);
        let image = match load_image(files[i].content.as_slice()) {
            Ok(image) => image,
            Err(e) => {
                assert(!image_decodes(contents[i as int].1));
                assert(!all_decode(contents));
                return Err(ExtractImagesError::LoadImage(e));
            },
        };
        images.push(image);
        i = i + 1;
    }
    assert(images@ =~= container_images(data@));
    Ok(images)
}


/// The entries of a QR container: the PNG files `00001.png`, `00002.png`, ... with these contents.
pub open spec fn png_entries(pngs: Seq<Seq<u8>>) -> Seq<(Seq<char>, Seq<u8>)> {
    Seq::new(pngs.len(), |i: int| (entry_name((i + 1) as nat, seq!['p', 'n', 'g']), pngs[i]))
}

/// The entries of a QR container are the PNG files in order, the `i`-th named `0000i.png` by its
/// position counted from 1.
pub proof fn law_png_entries(pngs: Seq<Seq<u8>>)
    ensures
        png_entries(pngs).len() == pngs.len(),
        forall|i: int|
            0 <= i < pngs.len() ==> #[trigger] png_entries(pngs)[i] == (
                entry_name((i + 1) as nat, seq!['p', 'n', 'g']),
                pngs[i],
            ),
{
}

/// A container is read as one image exactly when it starts with the eight bytes of the PNG
/// signature or with the two bytes of the JPEG start-of-image marker.
pub proof fn law_single_image(data: Seq<u8>)
    ensures
        is_single_image(data) <==> (data.len() >= 8 && data[0] == 0x89 && data[1] == 0x50
            && data[2] == 0x4e && data[3] == 0x47 && data[4] == 0x0d && data[5] == 0x0a
            && data[6] == 0x1a && data[7] == 0x0a) || (data.len() >= 2 && data[0] == 0xff
            && data[1] == 0xd8),
{
    if data.len() >= 8 {
        assert(data.take(8)[0] == data[0] && data.take(8)[1] == data[1] && data.take(8)[2] == data[2]
            && data.take(8)[3] == data[3] && data.take(8)[4] == data[4] && data.take(8)[5] == data[5]
            && data.take(8)[6] == data[6] && data.take(8)[7] == data[7]);
        if data[0] == 0x89 && data[1] == 0x50 && data[2] == 0x4e && data[3] == 0x47 && data[4] == 0x0d
            && data[5] == 0x0a && data[6] == 0x1a && data[7] == 0x0a {
            assert(data.take(8) =~= png_magic());
        }
    }
    if data.len() >= 2 {
        assert(data.take(2)[0] == data[0] && data.take(2)[1] == data[1]);
        if data[0] == 0xff && data[1] == 0xd8 {
            assert(data.take(2) =~= jpeg_magic());
        }
    }
}

/// Why an envelope could not be written as a QR container.
#[derive(Debug)]
pub enum SerializeError {
    EnvelopeFragmentation(EnvelopeFragmentationError),
    Encode(qrcode::types::QrError),
    EncodePngFiles(EncodePngFilesError),
    PackTar(self::tar::PackError),
}

/// The image of the QR symbol that carries a framed fragment.
pub open spec fn fragment_symbol(f: FragmentModel) -> ::image::DynamicImage {
    qr_symbol(fragment_bytes(f), QR_VERSION, EcLevel::M, QR_PIXELS_PER_MODULE)
}

/// The PNG files of the symbols of an envelope, one per fragment, in order.
pub open spec fn envelope_pngs(header: Seq<u8>, ciphertext: Seq<u8>) -> Seq<Seq<u8>> {
    let e = envelope_fragments(header, ciphertext, sha256(header + ciphertext));
    Seq::new(e.len(), |k: int| png_bytes(fragment_symbol(e[k])))
}

/// The PNG files of an envelope are one per fragment, in the order of the fragments, each the
/// PNG encoding of the QR symbol that carries that fragment framed as bytes.
pub proof fn law_envelope_pngs(header: Seq<u8>, ciphertext: Seq<u8>)
    ensures
        envelope_pngs(header, ciphertext).len() == envelope_fragments(
            header,
            ciphertext,
            sha256(header + ciphertext),
        ).len(),
        forall|k: int|
            0 <= k < envelope_pngs(header, ciphertext).len() ==> #[trigger] envelope_pngs(
                header,
                ciphertext,
            )[k] == png_bytes(
                qr_symbol(
                    fragment_bytes(envelope_fragments(header, ciphertext, sha256(header + ciphertext))[k]),
                    10,
                    EcLevel::M,
                    10,
                ),
            ),
{
}

/// Writes an envelope, given as its serialized header and its ciphertext, as a QR container:
/// one QR symbol per fragment, each as a PNG file, all in a TAR archive. It fails only when the
/// envelope needs more fragments than an index can count.
pub fn serialize(header_bytes: &[u8], ciphertext: &[u8]) -> (res: Result<Vec<u8>, SerializeError>)
    ensures
        fragment_total(header_bytes@, ciphertext@) > MAX_FRAGMENT_TOTAL <==> res is Err,
        res matches Err(e) ==> e == SerializeError::EnvelopeFragmentation(
            EnvelopeFragmentationError::TooManyFragments(
                fragment_total(header_bytes@, ciphertext@) as usize,
                MAX_FRAGMENT_TOTAL as usize,
            ),
        ),
        res matches Ok(bytes) ==> bytes@ == archive_bytes(
            png_entries(envelope_pngs(header_bytes@, ciphertext@)),
        ) && archive_contents(bytes@) == Some(png_entries(envelope_pngs(header_bytes@, ciphertext@))),
{
    let fragmented = match FragmentedEnvelope::from_envelope(header_bytes, ciphertext) {
        Ok(fragmented) => fragmented,
        Err(e) => return Err(SerializeError::EnvelopeFragmentation(e)),
    };
    let ghost digest = sha256(header_bytes@ + ciphertext@);
    let ghost e = envelope_fragments(header_bytes@, ciphertext@, digest);
    proof {
        lemma_envelope_fragments_fit(header_bytes@, ciphertext@, digest);
    }
    let fragments = fragmented.fragments();
    let mut images: Vec<::image::DynamicImage> = Vec::new();
    let mut i: usize = 0;
    while i < fragments.len()
        invariant
            e == envelope_fragments(header_bytes@, ciphertext@, digest),
            fragmented.fragment_models() == e,
            fragments@.len() == e.len(),
            forall|j: int| 0 <= j < fragments@.len() ==> fragments@[j]@ == e[j],
            forall|j: int| 0 <= j < e.len() ==> fragment_fits(#[trigger] e[j]),
            i <= fragments@.len(),
            images@.len() == i,
            forall|j: int|
                0 <= j < i ==> #[trigger] images@[j] == fragment_symbol(e[j]) && is_luma8(
                    images@[j],
                ) && image_luma(images@[j]).1 == QR_IMAGE_SIDE && image_luma(images@[j]).2
                    == QR_IMAGE_SIDE,
        decreases fragments@.len() - i,
    {
        let payload = fragments[i].to_bytes();
        proof {
            lemma_fitting_frame_len(e[i as int]);
        }
        let image = match encode_image(payload.as_slice()) {
            Ok(image) => image,
            Err(e) => return Err(SerializeError::Encode(e)),
        };
        images.push(image);
        i = i + 1;
    }
    let files = match encode_png_files(&images) {
        Ok(files) => files,
        Err(e) => return Err(SerializeError::EncodePngFiles(e)),
    };
    let ghost views = self::tar::file_views(files@);
    proof {
        let pngs = envelope_pngs(header_bytes@, ciphertext@);
        assert(png_entries(pngs) =~= views);
        let png = seq!['p', 'n', 'g'];
        assert(plain_ext(png)) by {
            assert forall|i: int| 0 <= i < png.len() implies self::tar::plain_char(
                #[trigger] png[i],
            ) by {}
        }
        assert forall|k: int| 0 <= k < views.len() implies self::tar::plain_name(
            #[trigger] views[k].0,
        ) by {
            self::tar::lemma_entry_name_plain((k + 1) as nat, seq!['p', 'n', 'g']);
        }
    }
    let packed = match pack(files.as_slice()) {
        Ok(bytes) => bytes,
        Err(e) => return Err(SerializeError::PackTar(e)),
    };
    Ok(packed)
}

/// The images of a container all decode: the container itself when it is a PNG or JPEG file,
/// otherwise every file of the archive that it is.
pub open spec fn images_extract(data: Seq<u8>) -> bool {
    if is_single_image(data) {
        image_decodes(data)
    } else {
        archive_contents(data) is Some && all_decode(archive_contents(data)->Some_0)
    }
}

/// Why a QR container could not be read back into a binary envelope.
#[derive(Debug)]
pub enum DeserializeError {
    FragmentDeserialize(FragmentDeserializeError),
    ExtractImages(ExtractImagesError),
    AssembleFragments(AssembleFragmentsError),
}

/// What reading `payloads` yields when `res` came of it: the error of the first payload that is
/// not a fragment, or else the outcome of reassembling all the fragments that they hold.
pub open spec fn payloads_yield(payloads: Seq<Seq<u8>>, res: Result<Vec<u8>, DeserializeError>) -> bool {
    match parse_all(payloads) {
        Err(e) => res matches Err(DeserializeError::FragmentDeserialize(found)) && found == e,
        Ok(fs) => match res {
            Ok(envelope) => assemble_outcome(fs) == AssembleOutcome::Assembled(envelope@),
            Err(DeserializeError::AssembleFragments(e)) => assemble_outcome(fs) == e.outcome(),
            Err(_) => false,
        },
    }
}

/// Reads the QR payloads of a container back into the binary envelope: each payload as a
/// fragment, then the fragments reassembled.
pub fn deserialize_payloads(payloads: &[Vec<u8>]) -> (res: Result<Vec<u8>, DeserializeError>)
    ensures
        payloads_yield(payload_views(payloads@), res),
{
    let fragments = match deserialize_fragments(payloads) {
        Ok(fragments) => fragments,
        Err(e) => return Err(DeserializeError::FragmentDeserialize(e)),
    };
    match assemble_fragments(fragments) {
        Ok(envelope) => Ok(envelope),
        Err(e) => Err(DeserializeError::AssembleFragments(e)),
    }
}

/// Reading payloads that hold the framed fragments of an envelope, each at least once, in any
/// order, and nothing else, gives back the envelope.
pub proof fn law_payloads_yield_envelope(
    header: Seq<u8>,
    ciphertext: Seq<u8>,
    payloads: Seq<Seq<u8>>,
    res: Result<Vec<u8>, DeserializeError>,
)
    requires
        fragment_total(header, ciphertext) <= MAX_FRAGMENT_TOTAL,
        header.len() + ciphertext.len() > 0,
        sha256(header + ciphertext).len() == SHA_256_SIZE,
        same_payloads(payloads, envelope_payloads(header, ciphertext)),
        payloads_yield(payloads, res),
    ensures
        res matches Ok(envelope) && envelope@ == header + ciphertext,
{
    law_payloads_reassemble(header, ciphertext, payloads);
}

/// Reads a QR container back into the binary envelope: takes the images out, reads the QR
/// payloads of each and reads those as `deserialize_payloads` does.
///
/// What `rxing` reads from the images is not stated; whatever payloads it reads, the result is
/// what reading exactly those payloads gives.
pub fn deserialize(data: &[u8]) -> (res: Result<Vec<u8>, DeserializeError>)
    ensures
        res matches Err(DeserializeError::ExtractImages(_)) <==> !images_extract(data@),
        images_extract(data@) ==> exists|reads: Seq<Result<Vec<Vec<u8>>, DecodeQrError>>|
            reads.len() == container_images(data@).len() && (forall|k: int|
                0 <= k < reads.len() ==> image_read(container_images(data@)[k], #[trigger] reads[k]))
                && #[trigger] payloads_yield(gathered_payloads(reads), res),
{
    let images = match extract_images(data) {
        Ok(images) => images,
        Err(e) => return Err(DeserializeError::ExtractImages(e)),
    };
    let payloads = decode_images(&images);
    let res = deserialize_payloads(payloads.as_slice());
    proof {
        let reads = choose|reads: Seq<Result<Vec<Vec<u8>>, DecodeQrError>>|
            reads.len() == images@.len() && (forall|k: int|
                0 <= k < reads.len() ==> image_read(images@[k], #[trigger] reads[k]))
                && byte_views(payloads@) == gathered_payloads(reads);
        assert(payload_views(payloads@) =~= byte_views(payloads@));
        assert(payloads_yield(gathered_payloads(reads), res));
    }
    res
}

} // verus!
