//! Rendering payloads as QR symbols and reading payloads back from images.
use rxing::common::DetectorRXingResult;
use vstd::prelude::*;

verus! {

/// Bytes that one symbol holds: version 10, error correction level M, byte mode.
pub const QR_CAPACITY: usize = 213;

/// QR version of the symbols that carry fragments.
pub const QR_VERSION: i16 = 10;

/// Size of one QR module in pixels.
pub const QR_PIXELS_PER_MODULE: u32 = 10;

/// Error correction level of a QR symbol.
#[derive(Clone, Copy, Debug, PartialEq, Eq, Structural)]
pub enum EcLevel {
    /// About 7% of the symbol may be lost.
    L,
    /// About 15%.
    M,
    /// About 25%.
    Q,
    /// About 30%.
    H,
}

/// A decoded raster image.
#[verifier::external_type_specification]
#[verifier::external_body]
pub struct ExDynamicImage(::image::DynamicImage);

/// Why `qrcode` could not render a payload.
#[verifier::external_type_specification]
#[verifier::external_body]
pub struct ExQrError(qrcode::types::QrError);

/// What `rxing` reports when it fails.
#[verifier::external_type_specification]
#[verifier::external_body]
pub struct ExExceptions(rxing::Exceptions);

/// The image of the QR symbol that `qrcode` renders of `payload` in byte mode at this version
/// and error correction level, `pixels` pixels per module, grey-scale.
pub uninterp spec fn qr_symbol(payload: Seq<u8>, version: i16, ec_level: EcLevel, pixels: u32) -> ::image::DynamicImage;

/// Size of a module in pixels when `pixels` are asked for: the renderer draws at least one.
pub open spec fn module_pixels(pixels: u32) -> nat {
    if pixels == 0 {
        1
    } else {
        pixels as nat
    }
}

/// The image holds grey-scale pixels, eight bits each.
pub uninterp spec fn is_luma8(image: ::image::DynamicImage) -> bool;

/// Renders `payload` in byte mode as a QR symbol of the given version and error correction
/// level, `pixels` pixels per module, as a grey-scale image, with
/// `qrcode::bits::Bits::{new, push_byte_data, push_terminator}`, `qrcode::QrCode::with_bits`
/// and its renderer.
///
/// Trusted: at version 10 and level M the data capacity is 1728 bits (`DATA_LENGTHS`) and byte
/// mode spends 4 + 16 + 8 * n bits on n bytes, so the rendering succeeds exactly when the payload
/// has at most 213 bytes. The image is `qr_symbol` of the arguments, a `Luma<u8>` image; for a
/// version from 1 to 40 it has `17 + 4 * version` modules and a quiet zone of four on each side,
/// so it is `(4 * version + 25)` modules on a side, each `pixels` pixels wide but at least one
/// (`Renderer::module_dimensions` raises zero to one). Nothing is said of the pixels.
#[verifier::external_body]
fn render_symbol(payload: &[u8], version: i16, ec_level: EcLevel, pixels: u32) -> (res: Result<
    ::image::DynamicImage,
    qrcode::types::QrError,
>)
    requires
        payload@.len() <= usize::MAX / 16,
        185 * module_pixels(pixels) <= u32::MAX,
    ensures
        version == 10 && ec_level == EcLevel::M ==> (res is Ok <==> payload@.len() <= 213),
        res matches Ok(image) ==> image == qr_symbol(payload@, version, ec_level, pixels),
        res matches Ok(image) ==> is_luma8(image),
        res matches Ok(image) ==> (1 <= version <= 40 ==> image_luma(image).1 == (4 * version
            + 25) * module_pixels(pixels) && image_luma(image).2 == (4 * version + 25)
            * module_pixels(pixels)),
{
    let level = match ec_level {
        EcLevel::L => qrcode::EcLevel::L,
        EcLevel::M => qrcode::EcLevel::M,
        EcLevel::Q => qrcode::EcLevel::Q,
        EcLevel::H => qrcode::EcLevel::H,
    };
    let mut bits = qrcode::bits::Bits::new(qrcode::Version::Normal(version));
    bits.push_byte_data(payload)?;
    bits.push_terminator(level)?;
    let code = qrcode::QrCode::with_bits(bits, level)?;
    let img = code.render::<::image::Luma<u8>>().module_dimensions(pixels, pixels).build();
    Ok(::image::DynamicImage::ImageLuma8(img))
}

/// Side, in pixels, of the image of one symbol: 57 modules and the quiet zone, ten pixels each.
pub const QR_IMAGE_SIDE: u32 = 650;

/// Renders a payload as the QR symbol that carries it: version 10, error correction level M,
/// byte mode, ten pixels per module, grey-scale, 650 pixels on a side. It fails exactly when the
/// payload exceeds the capacity of one symbol.
pub fn encode_image(payload: &[u8]) -> (res: Result<::image::DynamicImage, qrcode::types::QrError>)
    requires
        payload@.len() <= usize::MAX / 16,
    ensures
        res is Ok <==> payload@.len() <= QR_CAPACITY,
        res matches Ok(image) ==> image == qr_symbol(payload@, QR_VERSION, EcLevel::M, QR_PIXELS_PER_MODULE),
        res matches Ok(image) ==> is_luma8(image),
        res matches Ok(image) ==> image_luma(image).1 == QR_IMAGE_SIDE && image_luma(image).2
            == QR_IMAGE_SIDE,
{
    assert(module_pixels(QR_PIXELS_PER_MODULE) == 10);
    render_symbol(payload, QR_VERSION, EcLevel::M, QR_PIXELS_PER_MODULE)
}

/// The grey-scale pixels of an image, row by row, with its width and height, as
/// `image::DynamicImage::to_luma8` converts them.
pub uninterp spec fn image_luma(image: ::image::DynamicImage) -> (Seq<u8>, u32, u32);

/// The grey-scale pixels of an image, row by row, with its width and height, with
/// `image::DynamicImage::to_luma8` and the buffer's `dimensions` and `into_raw`.
///
/// Trusted: the conversion depends on the image alone, and its result is `image_luma` of the
/// image; a `Luma<u8>` buffer holds one byte per pixel. Nothing else is said of the pixels.
#[verifier::external_body]
fn luma_pixels(image: &::image::DynamicImage) -> (res: (Vec<u8>, u32, u32))
    ensures
        res.0@.len() == res.1 * res.2,
        (res.0@, res.1, res.2) == image_luma(*image),
{
    let luma = image.to_luma8();
    let (width, height) = luma.dimensions();
    (luma.into_raw(), width, height)
}

/// What `rxing` reads from grey-scale pixels, trying harder: `None` when its multi-symbol
/// detector fails, otherwise, for each symbol it locates in turn, the byte segments that its QR
/// decoder reads, or `None` when the decoder fails.
pub uninterp spec fn qr_read(luma: Seq<u8>, width: u32, height: u32) -> Option<
    Seq<Option<Seq<Seq<u8>>>>,
>;

/// Locates the QR symbols in grey-scale pixels with `rxing`'s `MultiDetector::detectMulti`, on
/// the pixels binarized by `HybridBinarizer`, and decodes each with
/// `qrcode_decoder::decode_bitmatrix_with_hints`, both with the `TryHarder` hint.
///
/// Trusted: the outcome is `qr_read` of the pixels and the size. An image without pixels makes
/// `BinaryBitmap::get_black_matrix` panic, and pixels that do not fill the size are out of the
/// source's bounds; both are left out. Otherwise the detector and the decoder report failures as
/// errors: their sources (outside the tests) call no `unwrap`, `expect` or `panic!`; that no
/// index goes out of bounds on some pixels is not shown here.
#[verifier::external_body]
fn read_symbols(luma: Vec<u8>, width: u32, height: u32) -> (res: Result<
    Vec<Result<Vec<Vec<u8>>, rxing::Exceptions>>,
    rxing::Exceptions,
>)
    requires
        width > 0,
        height > 0,
        luma@.len() == width * height,
    ensures
        match res {
            Ok(decoded) => qr_read(luma@, width, height) == Some(symbol_views(decoded@)),
            Err(_) => qr_read(luma@, width, height) is None,
        },
{
    let hints = rxing::DecodeHints::default().with(rxing::DecodeHintValue::TryHarder(true));
    let source = rxing::Luma8LuminanceSource::new(luma, width, height);
    let bitmap = rxing::BinaryBitmap::new(rxing::common::HybridBinarizer::new(source));
    let detector = rxing::multi::qrcode::detector::MultiDetector::new(bitmap.get_black_matrix());
    Ok(detector.detectMulti(&hints)?.iter().map(|symbol| {
        rxing::qrcode::decoder::qrcode_decoder::decode_bitmatrix_with_hints(symbol.getBits(), &hints)
            .map(|decoded| decoded.getByteSegments().clone())
    }).collect())
}

/// Why no payload was read from an image.
#[derive(Debug)]
pub enum DecodeQrError {
    /// The detector failed.
    Detect(rxing::Exceptions),
    /// No symbol in the image could be decoded.
    NotFound,
}

/// The byte segments of a symbol, joined.
pub open spec fn joined_segments(segments: Seq<Seq<u8>>) -> Seq<u8>
    decreases segments.len(),
{
    if segments.len() == 0 {
        seq![]
    } else {
        joined_segments(segments.drop_last()) + segments.last()
    }
}

/// The byte strings of a list of buffers.
pub open spec fn byte_views(v: Seq<Vec<u8>>) -> Seq<Seq<u8>> {
    v.map_values(|b: Vec<u8>| b@)
}

/// Appends `src` to `buf`.
fn append_bytes(buf: &mut Vec<u8>, src: &Vec<u8>)
    ensures
        final(buf)@ == old(buf)@ + src@,
{
    let mut i: usize = 0;
    while i < src.len()
        invariant
            i <= src@.len(),
            buf@ == old(buf)@ + src@.subrange(0, i as int),
        decreases src@.len() - i,
    {
        buf.push(src[i]);
        i = i + 1;
        assert(src@.subrange(0, i as int) == src@.subrange(0, i - 1) + seq![src@[i - 1]]);
    }
    assert(src@.subrange(0, src@.len() as int) == src@);
}

/// Joins the byte segments of a symbol.
fn join_segments(segments: &Vec<Vec<u8>>) -> (joined: Vec<u8>)
    ensures
        joined@ == joined_segments(byte_views(segments@)),
{
    let ghost views = byte_views(segments@);
    let mut joined: Vec<u8> = Vec::new();
    let mut i: usize = 0;
    while i < segments.len()
        invariant
            views == byte_views(segments@),
            i <= segments@.len(),
            joined@ == joined_segments(views.take(i as int)),
        decreases segments@.len() - i,
    {
        assert(views.take(i + 1).drop_last() =~= views.take(i as int));
        append_bytes(&mut joined, &segments[i]);
        i = i + 1;
    }
    assert(views.take(segments@.len() as int) =~= views);
    joined
}

/// What decoding one located symbol gave: its byte segments, or nothing when it did not decode.
pub open spec fn symbol_view(decoded: Result<Vec<Vec<u8>>, rxing::Exceptions>) -> Option<Seq<Seq<u8>>> {
    match decoded {
        Ok(segments) => Some(byte_views(segments@)),
        Err(_) => None,
    }
}

/// What decoding each located symbol of an image gave.
pub open spec fn symbol_views(decoded: Seq<Result<Vec<Vec<u8>>, rxing::Exceptions>>) -> Seq<
    Option<Seq<Seq<u8>>>,
> {
    decoded.map_values(|d: Result<Vec<Vec<u8>>, rxing::Exceptions>| symbol_view(d))
}

/// The payloads of the symbols that decoded, in order: the joined byte segments of each.
pub open spec fn decoded_payloads(decoded: Seq<Option<Seq<Seq<u8>>>>) -> Seq<Seq<u8>>
    decreases decoded.len(),
{
    if decoded.len() == 0 {
        seq![]
    } else {
        let before = decoded_payloads(decoded.drop_last());
        match decoded.last() {
            Some(segments) => before.push(joined_segments(segments)),
            None => before,
        }
    }
}

/// Reads the payloads of an image from what decoding each of its located symbols gave: the
/// joined byte segments of every symbol that decoded, in order; `NotFound` when none did.
pub fn payloads_from_symbols(decoded: Vec<Result<Vec<Vec<u8>>, rxing::Exceptions>>) -> (res: Result<
    Vec<Vec<u8>>,
    DecodeQrError,
>)
    ensures
        match res {
            Ok(payloads) => byte_views(payloads@) == decoded_payloads(symbol_views(decoded@))
                && payloads@.len() > 0,
            Err(e) => e is NotFound && decoded_payloads(symbol_views(decoded@)).len() == 0,
        },
{
    let ghost views = symbol_views(decoded@);
    let mut payloads: Vec<Vec<u8>> = Vec::new();
    let mut i: usize = 0;
    while i < decoded.len()
        invariant
            views == symbol_views(decoded@),
            i <= decoded@.len(),
            byte_views(payloads@) == decoded_payloads(views.take(i as int)),
        decreases decoded@.len() - i,
    {
        assert(views.take(i + 1).drop_last() =~= views.take(i as int));
        assert(views.take(i + 1).last() == symbol_view(decoded@[i as int]));
        match &decoded[i] {
            Ok(segments) => {
                let joined = join_segments(segments);
                let ghost before = payloads@;
                payloads.push(joined);
                assert(byte_views(payloads@) =~= byte_views(before).push(joined@));
            },
            Err(_) => {},
        }
        i = i + 1;
    }
    assert(views.take(decoded@.len() as int) =~= views);
    if payloads.len() == 0 {
        return Err(DecodeQrError::NotFound);
    }
    Ok(payloads)
}

/// What reading the payloads of grey-scale pixels gives, when `res` came of it: no payload
/// from an image without pixels; the detector's failure; otherwise the joined byte segments of
/// every symbol that decoded, in order, or `NotFound` when none did.
pub open spec fn luma_read(luma: Seq<u8>, width: u32, height: u32, res: Result<Vec<Vec<u8>>, DecodeQrError>) -> bool {
    if width == 0 || height == 0 {
        res matches Err(DecodeQrError::NotFound)
    } else {
        match qr_read(luma, width, height) {
            None => res matches Err(DecodeQrError::Detect(_)),
            Some(decoded) => if decoded_payloads(decoded).len() == 0 {
                res matches Err(DecodeQrError::NotFound)
            } else {
                res matches Ok(payloads) && byte_views(payloads@) == decoded_payloads(decoded)
            },
        }
    }
}

/// Reads the payloads of the QR symbols in grey-scale pixels, `width` by `height`, row by row.
pub fn decode_luma(luma: Vec<u8>, width: u32, height: u32) -> (res: Result<Vec<Vec<u8>>, DecodeQrError>)
    requires
        luma@.len() == width * height,
    ensures
        luma_read(luma@, width, height, res),
{
    if width == 0 || height == 0 {
        return Err(DecodeQrError::NotFound);
    }
    let ghost pixels = luma@;
    let decoded = match read_symbols(luma, width, height) {
        Ok(decoded) => decoded,
        Err(e) => return Err(DecodeQrError::Detect(e)),
    };
    let res = payloads_from_symbols(decoded);
    assert(luma_read(pixels, width, height, res));
    res
}

/// Reads the payloads of the QR symbols in an image, as `decode_luma` does with its grey-scale
/// pixels.
///
/// What the pixels are is not stated; the result is what reading them gives.
pub fn decode_image(image: &::image::DynamicImage) -> (res: Result<Vec<Vec<u8>>, DecodeQrError>)
    ensures
        luma_read(image_luma(*image).0, image_luma(*image).1, image_luma(*image).2, res),
        res matches Ok(payloads) ==> payloads@.len() > 0,
{
    let (luma, width, height) = luma_pixels(image);
    let ghost pixels = luma@;
    let res = decode_luma(luma, width, height);
    assert(luma_read(pixels, width, height, res));
    res
}

/// What reading one image gave: its payloads, or nothing when none was found.
pub open spec fn image_payloads(read: Result<Vec<Vec<u8>>, DecodeQrError>) -> Seq<Seq<u8>> {
    match read {
        Ok(payloads) => byte_views(payloads@),
        Err(_) => seq![],
    }
}

/// All the payloads read from a sequence of images, in order.
pub open spec fn gathered_payloads(reads: Seq<Result<Vec<Vec<u8>>, DecodeQrError>>) -> Seq<Seq<u8>>
    decreases reads.len(),
{
    if reads.len() == 0 {
        seq![]
    } else {
        gathered_payloads(reads.drop_last()) + image_payloads(reads.last())
    }
}

/// Joining the segments of two runs one after the other joins each run and puts them together;
/// one segment alone is joined as itself.
pub proof fn law_joined_segments(a: Seq<Seq<u8>>, b: Seq<Seq<u8>>, x: Seq<u8>)
    ensures
        joined_segments(a + b) == joined_segments(a) + joined_segments(b),
        joined_segments(seq![x]) == x,
    decreases b.len(),
{
    if b.len() == 0 {
        assert(a + b =~= a);
        assert(joined_segments(a) + seq![] =~= joined_segments(a));
    } else {
        law_joined_segments(a, b.drop_last(), x);
        assert((a + b).drop_last() =~= a + b.drop_last());
        assert(joined_segments(a) + joined_segments(b.drop_last()) + b.last() =~= joined_segments(a)
            + (joined_segments(b.drop_last()) + b.last()));
    }
    let one = seq![x];
    assert(one.drop_last() =~= Seq::<Seq<u8>>::empty());
    assert(one.last() == x);
    assert(joined_segments(one.drop_last()) == Seq::<u8>::empty());
    assert(Seq::<u8>::empty() + x =~= x);
}

/// The payloads of the symbols of an image are those of its first symbols followed by those of
/// the rest: a symbol that decoded gives its joined segments, one that did not gives nothing.
pub proof fn law_decoded_payloads(a: Seq<Option<Seq<Seq<u8>>>>, b: Seq<Option<Seq<Seq<u8>>>>, segments: Seq<Seq<u8>>)
    ensures
        decoded_payloads(a + b) == decoded_payloads(a) + decoded_payloads(b),
        decoded_payloads(seq![Some(segments)]) == seq![joined_segments(segments)],
        decoded_payloads(seq![None::<Seq<Seq<u8>>>]) == Seq::<Seq<u8>>::empty(),
    decreases b.len(),
{
    if b.len() == 0 {
        assert(a + b =~= a);
        assert(decoded_payloads(a) + seq![] =~= decoded_payloads(a));
    } else {
        law_decoded_payloads(a, b.drop_last(), segments);
        assert((a + b).drop_last() =~= a + b.drop_last());
        match b.last() {
            Some(s2) => {
                assert(decoded_payloads(a) + decoded_payloads(b.drop_last()).push(joined_segments(s2))
                    =~= (decoded_payloads(a) + decoded_payloads(b.drop_last())).push(
                    joined_segments(s2),
                ));
            },
            None => {},
        }
    }
    let some = seq![Some(segments)];
    let none = seq![None::<Seq<Seq<u8>>>];
    assert(some.drop_last() =~= Seq::<Option<Seq<Seq<u8>>>>::empty());
    assert(none.drop_last() =~= Seq::<Option<Seq<Seq<u8>>>>::empty());
    assert(some.last() == Some(segments));
    assert(none.last() == None::<Seq<Seq<u8>>>);
    assert(decoded_payloads(Seq::<Option<Seq<Seq<u8>>>>::empty()) == Seq::<Seq<u8>>::empty());
    assert(Seq::<Seq<u8>>::empty().push(joined_segments(segments)) =~= seq![joined_segments(segments)]);
}

/// The payloads gathered from images are those of the first images followed by those of the
/// rest: an image read gives its payloads, one where nothing was found gives nothing.
pub proof fn law_gathered_payloads(
    a: Seq<Result<Vec<Vec<u8>>, DecodeQrError>>,
    b: Seq<Result<Vec<Vec<u8>>, DecodeQrError>>,
    read: Result<Vec<Vec<u8>>, DecodeQrError>,
)
    ensures
        gathered_payloads(a + b) == gathered_payloads(a) + gathered_payloads(b),
        gathered_payloads(seq![read]) == match read {
            Ok(payloads) => byte_views(payloads@),
            Err(_) => Seq::<Seq<u8>>::empty(),
        },
    decreases b.len(),
{
    if b.len() == 0 {
        assert(a + b =~= a);
        assert(gathered_payloads(a) + seq![] =~= gathered_payloads(a));
    } else {
        law_gathered_payloads(a, b.drop_last(), read);
        assert((a + b).drop_last() =~= a + b.drop_last());
        assert(gathered_payloads(a) + gathered_payloads(b.drop_last()) + image_payloads(b.last())
            =~= gathered_payloads(a) + (gathered_payloads(b.drop_last()) + image_payloads(
            b.last(),
        )));
    }
    let one = seq![read];
    assert(one.drop_last() =~= Seq::<Result<Vec<Vec<u8>>, DecodeQrError>>::empty());
    assert(one.last() == read);
    assert(gathered_payloads(Seq::<Result<Vec<Vec<u8>>, DecodeQrError>>::empty()) == Seq::<
        Seq<u8>,
    >::empty());
    assert(Seq::<Seq<u8>>::empty() + image_payloads(read) =~= image_payloads(read));
}

/// Gathers the payloads read from each image, in order, skipping the images in which no symbol
/// was found or decoded.
pub fn gather_payloads(reads: Vec<Result<Vec<Vec<u8>>, DecodeQrError>>) -> (payloads: Vec<Vec<u8>>)
    ensures
        byte_views(payloads@) == gathered_payloads(reads@),
{
    let mut reads = reads;
    let ghost all = reads@;
    assert(all.len() == reads.len());
    let mut payloads: Vec<Vec<u8>> = Vec::new();
    let mut i: usize = 0;
    while reads.len() > 0
        invariant
            i <= all.len(),
            all.len() <= usize::MAX,
            reads@ == all.skip(i as int),
            byte_views(payloads@) == gathered_payloads(all.take(i as int)),
        decreases reads@.len(),
    {
        assert(all.take(i + 1).drop_last() =~= all.take(i as int));
        assert(all.take(i + 1).last() == all[i as int]);
        let read = reads.remove(0);
        assert(read == all[i as int]);
        assert(reads@ =~= all.skip(i + 1));
        match read {
            Ok(decoded) => {
                let mut decoded = decoded;
                let ghost before = payloads@;
                let ghost added = decoded@;
                payloads.append(&mut decoded);
                assert(byte_views(payloads@) =~= byte_views(before) + byte_views(added));
            },
            Err(DecodeQrError::NotFound) => {
                assert(image_payloads(all[i as int]) =~= Seq::<Seq<u8>>::empty());
            },
            Err(DecodeQrError::Detect(_)) => {
                assert(image_payloads(all[i as int]) =~= Seq::<Seq<u8>>::empty());
            },
        }
        i = i + 1;
    }
    assert(all.take(all.len() as int) =~= all);
    payloads
}

/// What reading `image` gives, when `read` came of it.
pub open spec fn image_read(image: ::image::DynamicImage, read: Result<Vec<Vec<u8>>, DecodeQrError>) -> bool {
    luma_read(image_luma(image).0, image_luma(image).1, image_luma(image).2, read)
}

/// Reads the payloads of every image, in order, skipping the images in which no symbol is
/// found or decoded, as `gather_payloads` does with what `decode_image` reads from each.
pub fn decode_images(images: &Vec<::image::DynamicImage>) -> (payloads: Vec<Vec<u8>>)
    ensures
        exists|reads: Seq<Result<Vec<Vec<u8>>, DecodeQrError>>|
            reads.len() == images@.len() && (forall|k: int|
                0 <= k < reads.len() ==> image_read(images@[k], #[trigger] reads[k]))
                && byte_views(payloads@) == gathered_payloads(reads),
{
    let mut reads: Vec<Result<Vec<Vec<u8>>, DecodeQrError>> = Vec::new();
    let mut i: usize = 0;
    while i < images.len()
        invariant
            i <= images@.len(),
            reads@.len() == i,
            forall|k: int| 0 <= k < reads@.len() ==> image_read(images@[k], #[trigger] reads@[k]),
        decreases images@.len() - i,
    {
        reads.push(decode_image(&images[i]));
        i = i + 1;
    }
    let ghost all = reads@;
    let payloads = gather_payloads(reads);
    assert(all.len() == images@.len() && (forall|k: int|
        0 <= k < all.len() ==> image_read(images@[k], #[trigger] all[k]))
        && byte_views(payloads@) == gathered_payloads(all));
    payloads
}

} // verus!
