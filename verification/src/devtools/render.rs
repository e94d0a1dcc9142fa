//! Rendering single QR symbols and composing several images on one canvas.
use super::fixtures::XTaskError;
use super::grid::{
    position_views,
    diamond_canvas, diamond_canvas_fits, diamond_canvas_size, diamond_layout, diamond_positions,
    grid_fits, grid_layout, grid_position, grid_rows, max_height, max_width, GridLayout,
};
pub use crate::envelope::qr::image::EcLevel;
use crate::envelope::qr::image::{image_luma, is_luma8, module_pixels};
use vstd::prelude::*;

verus! {

/// A rendered QR symbol, before it becomes an image.
#[verifier::external_type_specification]
#[verifier::external_body]
pub struct ExQrCode(qrcode::QrCode);

/// Pixel format of a rendered QR symbol.
#[derive(Clone, Copy, Debug, PartialEq, Eq, Structural)]
pub enum PixelFormat {
    Grayscale,
    Rgba,
}

/// `qrcode::QrCode::with_version` encodes `data` at this version and error correction level.
pub uninterp spec fn qr_encodes(data: Seq<u8>, version: i16, ec_level: EcLevel) -> bool;

/// Number of modules on a side of a QR symbol, as `qrcode::QrCode::width` gives it.
pub uninterp spec fn qr_width(code: qrcode::QrCode) -> nat;

/// Encodes `data` as a QR symbol of the given version (1 to 40) and error correction level with
/// `qrcode::QrCode::with_version`, in the most compact modes for the data.
///
/// Trusted: it succeeds exactly when `qr_encodes` says so; a version outside 1 to 40 is refused
/// (`qrcode::Version::fetch`); a symbol of version `v` is `17 + 4 * v` modules wide.
#[verifier::external_body]
fn qr_code_with_version(data: &[u8], version: i16, ec_level: EcLevel) -> (res: Result<
    qrcode::QrCode,
    qrcode::types::QrError,
>)
    ensures
        res is Ok <==> qr_encodes(data@, version, ec_level),
        version < 1 || version > 40 ==> res is Err,
        res matches Ok(code) ==> qr_width(code) == 17 + 4 * version,
{
    let level = match ec_level {
        EcLevel::L => qrcode::EcLevel::L,
        EcLevel::M => qrcode::EcLevel::M,
        EcLevel::Q => qrcode::EcLevel::Q,
        EcLevel::H => qrcode::EcLevel::H,
    };
    qrcode::QrCode::with_version(data, qrcode::Version::Normal(version), level)
}

/// Renders a symbol as a grey-scale image with `qrcode::render::Renderer`, `pixels` pixels per
/// module.
///
/// Trusted: the image is an `ImageLuma8`, not RGBA. `build` draws the modules inside a quiet
/// zone of four modules on each side, so the
/// image is `width + 8` modules on a side, each `pixels` pixels wide but at least one
/// (`Renderer::module_dimensions` raises zero to one); a side that exceeds `u32` overflows, which
/// is left out. Nothing is said of the pixels.
#[verifier::external_body]
fn render_grayscale(code: &qrcode::QrCode, pixels: u32) -> (image: ::image::DynamicImage)
    requires
        (qr_width(*code) + 8) * module_pixels(pixels) <= u32::MAX,
    ensures
        is_luma8(image),
        !is_rgba8(image),
        image_luma(image).1 == (qr_width(*code) + 8) * module_pixels(pixels),
        image_luma(image).2 == (qr_width(*code) + 8) * module_pixels(pixels),
{
    let img = code.render::<::image::Luma<u8>>().module_dimensions(pixels, pixels).build();
    ::image::DynamicImage::ImageLuma8(img)
}

/// Renders a symbol as an RGBA image with `qrcode::render::Renderer`, `pixels` pixels per module.
///
/// Trusted: the image is an `ImageRgba8`, not grey-scale. As for the grey-scale rendering, the
/// image is `width + 8` modules on a side, each
/// `pixels` pixels wide but at least one. Nothing is said of the pixels.
#[verifier::external_body]
fn render_rgba(code: &qrcode::QrCode, pixels: u32) -> (image: ::image::DynamicImage)
    requires
        (qr_width(*code) + 8) * module_pixels(pixels) <= u32::MAX,
    ensures
        is_rgba8(image),
        !is_luma8(image),
        image_luma(image).1 == (qr_width(*code) + 8) * module_pixels(pixels),
        image_luma(image).2 == (qr_width(*code) + 8) * module_pixels(pixels),
{
    let img = code.render::<::image::Rgba<u8>>().module_dimensions(pixels, pixels).build();
    ::image::DynamicImage::ImageRgba8(img)
}

/// Width and height of an image, with `image::DynamicImage::{width, height}`.
///
/// Trusted: converting to grey-scale keeps the size, so the size is that of `image_luma`.
#[verifier::external_body]
fn image_dimensions(image: &::image::DynamicImage) -> (size: (u32, u32))
    ensures
        size.0 == image_luma(*image).1,
        size.1 == image_luma(*image).2,
{
    (image.width(), image.height())
}

/// Width and height of each image, in order.
pub fn image_sizes(images: &Vec<::image::DynamicImage>) -> (sizes: Vec<(u32, u32)>)
    ensures
        sizes@.len() == images@.len(),
        forall|i: int|
            0 <= i < sizes@.len() ==> #[trigger] sizes@[i] == (
                image_luma(images@[i]).1,
                image_luma(images@[i]).2,
            ),
{
    let mut sizes: Vec<(u32, u32)> = Vec::new();
    let mut i: usize = 0;
    while i < images.len()
        invariant
            i <= images@.len(),
            sizes@.len() == i,
            forall|k: int|
                0 <= k < i ==> #[trigger] sizes@[k] == (
                    image_luma(images@[k]).1,
                    image_luma(images@[k]).2,
                ),
        decreases images@.len() - i,
    {
        sizes.push(image_dimensions(&images[i]));
        i = i + 1;
    }
    sizes
}

/// Renders `data` as one QR symbol of the given version, error correction level, pixels per
/// module and pixel format; gives its width, height and image. The symbol has `17 + 4 * version`
/// modules on a side and a quiet zone of four modules around them.
pub fn render_qr(
    data: &[u8],
    version: i16,
    ec_level: EcLevel,
    pixels_per_module: u32,
    pixel_format: PixelFormat,
) -> (res: Result<(u32, u32, ::image::DynamicImage), XTaskError>)
    requires
        185 * module_pixels(pixels_per_module) <= u32::MAX,
    ensures
        res is Ok <==> qr_encodes(data@, version, ec_level),
        version < 1 || version > 40 ==> res is Err,
        res matches Ok((width, height, image)) ==> {
            &&& width == (4 * version + 25) * module_pixels(pixels_per_module)
            &&& height == width
            &&& image_luma(image).1 == width
            &&& image_luma(image).2 == height
            &&& is_luma8(image) <==> pixel_format == PixelFormat::Grayscale
            &&& is_rgba8(image) <==> pixel_format == PixelFormat::Rgba
        },
        res matches Err(e) ==> e is Qr,
{
    let code = match qr_code_with_version(data, version, ec_level) {
        Ok(code) => code,
        Err(e) => return Err(XTaskError::Qr(e)),
    };
    assert((qr_width(code) + 8) * module_pixels(pixels_per_module) <= 185 * module_pixels(
        pixels_per_module,
    )) by (nonlinear_arith)
        requires
            qr_width(code) + 8 <= 185,
    ;
    let image = match pixel_format {
        PixelFormat::Grayscale => render_grayscale(&code, pixels_per_module),
        PixelFormat::Rgba => render_rgba(&code, pixels_per_module),
    };
    let (width, height) = image_dimensions(&image);
    Ok((width, height, image))
}

/// The white, opaque RGBA image of this size that `image::RgbaImage::from_pixel` makes.
pub uninterp spec fn white_rgba(width: u32, height: u32) -> ::image::DynamicImage;

/// The RGBA image `canvas` after `image::imageops::overlay` draws `top`, converted to RGBA, with
/// its top-left corner at `(x, y)`.
pub uninterp spec fn overlaid(canvas: ::image::DynamicImage, top: ::image::DynamicImage, x: u32, y: u32) -> ::image::DynamicImage;

/// The image holds RGBA pixels, eight bits each.
pub uninterp spec fn is_rgba8(image: ::image::DynamicImage) -> bool;

/// `base` after drawing each image at its position, in order.
pub open spec fn drawn(base: ::image::DynamicImage, layers: Seq<(::image::DynamicImage, u32, u32)>) -> ::image::DynamicImage
    decreases layers.len(),
{
    if layers.len() == 0 {
        base
    } else {
        let last = layers.last();
        overlaid(drawn(base, layers.drop_last()), last.0, last.1, last.2)
    }
}

/// A white, opaque RGBA canvas, with `image::RgbaImage::from_pixel`.
///
/// Trusted: the canvas is `white_rgba` of its size, an RGBA image of that size whose every pixel
/// is white, so its grey-scale pixels are all 255.
#[verifier::external_body]
fn white_canvas(width: u32, height: u32) -> (canvas: ::image::DynamicImage)
    ensures
        canvas == white_rgba(width, height),
        is_rgba8(canvas),
        image_luma(canvas).1 == width,
        image_luma(canvas).2 == height,
        image_luma(canvas).0 == Seq::new((width * height) as nat, |i: int| 255u8),
{
    ::image::DynamicImage::ImageRgba8(
        ::image::RgbaImage::from_pixel(width, height, ::image::Rgba([255, 255, 255, 255])),
    )
}

/// Draws `top`, as RGBA, over an RGBA `canvas` at `(x, y)`, with `image::imageops::overlay`.
///
/// Trusted: the canvas becomes `overlaid` of the canvas, `top` and the position, and keeps its
/// kind and size. Nothing else is said of the pixels.
#[verifier::external_body]
fn overlay_at(canvas: &mut ::image::DynamicImage, top: &::image::DynamicImage, x: u32, y: u32)
    requires
        is_rgba8(*old(canvas)),
    ensures
        *final(canvas) == overlaid(*old(canvas), *top, x, y),
        is_rgba8(*final(canvas)),
        image_luma(*final(canvas)).1 == image_luma(*old(canvas)).1,
        image_luma(*final(canvas)).2 == image_luma(*old(canvas)).2,
{
    if let ::image::DynamicImage::ImageRgba8(buffer) = canvas {
        ::image::imageops::overlay(buffer, &top.to_rgba8(), x.into(), y.into());
    }
}

/// The images of a grid, each with the corner of its cell: `cols` per row, cells `cell_width`
/// by `cell_height`.
pub open spec fn grid_layers(images: Seq<::image::DynamicImage>, cols: nat, cell_width: nat, cell_height: nat) -> Seq<
    (::image::DynamicImage, u32, u32),
> {
    Seq::new(
        images.len(),
        |i: int|
            (
                images[i],
                ((i % cols as int) * cell_width) as u32,
                ((i / cols as int) * cell_height) as u32,
            ),
    )
}

/// The diamonds, each with its position in the layout, as many as the layout has positions.
pub open spec fn diamond_layers(diamonds: Seq<::image::DynamicImage>, layout: Seq<(nat, nat)>) -> Seq<
    (::image::DynamicImage, u32, u32),
> {
    Seq::new(layout.len(), |i: int| (diamonds[i], layout[i].0 as u32, layout[i].1 as u32))
}

/// In a grid of `cols` columns with cells `cell_width` by `cell_height`, image `i` sits in
/// column `i % cols` and row `i / cols`: the next image of a row sits one cell to the right, the
/// image `cols` places later one cell below, and every cell lies inside the canvas.
pub proof fn law_grid_layers(images: Seq<::image::DynamicImage>, cols: nat, cell_width: nat, cell_height: nat)
    requires
        cols > 0,
        cell_width * cols <= u32::MAX,
        cell_height * grid_rows(images.len(), cols) <= u32::MAX,
    ensures
        grid_layers(images, cols, cell_width, cell_height).len() == images.len(),
        forall|i: int|
            0 <= i < images.len() ==> {
                &&& (#[trigger] grid_layers(images, cols, cell_width, cell_height)[i]).0 == images[i]
                &&& grid_layers(images, cols, cell_width, cell_height)[i].1 as int == (i % cols as int)
                    * cell_width
                &&& grid_layers(images, cols, cell_width, cell_height)[i].2 as int == (i / cols as int)
                    * cell_height
                &&& grid_layers(images, cols, cell_width, cell_height)[i].1 + cell_width <= cell_width
                    * cols
                &&& grid_layers(images, cols, cell_width, cell_height)[i].2 + cell_height
                    <= cell_height * grid_rows(images.len(), cols)
            },
        forall|i: int|
            0 <= i && i + cols < images.len() ==> {
                &&& (#[trigger] grid_layers(images, cols, cell_width, cell_height)[i + cols]).1
                    == grid_layers(images, cols, cell_width, cell_height)[i].1
                &&& grid_layers(images, cols, cell_width, cell_height)[i + cols].2 as int
                    == grid_layers(images, cols, cell_width, cell_height)[i].2 + cell_height
            },
{
    let layers = grid_layers(images, cols, cell_width, cell_height);
    let n = images.len();
    let rows = grid_rows(n, cols);
    assert forall|i: int| 0 <= i < n implies {
        &&& (#[trigger] layers[i]).0 == images[i]
        &&& layers[i].1 as int == (i % cols as int) * cell_width
        &&& layers[i].2 as int == (i / cols as int) * cell_height
        &&& layers[i].1 + cell_width <= cell_width * cols
        &&& layers[i].2 + cell_height <= cell_height * rows
    } by {
        let c = i % cols as int;
        let r = i / cols as int;
        assert(0 <= c < cols && 0 <= r && r < rows) by (nonlinear_arith)
            requires
                cols > 0,
                0 <= i < n,
                c == i % cols as int,
                r == i / cols as int,
                rows == ((n + cols - 1) / cols as int) as nat,
        ;
        assert(c * cell_width + cell_width <= cell_width * cols) by (nonlinear_arith)
            requires
                0 <= c < cols,
        ;
        assert(r * cell_height + cell_height <= cell_height * rows) by (nonlinear_arith)
            requires
                0 <= r < rows,
        ;
    }
    assert forall|i: int| 0 <= i && i + cols < n implies {
        &&& (#[trigger] layers[i + cols]).1 == layers[i].1
        &&& layers[i + cols].2 as int == layers[i].2 + cell_height
    } by {
        assert((i + cols) % cols as int == i % cols as int && (i + cols) / cols as int == i
            / cols as int + 1) by (nonlinear_arith)
            requires
                cols > 0,
                i >= 0,
        ;
        assert(layers[i].2 as int == (i / cols as int) * cell_height);
        assert(layers[i + cols].2 as int == (i / cols as int + 1) * cell_height);
        assert((i / cols as int + 1) * cell_height == (i / cols as int) * cell_height + cell_height)
            by (nonlinear_arith);
    }
}

/// The `i`-th diamond given is drawn at the `i`-th position of the layout, each diamond once, as
/// many as the layout has positions.
pub proof fn law_diamond_layers(diamonds: Seq<::image::DynamicImage>, layout: Seq<(nat, nat)>)
    requires
        layout.len() <= diamonds.len(),
        forall|i: int| 0 <= i < layout.len() ==> #[trigger] layout[i].0 <= u32::MAX && layout[i].1 <= u32::MAX,
    ensures
        diamond_layers(diamonds, layout).len() == layout.len(),
        forall|i: int|
            0 <= i < layout.len() ==> {
                &&& (#[trigger] diamond_layers(diamonds, layout)[i]).0 == diamonds[i]
                &&& diamond_layers(diamonds, layout)[i].1 as nat == layout[i].0
                &&& diamond_layers(diamonds, layout)[i].2 as nat == layout[i].1
            },
{
}

/// Lays images out on a white canvas, `cols` per row, each in a cell as large as the largest;
/// gives the canvas and its layout. Image `i` is drawn at the corner of cell `i`, in order.
pub fn combine_grid(images: &Vec<::image::DynamicImage>, sizes: &Vec<(u32, u32)>, cols: u32) -> (res: Result<
    (::image::DynamicImage, GridLayout),
    XTaskError,
>)
    requires
        sizes@.len() == images@.len(),
        images@.len() == 0 || (cols > 0 && grid_fits(sizes@, cols as nat)),
    ensures
        images@.len() == 0 <==> res is Err,
        res matches Err(e) ==> e == (XTaskError::TooFewImages { min: 1, found: 0 }),
        res matches Ok((canvas, layout)) ==> {
            &&& layout.total_width == max_width(sizes@) * cols
            &&& layout.total_height == max_height(sizes@) * layout.rows
            &&& layout.rows == grid_rows(images@.len() as nat, cols as nat)
            &&& layout.cell_width == max_width(sizes@)
            &&& layout.cell_height == max_height(sizes@)
            &&& is_rgba8(canvas)
            &&& image_luma(canvas).1 == layout.total_width
            &&& image_luma(canvas).2 == layout.total_height
            &&& canvas == drawn(
                white_rgba(layout.total_width, layout.total_height),
                grid_layers(images@, cols as nat, max_width(sizes@), max_height(sizes@)),
            )
        },
{
    if images.len() == 0 {
        return Err(XTaskError::TooFewImages { min: 1, found: 0 });
    }
    let layout = match grid_layout(sizes, cols) {
        Some(layout) => layout,
        None => return Err(XTaskError::TooFewImages { min: 1, found: 0 }),
    };
    let mut canvas = white_canvas(layout.total_width, layout.total_height);
    let mut i: usize = 0;
    while i < images.len()
        invariant
            cols > 0,
            i <= images@.len(),
            images@.len() == sizes@.len(),
            sizes@.len() <= u32::MAX,
            layout.rows == ((sizes@.len() + cols - 1) / cols as int) as nat,
            layout.cell_width == max_width(sizes@),
            layout.cell_height == max_height(sizes@),
            layout.cell_width * cols <= u32::MAX,
            layout.cell_height * layout.rows <= u32::MAX,
            is_rgba8(canvas),
            image_luma(canvas).1 == layout.total_width,
            image_luma(canvas).2 == layout.total_height,
            canvas == drawn(
                white_rgba(layout.total_width, layout.total_height),
                grid_layers(images@, cols as nat, max_width(sizes@), max_height(sizes@)).take(i as int),
            ),
        decreases images@.len() - i,
    {
        assert(i as u32 / cols + 1 <= layout.rows) by (nonlinear_arith)
            requires
                cols >= 1,
                i < sizes@.len(),
                layout.rows == (sizes@.len() + cols - 1) / cols as int,
        ;
        assert(layout.cell_height * (i as u32 / cols + 1) <= layout.cell_height * layout.rows)
            by (nonlinear_arith)
            requires
                i as u32 / cols + 1 <= layout.rows,
        ;
        let (x, y) = grid_position(i as u32, cols, layout.cell_width, layout.cell_height);
        overlay_at(&mut canvas, &images[i], x, y);
        proof {
            let layers = grid_layers(images@, cols as nat, max_width(sizes@), max_height(sizes@));
            assert(layers.take(i + 1).drop_last() =~= layers.take(i as int));
            assert(layers.take(i + 1).last() == layers[i as int]);
        }
        i = i + 1;
    }
    proof {
        let layers = grid_layers(images@, cols as nat, max_width(sizes@), max_height(sizes@));
        assert(layers.take(images@.len() as int) =~= layers);
    }
    Ok((canvas, layout))
}

/// Lays diamonds out on a white canvas as a brick-laid grid of `rows` by `cols`, row by row; gives
/// the canvas, whose size is that of the grid. Diamond `i` is drawn at the `i`-th position of the
/// layout, as many as the grid holds.
pub fn combine_diamonds(diamonds: &Vec<::image::DynamicImage>, rows: u32, cols: u32, side: u32) -> (res: (
    ::image::DynamicImage,
    u32,
    u32,
))
    requires
        diamond_canvas_fits(rows as nat, cols as nat, side as nat),
    ensures
        (res.1 as nat, res.2 as nat) == diamond_canvas(rows as nat, cols as nat, side as nat),
        is_rgba8(res.0),
        image_luma(res.0).1 == res.1,
        image_luma(res.0).2 == res.2,
        res.0 == drawn(
            white_rgba(res.1, res.2),
            diamond_layers(
                diamonds@,
                diamond_layout(diamonds@.len() as nat, rows as nat, cols as nat, side as nat),
            ),
        ),
{
    let (width, height) = diamond_canvas_size(rows, cols, side);
    let mut canvas = white_canvas(width, height);
    let positions = diamond_positions(diamonds.len(), rows, cols, side);
    let ghost layout = diamond_layout(diamonds@.len() as nat, rows as nat, cols as nat, side as nat);
    assert(position_views(positions@).len() == positions@.len());
    assert(positions@.len() <= diamonds@.len());
    let mut i: usize = 0;
    while i < positions.len()
        invariant
            i <= positions@.len(),
            positions@.len() <= diamonds@.len(),
            position_views(positions@) == layout,
            is_rgba8(canvas),
            image_luma(canvas).1 == width,
            image_luma(canvas).2 == height,
            canvas == drawn(white_rgba(width, height), diamond_layers(diamonds@, layout).take(i as int)),
        decreases positions@.len() - i,
    {
        let (x, y) = positions[i];
        assert(layout[i as int] == (x as nat, y as nat));
        overlay_at(&mut canvas, &diamonds[i], x, y);
        proof {
            let layers = diamond_layers(diamonds@, layout);
            assert(layers.take(i + 1).drop_last() =~= layers.take(i as int));
            assert(layers.take(i + 1).last() == layers[i as int]);
        }
        i = i + 1;
    }
    proof {
        let layers = diamond_layers(diamonds@, layout);
        assert(layers.take(positions@.len() as int) =~= layers);
    }
    (canvas, width, height)
}

/// A white grey-scale image, with `image::GrayImage::from_pixel`.
///
/// Trusted: the image is a grey-scale image of this size whose every pixel is 255.
#[verifier::external_body]
fn white_grey_image(width: u32, height: u32) -> (image: ::image::DynamicImage)
    ensures
        is_luma8(image),
        image_luma(image).1 == width,
        image_luma(image).2 == height,
        image_luma(image).0 == Seq::new((width * height) as nat, |i: int| 255u8),
{
    ::image::DynamicImage::ImageLuma8(::image::GrayImage::from_pixel(width, height, ::image::Luma([255u8])))
}

/// Side of the blank image, in pixels.
pub const BLANK_IMAGE_SIDE: u32 = 100;

/// A blank white grey-scale image, 100 pixels on a side: every pixel is 255.
pub fn blank_image() -> (image: ::image::DynamicImage)
    ensures
        is_luma8(image),
        image_luma(image).1 == BLANK_IMAGE_SIDE,
        image_luma(image).2 == BLANK_IMAGE_SIDE,
        image_luma(image).0 == Seq::new(
            (BLANK_IMAGE_SIDE * BLANK_IMAGE_SIDE) as nat,
            |i: int| 255u8,
        ),
{
    white_grey_image(BLANK_IMAGE_SIDE, BLANK_IMAGE_SIDE)
}

/// Checks that an archive holds at least one image.
pub fn require_images(found: usize) -> (res: Result<(), XTaskError>)
    ensures
        res is Ok <==> found >= 1,
        res matches Err(e) ==> e == (XTaskError::TooFewImages { min: 1, found: 0 }),
{
    if found == 0 {
        return Err(XTaskError::TooFewImages { min: 1, found: 0 });
    }
    Ok(())
}

/// The extension of the file name in `path`, as `std::path::Path::extension` finds it, if it is
/// valid Unicode.
pub uninterp spec fn path_extension(path: Seq<char>) -> Option<Seq<char>>;

/// The extension of the file name in `path`, with `std::path::Path::extension` and
/// `std::ffi::OsStr::to_str`.
///
/// Trusted: the result is `path_extension` of the path.
#[verifier::external_body]
fn file_extension(path: &str) -> (ext: Option<&str>)
    ensures
        match ext {
            Some(e) => path_extension(path@) == Some(e@),
            None => path_extension(path@) is None,
        },
{
    match std::path::Path::new(path).extension() {
        Some(e) => e.to_str(),
        None => None,
    }
}

/// The extension to give an archive entry made from the file at `path`: the file's own
/// extension, or `png` when it has none.
pub fn entry_extension(path: &str) -> (ext: &str)
    ensures
        ext@ == match path_extension(path@) {
            Some(e) => e,
            None => seq!['p', 'n', 'g'],
        },
{
    match file_extension(path) {
        Some(ext) => ext,
        None => {
            let png = "png";
            proof {
                reveal_strlit("png");
            }
            png
        },
    }
}

} // verus!
