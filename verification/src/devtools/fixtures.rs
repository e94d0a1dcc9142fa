//! Editing the archive of a QR container to build damaged or unusual containers for tests:
//! dropping, inserting or replacing an entry, mixing PNG and JPEG entries.
use crate::envelope::qr::tar::{
    append_file, archive_bytes, archive_entries, entry_name, finish_archive,
    lemma_entry_name_plain, new_archive, numbered_name, plain_char, plain_ext, plain_name,
    plain_names,
    ArchiveWriter,
};
use crate::envelope::qr::{decoded_image, image_decodes, load_image};
use vstd::prelude::*;

verus! {

/// Why an archive could not be read or written.
#[derive(Debug)]
pub enum TarError {
    /// The archive could not be read at all.
    Read(std::io::Error),
    /// An entry of the archive could not be read.
    Entry(std::io::Error),
    /// The archive could not be written.
    Write(std::io::Error),
}

/// Why an image operation failed.
#[derive(Debug)]
pub enum ImgOpError {
    Decode(::image::ImageError),
}

/// Why a developer task failed.
#[derive(Debug)]
pub enum XTaskError {
    Tar(TarError),
    Image(ImgOpError),
    Io(std::io::Error),
    Codec(::image::ImageError),
    Qr(qrcode::types::QrError),
    /// The archive holds fewer images than the task needs.
    TooFewImages { min: usize, found: usize },
    /// A position, counted from 1, outside the archive.
    IndexOutOfRange { index: usize, len: usize },
}

/// The contents of the entries of an archive, in order, or `None` if `tar` fails to read them.
pub uninterp spec fn archive_data(bytes: Seq<u8>) -> Option<Seq<Seq<u8>>>;

/// Reads the content of every entry of an archive with `tar::Archive::entries` and
/// `Read::read_to_end`.
///
/// Trusted: reading succeeds and yields the contents exactly as `archive_data` names them;
/// when listing the entries fails the error is `Read`, when one entry fails it is `Entry`.
#[verifier::external_body]
fn read_entry_contents(bytes: &[u8]) -> (res: Result<Vec<Vec<u8>>, TarError>)
    ensures
        res is Ok <==> archive_data(bytes@) is Some,
        res matches Ok(contents) ==> contents@.map_values(|c: Vec<u8>| c@) == archive_data(
            bytes@,
        )->Some_0,
        res matches Err(e) ==> !(e is Write),
{
    let mut archive = ::tar::Archive::new(bytes);
    let mut contents = Vec::new();
    for entry in archive.entries().map_err(TarError::Read)? {
        let mut entry = entry.map_err(TarError::Entry)?;
        let mut data = Vec::new();
        std::io::Read::read_to_end(&mut entry, &mut data).map_err(TarError::Entry)?;
        contents.push(data);
    }
    Ok(contents)
}

/// The byte strings of a list of buffers.
pub open spec fn contents_view(v: Seq<Vec<u8>>) -> Seq<Seq<u8>> {
    v.map_values(|c: Vec<u8>| c@)
}

/// Reads the contents of the entries of an archive, in order.
pub fn unpack_tar_bytes(tar_data: &[u8]) -> (res: Result<Vec<Vec<u8>>, TarError>)
    ensures
        res is Ok <==> archive_data(tar_data@) is Some,
        res matches Ok(contents) ==> contents_view(contents@) == archive_data(tar_data@)->Some_0,
        res matches Err(e) ==> !(e is Write),
{
    read_entry_contents(tar_data)
}

/// Decodes every entry as an image, in order.
pub fn unpack_tar_images(entries: &Vec<Vec<u8>>) -> (res: Result<
    Vec<::image::DynamicImage>,
    XTaskError,
>)
    ensures
        res is Ok <==> forall|k: int|
            0 <= k < entries@.len() ==> image_decodes(#[trigger] entries@[k]@),
        res matches Ok(images) ==> images@.len() == entries@.len() && forall|k: int|
            0 <= k < entries@.len() ==> #[trigger] images@[k] == decoded_image(entries@[k]@),
        res matches Err(e) ==> e is Image,
{
    let mut images: Vec<::image::DynamicImage> = Vec::new();
    let mut i: usize = 0;
    while i < entries.len()
        invariant
            i <= entries@.len(),
            images@.len() == i,
            forall|k: int| 0 <= k < i ==> image_decodes(#[trigger] entries@[k]@),
            forall|k: int| 0 <= k < i ==> #[trigger] images@[k] == decoded_image(entries@[k]@),
        decreases entries@.len() - i,
    {
        match load_image(entries[i].as_slice()) {
            Ok(image) => images.push(image),
            Err(e) => return Err(XTaskError::Image(ImgOpError::Decode(e))),
        }
        i = i + 1;
    }
    Ok(images)
}

/// Appends an entry to an archive.
pub fn tar_append(archive: &mut ArchiveWriter, name: &str, data: &[u8]) -> (res: Result<(), TarError>)
    ensures
        res is Ok && plain_name(name@) ==> archive_entries(*final(archive)) == archive_entries(
            *old(archive),
        ).push((name@, data@)),
        res matches Err(e) ==> e is Write,
        plain_name(name@) ==> res is Ok,
{
    match append_file(archive, name, data) {
        Ok(()) => Ok(()),
        Err(e) => Err(TarError::Write(e)),
    }
}

/// The extension `png`.
pub open spec fn png_ext() -> Seq<char> {
    seq!['p', 'n', 'g']
}

/// The extension `jpg`.
pub open spec fn jpg_ext() -> Seq<char> {
    seq!['j', 'p', 'g']
}

/// The extensions `png` and `jpg` keep names plain.
proof fn lemma_ext_plain()
    ensures
        plain_ext(png_ext()),
        plain_ext(jpg_ext()),
{
    assert(plain_char('p') && plain_char('n') && plain_char('g') && plain_char('j'));
    assert forall|i: int| 0 <= i < png_ext().len() implies plain_char(#[trigger] png_ext()[i]) by {}
    assert forall|i: int| 0 <= i < jpg_ext().len() implies plain_char(#[trigger] jpg_ext()[i]) by {}
}

/// Entries named by their position, counted from 1, and their extension.
pub open spec fn numbered(items: Seq<(Seq<char>, Seq<u8>)>) -> Seq<(Seq<char>, Seq<u8>)> {
    Seq::new(items.len(), |i: int| (entry_name((i + 1) as nat, items[i].0), items[i].1))
}

/// Contents that become PNG entries.
pub open spec fn as_png(contents: Seq<Seq<u8>>) -> Seq<(Seq<char>, Seq<u8>)> {
    contents.map_values(|c: Seq<u8>| (png_ext(), c))
}

/// `s` without its element at position `index`, counted from 1.
pub open spec fn without_index(s: Seq<Seq<u8>>, index: int) -> Seq<Seq<u8>> {
    s.take(index - 1) + s.skip(index)
}

/// The archive left when the entry at position `skip` (from 1) is dropped: one entry fewer, the
/// entries before it in place, those after it one place earlier, all named as PNG files by
/// their new position.
pub proof fn law_missing_entries(contents: Seq<Seq<u8>>, skip: int)
    requires
        1 <= skip <= contents.len(),
    ensures
        numbered(as_png(without_index(contents, skip))).len() == contents.len() - 1,
        forall|i: int|
            0 <= i < contents.len() - 1 ==> #[trigger] numbered(as_png(without_index(contents, skip)))[i]
                == (entry_name((i + 1) as nat, seq!['p', 'n', 'g']), if i < skip - 1 {
                contents[i]
            } else {
                contents[i + 1]
            }),
{
    assert(png_ext() =~= seq!['p', 'n', 'g']);
    let w = without_index(contents, skip);
    assert forall|i: int| 0 <= i < contents.len() - 1 implies #[trigger] w[i] == (if i < skip
        - 1 {
        contents[i]
    } else {
        contents[i + 1]
    }) by {}
}

/// The archive with `inserted` put at position `index` (from 1): one entry more, the entries
/// before it in place as PNG files, the inserted one under its own extension, those after it
/// one place later as PNG files, all named by their new position.
pub proof fn law_inserted_entries(contents: Seq<Seq<u8>>, index: int, ext: Seq<char>, inserted: Seq<u8>)
    requires
        1 <= index <= contents.len() + 1,
    ensures
        numbered(
            as_png(contents.take(index - 1)) + seq![(ext, inserted)] + as_png(contents.skip(index - 1)),
        ).len() == contents.len() + 1,
        forall|i: int|
            0 <= i <= contents.len() ==> #[trigger] numbered(
                as_png(contents.take(index - 1)) + seq![(ext, inserted)] + as_png(
                    contents.skip(index - 1),
                ),
            )[i] == if i < index - 1 {
                (entry_name((i + 1) as nat, seq!['p', 'n', 'g']), contents[i])
            } else if i == index - 1 {
                (entry_name((i + 1) as nat, ext), inserted)
            } else {
                (entry_name((i + 1) as nat, seq!['p', 'n', 'g']), contents[i - 1])
            },
{
    assert(png_ext() =~= seq!['p', 'n', 'g']);
    let t = as_png(contents.take(index - 1)) + seq![(ext, inserted)] + as_png(contents.skip(index - 1));
    assert forall|i: int| 0 <= i <= contents.len() implies #[trigger] t[i] == if i < index - 1 {
        (seq!['p', 'n', 'g'], contents[i])
    } else if i == index - 1 {
        (ext, inserted)
    } else {
        (seq!['p', 'n', 'g'], contents[i - 1])
    } by {
        if i < index - 1 {
            assert(t[i] == as_png(contents.take(index - 1))[i]);
        } else if i > index - 1 {
            assert(t[i] == as_png(contents.skip(index - 1))[i - index]);
        }
    }
}

/// The archive with the entry at position `index` (from 1) replaced: as many entries, the
/// replaced one under its own extension with the new content, every other one in place as a
/// PNG file, all named by their position.
pub proof fn law_replaced_entries(contents: Seq<Seq<u8>>, index: int, ext: Seq<char>, replacement: Seq<u8>)
    requires
        1 <= index <= contents.len(),
    ensures
        numbered(as_png(contents).update(index - 1, (ext, replacement))).len() == contents.len(),
        forall|i: int|
            0 <= i < contents.len() ==> #[trigger] numbered(
                as_png(contents).update(index - 1, (ext, replacement)),
            )[i] == if i == index - 1 {
                (entry_name((i + 1) as nat, ext), replacement)
            } else {
                (entry_name((i + 1) as nat, seq!['p', 'n', 'g']), contents[i])
            },
{
    assert(png_ext() =~= seq!['p', 'n', 'g']);
}

/// Entries numbered from 1, each with a plain extension, have plain names.
proof fn lemma_numbered_plain(items: Seq<(Seq<char>, Seq<u8>)>)
    requires
        items.len() <= usize::MAX,
        forall|k: int| 0 <= k < items.len() ==> plain_ext(#[trigger] items[k].0),
    ensures
        plain_names(numbered(items)),
{
    assert forall|k: int| 0 <= k < numbered(items).len() implies plain_name(
        #[trigger] numbered(items)[k].0,
    ) by {
        assert(plain_ext(items[k].0));
        lemma_entry_name_plain((k + 1) as nat, items[k].0);
    }
}

proof fn lemma_numbered_step(target: Seq<(Seq<char>, Seq<u8>)>, pos: int)
    requires
        0 <= pos < target.len(),
    ensures
        numbered(target.take(pos + 1)) == numbered(target.take(pos)).push(
            (entry_name((pos + 1) as nat, target[pos].0), target[pos].1),
        ),
{
    assert(numbered(target.take(pos + 1)) =~= numbered(target.take(pos)).push(
        (entry_name((pos + 1) as nat, target[pos].0), target[pos].1),
    ));
}

/// Formats the name of a PNG entry.
fn png_name(number: usize) -> (name: String)
    ensures
        name@ == entry_name(number as nat, png_ext()),
        plain_name(name@),
{
    proof {
        lemma_ext_plain();
        lemma_entry_name_plain(number as nat, png_ext());
    }
    let ext = "png";
    proof {
        reveal_strlit("png");
    }
    assert(ext@ == png_ext());
    numbered_name(number, ext)
}

/// Finishes the archive, reporting a failure as a write error.
fn finish(archive: ArchiveWriter) -> (res: Result<Vec<u8>, XTaskError>)
    ensures
        res is Ok,
        res matches Ok(bytes) ==> (plain_names(archive_entries(archive)) ==> bytes@
            == archive_bytes(archive_entries(archive))),
        res matches Err(e) ==> e matches XTaskError::Tar(TarError::Write(_)),
{
    match finish_archive(archive) {
        Ok(bytes) => Ok(bytes),
        Err(e) => Err(XTaskError::Tar(TarError::Write(e))),
    }
}

/// An archive without entries.
pub fn empty_archive() -> (res: Result<Vec<u8>, XTaskError>)
    ensures
        res is Ok,
        res matches Ok(bytes) ==> bytes@ == archive_bytes(Seq::empty()),
        res matches Err(e) ==> e matches XTaskError::Tar(TarError::Write(_)),
{
    let archive = new_archive();
    finish(archive)
}

/// The archive of `entries` without the entry at position `skip_index`, counted from 1, the
/// others renumbered as PNG entries.
pub fn missing_fragment_archive(entries: &Vec<Vec<u8>>, skip_index: usize) -> (res: Result<
    Vec<u8>,
    XTaskError,
>)
    ensures
        skip_index == 0 || skip_index > entries@.len() <==> res matches Err(
            XTaskError::IndexOutOfRange { .. },
        ),
        1 <= skip_index <= entries@.len() ==> res is Ok,
        res matches Err(XTaskError::IndexOutOfRange { index, len }) ==> index == skip_index
            && len == entries@.len(),
        res matches Ok(bytes) ==> bytes@ == archive_bytes(
            numbered(as_png(without_index(contents_view(entries@), skip_index as int))),
        ),
        res matches Err(e) ==> e is IndexOutOfRange || e matches XTaskError::Tar(
            TarError::Write(_),
        ),
{
    if skip_index == 0 || skip_index > entries.len() {
        return Err(XTaskError::IndexOutOfRange { index: skip_index, len: entries.len() });
    }
    let ghost contents = contents_view(entries@);
    let ghost target = as_png(without_index(contents, skip_index as int));
    let mut archive = new_archive();
    let mut pos: usize = 0;
    let mut i: usize = 0;
    assert(target.take(0) =~= Seq::<(Seq<char>, Seq<u8>)>::empty());
    assert(numbered(target.take(0)) =~= Seq::<(Seq<char>, Seq<u8>)>::empty());
    while i < entries.len()
        invariant
            contents == contents_view(entries@),
            target == as_png(without_index(contents, skip_index as int)),
            1 <= skip_index <= entries@.len(),
            i <= entries@.len(),
            pos == (if i < skip_index {
                i as int
            } else {
                i - 1
            }),
            archive_entries(archive) == numbered(target.take(pos as int)),
        decreases entries@.len() - i,
    {
        if i + 1 != skip_index {
            let name = png_name(pos + 1);
            match tar_append(&mut archive, name.as_str(), entries[i].as_slice()) {
                Ok(()) => {},
                Err(e) => return Err(XTaskError::Tar(e)),
            }
            proof {
                assert(target[pos as int] == (png_ext(), entries@[i as int]@));
                lemma_numbered_step(target, pos as int);
            }
            pos = pos + 1;
        }
        i = i + 1;
    }
    assert(target.take(pos as int) =~= target);
    proof {
        lemma_ext_plain();
        lemma_numbered_plain(target);
    }
    finish(archive)
}

/// The archive of `entries` with `inserted` put at position `index`, counted from 1, under the
/// extension `ext`, the others following as PNG entries; all renumbered.
pub fn insert_fragment_archive(
    entries: &Vec<Vec<u8>>,
    index: usize,
    inserted: &[u8],
    ext: &str,
) -> (res: Result<Vec<u8>, XTaskError>)
    requires
        entries@.len() + 2 <= usize::MAX,
    ensures
        index == 0 || index > entries@.len() + 1 <==> res matches Err(
            XTaskError::IndexOutOfRange { .. },
        ),
        1 <= index <= entries@.len() + 1 && plain_ext(ext@) ==> res is Ok,
        res matches Err(XTaskError::IndexOutOfRange { index: i, len }) ==> i == index && len
            == entries@.len() + 1,
        res matches Ok(bytes) ==> (plain_ext(ext@) ==> bytes@ == archive_bytes(
            numbered(
                as_png(contents_view(entries@).take(index - 1)) + seq![(ext@, inserted@)] + as_png(
                    contents_view(entries@).skip(index - 1),
                ),
            ),
        )),
        res matches Err(e) ==> e is IndexOutOfRange || e matches XTaskError::Tar(
            TarError::Write(_),
        ),
{
    if index == 0 || index > entries.len() + 1 {
        return Err(XTaskError::IndexOutOfRange { index, len: entries.len() + 1 });
    }
    let ghost contents = contents_view(entries@);
    let ghost target = as_png(contents.take(index - 1)) + seq![(ext@, inserted@)] + as_png(
        contents.skip(index - 1),
    );
    let mut archive = new_archive();
    let mut pos: usize = 0;
    let mut i: usize = 0;
    assert(numbered(target.take(0)) =~= Seq::<(Seq<char>, Seq<u8>)>::empty());
    while i < entries.len()
        invariant
            contents == contents_view(entries@),
            target == as_png(contents.take(index - 1)) + seq![(ext@, inserted@)] + as_png(
                contents.skip(index - 1),
            ),
            target.len() == entries@.len() + 1,
            entries@.len() + 2 <= usize::MAX,
            1 <= index <= entries@.len() + 1,
            i <= entries@.len(),
            pos == (if i < index {
                i as int
            } else {
                i + 1
            }),
            plain_ext(ext@) ==> archive_entries(archive) == numbered(target.take(pos as int)),
        decreases entries@.len() - i,
    {
        if i + 1 == index {
            let name = numbered_name(pos + 1, ext);
            proof {
                if plain_ext(ext@) {
                    lemma_entry_name_plain((pos + 1) as nat, ext@);
                }
            }
            match tar_append(&mut archive, name.as_str(), inserted) {
                Ok(()) => {},
                Err(e) => return Err(XTaskError::Tar(e)),
            }
            proof {
                assert(target[pos as int] == (ext@, inserted@));
                lemma_numbered_step(target, pos as int);
            }
            pos = pos + 1;
        }
        let name = png_name(pos + 1);
        match tar_append(&mut archive, name.as_str(), entries[i].as_slice()) {
            Ok(()) => {},
            Err(e) => return Err(XTaskError::Tar(e)),
        }
        proof {
            if i + 1 < index {
                assert(target[pos as int] == as_png(contents.take(index - 1))[i as int]);
            } else {
                assert(target[pos as int] == as_png(contents.skip(index - 1))[i - (index - 1)]);
            }
            assert(target[pos as int] == (png_ext(), entries@[i as int]@));
            lemma_numbered_step(target, pos as int);
        }
        pos = pos + 1;
        i = i + 1;
    }
    if index == entries.len() + 1 {
        let name = numbered_name(pos + 1, ext);
        proof {
            if plain_ext(ext@) {
                lemma_entry_name_plain((pos + 1) as nat, ext@);
            }
        }
        match tar_append(&mut archive, name.as_str(), inserted) {
            Ok(()) => {},
            Err(e) => return Err(XTaskError::Tar(e)),
        }
        proof {
            assert(target[pos as int] == (ext@, inserted@));
            lemma_numbered_step(target, pos as int);
        }
        pos = pos + 1;
    }
    assert(target.take(pos as int) =~= target);
    proof {
        lemma_ext_plain();
        if plain_ext(ext@) {
            assert forall|k: int| 0 <= k < target.len() implies plain_ext(#[trigger] target[k].0) by {
                if k != index - 1 {
                    if k < index - 1 {
                        assert(target[k] == as_png(contents.take(index - 1))[k]);
                    } else {
                        assert(target[k] == as_png(contents.skip(index - 1))[k - index]);
                    }
                }
            }
            lemma_numbered_plain(target);
        }
    }
    finish(archive)
}

/// The archive of `entries` with the entry at position `index`, counted from 1, replaced by
/// `replacement` under the extension `ext`, the others as PNG entries.
pub fn replace_fragment_archive(
    entries: &Vec<Vec<u8>>,
    index: usize,
    replacement: &[u8],
    ext: &str,
) -> (res: Result<Vec<u8>, XTaskError>)
    ensures
        index == 0 || index > entries@.len() <==> res matches Err(
            XTaskError::IndexOutOfRange { .. },
        ),
        1 <= index <= entries@.len() && plain_ext(ext@) ==> res is Ok,
        res matches Err(XTaskError::IndexOutOfRange { index: i, len }) ==> i == index && len
            == entries@.len(),
        res matches Ok(bytes) ==> (plain_ext(ext@) ==> bytes@ == archive_bytes(
            numbered(as_png(contents_view(entries@)).update(index - 1, (ext@, replacement@))),
        )),
        res matches Err(e) ==> e is IndexOutOfRange || e matches XTaskError::Tar(
            TarError::Write(_),
        ),
{
    if index == 0 || index > entries.len() {
        return Err(XTaskError::IndexOutOfRange { index, len: entries.len() });
    }
    let ghost target = as_png(contents_view(entries@)).update(index - 1, (ext@, replacement@));
    let mut archive = new_archive();
    let mut i: usize = 0;
    assert(numbered(target.take(0)) =~= Seq::<(Seq<char>, Seq<u8>)>::empty());
    while i < entries.len()
        invariant
            target == as_png(contents_view(entries@)).update(index - 1, (ext@, replacement@)),
            1 <= index <= entries@.len(),
            i <= entries@.len(),
            plain_ext(ext@) ==> archive_entries(archive) == numbered(target.take(i as int)),
        decreases entries@.len() - i,
    {
        if i + 1 == index {
            let name = numbered_name(i + 1, ext);
            proof {
                if plain_ext(ext@) {
                    lemma_entry_name_plain((i + 1) as nat, ext@);
                }
            }
            match tar_append(&mut archive, name.as_str(), replacement) {
                Ok(()) => {},
                Err(e) => return Err(XTaskError::Tar(e)),
            }
            assert(target[i as int] == (ext@, replacement@));
        } else {
            let name = png_name(i + 1);
            match tar_append(&mut archive, name.as_str(), entries[i].as_slice()) {
                Ok(()) => {},
                Err(e) => return Err(XTaskError::Tar(e)),
            }
            assert(target[i as int] == (png_ext(), entries@[i as int]@));
        }
        proof {
            lemma_numbered_step(target, i as int);
        }
        i = i + 1;
    }
    assert(target.take(entries@.len() as int) =~= target);
    proof {
        lemma_ext_plain();
        if plain_ext(ext@) {
            assert forall|k: int| 0 <= k < target.len() implies plain_ext(#[trigger] target[k].0) by {
                if k != index - 1 {
                    assert(target[k] == as_png(contents_view(entries@))[k]);
                }
            }
            lemma_numbered_plain(target);
        }
    }
    finish(archive)
}


/// The JPEG file that `image::DynamicImage::write_to` writes of an image, or `None` when the
/// JPEG encoder refuses it.
pub uninterp spec fn jpeg_of(image: ::image::DynamicImage) -> Option<Seq<u8>>;

/// Encodes an image as JPEG with `image::DynamicImage::write_to`.
///
/// Trusted: the encoding depends on the image alone; it succeeds exactly when `jpeg_of` gives a
/// file, and gives that file. What the file holds is not stated.
#[verifier::external_body]
pub fn png_to_jpeg(image: &::image::DynamicImage) -> (res: Result<Vec<u8>, ::image::ImageError>)
    ensures
        res is Ok <==> jpeg_of(*image) is Some,
        res matches Ok(data) ==> jpeg_of(*image) == Some(data@),
{
    let mut data = Vec::new();
    image.write_to(&mut std::io::Cursor::new(&mut data), ::image::ImageFormat::Jpeg)?;
    Ok(data)
}

/// Entries alternating between PNG files, at even positions counted from 0, kept as they are,
/// and JPEG files, at odd positions, with the given re-encoded contents.
pub open spec fn mixed_items(contents: Seq<Seq<u8>>, jpegs: Seq<Seq<u8>>) -> Seq<
    (Seq<char>, Seq<u8>),
> {
    Seq::new(
        contents.len(),
        |i: int|
            if i % 2 == 0 {
                (png_ext(), contents[i])
            } else {
                (jpg_ext(), jpegs[i])
            },
    )
}

/// Entries at even positions, counted from 0, are PNG files kept as they are; entries at odd
/// positions are JPEG files with their re-encoded contents: the kind alternates from one entry
/// to the next, and the entries are named `00001.png`, `00002.jpg`, ... by position.
pub proof fn law_mixed_items(contents: Seq<Seq<u8>>, jpegs: Seq<Seq<u8>>)
    ensures
        mixed_items(contents, jpegs).len() == contents.len(),
        forall|i: int|
            0 <= i < contents.len() && i % 2 == 0 ==> #[trigger] mixed_items(contents, jpegs)[i]
                == (seq!['p', 'n', 'g'], contents[i]),
        forall|i: int|
            0 <= i < contents.len() && i % 2 == 1 ==> #[trigger] mixed_items(contents, jpegs)[i]
                == (seq!['j', 'p', 'g'], jpegs[i]),
        forall|i: int|
            0 <= i && i + 1 < contents.len() ==> #[trigger] mixed_items(contents, jpegs)[i].0
                != mixed_items(contents, jpegs)[i + 1].0,
        forall|i: int|
            0 <= i < contents.len() ==> #[trigger] numbered(mixed_items(contents, jpegs))[i].0
                == entry_name((i + 1) as nat, if i % 2 == 0 {
                seq!['p', 'n', 'g']
            } else {
                seq!['j', 'p', 'g']
            }),
{
    let m = mixed_items(contents, jpegs);
    assert(png_ext() =~= seq!['p', 'n', 'g']);
    assert(jpg_ext() =~= seq!['j', 'p', 'g']);
    assert forall|i: int| 0 <= i && i + 1 < contents.len() implies #[trigger] m[i].0 != m[i
        + 1].0 by {
        assert(png_ext()[0] != jpg_ext()[0]);
    }
}

/// The content decodes as an image that the JPEG encoder takes.
pub open spec fn reencodes(content: Seq<u8>) -> bool {
    image_decodes(content) && jpeg_of(decoded_image(content)) is Some
}

/// The JPEG re-encoding of each content, where there is one.
pub open spec fn jpeg_contents(contents: Seq<Seq<u8>>) -> Seq<Seq<u8>> {
    Seq::new(contents.len(), |i: int| jpeg_of(decoded_image(contents[i]))->Some_0)
}

/// The archive of `entries` where every other entry, from the second on, is re-encoded as a
/// JPEG file; all renumbered. It fails at the first such entry that does not decode as an image
/// (`Image`) or that the JPEG encoder refuses (`Codec`).
pub fn mixed_archive(entries: &Vec<Vec<u8>>) -> (res: Result<Vec<u8>, XTaskError>)
    ensures
        res is Ok <==> forall|k: int|
            0 <= k < entries@.len() && k % 2 == 1 ==> reencodes(#[trigger] entries@[k]@),
        res matches Ok(bytes) ==> bytes@ == archive_bytes(
            numbered(mixed_items(contents_view(entries@), jpeg_contents(contents_view(entries@)))),
        ),
        res matches Err(e) ==> exists|k: int|
            0 <= k < entries@.len() && k % 2 == 1 && !reencodes(#[trigger] entries@[k]@) && (forall|
                j: int,
            | 0 <= j < k && j % 2 == 1 ==> reencodes(#[trigger] entries@[j]@)) && (if image_decodes(
                entries@[k]@,
            ) {
                e is Codec
            } else {
                e is Image
            }),
{
    let ghost contents = contents_view(entries@);
    let ghost target = mixed_items(contents, jpeg_contents(contents));
    let mut archive = new_archive();
    let mut i: usize = 0;
    assert(numbered(target.take(0)) =~= Seq::<(Seq<char>, Seq<u8>)>::empty());
    while i < entries.len()
        invariant
            contents == contents_view(entries@),
            target == mixed_items(contents, jpeg_contents(contents)),
            i <= entries@.len(),
            forall|k: int| 0 <= k < i && k % 2 == 1 ==> reencodes(#[trigger] entries@[k]@),
            archive_entries(archive) == numbered(target.take(i as int)),
        decreases entries@.len() - i,
    {
        proof {
            lemma_ext_plain();
            lemma_numbered_step(target, i as int);
        }
        if i % 2 == 0 {
            let name = png_name(i + 1);
            match tar_append(&mut archive, name.as_str(), entries[i].as_slice()) {
                Ok(()) => {},
                Err(e) => return Err(XTaskError::Tar(e)),
            }
            assert(target[i as int] == (png_ext(), entries@[i as int]@));
        } else {
            let image = match load_image(entries[i].as_slice()) {
                Ok(image) => image,
                Err(e) => return Err(XTaskError::Image(ImgOpError::Decode(e))),
            };
            let jpeg = match png_to_jpeg(&image) {
                Ok(jpeg) => jpeg,
                Err(e) => return Err(XTaskError::Codec(e)),
            };
            let ext = "jpg";
            proof {
                reveal_strlit("jpg");
            }
            assert(ext@ == jpg_ext());
            let name = numbered_name(i + 1, ext);
            proof {
                lemma_entry_name_plain((i + 1) as nat, ext@);
            }
            match tar_append(&mut archive, name.as_str(), jpeg.as_slice()) {
                Ok(()) => {},
                Err(e) => return Err(XTaskError::Tar(e)),
            }
            assert(target[i as int] == (jpg_ext(), jpeg@));
        }
        i = i + 1;
    }
    assert(target.take(entries@.len() as int) =~= target);
    proof {
        lemma_ext_plain();
        assert forall|k: int| 0 <= k < target.len() implies plain_ext(#[trigger] target[k].0) by {}
        lemma_numbered_plain(target);
    }
    finish(archive)
}

/// Checks that a position, counted from 1, names one of `len` entries.
pub fn check_index(index: usize, len: usize) -> (res: Result<(), XTaskError>)
    ensures
        res is Ok <==> 1 <= index <= len,
        res matches Err(e) ==> e == (XTaskError::IndexOutOfRange { index, len }),
{
    if index == 0 || index > len {
        return Err(XTaskError::IndexOutOfRange { index, len });
    }
    Ok(())
}

} // verus!
