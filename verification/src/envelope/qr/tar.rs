//! TAR archives of named files.
use std::io::Read;
use vstd::prelude::*;

verus! {

/// A TAR archive being written in memory, with `tar::Builder`.
#[verifier::external_body]
pub struct ArchiveWriter {
    builder: ::tar::Builder<Vec<u8>>,
}

/// An I/O error, as `std` reports it.
#[verifier::external_type_specification]
#[verifier::external_body]
pub struct ExIoError(std::io::Error);

/// A named file of an archive.
pub struct File {
    pub path: String,
    pub content: Vec<u8>,
}

/// The name and content of each file.
pub open spec fn file_views(files: Seq<File>) -> Seq<(Seq<char>, Seq<u8>)> {
    files.map_values(|f: File| (f.path@, f.content@))
}

/// The name and content of each entry.
pub open spec fn entry_views(entries: Seq<(String, Vec<u8>)>) -> Seq<(Seq<char>, Seq<u8>)> {
    entries.map_values(|e: (String, Vec<u8>)| (e.0@, e.1@))
}

/// The entries, name and content, that reading back what has been written so far into an
/// archive gives.
pub uninterp spec fn archive_entries(archive: ArchiveWriter) -> Seq<(Seq<char>, Seq<u8>)>;

/// The bytes of the finished archive that holds these entries, with plain names, each with a
/// GNU header (and a GNU long-name entry before it when its name does not fit the header), mode
/// 0o644 and the other header fields left zero.
pub uninterp spec fn archive_bytes(entries: Seq<(Seq<char>, Seq<u8>)>) -> Seq<u8>;

/// The entries, name and content, read from an archive, or `None` if `tar` fails to read it.
pub uninterp spec fn archive_contents(bytes: Seq<u8>) -> Option<Seq<(Seq<char>, Seq<u8>)>>;

/// A character that a path component may hold: anything but `/` and NUL.
pub open spec fn plain_char(c: char) -> bool {
    c != '/' && c != '\0'
}

/// Position `i` of `name` starts a path component.
pub open spec fn starts_component(name: Seq<char>, i: int) -> bool {
    i == 0 || name[i - 1] == '/'
}

/// The component of `name` that starts at `i` is `.` or `..`.
pub open spec fn dot_component(name: Seq<char>, i: int) -> bool {
    ||| name[i] == '.' && (i + 1 == name.len() || name[i + 1] == '/')
    ||| i + 1 < name.len() && name[i] == '.' && name[i + 1] == '.' && (i + 2 == name.len()
        || name[i + 2] == '/')
}

/// A name that `tar` stores as it is: a relative path, its components separated by single `/`,
/// none of them `.` or `..`, without a `/` at either end, and without NUL.
pub open spec fn plain_name(name: Seq<char>) -> bool {
    &&& 1 <= name.len()
    &&& name[0] != '/'
    &&& name.last() != '/'
    &&& forall|i: int| 0 <= i < name.len() ==> plain_char(#[trigger] name[i]) || name[i] == '/'
    &&& forall|i: int| 0 <= i < name.len() - 1 && #[trigger] name[i] == '/' ==> name[i + 1] != '/'
    &&& forall|i: int|
        0 <= i < name.len() && #[trigger] starts_component(name, i) ==> !dot_component(name, i)
}

/// Every entry has a plain name.
pub open spec fn plain_names(entries: Seq<(Seq<char>, Seq<u8>)>) -> bool {
    forall|k: int| 0 <= k < entries.len() ==> plain_name(#[trigger] entries[k].0)
}

/// Starts an empty archive in memory with `tar::Builder::new`.
///
/// Trusted: the new archive holds no entry.
#[verifier::external_body]
pub(crate) fn new_archive() -> (archive: ArchiveWriter)
    ensures
        archive_entries(archive) == Seq::<(Seq<char>, Seq<u8>)>::empty(),
{
    ArchiveWriter { builder: ::tar::Builder::new(Vec::new()) }
}

/// Appends a file to an archive with `tar::Builder::append_data`, under a GNU header
/// (`tar::Header::new_gnu`) with the content's size, mode 0o644 and its checksum.
///
/// Trusted: the components of a plain name are all normal. When its UTF-8 bytes fit the 100-byte
/// name field, `Header::set_path` copies the components joined by single `/`, that is the name
/// itself, into it; otherwise `prepare_header_path` writes a GNU long-name entry holding the
/// name's bytes, and a header whose truncated name passes the same checks. Writing into a `Vec`
/// never fails, so the append succeeds, and reading back gives one more entry, this one. What
/// an append of another name leaves in the archive is not stated.
#[verifier::external_body]
pub(crate) fn append_file(archive: &mut ArchiveWriter, name: &str, data: &[u8]) -> (res: Result<
    (),
    std::io::Error,
>)
    ensures
        plain_name(name@) ==> res is Ok,
        res is Ok && plain_name(name@) ==> archive_entries(*final(archive)) == archive_entries(
            *old(archive),
        ).push((name@, data@)),
{
    let mut header = ::tar::Header::new_gnu();
    header.set_size(data.len() as u64);
    header.set_mode(0o644);
    header.set_cksum();
    archive.builder.append_data(&mut header, name, data)
}

/// Finishes an archive with `tar::Builder::finish` and takes its bytes with
/// `tar::Builder::into_inner`.
///
/// Trusted: finishing writes the closing zero blocks into a `Vec`, which never fails, so it
/// succeeds. When every entry read back has a plain name, the bytes are those that
/// `archive_bytes` names, and reading them back gives the entries: a name that fits the header
/// is read up to its NUL, a longer one from its GNU long-name entry, and `to_string_lossy` keeps
/// the UTF-8 it was written from.
#[verifier::external_body]
pub(crate) fn finish_archive(archive: ArchiveWriter) -> (res: Result<Vec<u8>, std::io::Error>)
    ensures
        res is Ok,
        res matches Ok(bytes) ==> (plain_names(archive_entries(archive)) ==> bytes@
            == archive_bytes(archive_entries(archive))),
        res matches Ok(bytes) ==> (plain_names(archive_entries(archive)) ==> archive_contents(
            bytes@,
        ) == Some(archive_entries(archive))),
{
    let mut builder = archive.builder;
    builder.finish()?;
    builder.into_inner()
}

/// Reads every entry of an archive with `tar::Archive::entries`: its path, converted with
/// `to_string_lossy`, and its content.
///
/// Trusted: reading succeeds and yields the entries exactly as `archive_contents` names them.
#[verifier::external_body]
fn read_archive(bytes: &[u8]) -> (res: Result<Vec<(String, Vec<u8>)>, std::io::Error>)
    ensures
        res is Ok <==> archive_contents(bytes@) is Some,
        res matches Ok(entries) ==> entry_views(entries@) == archive_contents(bytes@)->Some_0,
{
    let mut archive = ::tar::Archive::new(bytes);
    let mut entries = Vec::new();
    for entry in archive.entries()? {
        let mut entry = entry?;
        let path = entry.path()?.to_string_lossy().into_owned();
        let mut content = Vec::new();
        entry.read_to_end(&mut content)?;
        entries.push((path, content));
    }
    Ok(entries)
}

/// Why an archive could not be written.
#[derive(Debug)]
pub enum PackError {
    Io(std::io::Error),
}

/// Why an archive could not be read.
#[derive(Debug)]
pub enum UnpackError {
    Io(std::io::Error),
}

/// Writes the files, in order, into a TAR archive. When every name is plain, writing succeeds
/// and reading the archive gives the files back.
pub fn pack(files: &[File]) -> (res: Result<Vec<u8>, PackError>)
    ensures
        plain_names(file_views(files@)) ==> res is Ok,
        res matches Ok(bytes) ==> (plain_names(file_views(files@)) ==> bytes@ == archive_bytes(
            file_views(files@),
        )),
        res matches Ok(bytes) ==> (plain_names(file_views(files@)) ==> archive_contents(bytes@)
            == Some(file_views(files@))),
{
    let mut archive = new_archive();
    let mut i: usize = 0;
    while i < files.len()
        invariant
            i <= files@.len(),
            plain_names(file_views(files@)) ==> archive_entries(archive) == file_views(
                files@,
            ).take(i as int),
        decreases files@.len() - i,
    {
        assert(file_views(files@)[i as int].0 == files@[i as int].path@);
        match append_file(&mut archive, files[i].path.as_str(), files[i].content.as_slice()) {
            Ok(()) => {},
            Err(e) => return Err(PackError::Io(e)),
        }
        assert(file_views(files@).take(i + 1) =~= file_views(files@).take(i as int).push(
            (files@[i as int].path@, files@[i as int].content@),
        ));
        i = i + 1;
    }
    assert(file_views(files@).take(files@.len() as int) =~= file_views(files@));
    match finish_archive(archive) {
        Ok(bytes) => Ok(bytes),
        Err(e) => Err(PackError::Io(e)),
    }
}

/// Reads the files of a TAR archive, in order.
pub fn unpack(bytes: &[u8]) -> (res: Result<Vec<File>, UnpackError>)
    ensures
        res is Ok <==> archive_contents(bytes@) is Some,
        res matches Ok(files) ==> file_views(files@) == archive_contents(bytes@)->Some_0,
{
    let mut entries = match read_archive(bytes) {
        Ok(entries) => entries,
        Err(e) => return Err(UnpackError::Io(e)),
    };
    let ghost views = entry_views(entries@);
    let mut reversed: Vec<File> = Vec::new();
    while entries.len() > 0
        invariant
            views.len() == entries@.len() + reversed@.len(),
            forall|k: int| 0 <= k < entries@.len() ==> #[trigger] entry_views(entries@)[k] == views[k],
            forall|k: int|
                0 <= k < reversed@.len() ==> (#[trigger] file_views(reversed@)[k]) == views[views.len()
                    - 1 - k],
        decreases entries@.len(),
    {
        let ghost before = entries@;
        let ghost before_files = reversed@;
        let (path, content) = entries.pop().unwrap();
        assert(entry_views(before)[before.len() - 1] == (path@, content@));
        reversed.push(File { path, content });
        assert forall|k: int| 0 <= k < entries@.len() implies #[trigger] entry_views(entries@)[k]
            == views[k] by {
            assert(entries@[k] == before[k]);
            assert(entry_views(before)[k] == views[k]);
        }
        assert forall|k: int| 0 <= k < reversed@.len() implies (#[trigger] file_views(
            reversed@,
        )[k]) == views[views.len() - 1 - k] by {
            if k < before_files.len() {
                assert(reversed@[k] == before_files[k]);
                assert(file_views(before_files)[k] == views[views.len() - 1 - k]);
            }
        }
    }
    let mut files: Vec<File> = Vec::new();
    while reversed.len() > 0
        invariant
            views.len() == files@.len() + reversed@.len(),
            forall|k: int|
                0 <= k < reversed@.len() ==> (#[trigger] file_views(reversed@)[k]) == views[views.len()
                    - 1 - k],
            forall|k: int| 0 <= k < files@.len() ==> #[trigger] file_views(files@)[k] == views[k],
        decreases reversed@.len(),
    {
        let ghost before = reversed@;
        let ghost before_files = files@;
        let file = reversed.pop().unwrap();
        assert(file_views(before)[before.len() - 1] == (file.path@, file.content@));
        files.push(file);
        assert forall|k: int| 0 <= k < reversed@.len() implies (#[trigger] file_views(
            reversed@,
        )[k]) == views[views.len() - 1 - k] by {
            assert(reversed@[k] == before[k]);
            assert(file_views(before)[k] == views[views.len() - 1 - k]);
        }
        assert forall|k: int| 0 <= k < files@.len() implies #[trigger] file_views(files@)[k]
            == views[k] by {
            if k < before_files.len() {
                assert(files@[k] == before_files[k]);
                assert(file_views(before_files)[k] == views[k]);
            }
        }
    }
    assert(file_views(files@) =~= views);
    Ok(files)
}


/// The decimal digits, by value.
pub open spec fn decimal_digit(d: int) -> char {
    seq!['0', '1', '2', '3', '4', '5', '6', '7', '8', '9'][d]
}

/// The decimal representation of `n`, without leading zeros.
pub open spec fn decimal(n: nat) -> Seq<char>
    decreases n,
{
    if n < 10 {
        seq![decimal_digit(n as int)]
    } else {
        decimal(n / 10).push(decimal_digit((n % 10) as int))
    }
}

/// The decimal representation of `n`, padded with leading zeros to `width` digits.
pub open spec fn zero_padded(n: nat, width: nat) -> Seq<char> {
    let digits = decimal(n);
    if digits.len() < width {
        Seq::new((width - digits.len()) as nat, |i: int| '0') + digits
    } else {
        digits
    }
}

/// The name of the `number`-th entry of an archive: the number on five digits, a dot and the
/// extension.
pub open spec fn entry_name(number: nat, ext: Seq<char>) -> Seq<char> {
    zero_padded(number, 5) + seq!['.'] + ext
}

/// The number that a string of decimal digits writes, most significant digit first.
pub open spec fn digits_value(s: Seq<char>) -> int
    decreases s.len(),
{
    if s.len() == 0 {
        0
    } else {
        digits_value(s.drop_last()) * 10 + (s.last() as int - '0' as int)
    }
}

/// Every character is a decimal digit.
pub open spec fn all_digits(s: Seq<char>) -> bool {
    forall|i: int| 0 <= i < s.len() ==> '0' <= #[trigger] s[i] <= '9'
}

proof fn lemma_decimal_digit(d: int)
    requires
        0 <= d < 10,
    ensures
        decimal_digit(d) as int == '0' as int + d,
        '0' <= decimal_digit(d) <= '9',
{
    if d == 0 {
    } else if d == 1 {
    } else if d == 2 {
    } else if d == 3 {
    } else if d == 4 {
    } else if d == 5 {
    } else if d == 6 {
    } else if d == 7 {
    } else if d == 8 {
    } else {
    }
}

proof fn lemma_decimal_value(n: nat)
    ensures
        all_digits(decimal(n)),
        digits_value(decimal(n)) == n,
        decimal(n).len() >= 1,
        n >= 10 ==> decimal(n).len() > 1,
        decimal(n).len() > 1 ==> decimal(n)[0] != '0',
    decreases n,
{
    if n < 10 {
        lemma_decimal_digit(n as int);
        let d = decimal(n);
        assert(d.drop_last() =~= Seq::<char>::empty());
        assert(d.last() == decimal_digit(n as int));
        assert(digits_value(d) == digits_value(d.drop_last()) * 10 + (d.last() as int - '0' as int));
    } else {
        lemma_decimal_value(n / 10);
        lemma_decimal_digit((n % 10) as int);
        let prev = decimal(n / 10);
        let d = decimal(n);
        assert(d.drop_last() =~= prev);
        assert(d.last() == decimal_digit((n % 10) as int));
        assert(digits_value(d) == digits_value(prev) * 10 + (d.last() as int - '0' as int));
        assert(d[0] == prev[0]);
        assert forall|i: int| 0 <= i < d.len() implies '0' <= #[trigger] d[i] <= '9' by {
            if i < prev.len() {
                assert(d[i] == prev[i]);
            }
        }
        if n / 10 < 10 {
            lemma_decimal_digit((n / 10) as int);
        }
    }
}

proof fn lemma_leading_zeros(zeros: Seq<char>, s: Seq<char>)
    requires
        forall|i: int| 0 <= i < zeros.len() ==> #[trigger] zeros[i] == '0',
    ensures
        digits_value(zeros + s) == digits_value(s),
    decreases s.len(),
{
    if s.len() == 0 {
        lemma_zeros_value(zeros);
        assert(zeros + s =~= zeros);
    } else {
        lemma_leading_zeros(zeros, s.drop_last());
        assert((zeros + s).drop_last() =~= zeros + s.drop_last());
    }
}

proof fn lemma_zeros_value(zeros: Seq<char>)
    requires
        forall|i: int| 0 <= i < zeros.len() ==> #[trigger] zeros[i] == '0',
    ensures
        digits_value(zeros) == 0,
    decreases zeros.len(),
{
    if zeros.len() > 0 {
        lemma_zeros_value(zeros.drop_last());
    }
}

/// The name of the `number`-th entry is the number in decimal, padded with zeros in front to at
/// least five digits and with no zero in front beyond that, then a dot, then the extension.
pub proof fn law_entry_name(number: nat, ext: Seq<char>)
    ensures
        entry_name(number, ext).len() >= ext.len() + 6,
        entry_name(number, ext).skip(entry_name(number, ext).len() - ext.len()) == ext,
        entry_name(number, ext)[entry_name(number, ext).len() - ext.len() - 1] == '.',
        all_digits(entry_name(number, ext).take(entry_name(number, ext).len() - ext.len() - 1)),
        digits_value(entry_name(number, ext).take(entry_name(number, ext).len() - ext.len() - 1))
            == number,
        entry_name(number, ext).len() - ext.len() - 1 > 5 ==> entry_name(number, ext)[0] != '0',
{
    lemma_decimal_value(number);
    let digits = decimal(number);
    let padded = zero_padded(number, 5);
    let name = entry_name(number, ext);
    assert(name == padded + seq!['.'] + ext);
    assert(name.take(padded.len() as int) =~= padded);
    assert(name.skip(padded.len() + 1int) =~= ext);
    if digits.len() < 5 {
        let zeros = Seq::new((5 - digits.len()) as nat, |i: int| '0');
        assert(padded == zeros + digits);
        lemma_leading_zeros(zeros, digits);
        assert forall|i: int| 0 <= i < padded.len() implies '0' <= #[trigger] padded[i] <= '9' by {
            if i >= zeros.len() {
                assert(padded[i] == digits[i - zeros.len()]);
            }
        }
    } else {
        assert(name[0] == digits[0]);
    }
}

/// The decimal digit `d`, as a string.
fn digit_text(d: usize) -> (text: &'static str)
    requires
        d < 10,
    ensures
        text@ == seq![decimal_digit(d as int)],
{
    proof {
        reveal_strlit("0");
        reveal_strlit("1");
        reveal_strlit("2");
        reveal_strlit("3");
        reveal_strlit("4");
        reveal_strlit("5");
        reveal_strlit("6");
        reveal_strlit("7");
        reveal_strlit("8");
        reveal_strlit("9");
    }
    match d {
        0 => "0",
        1 => "1",
        2 => "2",
        3 => "3",
        4 => "4",
        5 => "5",
        6 => "6",
        7 => "7",
        8 => "8",
        _ => "9",
    }
}

/// Appends the decimal digits of `n`.
fn append_decimal(text: &mut String, n: usize)
    ensures
        final(text)@ == old(text)@ + decimal(n as nat),
    decreases n,
{
    if n >= 10 {
        append_decimal(text, n / 10);
    }
    text.append(digit_text(n % 10));
    proof {
        if n < 10 {
            assert(decimal(n as nat) =~= seq![decimal_digit(n as int)]);
        }
    }
}

/// Number of decimal digits of `n`.
fn decimal_len(n: usize) -> (len: usize)
    ensures
        len == decimal(n as nat).len(),
        1 <= len <= 20,
    decreases n,
{
    proof {
        lemma_decimal_len_20(n as nat);
    }
    if n >= 10 {
        decimal_len(n / 10) + 1
    } else {
        1
    }
}

/// The name of the `number`-th entry: the number on at least five digits, padded with zeros, a
/// dot and the extension, as `format!("{:05}.{}", number, ext)` writes it.
pub fn numbered_name(number: usize, ext: &str) -> (name: String)
    ensures
        name@ == entry_name(number as nat, ext@),
{
    let mut name = String::new();
    let len = decimal_len(number);
    let mut k: usize = len;
    while k < 5
        invariant
            len == decimal(number as nat).len(),
            len <= k <= 5 || (len > 5 && k == len),
            name@ == Seq::new((k - len) as nat, |i: int| '0'),
        decreases 5 - k,
    {
        name.append("0");
        proof {
            reveal_strlit("0");
        }
        assert(name@ =~= Seq::new((k + 1 - len) as nat, |i: int| '0'));
        k = k + 1;
    }
    let ghost zeros = name@;
    append_decimal(&mut name, number);
    assert(name@ =~= zero_padded(number as nat, 5)) by {
        if len >= 5 {
            assert(zeros =~= Seq::<char>::empty());
        }
    }
    name.append(".");
    proof {
        reveal_strlit(".");
    }
    name.append(ext);
    assert(name@ =~= entry_name(number as nat, ext@));
    name
}

/// A machine number has at most twenty decimal digits.
proof fn lemma_decimal_len_20(n: nat)
    requires
        n <= usize::MAX,
    ensures
        1 <= decimal(n).len() <= 20,
{
    lemma_decimal_plain(n);
    assert(pow10(20) == 100000000000000000000nat) by {
        reveal_with_fuel(pow10, 21);
    }
    lemma_decimal_len(n, 20);
}

proof fn lemma_decimal_plain(n: nat)
    ensures
        forall|i: int| 0 <= i < decimal(n).len() ==> plain_char(#[trigger] decimal(n)[i]),
        1 <= decimal(n).len(),
    decreases n,
{
    if n >= 10 {
        lemma_decimal_plain(n / 10);
        let prev = decimal(n / 10);
        assert(decimal(n) == prev.push(decimal_digit((n % 10) as int)));
        assert forall|i: int| 0 <= i < decimal(n).len() implies plain_char(#[trigger] decimal(n)[i]) by {
            if i < prev.len() {
                assert(decimal(n)[i] == prev[i]);
            }
        }
    }
}

/// Ten to the power `k`.
pub open spec fn pow10(k: nat) -> nat
    decreases k,
{
    if k == 0 {
        1
    } else {
        10 * pow10((k - 1) as nat)
    }
}

/// A number below ten to the power `k` has at most `k` decimal digits, and at least one.
proof fn lemma_decimal_len(n: nat, k: nat)
    requires
        n < pow10(k),
    ensures
        decimal(n).len() <= if k == 0 {
            1
        } else {
            k
        },
    decreases n,
{
    if n >= 10 {
        assert(k >= 1) by {
            if k == 0 {
                assert(pow10(0) == 1);
            }
        }
        assert(n / 10 < pow10((k - 1) as nat));
        lemma_decimal_len(n / 10, (k - 1) as nat);
        if k == 1 {
            assert(pow10(1) == 10) by {
                reveal_with_fuel(pow10, 2);
            }
        }
    }
}

/// An extension that entry names stay plain with: no `/` and no NUL.
pub open spec fn plain_ext(ext: Seq<char>) -> bool {
    forall|i: int| 0 <= i < ext.len() ==> plain_char(#[trigger] ext[i])
}

/// The name of an archive entry numbered by a machine number, with a plain extension, is plain.
pub proof fn lemma_entry_name_plain(number: nat, ext: Seq<char>)
    requires
        number <= usize::MAX,
        plain_ext(ext),
    ensures
        plain_name(entry_name(number, ext)),
{
    lemma_decimal_plain(number);
    lemma_decimal_len_20(number);
    let digits = decimal(number);
    let padded = zero_padded(number, 5);
    assert(5 <= padded.len() <= 20);
    assert forall|i: int| 0 <= i < padded.len() implies plain_char(#[trigger] padded[i]) by {
        if digits.len() < 5 {
            let zeros = Seq::new((5 - digits.len()) as nat, |k: int| '0');
            assert(padded == zeros + digits);
            if i >= zeros.len() {
                assert(padded[i] == digits[i - zeros.len()]);
            }
        }
    }
    let name = entry_name(number, ext);
    assert(name == padded + seq!['.'] + ext);
    let p = padded.len() as int;
    assert forall|i: int| 0 <= i < name.len() implies plain_char(#[trigger] name[i]) by {
        if i < p {
            assert(name[i] == padded[i]);
        } else if i == p {
            assert(name[i] == '.');
        } else {
            assert(name[i] == ext[i - p - 1]);
        }
    }
    assert(name.len() >= 6);
    assert(name[0] == padded[0]);
    assert(plain_char(name.last()));
    assert forall|i: int| 0 <= i < name.len() - 1 && #[trigger] name[i] == '/' implies name[i + 1]
        != '/' by {
        assert(plain_char(name[i]));
    }
    assert forall|i: int|
        0 <= i < name.len() && #[trigger] starts_component(name, i) implies !dot_component(
        name,
        i,
    ) by {
        if i > 0 {
            assert(plain_char(name[i - 1]));
        } else {
            if digits.len() < 5 {
                assert(padded[0] == '0');
            } else {
                assert(padded[0] == digits[0]);
                assert(digits[0] == decimal_digit(0) || '0' <= digits[0] <= '9') by {
                    lemma_decimal_first_digit(number);
                }
            }
        }
    }
}

/// The first character of a decimal representation is a digit.
proof fn lemma_decimal_first_digit(n: nat)
    ensures
        '0' <= decimal(n)[0] <= '9',
    decreases n,
{
    if n >= 10 {
        lemma_decimal_first_digit(n / 10);
        lemma_decimal_plain(n / 10);
        assert(decimal(n)[0] == decimal(n / 10)[0]);
    }
}

} // verus!
