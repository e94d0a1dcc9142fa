//! Fragments of a binary envelope, as carried by one QR symbol each.
//!
//! A fragment is framed as
//! `version (1 byte) | index (u16, big endian) | total (u16, big endian) | sha256 (32 bytes) | data`.
use super::checksum::{hex_lower, hex_lower_encode, sha256, sha256_digest};
use super::image::QR_CAPACITY;
use vstd::prelude::*;

verus! {

/// Size of the format version field.
pub const FORMAT_VERSION_SIZE: usize = 1;

/// Size of the fragment index field.
pub const FRAGMENT_INDEX_SIZE: usize = 2;

/// Size of the fragment total field.
pub const FRAGMENT_TOTAL_SIZE: usize = 2;

/// Size of a SHA-256 digest.
pub const SHA_256_SIZE: usize = 32;

/// Offset of the digest inside a framed fragment.
pub const SHA_256_SHIFT: usize = FORMAT_VERSION_SIZE + FRAGMENT_INDEX_SIZE + FRAGMENT_TOTAL_SIZE;

/// Size of the fragment header.
pub const HEADER_SIZE: usize = FORMAT_VERSION_SIZE + FRAGMENT_INDEX_SIZE + FRAGMENT_TOTAL_SIZE
    + SHA_256_SIZE;

/// Largest payload a fragment may carry so that the framed fragment fits one QR symbol: what
/// [`QR_CAPACITY`] leaves after the header.
pub const MAX_FRAGMENT_PAYLOAD_SIZE: usize = 176;

/// The only fragment format version this library reads and writes.
pub const FORMAT_VERSION: u8 = 0x01;

/// Largest number of fragments an envelope may be split into.
pub const MAX_FRAGMENT_TOTAL: u16 = 0xffff;

/// Why a byte string is not a fragment.
#[derive(Debug, PartialEq, Eq, Structural)]
pub enum FragmentDeserializeError {
    /// Fewer bytes than a fragment header; carries the length that was given.
    InvalidHeader(usize),
    /// The version byte is not [`FORMAT_VERSION`]; carries the byte that was found.
    UnsupportedVersion(u8),
    /// The payload exceeds [`MAX_FRAGMENT_PAYLOAD_SIZE`]; carries the payload length.
    FragmentTooLarge(usize),
}

/// One indexed, checksummed piece of a binary envelope.
#[derive(Debug)]
pub struct Fragment {
    /// Position of the fragment, counted from 1.
    pub index: u16,
    /// Number of fragments the envelope was split into.
    pub total: u16,
    /// SHA-256 digest of the whole binary envelope.
    pub sha256: [u8; 32],
    /// The piece of the envelope that this fragment carries.
    pub data: Vec<u8>,
}

/// The mathematical content of a [`Fragment`].
pub struct FragmentModel {
    pub index: u16,
    pub total: u16,
    pub sha256: Seq<u8>,
    pub data: Seq<u8>,
}

impl View for Fragment {
    type V = FragmentModel;

    open spec fn view(&self) -> FragmentModel {
        FragmentModel { index: self.index, total: self.total, sha256: self.sha256@, data: self.data@ }
    }
}

/// The two big-endian bytes of a 16-bit value.
pub open spec fn u16_be_bytes(v: u16) -> Seq<u8> {
    seq![(v / 256) as u8, (v % 256) as u8]
}

/// The 16-bit value whose big-endian bytes are `hi` and `lo`.
pub open spec fn u16_from_be(hi: u8, lo: u8) -> u16 {
    (hi as int * 256 + lo as int) as u16
}

/// The framed bytes of a fragment.
pub open spec fn fragment_bytes(f: FragmentModel) -> Seq<u8> {
    seq![FORMAT_VERSION] + u16_be_bytes(f.index) + u16_be_bytes(f.total) + f.sha256 + f.data
}

/// What reading a framed fragment from `b` gives.
pub open spec fn parse_fragment(b: Seq<u8>) -> Result<FragmentModel, FragmentDeserializeError> {
    if b.len() < HEADER_SIZE {
        Err(FragmentDeserializeError::InvalidHeader(b.len() as usize))
    } else if b[0] != FORMAT_VERSION {
        Err(FragmentDeserializeError::UnsupportedVersion(b[0]))
    } else if b.len() - HEADER_SIZE > MAX_FRAGMENT_PAYLOAD_SIZE {
        Err(FragmentDeserializeError::FragmentTooLarge((b.len() - HEADER_SIZE) as usize))
    } else {
        Ok(
            FragmentModel {
                index: u16_from_be(b[1], b[2]),
                total: u16_from_be(b[3], b[4]),
                sha256: b.subrange(SHA_256_SHIFT as int, HEADER_SIZE as int),
                data: b.subrange(HEADER_SIZE as int, b.len() as int),
            },
        )
    }
}

/// A fragment whose framed form fits one QR symbol.
pub open spec fn fragment_fits(f: FragmentModel) -> bool {
    f.sha256.len() == SHA_256_SIZE && f.data.len() <= MAX_FRAGMENT_PAYLOAD_SIZE
}

/// A fragment that fits is framed in at most [`QR_CAPACITY`] bytes, the payload of one symbol.
pub proof fn lemma_fitting_frame_len(f: FragmentModel)
    requires
        fragment_fits(f),
    ensures
        fragment_bytes(f).len() <= QR_CAPACITY,
{
}

/// Appends `src` to `buf`.
fn push_all(buf: &mut Vec<u8>, src: &[u8])
    ensures
        final(buf)@ == old(buf)@ + src@,
{
    let mut i: usize = 0;
    while i < src.len()
        invariant
            i <= src@.len(),
            buf@ == old(buf)@ + src@.subrange(0, i as int),
        decreases src@.len() - i,
    {
        buf.push(src[i]);
        i = i + 1;
        assert(src@.subrange(0, i as int) == src@.subrange(0, i - 1) + seq![src@[i - 1]]);
    }
    assert(src@.subrange(0, src@.len() as int) == src@);
}

impl Fragment {
    /// Frames the fragment as bytes.
    pub fn to_bytes(&self) -> (buf: Vec<u8>)
        ensures
            buf@ == fragment_bytes(self@),
            buf@.len() == HEADER_SIZE + self.data@.len(),
            buf@[0] == FORMAT_VERSION,
            buf@[1] as int == self.index as int / 256,
            buf@[2] as int == self.index as int % 256,
            buf@[3] as int == self.total as int / 256,
            buf@[4] as int == self.total as int % 256,
            buf@.subrange(SHA_256_SHIFT as int, HEADER_SIZE as int) == self.sha256@,
            buf@.subrange(HEADER_SIZE as int, buf@.len() as int) == self.data@,
    {
        let mut buf: Vec<u8> = Vec::with_capacity(HEADER_SIZE);
        buf.push(FORMAT_VERSION);
        buf.push((self.index / 256) as u8);
        buf.push((self.index % 256) as u8);
        buf.push((self.total / 256) as u8);
        buf.push((self.total % 256) as u8);
        push_all(&mut buf, self.sha256.as_slice());
        push_all(&mut buf, self.data.as_slice());
        assert(buf@ == fragment_bytes(self@));
        buf
    }

    /// Reads a framed fragment.
    pub fn from_bytes(bytes: &[u8]) -> (res: Result<Fragment, FragmentDeserializeError>)
        ensures
            match (res, parse_fragment(bytes@)) {
                (Ok(f), Ok(m)) => f@ == m,
                (Err(e), Err(me)) => e == me,
                _ => false,
            },
            res matches Ok(f) ==> {
                &&& f.index as int == bytes@[1] as int * 256 + bytes@[2] as int
                &&& f.total as int == bytes@[3] as int * 256 + bytes@[4] as int
                &&& f.sha256@ == bytes@.subrange(SHA_256_SHIFT as int, HEADER_SIZE as int)
                &&& f.data@ == bytes@.subrange(HEADER_SIZE as int, bytes@.len() as int)
            },
    {
        if bytes.len() < HEADER_SIZE {
            return Err(FragmentDeserializeError::InvalidHeader(bytes.len()));
        }
        let version = bytes[0];
        if version != FORMAT_VERSION {
            return Err(FragmentDeserializeError::UnsupportedVersion(version));
        }
        let index: u16 = (bytes[1] as u16) * 256 + bytes[2] as u16;
        let total: u16 = (bytes[3] as u16) * 256 + bytes[4] as u16;
        let mut sha256 = [0u8; 32];
        let mut i: usize = 0;
        while i < SHA_256_SIZE
            invariant
                i <= SHA_256_SIZE,
                bytes@.len() >= HEADER_SIZE,
                forall|k: int| 0 <= k < i ==> sha256@[k] == bytes@[SHA_256_SHIFT + k],
            decreases SHA_256_SIZE - i,
        {
            sha256[i] = bytes[SHA_256_SHIFT + i];
            i = i + 1;
        }
        let payload_len = bytes.len() - HEADER_SIZE;
        if payload_len > MAX_FRAGMENT_PAYLOAD_SIZE {
            return Err(FragmentDeserializeError::FragmentTooLarge(payload_len));
        }
        let mut data: Vec<u8> = Vec::with_capacity(payload_len);
        push_all(&mut data, &bytes[HEADER_SIZE..bytes.len()]);
        assert(sha256@ == bytes@.subrange(SHA_256_SHIFT as int, HEADER_SIZE as int));
        Ok(Fragment { index, total, sha256, data })
    }
}

/// Reading back a framed fragment gives the fragment that was framed.
pub proof fn law_fragment_roundtrip(f: FragmentModel)
    requires
        fragment_fits(f),
    ensures
        parse_fragment(fragment_bytes(f)) == Ok::<FragmentModel, FragmentDeserializeError>(f),
{
    let b = fragment_bytes(f);
    assert(b.subrange(SHA_256_SHIFT as int, HEADER_SIZE as int) =~= f.sha256);
    assert(b.subrange(HEADER_SIZE as int, b.len() as int) =~= f.data);
    assert(u16_from_be(b[1], b[2]) == f.index);
    assert(u16_from_be(b[3], b[4]) == f.total);
}

/// Framing a fragment that was read gives back the bytes it was read from.
pub proof fn law_bytes_roundtrip(b: Seq<u8>)
    requires
        parse_fragment(b) is Ok,
    ensures
        fragment_bytes(parse_fragment(b)->Ok_0) == b,
        fragment_fits(parse_fragment(b)->Ok_0),
{
    let f = parse_fragment(b)->Ok_0;
    assert(u16_be_bytes(f.index) =~= seq![b[1], b[2]]);
    assert(u16_be_bytes(f.total) =~= seq![b[3], b[4]]);
    assert(fragment_bytes(f) =~= b);
}


/// A framed fragment starts with the format version, then the index and the total, each as two
/// bytes with the high byte first, then the digest and the data.
pub proof fn law_fragment_layout(f: FragmentModel)
    requires
        f.sha256.len() == SHA_256_SIZE,
    ensures
        fragment_bytes(f).len() == 37 + f.data.len(),
        fragment_bytes(f)[0] == 1,
        fragment_bytes(f)[1] as int == f.index as int / 256,
        fragment_bytes(f)[2] as int == f.index as int % 256,
        fragment_bytes(f)[3] as int == f.total as int / 256,
        fragment_bytes(f)[4] as int == f.total as int % 256,
        fragment_bytes(f)[1] as int * 256 + fragment_bytes(f)[2] as int == f.index as int,
        fragment_bytes(f)[3] as int * 256 + fragment_bytes(f)[4] as int == f.total as int,
        forall|k: int| 0 <= k < 32 ==> #[trigger] fragment_bytes(f)[5 + k] == f.sha256[k],
        forall|k: int| 0 <= k < f.data.len() ==> #[trigger] fragment_bytes(f)[37 + k] == f.data[k],
{
    let b = fragment_bytes(f);
    assert(b[1] == (f.index / 256) as u8);
    assert(b[3] == (f.total / 256) as u8);
    assert forall|k: int| 0 <= k < 32 implies #[trigger] b[5 + k] == f.sha256[k] by {}
    assert forall|k: int| 0 <= k < f.data.len() implies #[trigger] b[37 + k] == f.data[k] by {}
}

/// Reading a fragment takes the index from the second and third bytes and the total from the
/// fourth and fifth, high byte first, the digest from the next 32 bytes and the data from the
/// rest; it refuses fewer than 37 bytes, another version byte and more than 176 bytes of data.
pub proof fn law_fragment_reading(b: Seq<u8>)
    ensures
        parse_fragment(b) is Ok <==> (b.len() >= 37 && b[0] == 1 && b.len() - 37 <= 176),
        parse_fragment(b) matches Ok(f) ==> {
            &&& f.index as int == b[1] as int * 256 + b[2] as int
            &&& f.total as int == b[3] as int * 256 + b[4] as int
            &&& f.sha256 == b.subrange(5, 37)
            &&& f.data == b.subrange(37, b.len() as int)
        },
{
}

/// The fragments read back as models.
pub open spec fn models(v: Seq<Fragment>) -> Seq<FragmentModel> {
    v.map_values(|f: Fragment| f@)
}

/// Some fragment of `fs` carries index `i`.
pub open spec fn has_index(fs: Seq<FragmentModel>, i: u16) -> bool {
    exists|k: int| 0 <= k < fs.len() && fs[k].index == i
}

/// No fragment before position `k` carries the index of the fragment at `k`.
#[verifier::opaque]
pub open spec fn is_first(fs: Seq<FragmentModel>, k: int) -> bool {
    forall|k2: int| 0 <= k2 < k ==> fs[k2].index != fs[k].index
}

/// Indices strictly increase along `d`.
pub open spec fn sorted_by_index(d: Seq<FragmentModel>) -> bool {
    forall|a: int, b: int| 0 <= a < b < d.len() ==> d[a].index < d[b].index
}

/// `f` is the first fragment of `fs` with its index.
pub open spec fn occurs_first(fs: Seq<FragmentModel>, f: FragmentModel) -> bool {
    exists|k: int| 0 <= k < fs.len() && is_first(fs, k) && f == fs[k]
}

/// Every fragment of `d` is the first fragment of `fs` with its index.
pub open spec fn lists_firsts(fs: Seq<FragmentModel>, d: Seq<FragmentModel>) -> bool {
    forall|j: int| 0 <= j < d.len() ==> #[trigger] occurs_first(fs, d[j])
}

/// Every index of `fs` occurs in `d`.
pub open spec fn covers_indices(fs: Seq<FragmentModel>, d: Seq<FragmentModel>) -> bool {
    forall|k: int| 0 <= k < fs.len() ==> #[trigger] has_index(d, fs[k].index)
}

/// `d` lists, in increasing order of index, the first fragment of `fs` with each index that occurs in `fs`.
pub open spec fn ordered_unique(fs: Seq<FragmentModel>, d: Seq<FragmentModel>) -> bool {
    &&& sorted_by_index(d)
    &&& lists_firsts(fs, d)
    &&& covers_indices(fs, d)
}

/// The fragments of `fs` in the order in which their data is joined: one per index, by increasing
/// index, the first one given for each index.
pub open spec fn canonical_order(fs: Seq<FragmentModel>) -> Seq<FragmentModel> {
    choose|d: Seq<FragmentModel>| ordered_unique(fs, d)
}

/// Two fragments with index `i` carry different data, where the first fragment with that index
/// is the one compared against.
pub open spec fn conflicting_before(fs: Seq<FragmentModel>, n: int, i: u16) -> bool {
    exists|k: int, k0: int|
        0 <= k < n && 0 <= k0 < fs.len() && fs[k].index == i && fs[k0].index == i && is_first(fs, k0)
            && fs[k].data != fs[k0].data
}

/// Index `i` is given twice with different data.
pub open spec fn conflicting(fs: Seq<FragmentModel>, i: u16) -> bool {
    conflicting_before(fs, fs.len() as int, i)
}

/// The smallest conflicting index.
pub open spec fn min_conflicting(fs: Seq<FragmentModel>) -> u16 {
    choose|i: u16| conflicting(fs, i) && forall|j: u16| j < i ==> !conflicting(fs, j)
}

/// The indices in `1..=n` that are reported missing: all of them when some fragment carries
/// index 0, otherwise those that no fragment carries, in increasing order.
pub open spec fn missing_upto(fs: Seq<FragmentModel>, n: nat) -> Seq<u16>
    decreases n,
{
    if n == 0 {
        seq![]
    } else {
        let prev = missing_upto(fs, (n - 1) as nat);
        if has_index(fs, 0) || !has_index(fs, n as u16) {
            prev.push(n as u16)
        } else {
            prev
        }
    }
}

/// The data of the fragments of `d`, joined in order.
pub open spec fn concat_data(d: Seq<FragmentModel>) -> Seq<u8>
    decreases d.len(),
{
    if d.len() == 0 {
        seq![]
    } else {
        concat_data(d.drop_last()) + d.last().data
    }
}


/// Two first positions of the same index are the same position.
proof fn lemma_first_unique(fs: Seq<FragmentModel>, k1: int, k2: int)
    requires
        0 <= k1 < fs.len(),
        0 <= k2 < fs.len(),
        is_first(fs, k1),
        is_first(fs, k2),
        fs[k1].index == fs[k2].index,
    ensures
        k1 == k2,
{
    reveal(is_first);
    if k1 < k2 {
        assert(fs[k1].index != fs[k2].index);
    } else if k2 < k1 {
        assert(fs[k2].index != fs[k1].index);
    }
}

/// Two sequences sorted by strictly increasing index that hold the same indices hold them at the
/// same positions.
proof fn lemma_sorted_same_indices(d1: Seq<FragmentModel>, d2: Seq<FragmentModel>)
    requires
        sorted_by_index(d1),
        sorted_by_index(d2),
        forall|x: u16| has_index(d1, x) == has_index(d2, x),
    ensures
        d1.len() == d2.len(),
        forall|j: int| 0 <= j < d1.len() ==> d1[j].index == d2[j].index,
    decreases d1.len(),
{
    if d1.len() == 0 {
        if d2.len() > 0 {
            assert(has_index(d2, d2[0].index));
        }
    } else {
        assert(has_index(d1, d1[0].index));
        assert(d2.len() > 0);
        assert(has_index(d2, d2[0].index));
        let x1 = d1[0].index;
        let x2 = d2[0].index;
        assert(has_index(d2, x1));
        let j2 = choose|j: int| 0 <= j < d2.len() && d2[j].index == x1;
        assert(x2 <= x1) by {
            if j2 > 0 {
                assert(d2[0].index < d2[j2].index);
            }
        }
        assert(has_index(d1, x2));
        let j1 = choose|j: int| 0 <= j < d1.len() && d1[j].index == x2;
        assert(x1 <= x2) by {
            if j1 > 0 {
                assert(d1[0].index < d1[j1].index);
            }
        }
        let e1 = d1.drop_first();
        let e2 = d2.drop_first();
        assert forall|x: u16| has_index(e1, x) == has_index(e2, x) by {
            if has_index(e1, x) {
                let j = choose|j: int| 0 <= j < e1.len() && e1[j].index == x;
                assert(d1[j + 1].index == x);
                assert(d1[0].index < d1[j + 1].index);
                assert(has_index(d1, x));
                let k = choose|k: int| 0 <= k < d2.len() && d2[k].index == x;
                assert(k != 0);
                assert(e2[k - 1].index == x);
            }
            if has_index(e2, x) {
                let j = choose|j: int| 0 <= j < e2.len() && e2[j].index == x;
                assert(d2[j + 1].index == x);
                assert(d2[0].index < d2[j + 1].index);
                assert(has_index(d2, x));
                let k = choose|k: int| 0 <= k < d1.len() && d1[k].index == x;
                assert(k != 0);
                assert(e1[k - 1].index == x);
            }
        }
        lemma_sorted_same_indices(e1, e2);
        assert forall|j: int| 0 <= j < d1.len() implies d1[j].index == d2[j].index by {
            if j > 0 {
                assert(e1[j - 1].index == e2[j - 1].index);
            }
        }
    }
}

/// A sequence that lists the first fragment of each index by increasing index holds exactly the
/// indices of the fragments.
proof fn lemma_ordered_unique_indices(fs: Seq<FragmentModel>, d: Seq<FragmentModel>)
    requires
        ordered_unique(fs, d),
    ensures
        forall|x: u16| has_index(d, x) == has_index(fs, x),
{
    assert forall|x: u16| has_index(d, x) == has_index(fs, x) by {
        if has_index(d, x) {
            let j = choose|j: int| 0 <= j < d.len() && d[j].index == x;
            assert(occurs_first(fs, d[j]));
            let k = choose|k: int| 0 <= k < fs.len() && is_first(fs, k) && d[j] == fs[k];
            assert(fs[k].index == x);
        }
        if has_index(fs, x) {
            let k = choose|k: int| 0 <= k < fs.len() && fs[k].index == x;
            assert(has_index(d, fs[k].index));
        }
    }
}

/// There is only one way to list the first fragment of each index by increasing index.
pub proof fn lemma_ordered_unique_is_unique(
    fs: Seq<FragmentModel>,
    d1: Seq<FragmentModel>,
    d2: Seq<FragmentModel>,
)
    requires
        ordered_unique(fs, d1),
        ordered_unique(fs, d2),
    ensures
        d1 == d2,
{
    lemma_ordered_unique_indices(fs, d1);
    lemma_ordered_unique_indices(fs, d2);
    lemma_sorted_same_indices(d1, d2);
    assert forall|j: int| 0 <= j < d1.len() implies d1[j] == d2[j] by {
        lemma_same_index_same_fragment(fs, d1, d2, j);
    }
    assert(d1 =~= d2);
}

proof fn lemma_same_index_same_fragment(
    fs: Seq<FragmentModel>,
    d1: Seq<FragmentModel>,
    d2: Seq<FragmentModel>,
    j: int,
)
    requires
        ordered_unique(fs, d1),
        ordered_unique(fs, d2),
        0 <= j < d1.len(),
        j < d2.len(),
        d1[j].index == d2[j].index,
    ensures
        d1[j] == d2[j],
{
    assert(occurs_first(fs, d1[j]));
    assert(occurs_first(fs, d2[j]));
    let k1 = choose|k: int| 0 <= k < fs.len() && is_first(fs, k) && d1[j] == fs[k];
    let k2 = choose|k: int| 0 <= k < fs.len() && is_first(fs, k) && d2[j] == fs[k];
    lemma_first_unique(fs, k1, k2);
}

/// Any listing of the first fragment of each index by increasing index is the canonical order.
pub proof fn lemma_canonical_order(fs: Seq<FragmentModel>, d: Seq<FragmentModel>)
    requires
        ordered_unique(fs, d),
    ensures
        canonical_order(fs) == d,
{
    lemma_ordered_unique_is_unique(fs, canonical_order(fs), d);
}


/// The fragments of `fs` at the positions `p`.
pub open spec fn picked(fs: Seq<FragmentModel>, p: Seq<usize>) -> Seq<FragmentModel> {
    p.map_values(|q: usize| fs[q as int])
}

/// `c` is the smallest index that conflicts among the first `n` fragments, or `None` if none does.
pub open spec fn conflict_summary(fs: Seq<FragmentModel>, n: int, c: Option<u16>) -> bool {
    match c {
        None => forall|i: u16| !conflicting_before(fs, n, i),
        Some(x) => conflicting_before(fs, n, x) && forall|i: u16| i < x ==> !conflicting_before(fs, n, i),
    }
}

/// Looking at one more fragment adds at most the conflict between it and the first fragment with
/// its index.
proof fn lemma_conflict_step(fs: Seq<FragmentModel>, k: int, k0: int)
    requires
        0 <= k < fs.len(),
        0 <= k0 < fs.len(),
        is_first(fs, k0),
        fs[k0].index == fs[k].index,
    ensures
        forall|i: u16|
            conflicting_before(fs, k + 1, i) == (conflicting_before(fs, k, i) || (i == fs[k].index
                && fs[k].data != fs[k0].data)),
{
    assert forall|i: u16|
        conflicting_before(fs, k + 1, i) == (conflicting_before(fs, k, i) || (i == fs[k].index
            && fs[k].data != fs[k0].data)) by {
        if conflicting_before(fs, k + 1, i) {
            let (k1, k2) = choose|k1: int, k2: int|
                0 <= k1 < k + 1 && 0 <= k2 < fs.len() && fs[k1].index == i && fs[k2].index == i
                    && is_first(fs, k2) && fs[k1].data != fs[k2].data;
            if k1 == k {
                lemma_first_unique(fs, k0, k2);
            } else {
                assert(conflicting_before(fs, k, i));
            }
        }
        if i == fs[k].index && fs[k].data != fs[k0].data {
            assert(conflicting_before(fs, k + 1, i)) by {
                assert(0 <= k < k + 1 && 0 <= k0 < fs.len() && fs[k].index == i && fs[k0].index == i
                    && is_first(fs, k0) && fs[k].data != fs[k0].data);
            }
        }
        if conflicting_before(fs, k, i) {
            let (k1, k2) = choose|k1: int, k2: int|
                0 <= k1 < k && 0 <= k2 < fs.len() && fs[k1].index == i && fs[k2].index == i
                    && is_first(fs, k2) && fs[k1].data != fs[k2].data;
            assert(0 <= k1 < k + 1);
        }
    }
}

/// Compares two byte strings.
fn bytes_eq(a: &[u8], b: &[u8]) -> (same: bool)
    ensures
        same == (a@ == b@),
{
    if a.len() != b.len() {
        return false;
    }
    let mut i: usize = 0;
    while i < a.len()
        invariant
            a@.len() == b@.len(),
            i <= a@.len(),
            forall|j: int| 0 <= j < i ==> a@[j] == b@[j],
        decreases a@.len() - i,
    {
        if a[i] != b[i] {
            return false;
        }
        i = i + 1;
    }
    assert(a@ =~= b@);
    true
}

/// The positions `p` name, for the first `k` fragments of `fs`, the first fragment of each index,
/// by increasing index.
#[verifier::opaque]
spec fn slots_ok(fs: Seq<FragmentModel>, p: Seq<usize>, k: int) -> bool {
    &&& forall|j: int| 0 <= j < p.len() ==> p[j] < k && is_first(fs, p[j] as int)
    &&& forall|a: int, b: int| 0 <= a < b < p.len() ==> fs[p[a] as int].index < fs[p[b] as int].index
    &&& forall|k2: int| 0 <= k2 < k ==> #[trigger] covered(fs, p, k2)
}

/// Some position of `p` holds a fragment with the index of the fragment at `k`.
spec fn covered(fs: Seq<FragmentModel>, p: Seq<usize>, k: int) -> bool {
    exists|j: int| 0 <= j < p.len() && fs[p[j] as int].index == fs[k].index
}

proof fn lemma_slots_empty(fs: Seq<FragmentModel>)
    ensures
        slots_ok(fs, seq![], 0),
{
    reveal(slots_ok);
}

proof fn lemma_slots_bounded(fs: Seq<FragmentModel>, p: Seq<usize>, k: int)
    requires
        slots_ok(fs, p, k),
    ensures
        forall|j: int| 0 <= j < p.len() ==> p[j] < k,
{
    reveal(slots_ok);
}

/// A fragment whose index is already listed leaves the listing as it is.
proof fn lemma_slots_found(fs: Seq<FragmentModel>, p: Seq<usize>, k: int, j: int)
    requires
        slots_ok(fs, p, k),
        0 <= k < fs.len(),
        0 <= j < p.len(),
        fs[p[j] as int].index == fs[k].index,
    ensures
        slots_ok(fs, p, k + 1),
        is_first(fs, p[j] as int),
        p[j] < k,
{
    reveal(slots_ok);
    assert forall|k2: int| 0 <= k2 < k + 1 implies #[trigger] covered(fs, p, k2) by {
        if k2 == k {
            assert(fs[p[j] as int].index == fs[k2].index);
        }
    }
}

/// A fragment whose index is not listed yet is the first with its index, and is listed at the
/// slot that keeps the listing sorted.
proof fn lemma_slots_insert(fs: Seq<FragmentModel>, p: Seq<usize>, k: int, j: int)
    requires
        slots_ok(fs, p, k),
        0 <= k < fs.len(),
        k < usize::MAX,
        0 <= j <= p.len(),
        forall|q: int| 0 <= q < j ==> fs[p[q] as int].index < fs[k].index,
        j < p.len() ==> fs[p[j] as int].index > fs[k].index,
    ensures
        is_first(fs, k),
        slots_ok(fs, p.insert(j, k as usize), k + 1),
{
    reveal(slots_ok);
    reveal(is_first);
    let x = fs[k].index;
    assert forall|k2: int| 0 <= k2 < k implies fs[k2].index != fs[k].index by {
        if fs[k2].index == x {
            assert(covered(fs, p, k2));
            let j2 = choose|jj: int| 0 <= jj < p.len() && fs[p[jj] as int].index == fs[k2].index;
            if j2 > j {
                assert(fs[p[j] as int].index < fs[p[j2] as int].index);
            }
        }
    }
    let np = p.insert(j, k as usize);
    assert forall|a: int, b: int| 0 <= a < b < np.len() implies fs[np[a] as int].index
        < fs[np[b] as int].index by {
        if b < j {
        } else if b == j {
        } else if a < j {
            if b - 1 > j {
                assert(fs[p[j] as int].index < fs[p[b - 1] as int].index);
            }
        } else if a == j {
            if b - 1 > j {
                assert(fs[p[j] as int].index < fs[p[b - 1] as int].index);
            }
        } else {
        }
    }
    assert forall|q: int| 0 <= q < np.len() implies np[q] < k + 1 && is_first(fs, np[q] as int) by {
        if q < j {
        } else if q > j {
            assert(np[q] == p[q - 1]);
        }
    }
    assert forall|k2: int| 0 <= k2 < k + 1 implies #[trigger] covered(fs, np, k2) by {
        if k2 == k {
            assert(fs[np[j] as int].index == fs[k2].index);
        } else {
            assert(covered(fs, p, k2));
            let j2 = choose|jj: int| 0 <= jj < p.len() && fs[p[jj] as int].index == fs[k2].index;
            if j2 < j {
                assert(np[j2] == p[j2]);
            } else {
                assert(np[j2 + 1] == p[j2]);
            }
        }
    }
}

/// Once every fragment is looked at, the listing is the canonical one.
proof fn lemma_slots_final(fs: Seq<FragmentModel>, p: Seq<usize>)
    requires
        slots_ok(fs, p, fs.len() as int),
    ensures
        ordered_unique(fs, picked(fs, p)),
{
    lemma_slots_final_firsts(fs, p);
    lemma_slots_final_covers(fs, p);
    reveal(slots_ok);
    let d = picked(fs, p);
    assert forall|a: int, b: int| 0 <= a < b < d.len() implies d[a].index < d[b].index by {
        assert(d[a] == fs[p[a] as int] && d[b] == fs[p[b] as int]);
    }
}

proof fn lemma_slots_final_firsts(fs: Seq<FragmentModel>, p: Seq<usize>)
    requires
        slots_ok(fs, p, fs.len() as int),
    ensures
        lists_firsts(fs, picked(fs, p)),
{
    reveal(slots_ok);
    let d = picked(fs, p);
    assert forall|j: int| 0 <= j < d.len() implies #[trigger] occurs_first(fs, d[j]) by {
        let kk = p[j] as int;
        assert(0 <= kk < fs.len());
        assert(is_first(fs, kk));
        assert(d[j] == fs[kk]);
    }
}

proof fn lemma_slots_final_covers(fs: Seq<FragmentModel>, p: Seq<usize>)
    requires
        slots_ok(fs, p, fs.len() as int),
    ensures
        covers_indices(fs, picked(fs, p)),
{
    reveal(slots_ok);
    let d = picked(fs, p);
    assert forall|kk: int| 0 <= kk < fs.len() implies #[trigger] has_index(d, fs[kk].index) by {
        assert(covered(fs, p, kk));
        let j = choose|jj: int| 0 <= jj < p.len() && fs[p[jj] as int].index == fs[kk].index;
        assert(d[j] == fs[p[j] as int]);
        assert(0 <= j < d.len() && d[j].index == fs[kk].index);
    }
}

/// The smaller of a known conflict and a new one.
spec fn merge_conflict(c: Option<u16>, x: u16) -> Option<u16> {
    match c {
        None => Some(x),
        Some(y) => if x < y {
            Some(x)
        } else {
            Some(y)
        },
    }
}

proof fn lemma_conflict_summary_step(
    fs: Seq<FragmentModel>,
    k: int,
    k0: int,
    c: Option<u16>,
)
    requires
        0 <= k < fs.len(),
        0 <= k0 < fs.len(),
        is_first(fs, k0),
        fs[k0].index == fs[k].index,
        conflict_summary(fs, k, c),
    ensures
        fs[k].data == fs[k0].data ==> conflict_summary(fs, k + 1, c),
        fs[k].data != fs[k0].data ==> conflict_summary(fs, k + 1, merge_conflict(c, fs[k].index)),
{
    lemma_conflict_step(fs, k, k0);
    let x = fs[k].index;
    let k1 = k + 1;
    if fs[k].data == fs[k0].data {
        assert forall|i: u16| conflicting_before(fs, k1, i) == conflicting_before(fs, k, i) by {}
    } else {
        assert(conflicting_before(fs, k + 1, x));
        match c {
            None => {
                assert forall|i: u16| i < x implies !conflicting_before(fs, k1, i) by {
                    assert(!conflicting_before(fs, k, i));
                }
            },
            Some(y) => {
                if x < y {
                    assert forall|i: u16| i < x implies !conflicting_before(fs, k1, i) by {
                    assert(!conflicting_before(fs, k, i));
                }
                } else {
                    assert(conflicting_before(fs, k + 1, y));
                    assert forall|i: u16| i < y implies !conflicting_before(fs, k1, i) by {
                    assert(!conflicting_before(fs, k, i));
                }
                }
            },
        }
    }
}

/// Picks the first fragment of each index, by increasing index, and finds the smallest index
/// given twice with different data.
fn order_fragments(fragments: &Vec<Fragment>) -> (res: (Vec<usize>, Option<u16>))
    ensures
        forall|j: int| 0 <= j < res.0@.len() ==> res.0@[j] < fragments@.len(),
        ordered_unique(models(fragments@), picked(models(fragments@), res.0@)),
        conflict_summary(models(fragments@), fragments@.len() as int, res.1),
{
    let ghost fs = models(fragments@);
    let n = fragments.len();
    let mut pos: Vec<usize> = Vec::new();
    let mut conflict: Option<u16> = None;
    let mut k: usize = 0;
    proof {
        lemma_slots_empty(fs);
        assert(pos@ == Seq::<usize>::empty());
    }
    while k < n
        invariant
            n == fragments@.len(),
            fs == models(fragments@),
            k <= n,
            slots_ok(fs, pos@, k as int),
            conflict_summary(fs, k as int, conflict),
        decreases n - k,
    {
        proof {
            lemma_slots_bounded(fs, pos@, k as int);
        }
        let x = fragments[k].index;
        assert(fs[k as int].index == x);
        let mut j: usize = 0;
        while j < pos.len() && fragments[pos[j]].index < x
            invariant
                n == fragments@.len(),
                fs == models(fragments@),
                k < n,
                fs[k as int].index == x,
                j <= pos@.len(),
                forall|q: int| 0 <= q < pos@.len() ==> pos@[q] < k,
                forall|q: int| 0 <= q < j ==> fs[pos@[q] as int].index < x,
            decreases pos@.len() - j,
        {
            j = j + 1;
        }
        if j < pos.len() && fragments[pos[j]].index == x {
            let k0 = pos[j];
            proof {
                lemma_slots_found(fs, pos@, k as int, j as int);
                lemma_conflict_summary_step(fs, k as int, k0 as int, conflict);
            }
            let same = bytes_eq(fragments[k].data.as_slice(), fragments[k0].data.as_slice());
            if !same {
                conflict = match conflict {
                    None => Some(x),
                    Some(c) => if x < c {
                        Some(x)
                    } else {
                        Some(c)
                    },
                };
            }
        } else {
            proof {
                lemma_slots_insert(fs, pos@, k as int, j as int);
                lemma_conflict_summary_step(fs, k as int, k as int, conflict);
            }
            pos.insert(j, k);
        }
        k = k + 1;
    }
    proof {
        lemma_slots_bounded(fs, pos@, n as int);
        lemma_slots_final(fs, pos@);
    }
    (pos, conflict)
}


/// The reported positions of `1..=total` that no fragment fills.
fn missing_indices(fragments: &Vec<Fragment>, pos: &Vec<usize>, total: u16) -> (missing: Vec<u16>)
    requires
        forall|j: int| 0 <= j < pos@.len() ==> pos@[j] < fragments@.len(),
        ordered_unique(models(fragments@), picked(models(fragments@), pos@)),
    ensures
        missing@ == missing_upto(models(fragments@), total as nat),
{
    let ghost fs = models(fragments@);
    let ghost d = picked(fs, pos@);
    proof {
        lemma_ordered_unique_indices(fs, d);
        if has_index(fs, 0) {
            assert(has_index(d, 0));
            let j = choose|j: int| 0 <= j < d.len() && d[j].index == 0;
            if j > 0 {
                assert(d[0].index < d[j].index);
            }
            assert(d[0].index == 0);
        }
    }
    let mut missing: Vec<u16> = Vec::new();
    let mut p: usize = 0;
    let mut e: u32 = 1;
    while e <= total as u32
        invariant
            fs == models(fragments@),
            d == picked(fs, pos@),
            forall|j: int| 0 <= j < pos@.len() ==> pos@[j] < fragments@.len(),
            sorted_by_index(d),
            forall|x: u16| has_index(d, x) == has_index(fs, x),
            has_index(fs, 0) ==> d.len() > 0 && d[0].index == 0,
            1 <= e <= total as u32 + 1,
            missing@ == missing_upto(fs, (e - 1) as nat),
            p <= pos@.len(),
            has_index(fs, 0) ==> p == 0,
            !has_index(fs, 0) ==> forall|q: int| 0 <= q < p ==> (d[q].index as int) < e,
            !has_index(fs, 0) ==> (p < pos@.len() ==> (d[p as int].index as int) >= e),
        decreases total as u32 + 1 - e,
    {
        assert(d.len() == pos@.len());
        let ghost prev = missing@;
        let hit = p < pos.len() && fragments[pos[p]].index as u32 == e;
        if hit {
            assert(d[p as int] == fs[pos@[p as int] as int]);
            assert(has_index(d, e as u16));
            assert(!has_index(fs, 0));
            p = p + 1;
            assert forall|q: int| 0 <= q < p implies (d[q].index as int) < e + 1 by {}
            assert(p < pos@.len() ==> d[p - 1].index < d[p as int].index);
        } else {
            proof {
                if !has_index(fs, 0) && has_index(fs, e as u16) {
                    assert(has_index(d, e as u16));
                    let j = choose|j: int| 0 <= j < d.len() && d[j].index == e as u16;
                    if j > p {
                        assert(d[p as int].index < d[j].index);
                    }
                    if j == p {
                        assert(d[p as int] == fs[pos@[p as int] as int]);
                    }
                }
            }
            missing.push(e as u16);
        }
        assert(missing@ == missing_upto(fs, e as nat));
        e = e + 1;
    }
    missing
}

/// The data of the fragments at positions `pos`, joined in order.
fn join_data(fragments: &Vec<Fragment>, pos: &Vec<usize>) -> (joined: Vec<u8>)
    requires
        forall|j: int| 0 <= j < pos@.len() ==> pos@[j] < fragments@.len(),
    ensures
        joined@ == concat_data(picked(models(fragments@), pos@)),
{
    let ghost d = picked(models(fragments@), pos@);
    let mut joined: Vec<u8> = Vec::new();
    let mut j: usize = 0;
    while j < pos.len()
        invariant
            d == picked(models(fragments@), pos@),
            forall|q: int| 0 <= q < pos@.len() ==> pos@[q] < fragments@.len(),
            j <= pos@.len(),
            joined@ == concat_data(d.take(j as int)),
        decreases pos@.len() - j,
    {
        let q = pos[j];
        assert(d[j as int] == fragments@[q as int]@);
        push_all(&mut joined, fragments[q].data.as_slice());
        assert(d.take(j + 1).drop_last() == d.take(j as int));
        j = j + 1;
    }
    assert(d.take(pos@.len() as int) == d);
    joined
}

/// The result of reassembling fragments, before it is given an executable form.
pub enum AssembleOutcome {
    Assembled(Seq<u8>),
    MissingFragments(Seq<u16>),
    ConflictingSha256,
    ConflictingDuplicate(u16),
    Sha256Mismatch(Seq<char>, Seq<char>),
}

/// What reassembling the fragments `fs`, given in this order, yields.
///
/// The checks come in this order: no fragment at all; digests that differ between fragments;
/// an index given twice with different data (the smallest such index is reported); missing
/// indices among `1..=total`, where `total` is that of the first fragment given; finally the
/// digest of the joined data against the digest that the fragments carry.
pub open spec fn assemble_outcome(fs: Seq<FragmentModel>) -> AssembleOutcome {
    if fs.len() == 0 {
        AssembleOutcome::MissingFragments(seq![1u16])
    } else if exists|k: int| #![trigger fs[k]] 0 <= k < fs.len() && fs[k].sha256 != fs[0].sha256 {
        AssembleOutcome::ConflictingSha256
    } else if exists|i: u16| conflicting(fs, i) {
        AssembleOutcome::ConflictingDuplicate(min_conflicting(fs))
    } else if missing_upto(fs, fs[0].total as nat).len() > 0 {
        AssembleOutcome::MissingFragments(missing_upto(fs, fs[0].total as nat))
    } else {
        let joined = concat_data(canonical_order(fs));
        if sha256(joined) != fs[0].sha256 {
            AssembleOutcome::Sha256Mismatch(hex_lower(fs[0].sha256), hex_lower(sha256(joined)))
        } else {
            AssembleOutcome::Assembled(joined)
        }
    }
}

/// Why fragments could not be reassembled.
#[derive(Debug)]
pub enum AssembleFragmentsError {
    /// These indices, counted from 1, are missing.
    MissingFragments(Vec<u16>),
    /// The fragments do not all carry the same digest.
    ConflictingSha256,
    /// This index is given twice with different data.
    ConflictingDuplicate(u16),
    /// The joined data does not have the digest that the fragments carry.
    Sha256Mismatch { expected: String, actual: String },
}

impl AssembleFragmentsError {
    /// The outcome that this error reports.
    pub open spec fn outcome(&self) -> AssembleOutcome {
        match self {
            AssembleFragmentsError::MissingFragments(m) => AssembleOutcome::MissingFragments(m@),
            AssembleFragmentsError::ConflictingSha256 => AssembleOutcome::ConflictingSha256,
            AssembleFragmentsError::ConflictingDuplicate(i) => AssembleOutcome::ConflictingDuplicate(*i),
            AssembleFragmentsError::Sha256Mismatch { expected, actual } => AssembleOutcome::Sha256Mismatch(
                expected@,
                actual@,
            ),
        }
    }
}

/// Reassembles the binary envelope from its fragments, in whatever order they come and with
/// whatever repetitions.
pub fn assemble_fragments(fragments: Vec<Fragment>) -> (res: Result<Vec<u8>, AssembleFragmentsError>)
    ensures
        match res {
            Ok(joined) => assemble_outcome(models(fragments@)) == AssembleOutcome::Assembled(joined@),
            Err(e) => assemble_outcome(models(fragments@)) == e.outcome(),
        },
{
    let ghost fs = models(fragments@);
    if fragments.len() == 0 {
        let missing = vec![1u16];
        assert(missing@ == seq![1u16]);
        return Err(AssembleFragmentsError::MissingFragments(missing));
    }
    let expected_total = fragments[0].total;
    let mut k: usize = 0;
    while k < fragments.len()
        invariant
            fs == models(fragments@),
            fs.len() > 0,
            k <= fs.len(),
            forall|k2: int| #![trigger fs[k2]] 0 <= k2 < k ==> fs[k2].sha256 == fs[0].sha256,
        decreases fs.len() - k,
    {
        if !bytes_eq(fragments[k].sha256.as_slice(), fragments[0].sha256.as_slice()) {
            assert(fs[k as int].sha256 != fs[0].sha256);
            return Err(AssembleFragmentsError::ConflictingSha256);
        }
        k = k + 1;
    }
    assert(!exists|k2: int| #![trigger fs[k2]] 0 <= k2 < fs.len() && fs[k2].sha256 != fs[0].sha256);
    let (pos, conflict) = order_fragments(&fragments);
    if let Some(i) = conflict {
        proof {
            assert(conflicting(fs, i));
            assert(forall|j: u16| j < i ==> !conflicting(fs, j));
            assert(conflicting(fs, i) && forall|j: u16| j < i ==> !conflicting(fs, j));
            let m = min_conflicting(fs);
            assert(conflicting(fs, m) && forall|j: u16| j < m ==> !conflicting(fs, j));
            if m < i {
            } else if i < m {
            }
        }
        return Err(AssembleFragmentsError::ConflictingDuplicate(i));
    }
    assert(!exists|i: u16| conflicting(fs, i));
    let missing = missing_indices(&fragments, &pos, expected_total);
    if missing.len() > 0 {
        return Err(AssembleFragmentsError::MissingFragments(missing));
    }
    let joined = join_data(&fragments, &pos);
    proof {
        lemma_canonical_order(fs, picked(fs, pos@));
    }
    let actual = sha256_digest(joined.as_slice());
    if !bytes_eq(actual.as_slice(), fragments[0].sha256.as_slice()) {
        let expected = hex_lower_encode(fragments[0].sha256.as_slice());
        let actual_hex = hex_lower_encode(actual.as_slice());
        return Err(AssembleFragmentsError::Sha256Mismatch { expected, actual: actual_hex });
    }
    Ok(joined)
}


/// Number of fragments that `len` bytes are split into.
pub open spec fn chunk_count(len: int) -> int {
    (len + MAX_FRAGMENT_PAYLOAD_SIZE - 1) / MAX_FRAGMENT_PAYLOAD_SIZE as int
}

/// End of the `i`-th chunk of `len` bytes.
pub open spec fn chunk_end(len: int, i: int) -> int {
    if (i + 1) * MAX_FRAGMENT_PAYLOAD_SIZE <= len {
        (i + 1) * MAX_FRAGMENT_PAYLOAD_SIZE
    } else {
        len
    }
}

/// The `i`-th chunk of `b`: every chunk holds [`MAX_FRAGMENT_PAYLOAD_SIZE`] bytes but the last.
pub open spec fn chunk_of(b: Seq<u8>, i: int) -> Seq<u8> {
    b.subrange(i * MAX_FRAGMENT_PAYLOAD_SIZE, chunk_end(b.len() as int, i))
}

/// The fragments that carry the chunks of `b`, numbered from `offset + 1`.
pub open spec fn chunk_fragments(b: Seq<u8>, offset: int, total: u16, digest: Seq<u8>) -> Seq<
    FragmentModel,
> {
    Seq::new(
        chunk_count(b.len() as int) as nat,
        |i: int|
            FragmentModel {
                index: (offset + i + 1) as u16,
                total,
                sha256: digest,
                data: chunk_of(b, i),
            },
    )
}

/// Number of fragments that an envelope with this header and ciphertext is split into.
pub open spec fn fragment_total(header: Seq<u8>, ciphertext: Seq<u8>) -> int {
    chunk_count(header.len() as int) + chunk_count(ciphertext.len() as int)
}

/// The fragments of an envelope: the header's chunks, then the ciphertext's, numbered from 1,
/// each carrying the total and the digest of the whole envelope.
pub open spec fn envelope_fragments(header: Seq<u8>, ciphertext: Seq<u8>, digest: Seq<u8>) -> Seq<
    FragmentModel,
> {
    let total = fragment_total(header, ciphertext) as u16;
    chunk_fragments(header, 0, total, digest) + chunk_fragments(
        ciphertext,
        chunk_count(header.len() as int),
        total,
        digest,
    )
}

/// An envelope is split into the 176-byte pieces of its header, the last one shorter, then
/// those of its ciphertext, numbered from 1 in that order; every fragment carries the count of
/// all of them and the digest.
pub proof fn law_envelope_split(header: Seq<u8>, ciphertext: Seq<u8>, digest: Seq<u8>)
    requires
        (header.len() + 175) / 176 + (ciphertext.len() + 175) / 176 <= 0xffff,
    ensures
        envelope_fragments(header, ciphertext, digest).len() == (header.len() + 175) / 176 + (
        ciphertext.len() + 175) / 176,
        forall|k: int|
            0 <= k < envelope_fragments(header, ciphertext, digest).len() ==> {
                &&& (#[trigger] envelope_fragments(header, ciphertext, digest)[k]).index == k + 1
                &&& envelope_fragments(header, ciphertext, digest)[k].total
                    == envelope_fragments(header, ciphertext, digest).len()
                &&& envelope_fragments(header, ciphertext, digest)[k].sha256 == digest
            },
        forall|k: int|
            0 <= k < (header.len() + 175) / 176 ==> #[trigger] envelope_fragments(
                header,
                ciphertext,
                digest,
            )[k].data == header.subrange(
                176 * k,
                if 176 * (k + 1) <= header.len() {
                    176 * (k + 1)
                } else {
                    header.len() as int
                },
            ),
        forall|k: int|
            0 <= k < (ciphertext.len() + 175) / 176 ==> #[trigger] envelope_fragments(
                header,
                ciphertext,
                digest,
            )[(header.len() + 175) / 176 + k].data == ciphertext.subrange(
                176 * k,
                if 176 * (k + 1) <= ciphertext.len() {
                    176 * (k + 1)
                } else {
                    ciphertext.len() as int
                },
            ),
{
    let e = envelope_fragments(header, ciphertext, digest);
    let hc = chunk_count(header.len() as int);
    let total = fragment_total(header, ciphertext);
    assert(hc == (header.len() + 175) / 176);
    assert forall|k: int| 0 <= k < e.len() implies {
        &&& (#[trigger] e[k]).index == k + 1
        &&& e[k].total == e.len()
        &&& e[k].sha256 == digest
    } by {
        if k < hc {
            assert(e[k] == chunk_fragments(header, 0, total as u16, digest)[k]);
        } else {
            assert(e[k] == chunk_fragments(ciphertext, hc, total as u16, digest)[k - hc]);
        }
    }
    assert forall|k: int| 0 <= k < (ciphertext.len() + 175) / 176 implies #[trigger] e[(
    header.len() + 175) / 176 + k].data == ciphertext.subrange(
        176 * k,
        if 176 * (k + 1) <= ciphertext.len() {
            176 * (k + 1)
        } else {
            ciphertext.len() as int
        },
    ) by {
        assert(e[hc + k] == chunk_fragments(ciphertext, hc, total as u16, digest)[k]);
    }
}

/// Why an envelope could not be split into fragments.
#[derive(Debug, PartialEq, Eq, Structural)]
pub enum EnvelopeFragmentationError {
    /// The envelope needs this many fragments (first field), more than the maximum (second field).
    TooManyFragments(usize, usize),
}

/// An envelope split into fragments: those of the header, then those of the ciphertext.
pub struct FragmentedEnvelope {
    header: Vec<Fragment>,
    ciphertext: Vec<Fragment>,
}

/// Number of chunks of `len` bytes.
fn count_chunks(len: usize) -> (n: usize)
    ensures
        n == chunk_count(len as int),
        n <= len / MAX_FRAGMENT_PAYLOAD_SIZE + 1,
{
    let q = len / MAX_FRAGMENT_PAYLOAD_SIZE;
    if len % MAX_FRAGMENT_PAYLOAD_SIZE == 0 {
        q
    } else {
        q + 1
    }
}

/// The fragments that carry the chunks of `bytes`, numbered from `offset + 1`.
fn make_fragments(bytes: &[u8], offset: usize, total: u16, digest: [u8; 32]) -> (fragments: Vec<
    Fragment,
>)
    requires
        offset + chunk_count(bytes@.len() as int) <= total,
    ensures
        models(fragments@) == chunk_fragments(bytes@, offset as int, total, digest@),
{
    let ghost target = chunk_fragments(bytes@, offset as int, total, digest@);
    let len = bytes.len();
    let n = count_chunks(len);
    let mut fragments: Vec<Fragment> = Vec::new();
    let mut i: usize = 0;
    while i < n
        invariant
            len == bytes@.len(),
            n == chunk_count(len as int),
            target == chunk_fragments(bytes@, offset as int, total, digest@),
            offset + n <= total,
            i <= n,
            models(fragments@) == target.take(i as int),
        decreases n - i,
    {
        assert(i * MAX_FRAGMENT_PAYLOAD_SIZE < len) by (nonlinear_arith)
            requires
                i < n,
                n == (len + MAX_FRAGMENT_PAYLOAD_SIZE - 1) / MAX_FRAGMENT_PAYLOAD_SIZE as int,
        ;
        let start = i * MAX_FRAGMENT_PAYLOAD_SIZE;
        let end = if len - start > MAX_FRAGMENT_PAYLOAD_SIZE {
            start + MAX_FRAGMENT_PAYLOAD_SIZE
        } else {
            len
        };
        assert(end == chunk_end(len as int, i as int));
        let mut data: Vec<u8> = Vec::new();
        push_all(&mut data, &bytes[start..end]);
        let index: u16 = (offset + i + 1) as u16;
        let fragment = Fragment { index, total, sha256: digest, data };
        let ghost fm = fragment@;
        assert(fm == target[i as int]);
        let ghost before = fragments@;
        fragments.push(fragment);
        assert(fragments@ == before.push(fragment));
        assert(models(fragments@) =~= target.take(i + 1)) by {
            assert(target.len() == n);
            assert(models(before).len() == i);
            assert(before.len() == i);
            assert(fragments@.len() == i + 1);
            assert forall|k: int| 0 <= k < i + 1 implies #[trigger] models(fragments@)[k]
                == target.take(i + 1)[k] by {
                assert(models(fragments@)[k] == fragments@[k]@);
                if k < i {
                    assert(fragments@[k] == before[k]);
                    assert(models(before)[k] == before[k]@);
                    assert(models(before)[k] == target.take(i as int)[k]);
                } else {
                    assert(fragments@[k]@ == fm);
                }
            }
        }
        i = i + 1;
    }
    assert(target.take(n as int) =~= target);
    fragments
}


impl FragmentedEnvelope {
    /// The fragments, header first, as models.
    pub closed spec fn fragment_models(&self) -> Seq<FragmentModel> {
        models(self.header@) + models(self.ciphertext@)
    }

    /// Splits an envelope, given as its serialized header and its ciphertext, into fragments of
    /// at most [`MAX_FRAGMENT_PAYLOAD_SIZE`] bytes, each carrying the digest of the whole.
    pub fn from_envelope(header_bytes: &[u8], ciphertext: &[u8]) -> (res: Result<
        FragmentedEnvelope,
        EnvelopeFragmentationError,
    >)
        ensures
            fragment_total(header_bytes@, ciphertext@) <= MAX_FRAGMENT_TOTAL <==> res is Ok,
            res matches Ok(fe) ==> fe.fragment_models() == envelope_fragments(
                header_bytes@,
                ciphertext@,
                sha256(header_bytes@ + ciphertext@),
            ),
            res matches Err(e) ==> e == EnvelopeFragmentationError::TooManyFragments(
                fragment_total(header_bytes@, ciphertext@) as usize,
                MAX_FRAGMENT_TOTAL as usize,
            ),
            res is Ok ==> sha256(header_bytes@ + ciphertext@).len() == SHA_256_SIZE,
    {
        let header_count = count_chunks(header_bytes.len());
        let ciphertext_count = count_chunks(ciphertext.len());
        assert(header_count + ciphertext_count <= usize::MAX) by (nonlinear_arith)
            requires
                header_count <= header_bytes.len() / 176 + 1,
                ciphertext_count <= ciphertext.len() / 176 + 1,
                header_bytes.len() <= usize::MAX,
                ciphertext.len() <= usize::MAX,
        ;
        let total_fragments = header_count + ciphertext_count;
        if total_fragments > MAX_FRAGMENT_TOTAL as usize {
            return Err(
                EnvelopeFragmentationError::TooManyFragments(
                    total_fragments,
                    MAX_FRAGMENT_TOTAL as usize,
                ),
            );
        }
        let total = total_fragments as u16;
        let mut envelope_bytes: Vec<u8> = Vec::new();
        push_all(&mut envelope_bytes, header_bytes);
        push_all(&mut envelope_bytes, ciphertext);
        let sha256 = sha256_digest(envelope_bytes.as_slice());
        let header = make_fragments(header_bytes, 0, total, sha256);
        let ciphertext = make_fragments(ciphertext, header_count, total, sha256);
        Ok(FragmentedEnvelope { header, ciphertext })
    }

    /// The fragments, header first.
    pub fn fragments(&self) -> (fragments: Vec<&Fragment>)
        ensures
            fragments@.len() == self.fragment_models().len(),
            forall|j: int| 0 <= j < fragments@.len() ==> fragments@[j]@ == self.fragment_models()[j],
    {
        let mut fragments: Vec<&Fragment> = Vec::new();
        let mut i: usize = 0;
        while i < self.header.len()
            invariant
                i <= self.header@.len(),
                fragments@.len() == i,
                forall|j: int| 0 <= j < i ==> fragments@[j]@ == self.header@[j]@,
            decreases self.header@.len() - i,
        {
            fragments.push(&self.header[i]);
            i = i + 1;
        }
        let mut k: usize = 0;
        while k < self.ciphertext.len()
            invariant
                k <= self.ciphertext@.len(),
                fragments@.len() == self.header@.len() + k,
                forall|j: int| 0 <= j < self.header@.len() ==> fragments@[j]@ == self.header@[j]@,
                forall|j: int|
                    0 <= j < k ==> fragments@[self.header@.len() + j]@ == self.ciphertext@[j]@,
            decreases self.ciphertext@.len() - k,
        {
            fragments.push(&self.ciphertext[k]);
            k = k + 1;
        }
        proof {
            let m = self.fragment_models();
            assert forall|j: int| 0 <= j < fragments@.len() implies fragments@[j]@ == m[j] by {
                if j >= self.header@.len() {
                    assert(fragments@[self.header@.len() + (j - self.header@.len())]@
                        == self.ciphertext@[j - self.header@.len()]@);
                }
            }
        }
        fragments
    }
}


/// The fragments `e` are numbered `1..=e.len()` in order, and each carries their number and the
/// digest of their joined data.
pub open spec fn complete_set(e: Seq<FragmentModel>) -> bool {
    &&& 0 < e.len() <= MAX_FRAGMENT_TOTAL
    &&& forall|j: int|
        0 <= j < e.len() ==> {
            &&& (#[trigger] e[j]).index == j + 1
            &&& e[j].total == e.len()
            &&& e[j].sha256 == sha256(concat_data(e))
        }
}

/// `fs` holds each fragment of `e` at least once, in any order, and no other fragment.
pub open spec fn same_fragments(fs: Seq<FragmentModel>, e: Seq<FragmentModel>) -> bool {
    &&& forall|k: int| 0 <= k < fs.len() ==> #[trigger] e.contains(fs[k])
    &&& forall|j: int| 0 <= j < e.len() ==> #[trigger] fs.contains(e[j])
}

/// Some fragment with index `x` comes first among those with that index.
proof fn lemma_first_exists(fs: Seq<FragmentModel>, k: int)
    requires
        0 <= k < fs.len(),
    ensures
        exists|k0: int| 0 <= k0 <= k && is_first(fs, k0) && fs[k0].index == fs[k].index,
    decreases k,
{
    reveal(is_first);
    if !is_first(fs, k) {
        let k2 = choose|k2: int| 0 <= k2 < k && fs[k2].index == fs[k].index;
        lemma_first_exists(fs, k2);
    }
}

/// Which indices are missing depends only on which indices occur.
proof fn lemma_missing_same_indices(fs: Seq<FragmentModel>, gs: Seq<FragmentModel>, n: nat)
    requires
        forall|x: u16| has_index(fs, x) == has_index(gs, x),
    ensures
        missing_upto(fs, n) == missing_upto(gs, n),
    decreases n,
{
    if n > 0 {
        lemma_missing_same_indices(fs, gs, (n - 1) as nat);
        assert(has_index(fs, 0) == has_index(gs, 0));
        assert(has_index(fs, n as u16) == has_index(gs, n as u16));
    }
}

/// Nothing is missing below the count of a complete set.
proof fn lemma_complete_nothing_missing(e: Seq<FragmentModel>, n: nat)
    requires
        complete_set(e),
        n <= e.len(),
    ensures
        missing_upto(e, n) == Seq::<u16>::empty(),
    decreases n,
{
    if n > 0 {
        lemma_complete_nothing_missing(e, (n - 1) as nat);
        assert(e[n - 1].index == n);
        assert(has_index(e, n as u16));
        if has_index(e, 0) {
            let j = choose|j: int| 0 <= j < e.len() && e[j].index == 0;
            assert(e[j].index == j + 1);
        }
    }
}

/// Fragments of a complete set, given in any order and with repetitions, reassemble into the
/// data of the set.
pub proof fn law_reassembly_any_order(fs: Seq<FragmentModel>, e: Seq<FragmentModel>)
    requires
        complete_set(e),
        same_fragments(fs, e),
    ensures
        assemble_outcome(fs) == AssembleOutcome::Assembled(concat_data(e)),
{
    let joined = concat_data(e);
    assert(fs.contains(e[0]));
    assert(fs.len() > 0);
    assert(e.contains(fs[0]));
    let j0 = choose|j: int| 0 <= j < e.len() && e[j] == fs[0];
    assert(e[j0].sha256 == sha256(joined));
    assert(fs[0].total == e.len());
    // every fragment carries the digest of the joined data
    assert forall|k: int| #![trigger fs[k]] 0 <= k < fs.len() implies fs[k].sha256 == fs[0].sha256 by {
        assert(e.contains(fs[k]));
        let j = choose|j: int| 0 <= j < e.len() && e[j] == fs[k];
        assert(e[j].sha256 == sha256(joined));
    }
    assert(!exists|k: int| #![trigger fs[k]] 0 <= k < fs.len() && fs[k].sha256 != fs[0].sha256);
    // two fragments with the same index are the same fragment
    assert forall|i: u16| !conflicting(fs, i) by {
        if conflicting(fs, i) {
            let (k1, k2) = choose|k1: int, k2: int|
                0 <= k1 < fs.len() && 0 <= k2 < fs.len() && fs[k1].index == i && fs[k2].index == i
                    && is_first(fs, k2) && fs[k1].data != fs[k2].data;
            assert(e.contains(fs[k1]));
            assert(e.contains(fs[k2]));
            let j1 = choose|j: int| 0 <= j < e.len() && e[j] == fs[k1];
            let j2 = choose|j: int| 0 <= j < e.len() && e[j] == fs[k2];
            assert(e[j1].index == j1 + 1);
            assert(e[j2].index == j2 + 1);
        }
    }
    // the same indices occur
    assert forall|x: u16| has_index(fs, x) == has_index(e, x) by {
        if has_index(fs, x) {
            let k = choose|k: int| 0 <= k < fs.len() && fs[k].index == x;
            assert(e.contains(fs[k]));
        }
        if has_index(e, x) {
            let j = choose|j: int| 0 <= j < e.len() && e[j].index == x;
            assert(fs.contains(e[j]));
        }
    }
    lemma_missing_same_indices(fs, e, e.len());
    lemma_complete_nothing_missing(e, e.len());
    // the canonical order of the fragments is the complete set itself
    assert(sorted_by_index(e));
    assert forall|j: int| 0 <= j < e.len() implies #[trigger] occurs_first(fs, e[j]) by {
        assert(fs.contains(e[j]));
        let k = choose|k: int| 0 <= k < fs.len() && fs[k] == e[j];
        lemma_first_exists(fs, k);
        let k0 = choose|k0: int| 0 <= k0 <= k && is_first(fs, k0) && fs[k0].index == fs[k].index;
        assert(e.contains(fs[k0]));
        let j2 = choose|jj: int| 0 <= jj < e.len() && e[jj] == fs[k0];
        assert(e[j2].index == j2 + 1);
        assert(e[j].index == j + 1);
    }
    assert forall|k: int| 0 <= k < fs.len() implies #[trigger] has_index(e, fs[k].index) by {
        assert(e.contains(fs[k]));
    }
    assert(ordered_unique(fs, e));
    lemma_canonical_order(fs, e);
}


/// `fs` and `gs` hold the same fragments, each any number of times, in any order.
pub open spec fn same_set(fs: Seq<FragmentModel>, gs: Seq<FragmentModel>) -> bool {
    &&& forall|k: int| 0 <= k < fs.len() ==> #[trigger] gs.contains(fs[k])
    &&& forall|k: int| 0 <= k < gs.len() ==> #[trigger] fs.contains(gs[k])
}

/// Every fragment of `fs` gives the same total.
pub open spec fn same_total(fs: Seq<FragmentModel>) -> bool {
    forall|k1: int, k2: int|
        0 <= k1 < fs.len() && 0 <= k2 < fs.len() ==> #[trigger] fs[k1].total == #[trigger] fs[k2].total
}

/// Two fragments of `fs` with index `i` carry different data.
pub open spec fn clash(fs: Seq<FragmentModel>, i: u16) -> bool {
    exists|k1: int, k2: int|
        0 <= k1 < fs.len() && 0 <= k2 < fs.len() && #[trigger] fs[k1].index == i
            && #[trigger] fs[k2].index == i && fs[k1].data != fs[k2].data
}

/// An index conflicts exactly when two fragments with it carry different data.
proof fn lemma_conflicting_is_clash(fs: Seq<FragmentModel>, i: u16)
    ensures
        conflicting(fs, i) == clash(fs, i),
{
    if clash(fs, i) {
        let (k1, k2) = choose|k1: int, k2: int|
            0 <= k1 < fs.len() && 0 <= k2 < fs.len() && #[trigger] fs[k1].index == i
                && #[trigger] fs[k2].index == i && fs[k1].data != fs[k2].data;
        lemma_first_exists(fs, k1);
        let k0 = choose|k0: int| 0 <= k0 <= k1 && is_first(fs, k0) && fs[k0].index == fs[k1].index;
        if fs[k1].data != fs[k0].data {
            assert(conflicting_before(fs, fs.len() as int, i));
        } else {
            assert(fs[k2].data != fs[k0].data);
            assert(conflicting_before(fs, fs.len() as int, i));
        }
    }
    if conflicting(fs, i) {
        let (k, k0) = choose|k: int, k0: int|
            0 <= k < fs.len() && 0 <= k0 < fs.len() && fs[k].index == i && fs[k0].index == i
                && is_first(fs, k0) && fs[k].data != fs[k0].data;
        assert(fs[k].index == i && fs[k0].index == i);
    }
}

/// Clashes depend only on which fragments occur.
proof fn lemma_clash_same_set(fs: Seq<FragmentModel>, gs: Seq<FragmentModel>, i: u16)
    requires
        same_set(fs, gs),
        clash(fs, i),
    ensures
        clash(gs, i),
{
    let (k1, k2) = choose|k1: int, k2: int|
        0 <= k1 < fs.len() && 0 <= k2 < fs.len() && #[trigger] fs[k1].index == i
            && #[trigger] fs[k2].index == i && fs[k1].data != fs[k2].data;
    assert(gs.contains(fs[k1]));
    assert(gs.contains(fs[k2]));
    let j1 = choose|j: int| 0 <= j < gs.len() && gs[j] == fs[k1];
    let j2 = choose|j: int| 0 <= j < gs.len() && gs[j] == fs[k2];
    assert(gs[j1].index == i && gs[j2].index == i);
}

/// Fragments that agree on digest and total and never clash are equal when their indices are.
pub open spec fn uniform(fs: Seq<FragmentModel>) -> bool {
    forall|k1: int, k2: int|
        0 <= k1 < fs.len() && 0 <= k2 < fs.len() && #[trigger] fs[k1].index == #[trigger] fs[k2].index
            ==> fs[k1] == fs[k2]
}

/// In a uniform sequence, a fragment is the first with its index exactly when it occurs.
proof fn lemma_uniform_occurs_first(fs: Seq<FragmentModel>, f: FragmentModel)
    requires
        uniform(fs),
    ensures
        occurs_first(fs, f) == fs.contains(f),
{
    if fs.contains(f) {
        let k = choose|k: int| 0 <= k < fs.len() && fs[k] == f;
        lemma_first_exists(fs, k);
        let k0 = choose|k0: int| 0 <= k0 <= k && is_first(fs, k0) && fs[k0].index == fs[k].index;
        assert(fs[k0] == fs[k]);
    }
}

/// In a uniform sequence, the canonical order depends only on which fragments occur.
proof fn lemma_uniform_ordered_unique(fs: Seq<FragmentModel>, gs: Seq<FragmentModel>, d: Seq<FragmentModel>)
    requires
        uniform(fs),
        uniform(gs),
        same_set(fs, gs),
        ordered_unique(fs, d),
    ensures
        ordered_unique(gs, d),
{
    assert forall|j: int| 0 <= j < d.len() implies #[trigger] occurs_first(gs, d[j]) by {
        assert(occurs_first(fs, d[j]));
        lemma_uniform_occurs_first(fs, d[j]);
        let k = choose|k: int| 0 <= k < fs.len() && fs[k] == d[j];
        assert(gs.contains(fs[k]));
        lemma_uniform_occurs_first(gs, d[j]);
    }
    assert forall|k: int| 0 <= k < gs.len() implies #[trigger] has_index(d, gs[k].index) by {
        assert(fs.contains(gs[k]));
        let k2 = choose|k2: int| 0 <= k2 < fs.len() && fs[k2] == gs[k];
        assert(has_index(d, fs[k2].index));
    }
}

/// Some fragment carries another digest than the first.
pub open spec fn mixed_digests(fs: Seq<FragmentModel>) -> bool {
    exists|k: int| #![trigger fs[k]] 0 <= k < fs.len() && fs[k].sha256 != fs[0].sha256
}

/// Whether digests differ, and the digest of the first fragment when they do not, depend only on
/// which fragments occur.
proof fn lemma_same_set_digests(fs: Seq<FragmentModel>, gs: Seq<FragmentModel>)
    requires
        same_set(fs, gs),
        fs.len() > 0,
        gs.len() > 0,
    ensures
        mixed_digests(fs) == mixed_digests(gs),
        !mixed_digests(fs) ==> fs[0].sha256 == gs[0].sha256,
{
    assert(gs.contains(fs[0]));
    assert(fs.contains(gs[0]));
    let a = choose|j: int| 0 <= j < gs.len() && gs[j] == fs[0];
    let b = choose|k: int| 0 <= k < fs.len() && fs[k] == gs[0];
    if mixed_digests(fs) {
        let k = choose|k: int| #![trigger fs[k]] 0 <= k < fs.len() && fs[k].sha256 != fs[0].sha256;
        assert(gs.contains(fs[k]));
        let j = choose|j: int| 0 <= j < gs.len() && gs[j] == fs[k];
        if gs[j].sha256 == gs[0].sha256 {
            assert(gs[a].sha256 != gs[0].sha256);
        }
    }
    if mixed_digests(gs) {
        let k = choose|k: int| #![trigger gs[k]] 0 <= k < gs.len() && gs[k].sha256 != gs[0].sha256;
        assert(fs.contains(gs[k]));
        let j = choose|j: int| 0 <= j < fs.len() && fs[j] == gs[k];
        if fs[j].sha256 == fs[0].sha256 {
            assert(fs[b].sha256 != fs[0].sha256);
        }
    }
    if !mixed_digests(fs) {
        assert(fs[b].sha256 == fs[0].sha256);
    }
}

/// Whether an index conflicts depends only on which fragments occur.
proof fn lemma_same_set_conflicting(fs: Seq<FragmentModel>, gs: Seq<FragmentModel>, i: u16)
    requires
        same_set(fs, gs),
    ensures
        conflicting(fs, i) == conflicting(gs, i),
{
    lemma_conflicting_is_clash(fs, i);
    lemma_conflicting_is_clash(gs, i);
    if clash(fs, i) {
        lemma_clash_same_set(fs, gs, i);
    }
    if clash(gs, i) {
        lemma_clash_same_set(gs, fs, i);
    }
}

/// `i` is the smallest conflicting index.
pub open spec fn least_conflicting(fs: Seq<FragmentModel>, i: u16) -> bool {
    conflicting(fs, i) && forall|j: u16| j < i ==> !conflicting(fs, j)
}

/// Below any conflicting index lies a smallest one.
proof fn lemma_least_conflicting_exists(fs: Seq<FragmentModel>, i: u16)
    requires
        conflicting(fs, i),
    ensures
        least_conflicting(fs, min_conflicting(fs)),
    decreases i,
{
    if forall|j: u16| j < i ==> !conflicting(fs, j) {
        assert(least_conflicting(fs, i));
    } else {
        let j = choose|j: u16| j < i && conflicting(fs, j);
        lemma_least_conflicting_exists(fs, j);
    }
}

/// Which indices conflict, and the smallest of them, depend only on which fragments occur.
proof fn lemma_same_set_conflicts(fs: Seq<FragmentModel>, gs: Seq<FragmentModel>, i: u16)
    requires
        same_set(fs, gs),
        conflicting(fs, i),
    ensures
        min_conflicting(fs) == min_conflicting(gs),
{
    lemma_same_set_conflicting(fs, gs, i);
    lemma_least_conflicting_exists(fs, i);
    lemma_least_conflicting_exists(gs, i);
    let m1 = min_conflicting(fs);
    let m2 = min_conflicting(gs);
    lemma_same_set_conflicting(fs, gs, m1);
    lemma_same_set_conflicting(fs, gs, m2);
    if m1 < m2 {
        assert(!conflicting(gs, m1));
    } else if m2 < m1 {
        assert(!conflicting(fs, m2));
    }
}

/// The first fragment of `fs` with index `i`.
pub open spec fn first_with(fs: Seq<FragmentModel>, i: u16) -> FragmentModel {
    fs[choose|k: int| 0 <= k < fs.len() && is_first(fs, k) && fs[k].index == i]
}

/// The first fragment of each index below `n` that occurs in `fs`, by increasing index.
pub open spec fn firsts_upto(fs: Seq<FragmentModel>, n: nat) -> Seq<FragmentModel>
    decreases n,
{
    if n == 0 {
        seq![]
    } else {
        let prev = firsts_upto(fs, (n - 1) as nat);
        if has_index(fs, (n - 1) as u16) {
            prev.push(first_with(fs, (n - 1) as u16))
        } else {
            prev
        }
    }
}

proof fn lemma_firsts_upto(fs: Seq<FragmentModel>, n: nat)
    requires
        n <= 0x10000,
    ensures
        forall|j: int| 0 <= j < firsts_upto(fs, n).len() ==> (#[trigger] firsts_upto(fs, n)[j]).index < n,
        sorted_by_index(firsts_upto(fs, n)),
        lists_firsts(fs, firsts_upto(fs, n)),
        forall|i: u16| i < n && has_index(fs, i) ==> #[trigger] has_index(firsts_upto(fs, n), i),
    decreases n,
{
    if n > 0 {
        let x = (n - 1) as u16;
        lemma_firsts_upto(fs, (n - 1) as nat);
        let prev = firsts_upto(fs, (n - 1) as nat);
        if has_index(fs, x) {
            let k = choose|k: int| 0 <= k < fs.len() && fs[k].index == x;
            lemma_first_exists(fs, k);
            let g = first_with(fs, x);
            assert(occurs_first(fs, g));
            let d = prev.push(g);
            assert(d == firsts_upto(fs, n));
            assert forall|j: int| 0 <= j < d.len() implies #[trigger] occurs_first(fs, d[j]) by {
                if j < prev.len() {
                    assert(d[j] == prev[j]);
                }
            }
            assert forall|i: u16| i < n && has_index(fs, i) implies #[trigger] has_index(d, i) by {
                if i < x {
                    assert(has_index(prev, i));
                    let j = choose|j: int| 0 <= j < prev.len() && prev[j].index == i;
                    assert(d[j] == prev[j]);
                } else {
                    assert(d[prev.len() as int] == g);
                }
            }
        } else {
            assert forall|i: u16| i < n && has_index(fs, i) implies #[trigger] has_index(prev, i) by {
                assert(i != x);
            }
        }
    }
}

/// Every sequence of fragments has a canonical order.
proof fn lemma_canonical_order_exists(fs: Seq<FragmentModel>)
    ensures
        ordered_unique(fs, canonical_order(fs)),
{
    lemma_firsts_upto(fs, 0x10000);
    let d = firsts_upto(fs, 0x10000);
    assert forall|k: int| 0 <= k < fs.len() implies #[trigger] has_index(d, fs[k].index) by {
        assert(has_index(fs, fs[k].index));
    }
    assert(ordered_unique(fs, d));
}

/// Fragments that share one digest and one total and never conflict are equal when their
/// indices are.
proof fn lemma_uniform(fs: Seq<FragmentModel>)
    requires
        fs.len() > 0,
        !mixed_digests(fs),
        same_total(fs),
        forall|i: u16| !conflicting(fs, i),
    ensures
        uniform(fs),
{
    assert forall|k1: int, k2: int|
        0 <= k1 < fs.len() && 0 <= k2 < fs.len() && #[trigger] fs[k1].index == #[trigger] fs[k2].index
        implies fs[k1] == fs[k2] by {
        lemma_conflicting_is_clash(fs, fs[k1].index);
        assert(fs[k1].sha256 == fs[0].sha256 && fs[k2].sha256 == fs[0].sha256);
        assert(fs[k1].total == fs[k2].total);
    }
}

/// Every fragment of `gs` is one of `fs`, so they all give the same total.
proof fn lemma_same_set_total(fs: Seq<FragmentModel>, gs: Seq<FragmentModel>)
    requires
        same_set(fs, gs),
        same_total(fs),
    ensures
        same_total(gs),
{
    assert forall|k1: int, k2: int|
        0 <= k1 < gs.len() && 0 <= k2 < gs.len() implies #[trigger] gs[k1].total
        == #[trigger] gs[k2].total by {
        assert(fs.contains(gs[k1]));
        assert(fs.contains(gs[k2]));
        let j1 = choose|j: int| 0 <= j < fs.len() && fs[j] == gs[k1];
        let j2 = choose|j: int| 0 <= j < fs.len() && fs[j] == gs[k2];
        assert(fs[j1].total == fs[j2].total);
    }
}

/// Which indices are missing, and the canonical order, depend only on which fragments occur
/// when fragments with one index are one fragment.
proof fn lemma_same_set_uniform(fs: Seq<FragmentModel>, gs: Seq<FragmentModel>)
    requires
        same_set(fs, gs),
        uniform(fs),
        uniform(gs),
        fs.len() > 0,
        gs.len() > 0,
        same_total(fs),
    ensures
        missing_upto(fs, fs[0].total as nat) == missing_upto(gs, gs[0].total as nat),
        canonical_order(fs) == canonical_order(gs),
{
    assert forall|x: u16| has_index(fs, x) == has_index(gs, x) by {
        if has_index(fs, x) {
            let k = choose|k: int| 0 <= k < fs.len() && fs[k].index == x;
            assert(gs.contains(fs[k]));
        }
        if has_index(gs, x) {
            let k = choose|k: int| 0 <= k < gs.len() && gs[k].index == x;
            assert(fs.contains(gs[k]));
        }
    }
    assert(fs.contains(gs[0]));
    let b = choose|k: int| 0 <= k < fs.len() && fs[k] == gs[0];
    assert(fs[b].total == fs[0].total);
    lemma_missing_same_indices(fs, gs, fs[0].total as nat);
    lemma_canonical_order_exists(fs);
    lemma_uniform_ordered_unique(fs, gs, canonical_order(fs));
    lemma_canonical_order(gs, canonical_order(fs));
}

/// The order in which fragments come, and how often each comes, do not change what reassembling
/// them gives, as long as they all give the same total.
#[verifier::spinoff_prover]
#[verifier::rlimit(60)]
pub proof fn law_assembly_ignores_order(fs: Seq<FragmentModel>, gs: Seq<FragmentModel>)
    requires
        same_set(fs, gs),
        same_total(fs),
    ensures
        assemble_outcome(fs) == assemble_outcome(gs),
{
    if fs.len() == 0 || gs.len() == 0 {
        if fs.len() > 0 {
            assert(gs.contains(fs[0]));
        }
        if gs.len() > 0 {
            assert(fs.contains(gs[0]));
        }
        return;
    }
    lemma_same_set_digests(fs, gs);
    if mixed_digests(fs) {
        return;
    }
    if exists|i: u16| conflicting(fs, i) {
        let i = choose|i: u16| conflicting(fs, i);
        lemma_same_set_conflicts(fs, gs, i);
        lemma_same_set_conflicting(fs, gs, i);
        return;
    }
    assert forall|i: u16| !conflicting(gs, i) by {
        lemma_same_set_conflicting(fs, gs, i);
    }
    lemma_same_set_total(fs, gs);
    lemma_uniform(fs);
    lemma_uniform(gs);
    lemma_same_set_uniform(fs, gs);
}

/// The indices reported missing below `n` are, in increasing order, exactly those in `1..=n`
/// that no fragment carries, or all of them when some fragment carries index 0.
pub proof fn law_missing_upto(fs: Seq<FragmentModel>, n: nat)
    requires
        n <= 0xffff,
    ensures
        forall|j: int|
            0 <= j < missing_upto(fs, n).len() ==> 1 <= #[trigger] missing_upto(fs, n)[j] <= n,
        forall|a: int, b: int|
            0 <= a < b < missing_upto(fs, n).len() ==> missing_upto(fs, n)[a] < missing_upto(
                fs,
                n,
            )[b],
        forall|x: u16|
            1 <= x <= n ==> (#[trigger] missing_upto(fs, n).contains(x) <==> (has_index(fs, 0)
                || !has_index(fs, x))),
    decreases n,
{
    if n > 0 {
        law_missing_upto(fs, (n - 1) as nat);
        let prev = missing_upto(fs, (n - 1) as nat);
        let m = missing_upto(fs, n);
        assert forall|x: u16| 1 <= x <= n implies (#[trigger] m.contains(x) <==> (has_index(fs, 0)
            || !has_index(fs, x))) by {
            if x < n {
                if prev.contains(x) {
                    let j = choose|j: int| 0 <= j < prev.len() && prev[j] == x;
                    assert(m[j] == x);
                }
                if m.contains(x) {
                    let j = choose|j: int| 0 <= j < m.len() && m[j] == x;
                    if j < prev.len() {
                        assert(prev[j] == x);
                    }
                }
            } else {
                if m.contains(x) {
                    let j = choose|j: int| 0 <= j < m.len() && m[j] == x;
                    if j < prev.len() {
                        assert(prev[j] <= n - 1);
                    }
                }
                if has_index(fs, 0) || !has_index(fs, x) {
                    assert(m[prev.len() as int] == x);
                }
            }
        }
    }
}

/// Joining the data of fragments puts the data of the first one first, then the rest joined.
pub proof fn law_concat_data(d: Seq<FragmentModel>)
    ensures
        d.len() > 0 ==> concat_data(d) == d[0].data + concat_data(d.drop_first()),
        d.len() == 0 ==> concat_data(d) == Seq::<u8>::empty(),
    decreases d.len(),
{
    if d.len() > 1 {
        law_concat_data(d.drop_last());
        assert(d.drop_last().drop_first() =~= d.drop_first().drop_last());
        assert(d.drop_first().last() == d.last());
        assert(d.drop_last()[0] == d[0]);
    } else if d.len() == 1 {
        assert(d.drop_last() =~= Seq::<FragmentModel>::empty());
        assert(d.drop_first() =~= Seq::<FragmentModel>::empty());
        assert(seq![] + d[0].data =~= d[0].data);
        assert(d[0].data + seq![] =~= d[0].data);
    }
}

/// What reassembly reports, in terms of the fragments: no fragment is fragment 1 missing; two
/// different digests are a digest conflict; otherwise an index given twice with different data,
/// the smallest such; otherwise missing indices; and a success carries data whose digest is the
/// one that the fragments carry, with every index from 1 to the total present.
pub proof fn law_assemble_outcome(fs: Seq<FragmentModel>)
    ensures
        fs.len() == 0 ==> assemble_outcome(fs) == AssembleOutcome::MissingFragments(seq![1u16]),
        fs.len() > 0 ==> (assemble_outcome(fs) is ConflictingSha256 <==> exists|k1: int, k2: int|
            0 <= k1 < fs.len() && 0 <= k2 < fs.len() && #[trigger] fs[k1].sha256 != #[trigger] fs[k2].sha256),
        assemble_outcome(fs) matches AssembleOutcome::ConflictingDuplicate(i) ==> clash(fs, i)
            && forall|j: u16| j < i ==> !clash(fs, j),
        assemble_outcome(fs) matches AssembleOutcome::Assembled(b) ==> {
            &&& forall|k: int| 0 <= k < fs.len() ==> sha256(b) == #[trigger] fs[k].sha256
            &&& forall|x: u16| 1 <= x <= fs[0].total ==> has_index(fs, x)
            &&& fs[0].total >= 1 ==> !has_index(fs, 0)
            &&& forall|i: u16| !clash(fs, i)
        },
{
    if fs.len() > 0 {
        if exists|k1: int, k2: int|
            0 <= k1 < fs.len() && 0 <= k2 < fs.len() && #[trigger] fs[k1].sha256 != #[trigger] fs[k2].sha256 {
            let (k1, k2) = choose|k1: int, k2: int|
                0 <= k1 < fs.len() && 0 <= k2 < fs.len() && #[trigger] fs[k1].sha256
                    != #[trigger] fs[k2].sha256;
            if fs[k1].sha256 == fs[0].sha256 {
                assert(fs[k2].sha256 != fs[0].sha256);
            }
        }
        if mixed_digests(fs) {
            let k = choose|k: int| #![trigger fs[k]] 0 <= k < fs.len() && fs[k].sha256 != fs[0].sha256;
            assert(fs[k].sha256 != fs[0].sha256);
        }
        if !mixed_digests(fs) && exists|i: u16| conflicting(fs, i) {
            let i = choose|i: u16| conflicting(fs, i);
            lemma_least_conflicting_exists(fs, i);
            let m = min_conflicting(fs);
            lemma_conflicting_is_clash(fs, m);
            assert forall|j: u16| j < m implies !clash(fs, j) by {
                lemma_conflicting_is_clash(fs, j);
            }
        }
        if !mixed_digests(fs) && !exists|i: u16| conflicting(fs, i) {
            assert forall|i: u16| !clash(fs, i) by {
                lemma_conflicting_is_clash(fs, i);
            }
            let n = fs[0].total as nat;
            law_missing_upto(fs, n);
            if missing_upto(fs, n).len() == 0 {
                assert forall|x: u16| 1 <= x <= fs[0].total implies has_index(fs, x) by {
                    assert(!missing_upto(fs, n).contains(x));
                }
                if n >= 1 {
                    assert(!missing_upto(fs, n).contains(1u16));
                }
                assert forall|k: int| 0 <= k < fs.len() implies #[trigger] fs[k].sha256 == fs[0].sha256 by {
                    assert(!(fs[k].sha256 != fs[0].sha256));
                }
            }
        }
    }
}

proof fn lemma_concat_append(a: Seq<FragmentModel>, b: Seq<FragmentModel>)
    ensures
        concat_data(a + b) == concat_data(a) + concat_data(b),
    decreases b.len(),
{
    if b.len() == 0 {
        assert(a + b =~= a);
    } else {
        lemma_concat_append(a, b.drop_last());
        assert((a + b).drop_last() =~= a + b.drop_last());
        assert(concat_data(a) + concat_data(b.drop_last()) + b.last().data =~= concat_data(a) + (
        concat_data(b.drop_last()) + b.last().data));
    }
}

proof fn lemma_chunk_bounds(len: int, m: int)
    requires
        0 <= len,
        0 <= m < chunk_count(len),
    ensures
        m * MAX_FRAGMENT_PAYLOAD_SIZE < len,
{
    assert(m * 176 < len) by (nonlinear_arith)
        requires
            0 <= m < (len + 175) / 176,
            0 <= len,
    ;
}

proof fn lemma_chunk_count_covers(len: int)
    requires
        0 <= len,
    ensures
        chunk_count(len) * MAX_FRAGMENT_PAYLOAD_SIZE >= len,
        len > 0 ==> chunk_count(len) > 0,
{
    assert((len + 175) / 176 * 176 >= len) by (nonlinear_arith)
        requires
            0 <= len,
    ;
}

proof fn lemma_concat_chunks_prefix(b: Seq<u8>, offset: int, total: u16, digest: Seq<u8>, m: int)
    requires
        0 <= m <= chunk_count(b.len() as int),
    ensures
        concat_data(chunk_fragments(b, offset, total, digest).take(m)) == b.subrange(
            0,
            if m == 0 {
                0
            } else {
                chunk_end(b.len() as int, m - 1)
            },
        ),
    decreases m,
{
    let cf = chunk_fragments(b, offset, total, digest);
    if m == 0 {
        assert(cf.take(0) =~= Seq::<FragmentModel>::empty());
        assert(b.subrange(0, 0) =~= Seq::<u8>::empty());
    } else {
        lemma_concat_chunks_prefix(b, offset, total, digest, m - 1);
        assert(cf.take(m).drop_last() =~= cf.take(m - 1));
        lemma_chunk_bounds(b.len() as int, m - 1);
        if m >= 2 {
            lemma_chunk_bounds(b.len() as int, m - 2);
            assert(chunk_end(b.len() as int, m - 2) == (m - 1) * MAX_FRAGMENT_PAYLOAD_SIZE);
        }
        assert(cf.take(m).last() == cf[m - 1]);
        assert(b.subrange(0, (m - 1) * MAX_FRAGMENT_PAYLOAD_SIZE) + b.subrange(
            (m - 1) * MAX_FRAGMENT_PAYLOAD_SIZE,
            chunk_end(b.len() as int, m - 1),
        ) =~= b.subrange(0, chunk_end(b.len() as int, m - 1)));
    }
}

/// Joining the chunks of `b` gives back `b`.
proof fn lemma_concat_chunks(b: Seq<u8>, offset: int, total: u16, digest: Seq<u8>)
    ensures
        concat_data(chunk_fragments(b, offset, total, digest)) == b,
{
    let n = chunk_count(b.len() as int);
    let cf = chunk_fragments(b, offset, total, digest);
    lemma_concat_chunks_prefix(b, offset, total, digest, n);
    lemma_chunk_count_covers(b.len() as int);
    assert(cf.take(n) =~= cf);
    if n > 0 {
        assert(chunk_end(b.len() as int, n - 1) == b.len());
    } else {
        assert(b.len() == 0);
    }
    assert(b.subrange(0, b.len() as int) =~= b);
}

/// Splitting an envelope and joining the fragments back gives the envelope: the fragments form a
/// complete set whose data is the header followed by the ciphertext.
pub proof fn lemma_envelope_fragments_complete(header: Seq<u8>, ciphertext: Seq<u8>)
    requires
        fragment_total(header, ciphertext) <= MAX_FRAGMENT_TOTAL,
        header.len() + ciphertext.len() > 0,
    ensures
        complete_set(envelope_fragments(header, ciphertext, sha256(header + ciphertext))),
        concat_data(envelope_fragments(header, ciphertext, sha256(header + ciphertext))) == header
            + ciphertext,
{
    let digest = sha256(header + ciphertext);
    let total = fragment_total(header, ciphertext);
    let hc = chunk_count(header.len() as int);
    let e = envelope_fragments(header, ciphertext, digest);
    let ch = chunk_fragments(header, 0, total as u16, digest);
    let cc = chunk_fragments(ciphertext, hc, total as u16, digest);
    assert(e == ch + cc);
    lemma_concat_append(ch, cc);
    lemma_concat_chunks(header, 0, total as u16, digest);
    lemma_concat_chunks(ciphertext, hc, total as u16, digest);
    lemma_chunk_count_covers(header.len() as int);
    lemma_chunk_count_covers(ciphertext.len() as int);
    assert(e.len() == total);
    assert forall|j: int| 0 <= j < e.len() implies {
        &&& (#[trigger] e[j]).index == j + 1
        &&& e[j].total == e.len()
        &&& e[j].sha256 == sha256(concat_data(e))
    } by {
        if j < hc {
            assert(e[j] == ch[j]);
        } else {
            assert(e[j] == cc[j - hc]);
        }
    }
}

/// An envelope split into fragments reassembles into the envelope.
pub proof fn law_envelope_reassembles(header: Seq<u8>, ciphertext: Seq<u8>)
    requires
        fragment_total(header, ciphertext) <= MAX_FRAGMENT_TOTAL,
        header.len() + ciphertext.len() > 0,
    ensures
        assemble_outcome(envelope_fragments(header, ciphertext, sha256(header + ciphertext)))
            == AssembleOutcome::Assembled(header + ciphertext),
{
    let e = envelope_fragments(header, ciphertext, sha256(header + ciphertext));
    lemma_envelope_fragments_complete(header, ciphertext);
    assert forall|k: int| 0 <= k < e.len() implies #[trigger] e.contains(e[k]) by {}
    law_reassembly_any_order(e, e);
}

/// The fragments of an envelope, given in any order and with repetitions, reassemble into the
/// envelope.
pub proof fn law_envelope_reassembles_any_order(
    header: Seq<u8>,
    ciphertext: Seq<u8>,
    fs: Seq<FragmentModel>,
)
    requires
        fragment_total(header, ciphertext) <= MAX_FRAGMENT_TOTAL,
        header.len() + ciphertext.len() > 0,
        same_fragments(fs, envelope_fragments(header, ciphertext, sha256(header + ciphertext))),
    ensures
        assemble_outcome(fs) == AssembleOutcome::Assembled(header + ciphertext),
{
    lemma_envelope_fragments_complete(header, ciphertext);
    law_reassembly_any_order(fs, envelope_fragments(header, ciphertext, sha256(header + ciphertext)));
}


/// The byte strings of `payloads`.
pub open spec fn payload_views(payloads: Seq<Vec<u8>>) -> Seq<Seq<u8>> {
    payloads.map_values(|p: Vec<u8>| p@)
}

/// What reading every payload as a fragment gives: all the fragments in order, or the error of
/// the first payload that is not a fragment.
pub open spec fn parse_all(payloads: Seq<Seq<u8>>) -> Result<Seq<FragmentModel>, FragmentDeserializeError>
    decreases payloads.len(),
{
    if payloads.len() == 0 {
        Ok(seq![])
    } else {
        match parse_all(payloads.drop_last()) {
            Err(e) => Err(e),
            Ok(fs) => match parse_fragment(payloads.last()) {
                Ok(f) => Ok(fs.push(f)),
                Err(e) => Err(e),
            },
        }
    }
}

/// Reading payloads succeeds exactly when every payload is a fragment, and then gives each
/// payload's fragment at its place; otherwise it reports the error of the first payload that is
/// not a fragment.
pub proof fn law_parse_all(payloads: Seq<Seq<u8>>)
    ensures
        parse_all(payloads) is Ok <==> forall|k: int|
            0 <= k < payloads.len() ==> #[trigger] parse_fragment(payloads[k]) is Ok,
        parse_all(payloads) matches Ok(fs) ==> fs.len() == payloads.len() && forall|k: int|
            0 <= k < payloads.len() ==> parse_fragment(payloads[k]) == Ok::<
                FragmentModel,
                FragmentDeserializeError,
            >(#[trigger] fs[k]),
        parse_all(payloads) matches Err(e) ==> exists|k: int|
            0 <= k < payloads.len() && parse_fragment(payloads[k]) == Err::<
                FragmentModel,
                FragmentDeserializeError,
            >(e) && forall|j: int| 0 <= j < k ==> #[trigger] parse_fragment(payloads[j]) is Ok,
    decreases payloads.len(),
{
    if payloads.len() > 0 {
        let rest = payloads.drop_last();
        law_parse_all(rest);
        let last = payloads.len() - 1;
        assert(payloads.last() == payloads[last]);
        assert forall|k: int| 0 <= k < rest.len() implies rest[k] == payloads[k] by {}
        match parse_all(rest) {
            Ok(fs) => {
                match parse_fragment(payloads.last()) {
                    Ok(f) => {
                        assert forall|k: int| 0 <= k < payloads.len() implies parse_fragment(payloads[k])
                            == Ok::<FragmentModel, FragmentDeserializeError>(
                            #[trigger] fs.push(f)[k],
                        ) by {
                            if k < rest.len() {
                                assert(rest[k] == payloads[k]);
                            }
                        }
                    },
                    Err(e) => {
                        assert forall|j: int| 0 <= j < last implies #[trigger] parse_fragment(
                            payloads[j],
                        ) is Ok by {
                            assert(rest[j] == payloads[j]);
                        }
                    },
                }
            },
            Err(e) => {
                let k = choose|k: int|
                    0 <= k < rest.len() && parse_fragment(rest[k]) == Err::<
                        FragmentModel,
                        FragmentDeserializeError,
                    >(e) && forall|j: int| 0 <= j < k ==> #[trigger] parse_fragment(rest[j]) is Ok;
                assert(rest[k] == payloads[k]);
                assert forall|j: int| 0 <= j < k implies #[trigger] parse_fragment(payloads[j]) is Ok by {
                    assert(rest[j] == payloads[j]);
                }
                assert(!(parse_fragment(payloads[k]) is Ok));
            },
        }
    }
}

/// Reads every payload as a fragment.
pub fn deserialize_fragments(payloads: &[Vec<u8>]) -> (res: Result<Vec<Fragment>, FragmentDeserializeError>)
    ensures
        match (res, parse_all(payload_views(payloads@))) {
            (Ok(fs), Ok(ms)) => models(fs@) == ms,
            (Err(e), Err(me)) => e == me,
            _ => false,
        },
{
    let ghost views = payload_views(payloads@);
    let mut fragments: Vec<Fragment> = Vec::new();
    let mut k: usize = 0;
    assert(views.take(0) =~= Seq::<Seq<u8>>::empty());
    assert(models(fragments@) =~= Seq::<FragmentModel>::empty());
    while k < payloads.len()
        invariant
            views == payload_views(payloads@),
            k <= payloads@.len(),
            parse_all(views.take(k as int)) == Ok::<Seq<FragmentModel>, FragmentDeserializeError>(
                models(fragments@),
            ),
        decreases payloads@.len() - k,
    {
        assert(views.take(k + 1).drop_last() =~= views.take(k as int));
        assert(views.take(k + 1).last() == payloads@[k as int]@);
        let fragment = match Fragment::from_bytes(payloads[k].as_slice()) {
            Ok(f) => f,
            Err(e) => {
                proof {
                    lemma_parse_all_prefix_err(views, k as int + 1);
                }
                return Err(e);
            },
        };
        let ghost before = fragments@;
        let ghost fm = fragment@;
        fragments.push(fragment);
        assert(models(fragments@) =~= models(before).push(fm)) by {
            assert(fragments@ == before.push(fragment));
            assert forall|i: int| 0 <= i < fragments@.len() implies #[trigger] models(fragments@)[i]
                == models(before).push(fm)[i] by {
                if i < before.len() {
                    assert(fragments@[i] == before[i]);
                }
            }
        }
        k = k + 1;
    }
    assert(views.take(payloads@.len() as int) =~= views);
    Ok(fragments)
}

/// Once a prefix fails to read, so does the whole.
proof fn lemma_parse_all_prefix_err(views: Seq<Seq<u8>>, n: int)
    requires
        0 <= n <= views.len(),
        parse_all(views.take(n)) is Err,
    ensures
        parse_all(views) == parse_all(views.take(n)),
    decreases views.len() - n,
{
    if n < views.len() {
        assert(views.take(n + 1).drop_last() =~= views.take(n));
        lemma_parse_all_prefix_err(views, n + 1);
    } else {
        assert(views.take(n) =~= views);
    }
}

/// Every fragment of an envelope fits one QR symbol when framed.
pub proof fn lemma_envelope_fragments_fit(header: Seq<u8>, ciphertext: Seq<u8>, digest: Seq<u8>)
    requires
        digest.len() == SHA_256_SIZE,
    ensures
        forall|j: int|
            0 <= j < envelope_fragments(header, ciphertext, digest).len() ==> fragment_fits(
                #[trigger] envelope_fragments(header, ciphertext, digest)[j],
            ),
{
    let hc = chunk_count(header.len() as int);
    let total = fragment_total(header, ciphertext) as u16;
    let e = envelope_fragments(header, ciphertext, digest);
    let ch = chunk_fragments(header, 0, total, digest);
    let cc = chunk_fragments(ciphertext, hc, total, digest);
    assert forall|j: int| 0 <= j < e.len() implies fragment_fits(#[trigger] e[j]) by {
        if j < hc {
            assert(e[j] == ch[j]);
            lemma_chunk_bounds(header.len() as int, j);
        } else {
            assert(e[j] == cc[j - hc]);
            lemma_chunk_bounds(ciphertext.len() as int, j - hc);
        }
    }
}

/// Reading payloads that are each the framing of one fragment gives those fragments.
proof fn lemma_parse_framed(payloads: Seq<Seq<u8>>, e: Seq<FragmentModel>)
    requires
        forall|j: int| 0 <= j < e.len() ==> fragment_fits(#[trigger] e[j]),
        forall|k: int|
            0 <= k < payloads.len() ==> exists|j: int|
                0 <= j < e.len() && #[trigger] payloads[k] == fragment_bytes(e[j]),
    ensures
        parse_all(payloads) is Ok,
        parse_all(payloads)->Ok_0.len() == payloads.len(),
        forall|k: int|
            0 <= k < payloads.len() ==> exists|j: int|
                0 <= j < e.len() && #[trigger] parse_all(payloads)->Ok_0[k] == e[j]
                    && payloads[k] == fragment_bytes(e[j]),
    decreases payloads.len(),
{
    if payloads.len() > 0 {
        let rest = payloads.drop_last();
        assert forall|k: int| 0 <= k < rest.len() implies exists|j: int|
            0 <= j < e.len() && #[trigger] rest[k] == fragment_bytes(e[j]) by {
            assert(rest[k] == payloads[k]);
        }
        lemma_parse_framed(rest, e);
        let last = payloads.len() - 1;
        assert(payloads[last] == payloads.last());
        let j = choose|j: int| 0 <= j < e.len() && payloads[last] == fragment_bytes(e[j]);
        law_fragment_roundtrip(e[j]);
        let fs = parse_all(payloads)->Ok_0;
        assert forall|k: int| 0 <= k < payloads.len() implies exists|jj: int|
            0 <= jj < e.len() && #[trigger] fs[k] == e[jj] && payloads[k] == fragment_bytes(e[jj]) by {
            if k == last {
                assert(fs[k] == e[j]);
            } else {
                assert(fs[k] == parse_all(rest)->Ok_0[k]);
                assert(rest[k] == payloads[k]);
            }
        }
    }
}

/// The framed fragments of an envelope, in order.
pub open spec fn envelope_payloads(header: Seq<u8>, ciphertext: Seq<u8>) -> Seq<Seq<u8>> {
    envelope_fragments(header, ciphertext, sha256(header + ciphertext)).map_values(
        |f: FragmentModel| fragment_bytes(f),
    )
}

/// `payloads` holds each of `framed` at least once, in any order, and nothing else.
pub open spec fn same_payloads(payloads: Seq<Seq<u8>>, framed: Seq<Seq<u8>>) -> bool {
    &&& forall|k: int| 0 <= k < payloads.len() ==> #[trigger] framed.contains(payloads[k])
    &&& forall|j: int| 0 <= j < framed.len() ==> #[trigger] payloads.contains(framed[j])
}

/// Payloads that hold the framed fragments of an envelope, each at least once, in any order,
/// and nothing else, read and reassemble into the envelope.
pub proof fn law_payloads_reassemble(header: Seq<u8>, ciphertext: Seq<u8>, payloads: Seq<Seq<u8>>)
    requires
        fragment_total(header, ciphertext) <= MAX_FRAGMENT_TOTAL,
        header.len() + ciphertext.len() > 0,
        sha256(header + ciphertext).len() == SHA_256_SIZE,
        same_payloads(payloads, envelope_payloads(header, ciphertext)),
    ensures
        parse_all(payloads) is Ok,
        assemble_outcome(parse_all(payloads)->Ok_0) == AssembleOutcome::Assembled(
            header + ciphertext,
        ),
{
    let framed = envelope_payloads(header, ciphertext);
    let e0 = envelope_fragments(header, ciphertext, sha256(header + ciphertext));
    assert forall|k: int| 0 <= k < payloads.len() implies exists|j: int|
        0 <= j < e0.len() && #[trigger] payloads[k] == fragment_bytes(e0[j]) by {
        assert(framed.contains(payloads[k]));
        let j = choose|j: int| 0 <= j < framed.len() && framed[j] == payloads[k];
        assert(framed[j] == fragment_bytes(e0[j]));
    }
    assert forall|j: int| 0 <= j < e0.len() implies payloads.contains(
        fragment_bytes(#[trigger] e0[j]),
    ) by {
        assert(framed[j] == fragment_bytes(e0[j]));
        assert(payloads.contains(framed[j]));
    }
    let e = envelope_fragments(header, ciphertext, sha256(header + ciphertext));
    lemma_envelope_fragments_fit(header, ciphertext, sha256(header + ciphertext));
    lemma_parse_framed(payloads, e);
    let fs = parse_all(payloads)->Ok_0;
    assert forall|k: int| 0 <= k < fs.len() implies #[trigger] e.contains(fs[k]) by {
        let j = choose|j: int|
            0 <= j < e.len() && fs[k] == e[j] && payloads[k] == fragment_bytes(e[j]);
    }
    assert forall|j: int| 0 <= j < e.len() implies #[trigger] fs.contains(e[j]) by {
        assert(payloads.contains(fragment_bytes(e[j])));
        let k = choose|k: int| 0 <= k < payloads.len() && payloads[k] == fragment_bytes(e[j]);
        let j2 = choose|jj: int|
            0 <= jj < e.len() && fs[k] == e[jj] && payloads[k] == fragment_bytes(e[jj]);
        law_fragment_roundtrip(e[j]);
        law_fragment_roundtrip(e[j2]);
    }
    law_envelope_reassembles_any_order(header, ciphertext, fs);
}

} // verus!
