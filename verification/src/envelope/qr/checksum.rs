//! SHA-256 digests of envelopes and their lower-case hexadecimal rendering.
use sha2::Digest;
use vstd::prelude::*;

verus! {

/// The SHA-256 digest of `data`, as `sha2::Sha256` computes it.
pub uninterp spec fn sha256(data: Seq<u8>) -> Seq<u8>;

/// Computes the SHA-256 digest of `data` with `sha2::Sha256::digest`.
///
/// Trusted: the contract only names the digest; that it has 32 bytes is the type of the result.
#[verifier::external_body]
pub(crate) fn sha256_digest(data: &[u8]) -> (digest: [u8; 32])
    ensures
        digest@ == sha256(data@),
{
    sha2::Sha256::digest(data).into()
}

/// The lower-case hexadecimal digits, by value.
pub open spec fn hex_digit(v: int) -> char {
    seq!['0', '1', '2', '3', '4', '5', '6', '7', '8', '9', 'a', 'b', 'c', 'd', 'e', 'f'][v]
}

/// Each byte as two lower-case hexadecimal digits, high nibble first.
pub open spec fn hex_lower(data: Seq<u8>) -> Seq<char>
    decreases data.len(),
{
    if data.len() == 0 {
        seq![]
    } else {
        seq![hex_digit(data[0] as int / 16), hex_digit(data[0] as int % 16)] + hex_lower(
            data.drop_first(),
        )
    }
}

/// A lower-case hexadecimal digit.
pub open spec fn is_hex_lower(c: char) -> bool {
    ('0' <= c <= '9') || ('a' <= c <= 'f')
}

/// The value of a hexadecimal digit.
pub open spec fn hex_value(c: char) -> int {
    if '0' <= c <= '9' {
        c as int - '0' as int
    } else {
        c as int - 'a' as int + 10
    }
}

proof fn lemma_hex_digit(v: int)
    requires
        0 <= v < 16,
    ensures
        is_hex_lower(hex_digit(v)),
        hex_value(hex_digit(v)) == v,
{
    if v == 0 {
    } else if v == 1 {
    } else if v == 2 {
    } else if v == 3 {
    } else if v == 4 {
    } else if v == 5 {
    } else if v == 6 {
    } else if v == 7 {
    } else if v == 8 {
    } else if v == 9 {
    } else if v == 10 {
    } else if v == 11 {
    } else if v == 12 {
    } else if v == 13 {
    } else if v == 14 {
    } else {
    }
}

proof fn lemma_hex_lower(data: Seq<u8>)
    ensures
        hex_lower(data).len() == 2 * data.len(),
        forall|i: int|
            0 <= i < data.len() ==> is_hex_lower(#[trigger] hex_lower(data)[2 * i])
                && is_hex_lower(hex_lower(data)[2 * i + 1]) && hex_value(hex_lower(data)[2 * i]) * 16
                + hex_value(hex_lower(data)[2 * i + 1]) == data[i] as int,
    decreases data.len(),
{
    if data.len() > 0 {
        let rest = data.drop_first();
        lemma_hex_lower(rest);
        lemma_hex_digit(data[0] as int / 16);
        lemma_hex_digit(data[0] as int % 16);
        let h = hex_lower(data);
        let hr = hex_lower(rest);
        assert forall|i: int| 0 <= i < data.len() implies is_hex_lower(#[trigger] h[2 * i])
            && is_hex_lower(h[2 * i + 1]) && hex_value(h[2 * i]) * 16 + hex_value(h[2 * i + 1])
            == data[i] as int by {
            if i > 0 {
                assert(h[2 * i] == hr[2 * (i - 1)]);
                assert(h[2 * i + 1] == hr[2 * (i - 1) + 1]);
                assert(rest[i - 1] == data[i]);
            }
        }
    }
}

/// The hexadecimal rendering has two lower-case digits per byte, high nibble first, and reading
/// them back gives each byte: the rendering of different data differs.
pub proof fn law_hex_lower(data: Seq<u8>, other: Seq<u8>)
    ensures
        hex_lower(data).len() == 2 * data.len(),
        forall|i: int| 0 <= i < hex_lower(data).len() ==> is_hex_lower(#[trigger] hex_lower(data)[i]),
        forall|i: int|
            0 <= i < data.len() ==> hex_value(#[trigger] hex_lower(data)[2 * i]) * 16 + hex_value(
                hex_lower(data)[2 * i + 1],
            ) == data[i] as int,
        hex_lower(data) == hex_lower(other) ==> data == other,
{
    lemma_hex_lower(data);
    lemma_hex_lower(other);
    assert forall|i: int| 0 <= i < hex_lower(data).len() implies is_hex_lower(
        #[trigger] hex_lower(data)[i],
    ) by {
        let j = i / 2;
        if i % 2 == 0 {
            assert(i == 2 * j);
        } else {
            assert(i == 2 * j + 1);
        }
        assert(is_hex_lower(hex_lower(data)[2 * j]));
    }
    if hex_lower(data) == hex_lower(other) {
        assert forall|i: int| 0 <= i < data.len() implies data[i] == other[i] by {
            assert(hex_lower(data)[2 * i] == hex_lower(other)[2 * i]);
            assert(hex_lower(data)[2 * i + 1] == hex_lower(other)[2 * i + 1]);
        }
        assert(data =~= other);
    }
}

/// The lower-case hexadecimal digit of `v`, as a string.
fn hex_digit_text(v: u8) -> (text: &'static str)
    requires
        v < 16,
    ensures
        text@ == seq![hex_digit(v as int)],
{
    proof {
        reveal_strlit("0");
        reveal_strlit("1");
        reveal_strlit("2");
        reveal_strlit("3");
        reveal_strlit("4");
        reveal_strlit("5");
        reveal_strlit("6");
        reveal_strlit("7");
        reveal_strlit("8");
        reveal_strlit("9");
        reveal_strlit("a");
        reveal_strlit("b");
        reveal_strlit("c");
        reveal_strlit("d");
        reveal_strlit("e");
        reveal_strlit("f");
    }
    match v {
        0 => "0",
        1 => "1",
        2 => "2",
        3 => "3",
        4 => "4",
        5 => "5",
        6 => "6",
        7 => "7",
        8 => "8",
        9 => "9",
        10 => "a",
        11 => "b",
        12 => "c",
        13 => "d",
        14 => "e",
        _ => "f",
    }
}

/// Renders `data` in lower-case hexadecimal, as `data_encoding::HEXLOWER.encode` does: each
/// byte as two digits, high nibble first.
pub(crate) fn hex_lower_encode(data: &[u8]) -> (text: String)
    ensures
        text@ == hex_lower(data@),
{
    let mut text = String::new();
    let mut i: usize = 0;
    assert(data@.skip(0) =~= data@);
    assert(text@ + hex_lower(data@) =~= hex_lower(data@));
    while i < data.len()
        invariant
            i <= data@.len(),
            text@ + hex_lower(data@.skip(i as int)) == hex_lower(data@),
        decreases data@.len() - i,
    {
        let byte = data[i];
        let ghost rest = data@.skip(i as int);
        assert(rest.drop_first() =~= data@.skip(i + 1));
        assert(rest[0] == byte);
        text.append(hex_digit_text(byte / 16));
        text.append(hex_digit_text(byte % 16));
        assert(text@ + hex_lower(data@.skip(i + 1)) =~= hex_lower(data@));
        i = i + 1;
    }
    assert(data@.skip(data@.len() as int) =~= Seq::<u8>::empty());
    assert(text@ + hex_lower(Seq::<u8>::empty()) =~= text@);
    text
}

} // verus!
