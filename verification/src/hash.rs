//! Content fingerprinting: the dedup key of the library store is the
//! digest of a file's bytes, rendered as lowercase hexadecimal.

use vstd::prelude::*;
use crate::text::chars_to_string;

verus! {

/// The 16-byte digest that the fingerprint function assigns to a byte
/// sequence. Its value is determined by the bytes alone.
pub uninterp spec fn md5_of(bytes: Seq<u8>) -> Seq<u8>;

/// Relies on `md5::compute`, which digests the bytes into a 16-byte
/// value depending on the bytes alone.
#[verifier::external_body]
fn md5_digest(bytes: &Vec<u8>) -> (r: Vec<u8>)
    ensures
        r@ == md5_of(bytes@),
        r@.len() == 16,
{
    md5::compute(bytes.as_slice()).0.to_vec()
}

/// The lowercase hexadecimal character of a value below 16.
pub open spec fn hex_digit_char(v: u8) -> char {
    if v == 0 { '0' } else if v == 1 { '1' } else if v == 2 { '2' } else if v == 3 { '3' }
    else if v == 4 { '4' } else if v == 5 { '5' } else if v == 6 { '6' } else if v == 7 { '7' }
    else if v == 8 { '8' } else if v == 9 { '9' } else if v == 10 { 'a' } else if v == 11 { 'b' }
    else if v == 12 { 'c' } else if v == 13 { 'd' } else if v == 14 { 'e' } else { 'f' }
}

/// Lowercase hexadecimal rendering: two digits per byte, in order.
pub open spec fn hex_of(bytes: Seq<u8>) -> Seq<char>
    decreases bytes.len(),
{
    if bytes.len() == 0 {
        Seq::empty()
    } else {
        seq![hex_digit_char(bytes[0] / 16), hex_digit_char(bytes[0] % 16)] + hex_of(
            bytes.drop_first(),
        )
    }
}

/// The fingerprint of a byte content: its digest in lowercase hex.
pub open spec fn fingerprint_of(bytes: Seq<u8>) -> Seq<char> {
    hex_of(md5_of(bytes))
}

pub(crate) fn hex_digit(v: u8) -> (c: char)
    requires
        v < 16,
    ensures
        c == hex_digit_char(v),
{
    if v == 0 { '0' } else if v == 1 { '1' } else if v == 2 { '2' } else if v == 3 { '3' }
    else if v == 4 { '4' } else if v == 5 { '5' } else if v == 6 { '6' } else if v == 7 { '7' }
    else if v == 8 { '8' } else if v == 9 { '9' } else if v == 10 { 'a' } else if v == 11 { 'b' }
    else if v == 12 { 'c' } else if v == 13 { 'd' } else if v == 14 { 'e' } else { 'f' }
}

/// Render bytes as lowercase hexadecimal, two digits per byte.
pub fn to_hex(bytes: &Vec<u8>) -> (s: String)
    ensures
        s@ == hex_of(bytes@),
        s@.len() == 2 * bytes@.len(),
{
    let mut out: Vec<char> = Vec::new();
    let mut i: usize = 0;
    proof {
        lemma_hex_of_len(bytes@);
    }
    while i < bytes.len()
        invariant
            i <= bytes@.len(),
            out@ == hex_of(bytes@.subrange(0, i as int)),
            out@.len() == 2 * i,
        decreases bytes@.len() - i,
    {
        let b = bytes[i];
        out.push(hex_digit(b / 16));
        out.push(hex_digit(b % 16));
        proof {
            lemma_hex_of_snoc(bytes@, i as int);
            assert(out@ =~= hex_of(bytes@.subrange(0, i as int)) + seq![
                hex_digit_char(bytes@[i as int] / 16),
                hex_digit_char(bytes@[i as int] % 16),
            ]);
        }
        i = i + 1;
    }
    proof {
        assert(bytes@.subrange(0, bytes@.len() as int) =~= bytes@);
    }
    chars_to_string(&out)
}

/// The fingerprint used to deduplicate imported books: the digest of
/// the file's bytes in lowercase hex. It depends on the bytes alone,
/// never on the file's name or path.
pub fn calculate_md5_hash(bytes: &Vec<u8>) -> (s: String)
    ensures
        s@ == fingerprint_of(bytes@),
        s@.len() == 32,
{
    let digest = md5_digest(bytes);
    to_hex(&digest)
}

/// The hex rendering is two characters per byte.
pub proof fn lemma_hex_of_len(bytes: Seq<u8>)
    ensures
        hex_of(bytes).len() == 2 * bytes.len(),
    decreases bytes.len(),
{
    if bytes.len() > 0 {
        lemma_hex_of_len(bytes.drop_first());
    }
}

/// Hex rendering restated over a prefix growing by one byte.
proof fn lemma_hex_of_snoc(bytes: Seq<u8>, j: int)
    requires
        0 <= j < bytes.len(),
    ensures
        hex_of(bytes.subrange(0, j + 1)) == hex_of(bytes.subrange(0, j)) + seq![
            hex_digit_char(bytes[j] / 16),
            hex_digit_char(bytes[j] % 16),
        ],
    decreases j,
{
    if j == 0 {
        assert(bytes.subrange(0, 1) =~= seq![bytes[0]]);
        assert(seq![bytes[0]].drop_first() =~= Seq::<u8>::empty());
        assert(hex_of(bytes.subrange(0, 0)) =~= Seq::<char>::empty());
        assert(hex_of(Seq::<u8>::empty()) == Seq::<char>::empty());
        assert(bytes.subrange(0, 1)[0] == bytes[0]);
        assert(hex_of(bytes.subrange(0, 1)) =~= Seq::<char>::empty() + seq![
            hex_digit_char(bytes[0] / 16),
            hex_digit_char(bytes[0] % 16),
        ]);
    } else {
        let t = bytes.drop_first();
        lemma_hex_of_snoc(t, j - 1);
        assert(bytes.subrange(0, j + 1).drop_first() =~= t.subrange(0, j));
        assert(bytes.subrange(0, j).drop_first() =~= t.subrange(0, j - 1));
        assert(bytes.subrange(0, j + 1)[0] == bytes[0]);
        assert(bytes.subrange(0, j)[0] == bytes[0]);
        assert(t[j - 1] == bytes[j]);
        let pre = seq![hex_digit_char(bytes[0] / 16), hex_digit_char(bytes[0] % 16)];
        assert(pre + (hex_of(t.subrange(0, j - 1)) + seq![
            hex_digit_char(bytes[j] / 16),
            hex_digit_char(bytes[j] % 16),
        ]) =~= (pre + hex_of(t.subrange(0, j - 1))) + seq![
            hex_digit_char(bytes[j] / 16),
            hex_digit_char(bytes[j] % 16),
        ]);
    }
}

/// Law: the fingerprint is a function of the content alone; hashing
/// byte-identical content always yields the identical fingerprint,
/// whatever file name or path it came from.
pub proof fn lemma_fingerprint_deterministic(a: Seq<u8>, b: Seq<u8>)
    requires
        a == b,
    ensures
        fingerprint_of(a) == fingerprint_of(b),
{
}

/// Law: the hex rendering loses nothing; fingerprints differ exactly
/// when the underlying digests differ.
pub proof fn lemma_hex_of_injective(a: Seq<u8>, b: Seq<u8>)
    requires
        hex_of(a) == hex_of(b),
    ensures
        a == b,
    decreases a.len(),
{
    lemma_hex_of_len(a);
    lemma_hex_of_len(b);
    if a.len() == 0 {
        assert(a =~= b);
    } else {
        assert(hex_of(a)[0] == hex_digit_char(a[0] / 16));
        assert(hex_of(a)[1] == hex_digit_char(a[0] % 16));
        assert(hex_of(b)[0] == hex_digit_char(b[0] / 16));
        assert(hex_of(b)[1] == hex_digit_char(b[0] % 16));
        assert(a[0] / 16 < 16 && a[0] % 16 < 16 && b[0] / 16 < 16 && b[0] % 16 < 16);
        assert(a[0] == b[0]);
        assert(hex_of(a).skip(2) =~= hex_of(a.drop_first()));
        assert(hex_of(b).skip(2) =~= hex_of(b.drop_first()));
        lemma_hex_of_injective(a.drop_first(), b.drop_first());
        assert forall|i: int| 0 <= i < a.len() implies a[i] == b[i] by {
            if i > 0 {
                assert(a.drop_first()[i - 1] == b.drop_first()[i - 1]);
            }
        }
        assert(a =~= b);
    }
}

} // verus!
