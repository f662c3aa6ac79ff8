//! Fingerprinting of reduced paths: SHA-256 over the little-endian byte
//! serialisation of the block identifiers, rendered as lowercase hex.

use vstd::prelude::*;

verus! {

/// The little-endian four-byte serialisation of one block identifier.
pub open spec fn le_bytes_of(x: i32) -> Seq<u8> {
    let u = x as u32;
    seq![
        (u % 0x100) as u8,
        ((u / 0x100) % 0x100) as u8,
        ((u / 0x10000) % 0x100) as u8,
        ((u / 0x1000000) % 0x100) as u8,
    ]
}

/// The byte serialisation of a path: each block identifier in order, four
/// little-endian bytes each.
pub open spec fn path_bytes(p: Seq<i32>) -> Seq<u8>
    decreases p,
{
    if p.len() == 0 {
        Seq::empty()
    } else {
        path_bytes(p.drop_last()) + le_bytes_of(p.last())
    }
}

/// Lowercase hex digit for a value below sixteen.
pub open spec fn hex_digit(d: u8) -> char {
    if d == 0 {
        '0'
    } else if d == 1 {
        '1'
    } else if d == 2 {
        '2'
    } else if d == 3 {
        '3'
    } else if d == 4 {
        '4'
    } else if d == 5 {
        '5'
    } else if d == 6 {
        '6'
    } else if d == 7 {
        '7'
    } else if d == 8 {
        '8'
    } else if d == 9 {
        '9'
    } else if d == 10 {
        'a'
    } else if d == 11 {
        'b'
    } else if d == 12 {
        'c'
    } else if d == 13 {
        'd'
    } else if d == 14 {
        'e'
    } else {
        'f'
    }
}

/// Lowercase hex rendering of a byte sequence: two digits per byte, high
/// nibble first, no separators.
pub open spec fn hex_of(data: Seq<u8>) -> Seq<char>
    decreases data,
{
    if data.len() == 0 {
        Seq::empty()
    } else {
        hex_of(data.drop_last()) + seq![
            hex_digit(data.last() / 16),
            hex_digit(data.last() % 16),
        ]
    }
}

/// Whether a character is a lowercase hex digit.
pub open spec fn is_lower_hex_char(c: char) -> bool {
    ('0' <= c && c <= '9') || ('a' <= c && c <= 'f')
}

/// A hex rendering has two characters per byte.
pub proof fn lemma_hex_of_len(data: Seq<u8>)
    ensures
        hex_of(data).len() == 2 * data.len(),
    decreases data,
{
    if data.len() > 0 {
        lemma_hex_of_len(data.drop_last());
    }
}

/// Every character of a hex rendering is a lowercase hex digit.
pub proof fn lemma_hex_of_chars(data: Seq<u8>)
    ensures
        forall|i: int| 0 <= i < hex_of(data).len() ==> is_lower_hex_char(#[trigger] hex_of(data)[i]),
    decreases data,
{
    if data.len() > 0 {
        lemma_hex_of_chars(data.drop_last());
        lemma_hex_of_len(data.drop_last());
        assert forall|i: int|
            0 <= i < hex_of(data).len() implies is_lower_hex_char(#[trigger] hex_of(data)[i]) by {
            if i < hex_of(data.drop_last()).len() {
                assert(hex_of(data)[i] == hex_of(data.drop_last())[i]);
            } else {
                assert(is_lower_hex_char(hex_digit(data.last() / 16)));
                assert(is_lower_hex_char(hex_digit(data.last() % 16)));
            }
        }
    }
}

/// The SHA-256 digest of a byte sequence, named but not defined here: the
/// digest depends on its input alone, and its value is taken on trust from
/// the sha2 crate.
pub uninterp spec fn sha256_of(data: Seq<u8>) -> Seq<u8>;

/// Relies on sha2's `Sha256`: the digest is a function of the input bytes
/// alone and is 32 bytes long.
#[verifier::external_body]
fn sha256(data: &[u8]) -> (r: Vec<u8>)
    ensures
        r@ == sha256_of(data@),
        r@.len() == 32,
{
    let digest = <sha2::Sha256 as sha2::Digest>::digest(data);
    digest.to_vec()
}

/// Relies on hex::encode: two lowercase hex digits per input byte, high
/// nibble first.
#[verifier::external_body]
fn encode_hex(data: &[u8]) -> (r: String)
    ensures
        r@ == hex_of(data@),
{
    hex::encode(data)
}

/// Serialises a path to bytes, four little-endian bytes per identifier.
pub fn path_to_bytes(path: &[i32]) -> (r: Vec<u8>)
    ensures
        r@ == path_bytes(path@),
{
    let mut r: Vec<u8> = Vec::new();
    let mut i: usize = 0;
    proof {
        assert(path@.take(0) =~= Seq::<i32>::empty());
    }
    while i < path.len()
        invariant
            i <= path@.len(),
            r@ == path_bytes(path@.take(i as int)),
        decreases path@.len() - i,
    {
        let u = path[i] as u32;
        r.push((u % 0x100) as u8);
        r.push(((u / 0x100) % 0x100) as u8);
        r.push(((u / 0x10000) % 0x100) as u8);
        r.push(((u / 0x1000000) % 0x100) as u8);
        proof {
            assert(path@.take(i + 1).drop_last() =~= path@.take(i as int));
            assert(r@ =~= path_bytes(path@.take(i as int)) + le_bytes_of(path@[i as int]));
        }
        i = i + 1;
    }
    proof {
        assert(path@.take(path@.len() as int) =~= path@);
    }
    r
}

/// The fingerprint of a path: lowercase hex of the SHA-256 digest of its
/// little-endian byte serialisation.
pub open spec fn fingerprint_spec(p: Seq<i32>) -> Seq<char> {
    hex_of(sha256_of(path_bytes(p)))
}

/// Hashes a path to its fingerprint: 64 lowercase hex characters.
pub fn hash_path(path: &[i32]) -> (r: String)
    ensures
        r@ == fingerprint_spec(path@),
        r@.len() == 64,
        forall|i: int| 0 <= i < r@.len() ==> is_lower_hex_char(#[trigger] r@[i]),
{
    let bytes = path_to_bytes(path);
    let digest = sha256(&bytes);
    proof {
        lemma_hex_of_len(digest@);
        lemma_hex_of_chars(digest@);
    }
    encode_hex(&digest)
}

/// The serialisation of one identifier decodes uniquely.
proof fn lemma_le_bytes_injective(x: i32, y: i32)
    requires
        le_bytes_of(x) == le_bytes_of(y),
    ensures
        x == y,
{
    let u = x as u32;
    let v = y as u32;
    assert(le_bytes_of(x)[0] == le_bytes_of(y)[0]);
    assert(le_bytes_of(x)[1] == le_bytes_of(y)[1]);
    assert(le_bytes_of(x)[2] == le_bytes_of(y)[2]);
    assert(le_bytes_of(x)[3] == le_bytes_of(y)[3]);
    assert(u % 0x100 == v % 0x100 && (u / 0x100) % 0x100 == (v / 0x100) % 0x100 && (u / 0x10000)
        % 0x100 == (v / 0x10000) % 0x100 && (u / 0x1000000) % 0x100 == (v / 0x1000000) % 0x100);
    assert(u == v) by (bit_vector)
        requires
            u % 0x100 == v % 0x100 && (u / 0x100) % 0x100 == (v / 0x100) % 0x100 && (u / 0x10000)
                % 0x100 == (v / 0x10000) % 0x100 && (u / 0x1000000) % 0x100 == (v / 0x1000000)
                % 0x100,
    ;
    assert(x as u32 == y as u32 ==> x == y) by (bit_vector);
}

/// The byte serialisation of paths is injective: distinct reduced paths are
/// hashed from distinct byte strings, so equal fingerprints of reduced
/// paths can only arise from equal paths or from a SHA-256 collision.
pub proof fn lemma_path_bytes_injective(p: Seq<i32>, q: Seq<i32>)
    requires
        path_bytes(p) == path_bytes(q),
    ensures
        p == q,
    decreases p,
{
    lemma_path_bytes_len(p);
    lemma_path_bytes_len(q);
    if p.len() == 0 {
        assert(p =~= q);
    } else {
        let pb = path_bytes(p.drop_last());
        let qb = path_bytes(q.drop_last());
        lemma_path_bytes_len(p.drop_last());
        lemma_path_bytes_len(q.drop_last());
        assert(path_bytes(p) == pb + le_bytes_of(p.last()));
        assert(path_bytes(q) == qb + le_bytes_of(q.last()));
        assert(pb =~= qb) by {
            assert(forall|i: int| 0 <= i < pb.len() ==> #[trigger] pb[i] == path_bytes(p)[i]
                && #[trigger] qb[i] == path_bytes(q)[i]);
        }
        assert(le_bytes_of(p.last()) =~= le_bytes_of(q.last())) by {
            assert(forall|i: int| 0 <= i < 4 ==> #[trigger] le_bytes_of(p.last())[i] == path_bytes(
                p,
            )[pb.len() + i] && #[trigger] le_bytes_of(q.last())[i] == path_bytes(q)[qb.len() + i]);
        }
        lemma_le_bytes_injective(p.last(), q.last());
        lemma_path_bytes_injective(p.drop_last(), q.drop_last());
        assert(p =~= q) by {
            assert(p == p.drop_last().push(p.last()));
            assert(q == q.drop_last().push(q.last()));
        }
    }
}

/// The byte serialisation is four bytes per identifier.
pub proof fn lemma_path_bytes_len(p: Seq<i32>)
    ensures
        path_bytes(p).len() == 4 * p.len(),
    decreases p,
{
    if p.len() > 0 {
        lemma_path_bytes_len(p.drop_last());
    }
}

/// Equal paths have equal fingerprints, and equal fingerprints of distinct
/// paths can only come from a SHA-256 collision: the serialisations of
/// distinct paths are distinct. Whether SHA-256 itself is injective on
/// these inputs is not a provable matter here.
pub proof fn lemma_fingerprint_of_reduction(p: Seq<i32>, q: Seq<i32>)
    ensures
        p == q ==> fingerprint_spec(p) == fingerprint_spec(q),
        p != q ==> path_bytes(p) != path_bytes(q),
{
    if p != q {
        if path_bytes(p) == path_bytes(q) {
            lemma_path_bytes_injective(p, q);
        }
    }
}

} // verus!
