//! Content hashes: fixed-size digests of arbitrary byte content, with a
//! hexadecimal string encoding that round-trips.

use sha2::Digest;
use vstd::prelude::*;
use vstd::string::StringExecFns;

verus! {

/// Number of bytes in a digest.
pub const HASH_LEN: usize = 32;

/// The digest that the hash function assigns to the given content bytes.
/// It depends on the content alone.
pub uninterp spec fn digest_of(content: Seq<u8>) -> Seq<u8>;

/// The character that encodes a nibble value.
pub open spec fn hex_char_of(n: u8) -> char
    recommends
        n < 16,
{
    if n == 0 {
        '0'
    } else if n == 1 {
        '1'
    } else if n == 2 {
        '2'
    } else if n == 3 {
        '3'
    } else if n == 4 {
        '4'
    } else if n == 5 {
        '5'
    } else if n == 6 {
        '6'
    } else if n == 7 {
        '7'
    } else if n == 8 {
        '8'
    } else if n == 9 {
        '9'
    } else if n == 10 {
        'a'
    } else if n == 11 {
        'b'
    } else if n == 12 {
        'c'
    } else if n == 13 {
        'd'
    } else if n == 14 {
        'e'
    } else {
        'f'
    }
}

/// The hexadecimal encoding of a byte sequence: two characters per byte,
/// lower case, high nibble first.
pub open spec fn hex_str_of(bytes: Seq<u8>) -> Seq<char>
    decreases bytes.len(),
{
    if bytes.len() == 0 {
        Seq::<char>::empty()
    } else {
        hex_str_of(bytes.drop_last()) + seq![
            hex_char_of(bytes.last() / 16),
            hex_char_of(bytes.last() % 16),
        ]
    }
}

/// Whether a character is a lower-case hexadecimal digit.
pub open spec fn is_hex_char(c: char) -> bool {
    (48 <= c as int && c as int <= 57) || (97 <= c as int && c as int <= 102)
}

/// The nibble value of a hexadecimal digit character.
pub open spec fn hex_val(c: char) -> u8
    recommends
        is_hex_char(c),
{
    if 48 <= c as int && c as int <= 57 {
        (c as int - 48) as u8
    } else {
        (c as int - 87) as u8
    }
}

/// The byte sequence that a character sequence decodes to, reading pairs of
/// hexadecimal digits.
pub open spec fn hex_decode(s: Seq<char>) -> Seq<u8>
    decreases s.len(),
{
    if s.len() < 2 {
        Seq::<u8>::empty()
    } else {
        hex_decode(s.drop_last().drop_last()) + seq![
            (hex_val(s[s.len() - 2]) * 16 + hex_val(s.last())) as u8,
        ]
    }
}

/// Whether a character sequence is the well-formed encoding of a digest:
/// exactly two hexadecimal digits per digest byte.
pub open spec fn is_hex_encoding(s: Seq<char>) -> bool {
    s.len() == 2 * HASH_LEN && forall|i: int| 0 <= i < s.len() ==> is_hex_char(#[trigger] s[i])
}

/// Law: decoding the hexadecimal encoding of any byte sequence yields the
/// original bytes, and the encoding consists of hexadecimal digits only.
pub proof fn lemma_hex_round_trip(bytes: Seq<u8>)
    ensures
        hex_decode(hex_str_of(bytes)) == bytes,
        hex_str_of(bytes).len() == 2 * bytes.len(),
        forall|i: int|
            0 <= i < hex_str_of(bytes).len() ==> is_hex_char(#[trigger] hex_str_of(bytes)[i]),
    decreases bytes.len(),
{
    if bytes.len() == 0 {
        assert(hex_decode(hex_str_of(bytes)) =~= bytes);
    } else {
        lemma_hex_round_trip(bytes.drop_last());
        let s = hex_str_of(bytes);
        let b = bytes.last();
        assert(s.drop_last().drop_last() =~= hex_str_of(bytes.drop_last()));
        assert(s[s.len() - 2] == hex_char_of(b / 16) && s.last() == hex_char_of(b % 16));
        assert(hex_val(hex_char_of(b / 16)) == b / 16 && hex_val(hex_char_of(b % 16)) == b % 16);
        assert(hex_decode(s) =~= bytes);
    }
}

/// Failure to parse a hash or key from its string form.
#[derive(Debug, PartialEq, Eq, Clone, Copy)]
pub struct ParseError;

/// A fixed-size, deterministic digest of arbitrary byte content. Two hashes
/// with equal bytes address the same content.
#[derive(Debug, PartialEq, Eq, PartialOrd, Ord, Hash)]
pub struct Hash {
    pub bytes: Vec<u8>,
}

impl View for Hash {
    type V = Seq<u8>;

    open spec fn view(&self) -> Seq<u8> {
        self.bytes@
    }
}

impl Clone for Hash {
    fn clone(&self) -> (r: Self)
        ensures
            r@ == self@,
    {
        Hash { bytes: clone_bytes(&self.bytes) }
    }
}

impl Hash {
    /// Whether the digest has the fixed size.
    pub open spec fn wf(&self) -> bool {
        self@.len() == HASH_LEN
    }

    /// The deterministic digest of the given content.
    pub fn new(content: &[u8]) -> (r: Hash)
        ensures
            r@ == digest_of(content@),
            r.wf(),
    {
        Hash { bytes: sha256_digest(content) }
    }

    /// Builds a hash directly from digest bytes.
    pub fn from_bytes(bytes: Vec<u8>) -> (r: Hash)
        ensures
            r@ == bytes@,
    {
        Hash { bytes }
    }

    /// Whether two hashes address the same content.
    pub fn equals(&self, other: &Hash) -> (r: bool)
        ensures
            r == (self@ == other@),
    {
        bytes_eq(&self.bytes, &other.bytes)
    }

    /// The hexadecimal string form of the digest.
    pub fn to_string(&self) -> (r: String)
        ensures
            r@ == hex_str_of(self@),
            r@.len() == 2 * self@.len(),
    {
        encode_hex(&self.bytes)
    }

    /// The hexadecimal string form of the digest.
    pub fn to_hex(&self) -> (r: String)
        ensures
            r@ == hex_str_of(self@),
            r@.len() == 2 * self@.len(),
    {
        self.to_string()
    }

    /// Parses the hexadecimal string form of a digest; fails exactly on
    /// strings that are not the encoding of a digest.
    pub fn from_string(s: &str) -> (r: Result<Hash, ParseError>)
        ensures
            match r {
                Ok(h) => is_hex_encoding(s@) && h@ == hex_decode(s@) && h.wf(),
                Err(_) => !is_hex_encoding(s@),
            },
    {
        match decode_hex(s) {
            Ok(bytes) => Ok(Hash { bytes }),
            Err(e) => Err(e),
        }
    }

    /// Parses the hexadecimal string form of a digest; fails exactly on
    /// strings that are not the encoding of a digest.
    pub fn from_hex(s: &str) -> (r: Result<Hash, ParseError>)
        ensures
            match r {
                Ok(h) => is_hex_encoding(s@) && h@ == hex_decode(s@) && h.wf(),
                Err(_) => !is_hex_encoding(s@),
            },
    {
        Hash::from_string(s)
    }
}

/// Relies on sha2::Sha256::digest: a deterministic 32-byte digest of the
/// input bytes, a function of the content alone.
#[verifier::external_body]
fn sha256_digest(content: &[u8]) -> (r: Vec<u8>)
    ensures
        r@ == digest_of(content@),
        r@.len() == HASH_LEN,
{
    sha2::Sha256::digest(content).to_vec()
}

/// Copies a byte vector.
pub fn clone_bytes(v: &Vec<u8>) -> (r: Vec<u8>)
    ensures
        r@ == v@,
{
    let mut r: Vec<u8> = Vec::new();
    let mut i: usize = 0;
    while i < v.len()
        invariant
            i <= v.len(),
            r@ =~= v@.take(i as int),
        decreases v.len() - i,
    {
        r.push(v[i]);
        i = i + 1;
        assert(r@ =~= v@.take(i as int));
    }
    assert(r@ =~= v@);
    r
}

/// Whether two byte vectors hold the same bytes.
pub fn bytes_eq(a: &Vec<u8>, b: &Vec<u8>) -> (r: bool)
    ensures
        r == (a@ == b@),
{
    if a.len() != b.len() {
        return false;
    }
    let mut i: usize = 0;
    while i < a.len()
        invariant
            i <= a.len(),
            a@.len() == b@.len(),
            forall|j: int| 0 <= j < i ==> a@[j] == b@[j],
        decreases a.len() - i,
    {
        if a[i] != b[i] {
            return false;
        }
        i = i + 1;
    }
    proof {
        assert(a@ =~= b@);
    }
    true
}

/// Appends the character that encodes one nibble.
fn push_hex_char(s: &mut String, n: u8)
    requires
        n < 16,
    ensures
        final(s)@ == old(s)@ + seq![hex_char_of(n)],
{
    if n == 0 {
        proof { reveal_strlit("0"); }
        s.append("0");
    } else if n == 1 {
        proof { reveal_strlit("1"); }
        s.append("1");
    } else if n == 2 {
        proof { reveal_strlit("2"); }
        s.append("2");
    } else if n == 3 {
        proof { reveal_strlit("3"); }
        s.append("3");
    } else if n == 4 {
        proof { reveal_strlit("4"); }
        s.append("4");
    } else if n == 5 {
        proof { reveal_strlit("5"); }
        s.append("5");
    } else if n == 6 {
        proof { reveal_strlit("6"); }
        s.append("6");
    } else if n == 7 {
        proof { reveal_strlit("7"); }
        s.append("7");
    } else if n == 8 {
        proof { reveal_strlit("8"); }
        s.append("8");
    } else if n == 9 {
        proof { reveal_strlit("9"); }
        s.append("9");
    } else if n == 10 {
        proof { reveal_strlit("a"); }
        s.append("a");
    } else if n == 11 {
        proof { reveal_strlit("b"); }
        s.append("b");
    } else if n == 12 {
        proof { reveal_strlit("c"); }
        s.append("c");
    } else if n == 13 {
        proof { reveal_strlit("d"); }
        s.append("d");
    } else if n == 14 {
        proof { reveal_strlit("e"); }
        s.append("e");
    } else {
        proof { reveal_strlit("f"); }
        s.append("f");
    }
    assert(s@ =~= old(s)@ + seq![hex_char_of(n)]);
}

/// Encodes bytes as a lower-case hexadecimal string.
pub fn encode_hex(bytes: &Vec<u8>) -> (r: String)
    ensures
        r@ == hex_str_of(bytes@),
        r@.len() == 2 * bytes@.len(),
{
    proof {
        lemma_hex_round_trip(bytes@);
    }
    let mut s = String::new();
    let mut i: usize = 0;
    while i < bytes.len()
        invariant
            i <= bytes.len(),
            s@ =~= hex_str_of(bytes@.take(i as int)),
        decreases bytes.len() - i,
    {
        let b = bytes[i];
        push_hex_char(&mut s, b / 16);
        push_hex_char(&mut s, b % 16);
        i = i + 1;
        proof {
            assert(bytes@.take(i as int).drop_last() =~= bytes@.take(i as int - 1));
            assert(bytes@.take(i as int).last() == bytes@[i as int - 1]);
            assert(s@ =~= hex_str_of(bytes@.take(i as int)));
        }
    }
    proof {
        assert(bytes@.take(bytes@.len() as int) =~= bytes@);
    }
    s
}

/// Decodes a hexadecimal string into digest bytes; fails exactly on strings
/// that are not the encoding of a digest.
pub fn decode_hex(s: &str) -> (r: Result<Vec<u8>, ParseError>)
    ensures
        match r {
            Ok(bytes) => is_hex_encoding(s@) && bytes@ == hex_decode(s@) && bytes@.len()
                == HASH_LEN,
            Err(_) => !is_hex_encoding(s@),
        },
{
    if !s.is_ascii() {
        proof {
            let cs = s@;
            assert(!vstd::utf8::is_ascii_chars(cs));
            let i = choose|i: int| !(0 <= i < cs.len() ==> '\0' <= #[trigger] cs[i] <= '\u{7f}');
            if is_hex_encoding(cs) {
                assert(is_hex_char(cs[i]));
                assert(false);
            }
        }
        return Err(ParseError);
    }
    proof {
        vstd::string::is_ascii_spec_bytes(s);
    }
    let bytes: &[u8] = s.as_bytes();
    if bytes.len() != 64 {
        return Err(ParseError);
    }
    assert(s@.len() == 64);
    let mut out: Vec<u8> = Vec::new();
    let mut i: usize = 0;
    while i < 32
        invariant
            i <= 32,
            s@.len() == 64,
            bytes@.len() == 64,
            vstd::utf8::is_ascii_chars(s@),
            forall|j: int| 0 <= j < s@.len() ==> s@[j] as u8 == bytes@[j],
            out@.len() == i,
            out@ =~= hex_decode(s@.take(2 * i as int)),
            forall|j: int| 0 <= j < 2 * i ==> is_hex_char(#[trigger] s@[j]),
        decreases 32 - i,
    {
        let hi = bytes[2 * i];
        let lo = bytes[2 * i + 1];
        let hv: u8;
        let lv: u8;
        proof {
            assert('\0' <= s@[2 * i as int] <= '\u{7f}');
            assert('\0' <= s@[2 * i as int + 1] <= '\u{7f}');
        }
        if 48 <= hi && hi <= 57 {
            hv = hi - 48;
        } else if 97 <= hi && hi <= 102 {
            hv = hi - 87;
        } else {
            proof {
                assert(!is_hex_char(s@[2 * i as int]));
            }
            return Err(ParseError);
        }
        if 48 <= lo && lo <= 57 {
            lv = lo - 48;
        } else if 97 <= lo && lo <= 102 {
            lv = lo - 87;
        } else {
            proof {
                assert(!is_hex_char(s@[2 * i as int + 1]));
            }
            return Err(ParseError);
        }
        out.push(hv * 16 + lv);
        i = i + 1;
        proof {
            let t = s@.take(2 * i as int);
            assert(t.drop_last().drop_last() =~= s@.take(2 * i as int - 2));
            assert(t[t.len() - 2] == s@[2 * i as int - 2]);
            assert(t.last() == s@[2 * i as int - 1]);
            assert(out@ =~= hex_decode(s@.take(2 * i as int)));
        }
    }
    proof {
        assert(s@.take(64) =~= s@);
        assert(is_hex_encoding(s@));
    }
    Ok(out)
}

} // verus!
