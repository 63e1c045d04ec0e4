use sha2::{Digest, Sha256};
use vstd::prelude::*;
use vstd::string::StringSliceAdditionalSpecFns;
use vstd::utf8::{encode_utf8, is_ascii_chars_encode_utf8};

use crate::text::push_char;

verus! {

/// The SHA-256 digest of `data`.
pub uninterp spec fn sha256(data: Seq<u8>) -> Seq<u8>;

/// Calls sha2's `Sha256::digest`: the 32-byte digest of `data`, a function of `data`.
#[verifier::external_body]
fn sha256_digest(data: &[u8]) -> (r: [u8; 32])
    ensures
        r@ == sha256(data@),
{
    Sha256::digest(data).into()
}

/// The value of hexadecimal digit `c` (either case), if it is one.
pub open spec fn hex_val(c: u8) -> Option<u8> {
    if 0x30 <= c <= 0x39 {
        Some((c - 0x30) as u8)
    } else if 0x41 <= c <= 0x46 {
        Some((c - 0x41 + 10) as u8)
    } else if 0x61 <= c <= 0x66 {
        Some((c - 0x61 + 10) as u8)
    } else {
        None
    }
}

/// Bytes that hexadecimal text `s` encodes, two digits a byte, high digit first; none
/// when its length is odd or a character is no hexadecimal digit.
pub open spec fn hex_decoded(s: Seq<u8>) -> Option<Seq<u8>>
    decreases s.len(),
{
    if s.len() == 0 {
        Some(Seq::empty())
    } else if s.len() == 1 {
        None
    } else {
        match (hex_val(s[0]), hex_val(s[1]), hex_decoded(s.skip(2))) {
            (Some(h), Some(l), Some(rest)) => Some(seq![(h * 16 + l) as u8] + rest),
            _ => None,
        }
    }
}

/// Calls `hex::decode`, which reads pairs of hexadecimal digits of either case, high
/// digit first, and fails on an odd length or another character; the error is its text.
#[verifier::external_body]
fn hex_decode(s: &str) -> (r: Result<Vec<u8>, String>)
    ensures
        match hex_decoded(s.spec_bytes()) {
            Some(b) => r is Ok && r->Ok_0@ == b,
            None => r is Err,
        },
{
    match hex::decode(s) {
        Ok(b) => Ok(b),
        Err(e) => Err(e.to_string()),
    }
}

/// A SHA-256 digest identifying a text.
#[derive(Debug, Clone, Copy, PartialEq, Eq, Hash)]
pub struct TextHash {
    value: [u8; 32],
}

/// The bytes of the strings, one after another.
pub open spec fn concat_bytes(parts: Seq<Seq<u8>>) -> Seq<u8>
    decreases parts.len(),
{
    if parts.len() == 0 {
        Seq::empty()
    } else {
        concat_bytes(parts.drop_last()) + parts.last()
    }
}

pub open spec fn hex_digit(d: u8) -> char {
    if d < 10 {
        (('0' as u8) + d) as char
    } else {
        (('a' as u8) + d - 10) as char
    }
}

/// Lower-case hexadecimal text of `b`, two digits a byte.
pub open spec fn hex_text(b: Seq<u8>) -> Seq<char>
    decreases b.len(),
{
    if b.len() == 0 {
        Seq::empty()
    } else {
        hex_text(b.drop_last()) + seq![hex_digit(b.last() / 16), hex_digit(b.last() % 16)]
    }
}

fn hex_digit_exec(d: u8) -> (c: char)
    requires
        d < 16,
    ensures
        c == hex_digit(d),
{
    if d < 10 {
        (('0' as u8) + d) as char
    } else {
        (('a' as u8) + d - 10) as char
    }
}

impl TextHash {
    pub closed spec fn spec_value(self) -> Seq<u8> {
        self.value@
    }

    /// The hash of the text `s`.
    pub fn of_str(s: &str) -> (r: Self)
        ensures
            r.spec_value() == sha256(s.spec_bytes()),
    {
        TextHash { value: sha256_digest(s.as_bytes()) }
    }

    /// The hash of the texts `parts` read one after another.
    pub fn of_strs(parts: &Vec<&str>) -> (r: Self)
        ensures
            r.spec_value() == sha256(concat_bytes(parts@.map_values(|p: &str| p.spec_bytes()))),
    {
        let mut data: Vec<u8> = Vec::new();
        let mut i: usize = 0;
        let ghost pv = parts@.map_values(|p: &str| p.spec_bytes());
        assert(pv.take(0) =~= Seq::<Seq<u8>>::empty());
        while i < parts.len()
            invariant
                i <= parts.len(),
                pv == parts@.map_values(|p: &str| p.spec_bytes()),
                data@ == concat_bytes(pv.take(i as int)),
            decreases parts.len() - i,
        {
            let b = parts[i].as_bytes();
            let ghost before = data@;
            let mut j: usize = 0;
            while j < b.len()
                invariant
                    j <= b.len(),
                    data@ == before + b@.take(j as int),
                decreases b.len() - j,
            {
                data.push(b[j]);
                assert(b@.take(j + 1) =~= b@.take(j as int).push(b@[j as int]));
                j = j + 1;
            }
            assert(b@.take(b.len() as int) =~= b@);
            assert(pv.take(i + 1).drop_last() =~= pv.take(i as int));
            i = i + 1;
        }
        assert(pv.take(parts.len() as int) =~= pv);
        TextHash { value: sha256_digest(data.as_slice()) }
    }

    /// The hash of this digest's bytes followed by the text `s`.
    pub fn chained(&self, s: &str) -> (r: Self)
        ensures
            r.spec_value() == sha256(self.spec_value() + s.spec_bytes()),
    {
        let mut data: Vec<u8> = Vec::new();
        let mut i: usize = 0;
        while i < 32
            invariant
                i <= 32,
                self.value@.len() == 32,
                data@ == self.value@.take(i as int),
            decreases 32 - i,
        {
            data.push(self.value[i]);
            assert(self.value@.take(i + 1) =~= self.value@.take(i as int).push(self.value@[i as int]));
            i = i + 1;
        }
        let b = s.as_bytes();
        let mut j: usize = 0;
        while j < b.len()
            invariant
                j <= b.len(),
                self.value@.len() == 32,
                data@ == self.value@ + b@.take(j as int),
            decreases b.len() - j,
        {
            data.push(b[j]);
            assert(b@.take(j + 1) =~= b@.take(j as int).push(b@[j as int]));
            j = j + 1;
        }
        assert(b@.take(b.len() as int) =~= b@);
        assert(self.value@.take(32) =~= self.value@);
        TextHash { value: sha256_digest(data.as_slice()) }
    }

    /// Whether both hashes are the same digest.
    pub fn same(&self, other: &TextHash) -> (r: bool)
        ensures
            r == (self.spec_value() == other.spec_value()),
    {
        let mut i: usize = 0;
        while i < 32
            invariant
                i <= 32,
                self.value@.len() == 32,
                other.value@.len() == 32,
                forall|k: int| 0 <= k < i ==> self.value@[k] == other.value@[k],
            decreases 32 - i,
        {
            if self.value[i] != other.value[i] {
                return false;
            }
            i = i + 1;
        }
        assert(self.value@ =~= other.value@);
        true
    }

    /// The digest in lower-case hexadecimal, as it is stored.
    pub fn to_hex(&self) -> (r: String)
        ensures
            r@ == hex_text(self.spec_value()),
    {
        let mut r = String::new();
        let mut i: usize = 0;
        assert(self.value@.take(0) =~= Seq::<u8>::empty());
        while i < 32
            invariant
                i <= 32,
                self.value@.len() == 32,
                r@ == hex_text(self.value@.take(i as int)),
            decreases 32 - i,
        {
            let b = self.value[i];
            push_char(&mut r, hex_digit_exec(b / 16));
            push_char(&mut r, hex_digit_exec(b % 16));
            assert(self.value@.take(i + 1).drop_last() =~= self.value@.take(i as int));
            i = i + 1;
        }
        assert(self.value@.take(32) =~= self.value@);
        r
    }

    /// The hash that hexadecimal text `s` stores; an error for text that is no
    /// hexadecimal, or that does not encode 32 bytes.
    pub fn from_hex(s: &str) -> (r: Result<Self, String>)
        ensures
            r is Ok <==> (hex_decoded(s.spec_bytes()) matches Some(b) && b.len() == 32),
            r matches Ok(h) ==> h.spec_value() == hex_decoded(s.spec_bytes())->0,
    {
        match hex_decode(s) {
            Ok(bytes) => {
                if bytes.len() != 32 {
                    return Err(String::from_str("Digest must be 32 bytes long"));
                }
                let mut value = [0u8; 32];
                let mut i: usize = 0;
                while i < 32
                    invariant
                        i <= 32,
                        bytes@.len() == 32,
                        value@.len() == 32,
                        forall|k: int| 0 <= k < i ==> value@[k] == bytes@[k],
                    decreases 32 - i,
                {
                    value.set(i, bytes[i]);
                    i = i + 1;
                }
                assert(value@ =~= bytes@);
                Ok(TextHash { value })
            },
            Err(e) => Err(e),
        }
    }
}

proof fn lemma_hex_digit(d: u8)
    requires
        d < 16,
    ensures
        hex_val(hex_digit(d) as u8) == Some(d),
        '\0' <= hex_digit(d) <= '\u{7f}',
{
}

proof fn lemma_hex_text_shape(b: Seq<u8>)
    ensures
        hex_text(b).len() == 2 * b.len(),
        forall|k: int|
            0 <= k < b.len() ==> hex_text(b)[2 * k] == hex_digit(#[trigger] b[k] / 16) && hex_text(b)[2 * k + 1]
                == hex_digit(b[k] % 16),
    decreases b.len(),
{
    if b.len() > 0 {
        let p = b.drop_last();
        lemma_hex_text_shape(p);
        assert forall|k: int| 0 <= k < b.len() implies hex_text(b)[2 * k] == hex_digit(#[trigger] b[k] / 16)
            && hex_text(b)[2 * k + 1] == hex_digit(b[k] % 16) by {
            if k < p.len() {
                assert(b[k] == p[k]);
            }
        }
    }
}

proof fn lemma_hex_decoded_pointwise(s: Seq<u8>, b: Seq<u8>)
    requires
        s.len() == 2 * b.len(),
        forall|k: int|
            0 <= k < b.len() ==> hex_val(s[2 * k]) == Some((#[trigger] b[k] / 16) as u8) && hex_val(s[2 * k + 1])
                == Some((b[k] % 16) as u8),
    ensures
        hex_decoded(s) == Some(b),
    decreases b.len(),
{
    if b.len() > 0 {
        let t = s.skip(2);
        let c = b.skip(1);
        assert forall|k: int| 0 <= k < c.len() implies hex_val(t[2 * k]) == Some((#[trigger] c[k] / 16) as u8)
            && hex_val(t[2 * k + 1]) == Some((c[k] % 16) as u8) by {
            assert(c[k] == b[k + 1]);
            assert(t[2 * k] == s[2 * (k + 1)]);
            assert(t[2 * k + 1] == s[2 * (k + 1) + 1]);
        }
        lemma_hex_decoded_pointwise(t, c);
        let x = b[0];
        assert(hex_val(s[0]) == Some((x / 16) as u8));
        assert(hex_val(s[1]) == Some((x % 16) as u8));
        assert(((x / 16) as u8 * 16 + (x % 16) as u8) as u8 == x) by (nonlinear_arith);
        assert(b =~= seq![x] + c);
    }
}

/// The hexadecimal text of a digest decodes to the digest: what is stored reads back.
pub proof fn law_hex_roundtrip(h: TextHash)
    ensures
        hex_decoded(encode_utf8(hex_text(h.spec_value()))) == Some(h.spec_value()),
{
    let b = h.spec_value();
    let t = hex_text(b);
    lemma_hex_text_shape(b);
    assert forall|i: int| 0 <= i < t.len() implies '\0' <= #[trigger] t[i] <= '\u{7f}' by {
        let k = i / 2;
        assert(0 <= k < b.len());
        lemma_hex_digit(b[k] / 16);
        lemma_hex_digit(b[k] % 16);
        if i % 2 == 0 {
            assert(i == 2 * k);
        } else {
            assert(i == 2 * k + 1);
        }
    }
    is_ascii_chars_encode_utf8(t);
    let s = encode_utf8(t);
    assert forall|k: int| 0 <= k < b.len() implies hex_val(s[2 * k]) == Some((#[trigger] b[k] / 16) as u8)
        && hex_val(s[2 * k + 1]) == Some((b[k] % 16) as u8) by {
        lemma_hex_digit(b[k] / 16);
        lemma_hex_digit(b[k] % 16);
        assert(s[2 * k] == t[2 * k] as u8);
        assert(s[2 * k + 1] == t[2 * k + 1] as u8);
    }
    lemma_hex_decoded_pointwise(s, b);
}

/// A digest written out by `to_hex` is read back by `from_hex` as the same digest: the
/// text decodes to 32 bytes, and the only digest with those bytes is the one written.
pub proof fn law_hex_parse_roundtrip(h: TextHash, text: Seq<char>)
    requires
        text == hex_text(h.spec_value()),
    ensures
        hex_decoded(encode_utf8(text)) matches Some(b) && b.len() == 32,
        forall|g: TextHash| #[trigger] g.spec_value() == hex_decoded(encode_utf8(text))->0 ==> g == h,
{
    law_hex_roundtrip(h);
    assert forall|g: TextHash| #[trigger] g.spec_value() == hex_decoded(encode_utf8(text))->0 implies g == h by {
        assert(g.value =~= h.value);
    }
}

} // verus!
