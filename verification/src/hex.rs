use vstd::prelude::*;

verus! {

/// A failed hex decode: the byte offset at fault and a short reason.
#[derive(Debug, Clone, PartialEq)]
pub struct Error {
    pub index: usize,
    pub msg: &'static str,
}

/// The ASCII hex digit for a nibble value, lower or upper case.
pub open spec fn hex_digit(v: u8, upper: bool) -> u8 {
    if v < 10 {
        (v + 48) as u8
    } else if upper {
        (v - 10 + 65) as u8
    } else {
        (v - 10 + 97) as u8
    }
}

/// The nibble that the high (`i` even) or low (`i` odd) digit at text position `i` stands for.
pub open spec fn nibble_at(input: Seq<u8>, i: int) -> u8 {
    if i % 2 == 0 {
        input[i / 2] >> 4
    } else {
        input[i / 2] & 0x0f
    }
}

/// Hex text of a byte sequence: two digits per byte, high nibble first.
pub open spec fn spec_encode(input: Seq<u8>, upper: bool) -> Seq<char> {
    Seq::new(2 * input.len(), |i: int| hex_digit(nibble_at(input, i), upper) as char)
}

/// The value of a hex digit in either case, or `None`.
pub open spec fn spec_nibble(b: u8) -> Option<u8> {
    if 48 <= b <= 57 {
        Some((b - 48) as u8)
    } else if 97 <= b <= 102 {
        Some((b - 97 + 10) as u8)
    } else if 65 <= b <= 70 {
        Some((b - 65 + 10) as u8)
    } else {
        None
    }
}

/// Whether every byte before `end` is a hex digit.
pub open spec fn all_hex(s: Seq<u8>, end: int) -> bool {
    forall|j: int| 0 <= j < end ==> (#[trigger] spec_nibble(s[j])) is Some
}

/// The bytes that a text of hex digits of even length stands for.
pub open spec fn spec_decoded(s: Seq<u8>) -> Seq<u8> {
    Seq::new(
        s.len() / 2,
        |k: int| ((spec_nibble(s[2 * k])->0 * 16) + spec_nibble(s[2 * k + 1])->0) as u8,
    )
}

/// The index of the first byte that is not a hex digit, if any.
pub open spec fn first_bad(s: Seq<u8>) -> int {
    choose|j: int| 0 <= j < s.len() && spec_nibble(s[j]) is None && all_hex(s, j)
}

/// What `decode` returns for a byte text.
pub open spec fn spec_decode(s: Seq<u8>) -> Result<Seq<u8>, (int, Seq<char>)> {
    if s.len() % 2 != 0 {
        Err((s.len() as int, "odd length"@))
    } else if !all_hex(s, s.len() as int) {
        Err((first_bad(s), "invalid hex char"@))
    } else {
        Ok(spec_decoded(s))
    }
}

fn digit(v: u8, upper: bool) -> (c: char)
    requires
        v < 16,
    ensures
        c == hex_digit(v, upper) as char,
{
    if v < 10 {
        (v + 48) as char
    } else if upper {
        (v - 10 + 65) as char
    } else {
        (v - 10 + 97) as char
    }
}

fn encode_with(input: &[u8], upper: bool) -> (out: String)
    ensures
        out@ == spec_encode(input@, upper),
{
    let mut out = String::new();
    let mut i: usize = 0;
    while i < input.len()
        invariant
            i <= input.len(),
            out@ =~= spec_encode(input@.take(i as int), upper),
        decreases input.len() - i,
    {
        let b = input[i];
        assert(b >> 4 < 16 && b & 0x0f < 16) by (bit_vector);
        crate::text::push_char(&mut out, digit(b >> 4, upper));
        crate::text::push_char(&mut out, digit(b & 0x0f, upper));
        i = i + 1;
        assert(out@ =~= spec_encode(input@.take(i as int), upper)) by {
            assert forall|j: int| 0 <= j < 2 * i implies
                nibble_at(input@.take(i as int), j) == nibble_at(input@.take(i - 1), j)
                || j >= 2 * i - 2 by {}
        }
    }
    assert(input@.take(input.len() as int) =~= input@);
    out
}

/// Lower-case hex text of `input`.
pub fn encode(input: &[u8]) -> (out: String)
    ensures
        out@ == spec_encode(input@, false),
{
    encode_with(input, false)
}

/// Upper-case hex text of `input`.
pub fn encode_upper(input: &[u8]) -> (out: String)
    ensures
        out@ == spec_encode(input@, true),
{
    encode_with(input, true)
}

fn nibble(b: u8) -> (r: Option<u8>)
    ensures
        r == spec_nibble(b),
{
    if b >= 48 && b <= 57 {
        Some(b - 48)
    } else if b >= 97 && b <= 102 {
        Some(b - 97 + 10)
    } else if b >= 65 && b <= 70 {
        Some(b - 65 + 10)
    } else {
        None
    }
}

/// Bytes of a hex text; either case is accepted.
pub fn decode(s: &[u8]) -> (r: Result<Vec<u8>, Error>)
    ensures
        match spec_decode(s@) {
            Ok(v) => r matches Ok(out) && out@ == v,
            Err((idx, msg)) => r matches Err(e) && e.index == idx && e.msg@ == msg,
        },
{
    if s.len() % 2 != 0 {
        return Err(Error { index: s.len(), msg: "odd length" });
    }
    let mut out: Vec<u8> = Vec::new();
    let mut i: usize = 0;
    while i < s.len()
        invariant
            s.len() % 2 == 0,
            i <= s.len(),
            i % 2 == 0,
            all_hex(s@, i as int),
            out@ =~= spec_decoded(s@.take(i as int)),
        decreases s.len() - i,
    {
        let hi = match nibble(s[i]) {
            Some(v) => v,
            None => {
                assert(spec_nibble(s@[i as int]) is None && all_hex(s@, i as int));
                assert(!all_hex(s@, s.len() as int));
                return Err(Error { index: i, msg: "invalid hex char" });
            }
        };
        let lo = match nibble(s[i + 1]) {
            Some(v) => v,
            None => {
                assert(spec_nibble(s@[i + 1]) is None && all_hex(s@, i + 1));
                assert(!all_hex(s@, s.len() as int));
                return Err(Error { index: i + 1, msg: "invalid hex char" });
            }
        };
        assert(((hi << 4) | lo) == hi * 16 + lo) by (bit_vector)
            requires hi < 16, lo < 16;
        out.push((hi << 4) | lo);
        i = i + 2;
        assert(out@ =~= spec_decoded(s@.take(i as int)));
    }
    assert(s@.take(s.len() as int) =~= s@);
    Ok(out)
}

/// Decoding the lower- or upper-case hex text of any bytes gives those bytes back.
pub proof fn lemma_decode_encode(input: Seq<u8>, upper: bool)
    ensures
        spec_decode(spec_encode(input, upper).map_values(|c: char| c as u8)) == Ok::<Seq<u8>, (int, Seq<char>)>(input),
{
    let t = spec_encode(input, upper).map_values(|c: char| c as u8);
    assert forall|j: int| 0 <= j < t.len() implies (#[trigger] spec_nibble(t[j])) == Some(nibble_at(input, j)) by {
        let v = nibble_at(input, j);
        assert(v < 16) by {
            let b = input[j / 2];
            assert(b >> 4 < 16 && b & 0x0f < 16) by (bit_vector);
        }
    }
    assert forall|k: int| 0 <= k < input.len() implies #[trigger] spec_decoded(t)[k] == input[k] by {
        let b = input[k];
        assert(2 * k / 2 == k && (2 * k + 1) / 2 == k && (2 * k) % 2 == 0 && (2 * k + 1) % 2 == 1);
        assert(((b >> 4) * 16 + (b & 0x0f)) as u8 == b) by (bit_vector);
        assert(spec_nibble(t[2 * k]) == Some(nibble_at(input, 2 * k)));
        assert(spec_nibble(t[2 * k + 1]) == Some(nibble_at(input, 2 * k + 1)));
    }
    assert(spec_decoded(t) =~= input);
}

/// A hex digit byte in lower case.
pub open spec fn lower_hex(c: u8) -> u8 {
    if 65 <= c <= 70 {
        (c + 32) as u8
    } else {
        c
    }
}

/// Encoding what a hex text decodes to gives the text back in lower case: where
/// `spec_decode(s)` is `Ok(b)`, the lower-case hex text of `b` is `s` with its
/// letters made lower case.
pub proof fn lemma_encode_decode(s: Seq<u8>)
    requires
        spec_decode(s) is Ok,
    ensures
        spec_encode(spec_decode(s)->Ok_0, false).map_values(|c: char| c as u8) == s.map_values(|c: u8| lower_hex(c)),
{
    let b = spec_decoded(s);
    let t = spec_encode(b, false).map_values(|c: char| c as u8);
    assert(s.len() % 2 == 0);
    assert(t.len() == s.len());
    assert forall|j: int| 0 <= j < s.len() implies t[j] == #[trigger] lower_hex(s[j]) by {
        let k = j / 2;
        assert(0 <= k < b.len());
        assert(2 * k == j || 2 * k + 1 == j);
        let hi = spec_nibble(s[2 * k])->0;
        let lo = spec_nibble(s[2 * k + 1])->0;
        assert(spec_nibble(s[2 * k]) is Some && spec_nibble(s[2 * k + 1]) is Some);
        assert(hi < 16 && lo < 16);
        let v = b[k];
        assert(v == (hi * 16 + lo) as u8);
        assert((((hi * 16 + lo) as u8) >> 4) == hi && (((hi * 16 + lo) as u8) & 0x0f) == lo) by (bit_vector)
            requires
                hi < 16,
                lo < 16,
        ;
        let nib = nibble_at(b, j);
        if j % 2 == 0 {
            assert(nib == hi);
            assert(j == 2 * k);
        } else {
            assert(nib == lo);
            assert(j == 2 * k + 1);
        }
        assert(spec_nibble(s[j]) == Some(nib));
        assert(t[j] == hex_digit(nib, false) as char as u8);
    }
    assert(t =~= s.map_values(|c: u8| lower_hex(c)));
}

} // verus!
