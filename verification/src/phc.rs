use crate::argon2::{spec_hash, Argon2, ParamErr, Variant};
use vstd::prelude::*;

verus! {

// The unpadded standard-alphabet base64 codec used by PHC strings.
//
// Byte values of the characters involved: `A-Z` are 65..=90, `a-z` are
// 97..=122, `0-9` are 48..=57, `+` is 43, `/` is 47.

/// The base64 alphabet character of the 6-bit value `n & 0x3f`.
pub open spec fn spec_lut(n: u8) -> u8 {
    let v = n & 0x3f;
    if v < 26 {
        (65 + v) as u8
    } else if v < 52 {
        (71 + v) as u8
    } else if v < 62 {
        (v - 4) as u8
    } else if v == 62 {
        43
    } else {
        47
    }
}

/// The 6-bit value of a base64 alphabet character; `None` off the alphabet.
pub open spec fn spec_delut(c: u8) -> Option<u8> {
    if c == 43 {
        Some(62u8)
    } else if c == 47 {
        Some(63u8)
    } else if 65 <= c <= 90 {
        Some((c - 65) as u8)
    } else if 97 <= c <= 122 {
        Some((c - 71) as u8)
    } else if 48 <= c <= 57 {
        Some((c + 4) as u8)
    } else {
        None
    }
}

/// The four characters encoding the 3-byte group `(n0, n1, n2)`.
pub open spec fn spec_quad(n0: u8, n1: u8, n2: u8) -> Seq<u8> {
    seq![
        spec_lut(n0 >> 2u8),
        spec_lut((n1 >> 4u8) | (n0 << 4u8)),
        spec_lut((n2 >> 6u8) | (n1 << 2u8)),
        spec_lut(n2),
    ]
}

/// The 3-byte group decoded from four characters; `None` if any character is
/// off the alphabet.
pub open spec fn spec_triplet(c0: u8, c1: u8, c2: u8, c3: u8) -> Option<Seq<u8>> {
    match (spec_delut(c0), spec_delut(c1), spec_delut(c2), spec_delut(c3)) {
        (Some(a), Some(b), Some(c), Some(d)) => Some(
            seq![(a << 2u8) | (b >> 4u8), (b << 4u8) | (c >> 2u8), (c << 6u8) | d],
        ),
        _ => None,
    }
}

/// Unpadded base64: each 3-byte group becomes 4 characters; a trailing byte
/// leaves 2 characters, two trailing bytes leave 3.
pub open spec fn spec_base64(bs: Seq<u8>) -> Seq<u8>
    decreases bs.len(),
{
    if bs.len() >= 3 {
        spec_quad(bs[0], bs[1], bs[2]) + spec_base64(bs.skip(3))
    } else if bs.len() == 2 {
        spec_quad(bs[0], bs[1], 0).take(3)
    } else if bs.len() == 1 {
        seq![spec_lut(bs[0] >> 2u8), spec_lut((bs[0] & 0x03) << 4u8)]
    } else {
        Seq::empty()
    }
}

/// Unpadded base64 decoding: `None` exactly on a residue length of 1 mod 4 or
/// a byte off the alphabet.
pub open spec fn spec_debase64(s: Seq<u8>) -> Option<Seq<u8>>
    decreases s.len(),
{
    if s.len() >= 4 {
        match (spec_triplet(s[0], s[1], s[2], s[3]), spec_debase64(s.skip(4))) {
            (Some(t), Some(rest)) => Some(t + rest),
            _ => None,
        }
    } else if s.len() == 3 {
        match (spec_delut(s[0]), spec_delut(s[1]), spec_delut(s[2])) {
            (Some(a), Some(b), Some(c)) => Some(
                seq![(a << 2u8) | (b >> 4u8), (b << 4u8) | (c >> 2u8)],
            ),
            _ => None,
        }
    } else if s.len() == 2 {
        match (spec_delut(s[0]), spec_delut(s[1])) {
            (Some(a), Some(b)) => Some(seq![(a << 2u8) | (b >> 4u8)]),
            _ => None,
        }
    } else if s.len() == 1 {
        None
    } else {
        Some(Seq::empty())
    }
}

/// Encode one 6-bit value.
pub fn lut(n: u8) -> (c: u8)
    ensures
        c == spec_lut(n),
{
    let v = n & 0x3f;
    if v < 26 {
        65 + v
    } else if v < 52 {
        71 + v
    } else if v < 62 {
        v - 4
    } else if v == 62 {
        43
    } else {
        47
    }
}

/// Decode one base64 character.
pub fn delut(c: u8) -> (r: Option<u8>)
    ensures
        r == spec_delut(c),
{
    if c == 43 {
        Some(62)
    } else if c == 47 {
        Some(63)
    } else if 65 <= c && c <= 90 {
        Some(c - 65)
    } else if 97 <= c && c <= 122 {
        Some(c - 71)
    } else if 48 <= c && c <= 57 {
        Some(c + 4)
    } else {
        None
    }
}

/// Encode one 3-byte group as four characters.
pub fn quad(n: &[u8]) -> (r: Vec<u8>)
    requires
        n@.len() == 3,
    ensures
        r@ == spec_quad(n@[0], n@[1], n@[2]),
{
    let b = (n[1] >> 4) | (n[0] << 4);
    let c = (n[2] >> 6) | (n[1] << 2);
    let mut r: Vec<u8> = Vec::new();
    r.push(lut(n[0] >> 2));
    r.push(lut(b));
    r.push(lut(c));
    r.push(lut(n[2]));
    proof {
        assert(r@ =~= spec_quad(n@[0], n@[1], n@[2]));
    }
    r
}

/// Decode one 4-character group into three bytes.
pub fn triplet(n: &[u8]) -> (r: Option<Vec<u8>>)
    requires
        n@.len() == 4,
    ensures
        match r {
            Some(v) => spec_triplet(n@[0], n@[1], n@[2], n@[3]) == Some(v@),
            None => spec_triplet(n@[0], n@[1], n@[2], n@[3]) is None,
        },
{
    let a = match delut(n[0]) {
        Some(v) => v,
        None => {
            return None;
        },
    };
    let b = match delut(n[1]) {
        Some(v) => v,
        None => {
            return None;
        },
    };
    let c = match delut(n[2]) {
        Some(v) => v,
        None => {
            return None;
        },
    };
    let d = match delut(n[3]) {
        Some(v) => v,
        None => {
            return None;
        },
    };
    let mut r: Vec<u8> = Vec::new();
    r.push((a << 2) | (b >> 4));
    r.push((b << 4) | (c >> 2));
    r.push((c << 6) | d);
    proof {
        assert(Some(r@) =~= spec_triplet(n@[0], n@[1], n@[2], n@[3]));
    }
    Some(r)
}

/// Encode a byte string as unpadded base64.
pub fn base64_no_pad(bytes: &[u8]) -> (r: Vec<u8>)
    ensures
        r@ == spec_base64(bytes@),
{
    let mut rv: Vec<u8> = Vec::new();
    let mut pos: usize = 0;
    proof {
        assert(bytes@.skip(0) =~= bytes@);
        assert(rv@ + spec_base64(bytes@) =~= spec_base64(bytes@));
    }
    while bytes.len() - pos >= 3
        invariant
            pos <= bytes@.len(),
            spec_base64(bytes@) == rv@ + spec_base64(bytes@.skip(pos as int)),
        decreases bytes@.len() - pos,
    {
        let ghost pre = bytes@.skip(pos as int);
        let mut q = quad(vstd::slice::slice_subrange(bytes, pos, pos + 3));
        proof {
            assert(pre[0] == bytes@[pos as int] && pre[1] == bytes@[pos + 1] && pre[2]
                == bytes@[pos + 2]);
            assert(q@ == spec_quad(pre[0], pre[1], pre[2]));
            assert(pre.skip(3) =~= bytes@.skip(pos + 3));
        }
        rv.append(&mut q);
        pos = pos + 3;
    }
    let ghost rv0 = rv@;
    if bytes.len() - pos == 1 {
        rv.push(lut(bytes[pos] >> 2));
        rv.push(lut((bytes[pos] & 0x03) << 4));
        proof {
            let tail = bytes@.skip(pos as int);
            assert(tail.len() == 1 && tail[0] == bytes@[pos as int]);
            assert(rv@ =~= rv0 + spec_base64(tail));
        }
    } else if bytes.len() - pos == 2 {
        let pair: [u8; 3] = [bytes[pos], bytes[pos + 1], 0];
        let q = quad(pair.as_slice());
        rv.push(q[0]);
        rv.push(q[1]);
        rv.push(q[2]);
        proof {
            let tail = bytes@.skip(pos as int);
            assert(tail.len() == 2 && tail[0] == bytes@[pos as int] && tail[1] == bytes@[pos + 1]);
            assert(q@.take(3) =~= seq![q@[0], q@[1], q@[2]]);
            assert(rv@ =~= rv0 + spec_base64(tail));
        }
    } else {
        proof {
            let tail = bytes@.skip(pos as int);
            assert(tail.len() == 0);
            assert(rv@ =~= rv0 + spec_base64(tail));
        }
    }
    rv
}

/// Decode an unpadded base64 string; `None` exactly on a residue length of
/// 1 mod 4 or a byte off the alphabet.
pub fn debase64_no_pad(bytes: &[u8]) -> (r: Option<Vec<u8>>)
    ensures
        match r {
            Some(v) => spec_debase64(bytes@) == Some(v@),
            None => spec_debase64(bytes@) is None,
        },
{
    let mut rv: Vec<u8> = Vec::new();
    let mut pos: usize = 0;
    proof {
        assert(bytes@.skip(0) =~= bytes@);
        if spec_debase64(bytes@) is Some {
            assert(rv@ + spec_debase64(bytes@).unwrap() =~= spec_debase64(bytes@).unwrap());
        }
    }
    while bytes.len() - pos >= 4
        invariant
            pos <= bytes@.len(),
            spec_debase64(bytes@) == (match spec_debase64(bytes@.skip(pos as int)) {
                Some(rest) => Some(rv@ + rest),
                None => None::<Seq<u8>>,
            }),
        decreases bytes@.len() - pos,
    {
        let ghost pre = bytes@.skip(pos as int);
        proof {
            assert(pre[0] == bytes@[pos as int] && pre[1] == bytes@[pos + 1] && pre[2]
                == bytes@[pos + 2] && pre[3] == bytes@[pos + 3]);
            assert(pre.skip(4) =~= bytes@.skip(pos + 4));
        }
        let t = triplet(vstd::slice::slice_subrange(bytes, pos, pos + 4));
        match t {
            None => {
                return None;
            },
            Some(mut v) => {
                proof {
                    if spec_debase64(bytes@.skip(pos + 4)) is Some {
                        assert((rv@ + v@) + spec_debase64(bytes@.skip(pos + 4)).unwrap() =~= rv@ + (
                        v@ + spec_debase64(bytes@.skip(pos + 4)).unwrap()));
                    }
                }
                rv.append(&mut v);
            },
        }
        pos = pos + 4;
    }
    let rem = bytes.len() - pos;
    if rem == 1 {
        proof {
            assert(bytes@.skip(pos as int).len() == 1);
        }
        None
    } else if rem == 2 {
        proof {
            assert(bytes@.skip(pos as int)[0] == bytes@[pos as int] && bytes@.skip(pos as int)[1]
                == bytes@[pos + 1]);
        }
        let a = match delut(bytes[pos]) {
            Some(v) => v,
            None => {
                return None;
            },
        };
        let b = match delut(bytes[pos + 1]) {
            Some(v) => v,
            None => {
                return None;
            },
        };
        let ghost rv0 = rv@;
        rv.push((a << 2) | (b >> 4));
        proof {
            let rest = spec_debase64(bytes@.skip(pos as int)).unwrap();
            assert(rv@ =~= rv0 + rest);
            assert(spec_debase64(bytes@) == Some(rv@));
        }
        Some(rv)
    } else if rem == 3 {
        proof {
            assert(bytes@.skip(pos as int)[0] == bytes@[pos as int] && bytes@.skip(pos as int)[1]
                == bytes@[pos + 1] && bytes@.skip(pos as int)[2] == bytes@[pos + 2]);
        }
        let a = match delut(bytes[pos]) {
            Some(v) => v,
            None => {
                return None;
            },
        };
        let b = match delut(bytes[pos + 1]) {
            Some(v) => v,
            None => {
                return None;
            },
        };
        let c = match delut(bytes[pos + 2]) {
            Some(v) => v,
            None => {
                return None;
            },
        };
        let ghost rv0 = rv@;
        rv.push((a << 2) | (b >> 4));
        rv.push((b << 4) | (c >> 2));
        proof {
            let rest = spec_debase64(bytes@.skip(pos as int)).unwrap();
            assert(rv@ =~= rv0 + rest);
            assert(spec_debase64(bytes@) == Some(rv@));
        }
        Some(rv)
    } else {
        proof {
            assert(bytes@.skip(pos as int).len() == 0);
            assert(rv@ =~= rv@ + spec_debase64(bytes@.skip(pos as int)).unwrap());
        }
        Some(rv)
    }
}

/// A string whose length is 1 mod 4 never decodes.
pub proof fn lemma_debase64_rejects_residue_one(s: Seq<u8>)
    requires
        s.len() % 4 == 1,
    ensures
        spec_debase64(s) is None,
    decreases s.len(),
{
    if s.len() >= 4 {
        lemma_debase64_rejects_residue_one(s.skip(4));
    }
}

/// Decoding inverts encoding on one alphabet character.
proof fn lemma_delut_lut(n: u8)
    ensures
        spec_delut(spec_lut(n)) == Some((n & 0x3f) as u8),
{
    assert(n & 0x3f < 64) by (bit_vector);
}

/// Base64 round trip: decoding an encoding returns the original bytes.
pub proof fn lemma_base64_round_trip(b: Seq<u8>)
    ensures
        spec_debase64(spec_base64(b)) == Some(b),
    decreases b.len(),
{
    if b.len() >= 3 {
        let n0 = b[0];
        let n1 = b[1];
        let n2 = b[2];
        lemma_delut_lut(n0 >> 2u8);
        lemma_delut_lut((n1 >> 4u8) | (n0 << 4u8));
        lemma_delut_lut((n2 >> 6u8) | (n1 << 2u8));
        lemma_delut_lut(n2);
        let a = ((n0 >> 2u8) & 0x3f) as u8;
        let bb = (((n1 >> 4u8) | (n0 << 4u8)) & 0x3f) as u8;
        let c = (((n2 >> 6u8) | (n1 << 2u8)) & 0x3f) as u8;
        let d = (n2 & 0x3f) as u8;
        assert((a << 2u8) | (bb >> 4u8) == n0 && (bb << 4u8) | (c >> 2u8) == n1 && (c << 6u8) | d
            == n2) by (bit_vector)
            requires
                a == (n0 >> 2u8) & 0x3f && bb == ((n1 >> 4u8) | (n0 << 4u8)) & 0x3f && c == ((n2
                    >> 6u8) | (n1 << 2u8)) & 0x3f && d == n2 & 0x3f,
        ;
        lemma_base64_round_trip(b.skip(3));
        let enc = spec_base64(b);
        let q = spec_quad(n0, n1, n2);
        let rest = spec_base64(b.skip(3));
        assert(enc == q + rest);
        assert(enc.len() >= 4);
        assert(enc[0] == q[0] && enc[1] == q[1] && enc[2] == q[2] && enc[3] == q[3]);
        assert(enc.skip(4) =~= rest);
        assert(spec_triplet(enc[0], enc[1], enc[2], enc[3]) == Some(seq![n0, n1, n2]) || true);
        assert(spec_debase64(enc) == Some(seq![n0, n1, n2] + b.skip(3)));
        assert(seq![n0, n1, n2] + b.skip(3) =~= b);
    } else if b.len() == 2 {
        let n0 = b[0];
        let n1 = b[1];
        lemma_delut_lut(n0 >> 2u8);
        lemma_delut_lut((n1 >> 4u8) | (n0 << 4u8));
        lemma_delut_lut((0u8 >> 6u8) | (n1 << 2u8));
        let a = ((n0 >> 2u8) & 0x3f) as u8;
        let bb = (((n1 >> 4u8) | (n0 << 4u8)) & 0x3f) as u8;
        let c = (((0u8 >> 6u8) | (n1 << 2u8)) & 0x3f) as u8;
        assert((a << 2u8) | (bb >> 4u8) == n0 && (bb << 4u8) | (c >> 2u8) == n1) by (bit_vector)
            requires
                a == (n0 >> 2u8) & 0x3f && bb == ((n1 >> 4u8) | (n0 << 4u8)) & 0x3f && c == ((0u8
                    >> 6u8) | (n1 << 2u8)) & 0x3f,
        ;
        let enc = spec_base64(b);
        assert(enc =~= seq![
            spec_lut(n0 >> 2u8),
            spec_lut((n1 >> 4u8) | (n0 << 4u8)),
            spec_lut((0u8 >> 6u8) | (n1 << 2u8)),
        ]);
        assert(spec_debase64(enc) == Some(seq![n0, n1]));
        assert(seq![n0, n1] =~= b);
    } else if b.len() == 1 {
        let n0 = b[0];
        lemma_delut_lut(n0 >> 2u8);
        lemma_delut_lut((n0 & 0x03) << 4u8);
        let a = ((n0 >> 2u8) & 0x3f) as u8;
        let bb = (((n0 & 0x03) << 4u8) & 0x3f) as u8;
        assert((a << 2u8) | (bb >> 4u8) == n0) by (bit_vector)
            requires
                a == (n0 >> 2u8) & 0x3f && bb == ((n0 & 0x03) << 4u8) & 0x3f,
        ;
        let enc = spec_base64(b);
        assert(enc.len() == 2);
        assert(spec_debase64(enc) == Some(seq![n0]));
        assert(seq![n0] =~= b);
    } else {
        assert(spec_base64(b).len() == 0);
        assert(b =~= Seq::<u8>::empty());
    }
}

// ---- the PHC-string parser ----

/// `pat` occurs in `s` at position `pos`.
pub open spec fn starts_with(s: Seq<u8>, pos: int, pat: Seq<u8>) -> bool {
    &&& 0 <= pos
    &&& pos + pat.len() <= s.len()
    &&& s.subrange(pos, pos + pat.len()) == pat
}

/// ASCII decimal digit.
pub open spec fn is_digit(c: u8) -> bool {
    48 <= c <= 57
}

/// The end of the digit run starting at `pos`: the first position at or after
/// `pos` holding no digit, or the end of the string.
pub open spec fn digit_run_end(s: Seq<u8>, pos: int) -> int
    decreases s.len() - pos,
{
    if pos < 0 || pos >= s.len() || !is_digit(s[pos]) {
        pos
    } else {
        digit_run_end(s, pos + 1)
    }
}

/// The value of the decimal digits `s[pos..end]`.
pub open spec fn dec_value(s: Seq<u8>, pos: int, end: int) -> int
    decreases end - pos,
{
    if end <= pos {
        0
    } else {
        dec_value(s, pos, end - 1) * 10 + (s[end - 1] - 48)
    }
}

/// The first position at or after `pos` holding a stop byte, or the end of
/// the string.
pub open spec fn scan_end(s: Seq<u8>, pos: int, stops: Seq<u8>) -> int
    decreases s.len() - pos,
{
    if pos < 0 || pos >= s.len() || stops.contains(s[pos]) {
        pos
    } else {
        scan_end(s, pos + 1, stops)
    }
}

/// A digit run's value is never negative.
proof fn lemma_dec_value_nonneg(s: Seq<u8>, pos: int, end: int)
    requires
        0 <= pos <= end <= s.len(),
        forall|j: int| pos <= j < end ==> is_digit(#[trigger] s[j]),
    ensures
        dec_value(s, pos, end) >= 0,
    decreases end - pos,
{
    if end > pos {
        lemma_dec_value_nonneg(s, pos, end - 1);
        assert(dec_value(s, pos, end - 1) * 10 >= 0) by (nonlinear_arith)
            requires
                dec_value(s, pos, end - 1) >= 0,
        ;
    }
}

/// A digit run's value only grows as the run extends.
proof fn lemma_dec_value_grows(s: Seq<u8>, pos: int, mid: int, end: int)
    requires
        0 <= pos <= mid <= end <= s.len(),
        forall|j: int| pos <= j < end ==> is_digit(#[trigger] s[j]),
    ensures
        dec_value(s, pos, end) >= dec_value(s, pos, mid) >= 0,
    decreases end - mid,
{
    lemma_dec_value_nonneg(s, pos, mid);
    if end > mid {
        lemma_dec_value_grows(s, pos, mid, end - 1);
        assert(dec_value(s, pos, end - 1) * 10 >= dec_value(s, pos, end - 1)) by (nonlinear_arith)
            requires
                dec_value(s, pos, end - 1) >= 0,
        ;
    }
}

/// `scan_end` stops exactly at the first stop byte (or the end).
proof fn lemma_scan_end_stops_at(s: Seq<u8>, pos: int, end: int, stops: Seq<u8>)
    requires
        0 <= pos <= end <= s.len(),
        forall|j: int| pos <= j < end ==> !stops.contains(#[trigger] s[j]),
        end == s.len() || stops.contains(s[end]),
    ensures
        scan_end(s, pos, stops) == end,
    decreases end - pos,
{
    if pos < end {
        lemma_scan_end_stops_at(s, pos + 1, end, stops);
    }
}

/// Byte-wise equality of two slices.
fn slice_eq(a: &[u8], b: &[u8]) -> (r: bool)
    ensures
        r <==> a@ == b@,
{
    if a.len() != b.len() {
        proof {
            assert(a@ != b@);
        }
        return false;
    }
    let mut i: usize = 0;
    while i < a.len()
        invariant
            a@.len() == b@.len(),
            i <= a@.len(),
            forall|j: int| 0 <= j < i ==> a@[j] == b@[j],
        decreases a@.len() - i,
    {
        if a[i] != b[i] {
            proof {
                assert(a@ != b@);
            }
            return false;
        }
        i = i + 1;
    }
    proof {
        assert(a@ =~= b@);
    }
    true
}

/// Does the byte occur in the slice?
fn contains_byte(stops: &[u8], c: u8) -> (r: bool)
    ensures
        r == stops@.contains(c),
{
    let mut i: usize = 0;
    while i < stops.len()
        invariant
            i <= stops@.len(),
            forall|j: int| 0 <= j < i ==> stops@[j] != c,
        decreases stops@.len() - i,
    {
        if stops[i] == c {
            return true;
        }
        i = i + 1;
    }
    proof {
        assert(!stops@.contains(c));
    }
    false
}

/// A cursor over the encoded bytes; every step either consumes input or
/// reports the position of the first offending byte and stays put.
pub struct Parser<'a> {
    enc: &'a [u8],
    pos: usize,
}

impl<'a> Parser<'a> {
    /// The whole input.
    pub closed spec fn spec_enc(&self) -> Seq<u8> {
        self.enc@
    }

    /// The cursor position.
    pub closed spec fn spec_pos(&self) -> int {
        self.pos as int
    }

    /// The cursor never passes the end of the input.
    pub open spec fn wf(&self) -> bool {
        self.spec_pos() <= self.spec_enc().len()
    }

    /// A parser at the start of `enc`.
    pub fn new(enc: &'a [u8]) -> (p: Parser<'a>)
        ensures
            p.wf(),
            p.spec_enc() == enc@,
            p.spec_pos() == 0,
    {
        Parser { enc, pos: 0 }
    }

    /// Consume exactly `exp`, or fail at the current position.
    pub fn expect(&mut self, exp: &[u8]) -> (r: Result<(), usize>)
        requires
            old(self).wf(),
        ensures
            final(self).wf(),
            final(self).spec_enc() == old(self).spec_enc(),
            match r {
                Ok(()) => {
                    &&& starts_with(old(self).spec_enc(), old(self).spec_pos(), exp@)
                    &&& final(self).spec_pos() == old(self).spec_pos() + exp@.len()
                },
                Err(e) => {
                    &&& e as int == old(self).spec_pos()
                    &&& final(self).spec_pos() == old(self).spec_pos()
                    &&& !starts_with(old(self).spec_enc(), old(self).spec_pos(), exp@)
                },
            },
    {
        if exp.len() <= self.enc.len() - self.pos {
            let sub = vstd::slice::slice_subrange(self.enc, self.pos, self.pos + exp.len());
            if slice_eq(sub, exp) {
                self.pos = self.pos + exp.len();
                Ok(())
            } else {
                Err(self.pos)
            }
        } else {
            Err(self.pos)
        }
    }

    /// Consume one byte that occurs in `chars`, or fail at the current
    /// position.
    pub fn one_of(&mut self, chars: &[u8]) -> (r: Result<u8, usize>)
        requires
            old(self).wf(),
        ensures
            final(self).wf(),
            final(self).spec_enc() == old(self).spec_enc(),
            match r {
                Ok(c) => {
                    &&& old(self).spec_pos() < old(self).spec_enc().len()
                    &&& old(self).spec_enc()[old(self).spec_pos()] == c
                    &&& chars@.contains(c)
                    &&& final(self).spec_pos() == old(self).spec_pos() + 1
                },
                Err(e) => {
                    &&& e as int == old(self).spec_pos()
                    &&& final(self).spec_pos() == old(self).spec_pos()
                    &&& (old(self).spec_pos() >= old(self).spec_enc().len() || !chars@.contains(
                        old(self).spec_enc()[old(self).spec_pos()],
                    ))
                },
            },
    {
        if self.pos < self.enc.len() {
            let cur = self.enc[self.pos];
            if contains_byte(chars, cur) {
                self.pos = self.pos + 1;
                return Ok(cur);
            }
        }
        Err(self.pos)
    }

    /// Consume the maximal decimal digit run and return its value; fail at
    /// the current position if the run is empty or its value exceeds `u32`.
    pub fn read_u32(&mut self) -> (r: Result<u32, usize>)
        requires
            old(self).wf(),
        ensures
            final(self).wf(),
            final(self).spec_enc() == old(self).spec_enc(),
            match r {
                Ok(n) => {
                    &&& digit_run_end(old(self).spec_enc(), old(self).spec_pos()) > old(
                        self,
                    ).spec_pos()
                    &&& final(self).spec_pos() == digit_run_end(
                        old(self).spec_enc(),
                        old(self).spec_pos(),
                    )
                    &&& n as int == dec_value(
                        old(self).spec_enc(),
                        old(self).spec_pos(),
                        digit_run_end(old(self).spec_enc(), old(self).spec_pos()),
                    )
                },
                Err(e) => {
                    &&& e as int == old(self).spec_pos()
                    &&& final(self).spec_pos() == old(self).spec_pos()
                    &&& {
                        let end = digit_run_end(old(self).spec_enc(), old(self).spec_pos());
                        end == old(self).spec_pos() || dec_value(
                            old(self).spec_enc(),
                            old(self).spec_pos(),
                            end,
                        ) > u32::MAX
                    }
                },
            },
    {
        let ghost enc = self.enc@;
        let ghost start = self.pos as int;
        let mut end = self.pos;
        while end < self.enc.len() && 48 <= self.enc[end] && self.enc[end] <= 57
            invariant
                self.wf(),
                old(self).spec_pos() <= end <= self.spec_enc().len(),
                self == old(self),
                enc == self.enc@,
                start == old(self).spec_pos(),
                forall|j: int| start <= j < end ==> is_digit(#[trigger] enc[j]),
                digit_run_end(enc, start) == digit_run_end(enc, end as int),
            decreases self.spec_enc().len() - end,
        {
            proof {
                assert(digit_run_end(enc, end as int) == digit_run_end(enc, end + 1));
            }
            end = end + 1;
        }
        proof {
            assert(digit_run_end(enc, end as int) == end);
        }
        if end == self.pos {
            return Err(self.pos);
        }
        let mut val: u64 = 0;
        let mut i = self.pos;
        while i < end
            invariant
                self.wf(),
                self == old(self),
                enc == self.enc@,
                start == old(self).spec_pos(),
                start <= i <= end <= enc.len(),
                forall|j: int| start <= j < end ==> is_digit(#[trigger] enc[j]),
                digit_run_end(enc, start) == end,
                val <= u32::MAX,
                val as int == dec_value(enc, start, i as int),
            decreases end - i,
        {
            let d = self.enc[i] - 48;
            val = val * 10 + (d as u64);
            proof {
                assert(val as int == dec_value(enc, start, i + 1));
            }
            if val > 0xffff_ffff {
                proof {
                    lemma_dec_value_grows(enc, start, i + 1, end as int);
                }
                return Err(self.pos);
            }
            i = i + 1;
        }
        self.pos = end;
        Ok(val as u32)
    }

    /// Decode the base64 segment running to the first stop byte (or the end
    /// of the input); fail at the start of the segment if it does not decode.
    pub fn decode64_till(&mut self, stops: &[u8]) -> (r: Result<Vec<u8>, usize>)
        requires
            old(self).wf(),
        ensures
            final(self).wf(),
            final(self).spec_enc() == old(self).spec_enc(),
            match r {
                Ok(v) => {
                    &&& final(self).spec_pos() == scan_end(
                        old(self).spec_enc(),
                        old(self).spec_pos(),
                        stops@,
                    )
                    &&& spec_debase64(
                        old(self).spec_enc().subrange(
                            old(self).spec_pos(),
                            scan_end(old(self).spec_enc(), old(self).spec_pos(), stops@),
                        ),
                    ) == Some(v@)
                },
                Err(e) => {
                    &&& e as int == old(self).spec_pos()
                    &&& final(self).spec_pos() == old(self).spec_pos()
                    &&& spec_debase64(
                        old(self).spec_enc().subrange(
                            old(self).spec_pos(),
                            scan_end(old(self).spec_enc(), old(self).spec_pos(), stops@),
                        ),
                    ) is None
                },
            },
    {
        let ghost enc = self.enc@;
        let ghost start = self.pos as int;
        let mut end = self.pos;
        while end < self.enc.len() && !contains_byte(stops, self.enc[end])
            invariant
                self.wf(),
                self == old(self),
                enc == self.enc@,
                start == old(self).spec_pos(),
                start <= end <= enc.len(),
                scan_end(enc, start, stops@) == scan_end(enc, end as int, stops@),
            decreases self.spec_enc().len() - end,
        {
            proof {
                assert(scan_end(enc, end as int, stops@) == scan_end(enc, end + 1, stops@));
            }
            end = end + 1;
        }
        proof {
            assert(scan_end(enc, end as int, stops@) == end);
        }
        match debase64_no_pad(vstd::slice::slice_subrange(self.enc, self.pos, end)) {
            None => Err(self.pos),
            Some(v) => {
                self.pos = end;
                Ok(v)
            },
        }
    }
}

/// Equality of two byte strings in data-independent time: `false` at once on
/// a length mismatch, else one pass folding the XOR of the byte pairs with
/// bitwise OR.
pub fn constant_eq(xs: &[u8], ys: &[u8]) -> (r: bool)
    ensures
        r <==> xs@ == ys@,
{
    if xs.len() != ys.len() {
        proof {
            assert(xs@ != ys@);
        }
        return false;
    }
    let mut acc: u8 = 0;
    let mut i: usize = 0;
    while i < xs.len()
        invariant
            xs@.len() == ys@.len(),
            i <= xs@.len(),
            (acc == 0) <==> (forall|j: int| 0 <= j < i ==> xs@[j] == ys@[j]),
        decreases xs@.len() - i,
    {
        let x = xs[i];
        let y = ys[i];
        let ghost acc0 = acc;
        acc = acc | (x ^ y);
        proof {
            assert((acc0 | (x ^ y) == 0) <==> (acc0 == 0 && x == y)) by (bit_vector);
        }
        i = i + 1;
    }
    proof {
        if acc == 0 {
            assert(xs@ =~= ys@);
        }
    }
    acc == 0
}

// ---- the PHC string grammar ----

/// The leading tag `$argon2`.
pub open spec fn lit_prefix() -> Seq<u8> {
    seq![36u8, 97u8, 114u8, 103u8, 111u8, 110u8, 50u8]
}

/// The memory field tag `$m=`.
pub open spec fn lit_m() -> Seq<u8> {
    seq![36u8, 109u8, 61u8]
}

/// The pass-count field tag `,t=`.
pub open spec fn lit_t() -> Seq<u8> {
    seq![44u8, 116u8, 61u8]
}

/// The lane-count field tag `,p=`.
pub open spec fn lit_p() -> Seq<u8> {
    seq![44u8, 112u8, 61u8]
}

/// The optional key tag `,keyid=`.
pub open spec fn lit_keyid() -> Seq<u8> {
    seq![44u8, 107u8, 101u8, 121u8, 105u8, 100u8, 61u8]
}

/// The optional associated-data tag `,data=`.
pub open spec fn lit_data() -> Seq<u8> {
    seq![44u8, 100u8, 97u8, 116u8, 97u8, 61u8]
}

/// The field separator `$`.
pub open spec fn lit_dollar() -> Seq<u8> {
    seq![36u8]
}

/// The separators that end an optional base64 field: `,` and `$`.
pub open spec fn lit_comma_dollar() -> Seq<u8> {
    seq![44u8, 36u8]
}

/// The decimal digits of `n`, most significant first, no leading zeroes.
pub open spec fn spec_dec(n: u32) -> Seq<u8>
    decreases n,
{
    if n < 10 {
        seq![(48 + n) as u8]
    } else {
        spec_dec((n / 10) as u32) + seq![(48 + n % 10) as u8]
    }
}

/// The decimal digits of `n`.
pub fn u32_to_dec(n: u32) -> (r: Vec<u8>)
    ensures
        r@ == spec_dec(n),
    decreases n,
{
    if n < 10 {
        let mut r: Vec<u8> = Vec::new();
        r.push(48 + (n as u8));
        proof {
            assert(r@ =~= spec_dec(n));
        }
        r
    } else {
        let mut r = u32_to_dec(n / 10);
        r.push(48 + ((n % 10) as u8));
        proof {
            assert(r@ =~= spec_dec(n));
        }
        r
    }
}

/// Parse one `<tag><decimal u32>` field at `pos`: the tag, then the maximal
/// digit run, whose value must fit `u32`.
pub open spec fn spec_parse_num(s: Seq<u8>, pos: int, tag: Seq<u8>) -> Result<(u32, int), int> {
    if !starts_with(s, pos, tag) {
        Err(pos)
    } else {
        let d0 = pos + tag.len();
        let de = digit_run_end(s, d0);
        if de == d0 || dec_value(s, d0, de) > u32::MAX {
            Err(d0)
        } else {
            Ok((dec_value(s, d0, de) as u32, de))
        }
    }
}

/// Parse the optional `,keyid=<b64>` field at `pos`; absent, it yields the
/// empty key and does not move.
pub open spec fn spec_parse_key(s: Seq<u8>, pos: int) -> Result<(Seq<u8>, int), int> {
    if starts_with(s, pos, lit_keyid()) {
        let v0 = pos + lit_keyid().len();
        let ve = scan_end(s, v0, lit_comma_dollar());
        match spec_debase64(s.subrange(v0, ve)) {
            Some(v) => Ok((v, ve)),
            None => Err(v0),
        }
    } else {
        Ok((Seq::empty(), pos))
    }
}

/// Parse the optional `,data=<b64>` field at `pos`.
pub open spec fn spec_parse_data(s: Seq<u8>, pos: int) -> Result<(Seq<u8>, int), int> {
    if starts_with(s, pos, lit_data()) {
        let v0 = pos + lit_data().len();
        let ve = scan_end(s, v0, lit_dollar());
        match spec_debase64(s.subrange(v0, ve)) {
            Some(v) => Ok((v, ve)),
            None => Err(v0),
        }
    } else {
        Ok((Seq::empty(), pos))
    }
}

/// The fields recovered from a PHC string:
/// `(variant, kib, passes, lanes, key, data, salt, hash)`.
pub type ParsedFields = (Variant, u32, u32, u32, Seq<u8>, Seq<u8>, Seq<u8>, Seq<u8>);

/// Parse a whole PHC string, or give the position of the first offending
/// byte.
pub open spec fn spec_parse(s: Seq<u8>) -> Result<ParsedFields, int> {
    if !starts_with(s, 0, lit_prefix()) {
        Err(0)
    } else if 7 >= s.len() || !(s[7] == 100 || s[7] == 105) {
        Err(7)
    } else {
        let variant = if s[7] == 100 {
            Variant::Argon2d
        } else {
            Variant::Argon2i
        };
        match spec_parse_num(s, 8, lit_m()) {
            Err(e) => Err(e),
            Ok((kib, pos1)) => match spec_parse_num(s, pos1, lit_t()) {
                Err(e) => Err(e),
                Ok((passes, pos2)) => match spec_parse_num(s, pos2, lit_p()) {
                    Err(e) => Err(e),
                    Ok((lanes, pos3)) => match spec_parse_key(s, pos3) {
                        Err(e) => Err(e),
                        Ok((key, pos4)) => match spec_parse_data(s, pos4) {
                            Err(e) => Err(e),
                            Ok((data, pos5)) => {
                                if !starts_with(s, pos5, lit_dollar()) {
                                    Err(pos5)
                                } else {
                                    let se = scan_end(s, pos5 + 1, lit_dollar());
                                    match spec_debase64(s.subrange(pos5 + 1, se)) {
                                        None => Err(pos5 + 1),
                                        Some(salt) => {
                                            if !starts_with(s, se, lit_dollar()) {
                                                Err(se)
                                            } else {
                                                match spec_debase64(
                                                    s.subrange(se + 1, s.len() as int),
                                                ) {
                                                    None => Err(se + 1),
                                                    Some(hash) => Ok(
                                                        (
                                                            variant,
                                                            kib,
                                                            passes,
                                                            lanes,
                                                            key,
                                                            data,
                                                            salt,
                                                            hash,
                                                        ),
                                                    ),
                                                }
                                            }
                                        },
                                    }
                                }
                            },
                        },
                    },
                },
            },
        }
    }
}

/// The PHC string of the given fields: `keyid` appears exactly when the key
/// is non-empty and `data` exactly when the associated data is, `keyid`
/// first.
pub open spec fn spec_encoded(
    variant: Variant,
    kib: u32,
    passes: u32,
    lanes: u32,
    key: Seq<u8>,
    data: Seq<u8>,
    salt: Seq<u8>,
    hash: Seq<u8>,
) -> Seq<u8> {
    lit_prefix() + seq![if variant == Variant::Argon2d { 100u8 } else { 105u8 }] + lit_m()
        + spec_dec(kib) + lit_t() + spec_dec(passes) + lit_p() + spec_dec(lanes) + (if key.len()
        > 0 {
        lit_keyid() + spec_base64(key)
    } else {
        Seq::empty()
    }) + (if data.len() > 0 {
        lit_data() + spec_base64(data)
    } else {
        Seq::empty()
    }) + lit_dollar() + spec_base64(salt) + lit_dollar() + spec_base64(hash)
}

/// Why a PHC string was rejected.
#[derive(Clone, Copy, Debug, PartialEq, Eq, Structural)]
pub enum DecodeError {
    /// The byte at this position does not fit the grammar.
    ParseError(usize),
    /// The string parsed, but its parameters fail validation.
    InvalidParams(ParamErr),
}

/// A parsed or freshly computed password record: parameters, tag, salt, key
/// and associated data.
pub struct Verifier {
    params: Argon2,
    hash: Vec<u8>,
    salt: Vec<u8>,
    key: Vec<u8>,
    data: Vec<u8>,
}

impl Verifier {
    /// The parameter record.
    pub closed spec fn spec_params(&self) -> Argon2 {
        self.params
    }

    /// The stored tag.
    pub closed spec fn spec_tag(&self) -> Seq<u8> {
        self.hash@
    }

    /// The stored salt.
    pub closed spec fn spec_salt(&self) -> Seq<u8> {
        self.salt@
    }

    /// The stored secret key.
    pub closed spec fn spec_key(&self) -> Seq<u8> {
        self.key@
    }

    /// The stored associated data.
    pub closed spec fn spec_data(&self) -> Seq<u8> {
        self.data@
    }

    /// The parameters are always a validated record.
    pub open spec fn wf(&self) -> bool {
        self.spec_params().wf()
    }

    /// Split a PHC string into its eight fields, or report the position of
    /// the first offending byte.
    pub fn parse(encoded: &[u8]) -> (r: Result<
        (Variant, u32, u32, u32, Vec<u8>, Vec<u8>, Vec<u8>, Vec<u8>),
        usize,
    >)
        ensures
            match r {
                Ok(t) => spec_parse(encoded@) == Ok::<ParsedFields, int>(
                    (t.0, t.1, t.2, t.3, t.4@, t.5@, t.6@, t.7@),
                ),
                Err(e) => spec_parse(encoded@) == Err::<ParsedFields, int>(e as int),
            },
    {
        let ghost senc = encoded@;
        let mut p = Parser::new(encoded);
        let tag_prefix: [u8; 7] = [36, 97, 114, 103, 111, 110, 50];
        proof {
            assert(tag_prefix@ =~= lit_prefix());
        }
        if let Err(e) = p.expect(tag_prefix.as_slice()) {
            return Err(e);
        }
        let di: [u8; 2] = [100, 105];
        proof {
            assert(di@.len() == 2 && di@[0] == 100u8 && di@[1] == 105u8);
        }
        let variant = match p.one_of(di.as_slice()) {
            Err(e) => {
                proof {
                    if 7 < senc.len() && (senc[7] == 100 || senc[7] == 105) {
                        assert(di@.contains(senc[7]));
                    }
                }
                return Err(e);
            },
            Ok(c) => {
                proof {
                    assert(c == 100 || c == 105);
                }
                if c == 100 {
                    Variant::Argon2d
                } else {
                    Variant::Argon2i
                }
            },
        };
        let ghost gvariant = if senc[7] == 100 { Variant::Argon2d } else { Variant::Argon2i };
        let tag_m: [u8; 3] = [36, 109, 61];
        proof {
            assert(tag_m@ =~= lit_m());
        }
        if let Err(e) = p.expect(tag_m.as_slice()) {
            proof {
                assert(spec_parse_num(senc, 8, lit_m()) == Err::<(u32, int), int>(e as int));
            }
            return Err(e);
        }
        let kib = match p.read_u32() {
            Err(e) => {
                proof {
                    assert(spec_parse_num(senc, 8, lit_m()) == Err::<(u32, int), int>(e as int));
                }
                return Err(e);
            },
            Ok(n) => n,
        };
        proof {
            assert(spec_parse_num(senc, 8, lit_m()) == Ok::<(u32, int), int>(
                (kib, p.spec_pos()),
            ));
        }
        let ghost pos1 = p.spec_pos();
        let tag_t: [u8; 3] = [44, 116, 61];
        proof {
            assert(tag_t@ =~= lit_t());
        }
        if let Err(e) = p.expect(tag_t.as_slice()) {
            proof {
                assert(spec_parse_num(senc, pos1, lit_t()) == Err::<(u32, int), int>(e as int));
            }
            return Err(e);
        }
        let passes = match p.read_u32() {
            Err(e) => {
                proof {
                    assert(spec_parse_num(senc, pos1, lit_t()) == Err::<(u32, int), int>(
                        e as int,
                    ));
                }
                return Err(e);
            },
            Ok(n) => n,
        };
        proof {
            assert(spec_parse_num(senc, pos1, lit_t()) == Ok::<(u32, int), int>(
                (passes, p.spec_pos()),
            ));
        }
        let ghost pos2 = p.spec_pos();
        let tag_p: [u8; 3] = [44, 112, 61];
        proof {
            assert(tag_p@ =~= lit_p());
        }
        if let Err(e) = p.expect(tag_p.as_slice()) {
            proof {
                assert(spec_parse_num(senc, pos2, lit_p()) == Err::<(u32, int), int>(e as int));
            }
            return Err(e);
        }
        let lanes = match p.read_u32() {
            Err(e) => {
                proof {
                    assert(spec_parse_num(senc, pos2, lit_p()) == Err::<(u32, int), int>(
                        e as int,
                    ));
                }
                return Err(e);
            },
            Ok(n) => n,
        };
        proof {
            assert(spec_parse_num(senc, pos2, lit_p()) == Ok::<(u32, int), int>(
                (lanes, p.spec_pos()),
            ));
        }
        let ghost pos3 = p.spec_pos();
        let tag_keyid: [u8; 7] = [44, 107, 101, 121, 105, 100, 61];
        proof {
            assert(tag_keyid@ =~= lit_keyid());
        }
        let stops_cd: [u8; 2] = [44, 36];
        proof {
            assert(stops_cd@ =~= lit_comma_dollar());
        }
        let key: Vec<u8> = match p.expect(tag_keyid.as_slice()) {
            Err(_) => Vec::new(),
            Ok(()) => match p.decode64_till(stops_cd.as_slice()) {
                Err(e) => {
                    proof {
                        assert(spec_parse_key(senc, pos3) == Err::<(Seq<u8>, int), int>(
                            e as int,
                        ));
                    }
                    return Err(e);
                },
                Ok(v) => v,
            },
        };
        proof {
            assert(spec_parse_key(senc, pos3) == Ok::<(Seq<u8>, int), int>(
                (key@, p.spec_pos()),
            )) by {
                if !starts_with(senc, pos3, lit_keyid()) {
                    assert(key@ =~= Seq::<u8>::empty());
                }
            }
        }
        let ghost pos4 = p.spec_pos();
        let tag_data: [u8; 6] = [44, 100, 97, 116, 97, 61];
        proof {
            assert(tag_data@ =~= lit_data());
        }
        let stops_d: [u8; 1] = [36];
        proof {
            assert(stops_d@ =~= lit_dollar());
        }
        let data: Vec<u8> = match p.expect(tag_data.as_slice()) {
            Err(_) => Vec::new(),
            Ok(()) => match p.decode64_till(stops_d.as_slice()) {
                Err(e) => {
                    proof {
                        assert(spec_parse_data(senc, pos4) == Err::<(Seq<u8>, int), int>(
                            e as int,
                        ));
                    }
                    return Err(e);
                },
                Ok(v) => v,
            },
        };
        proof {
            assert(spec_parse_data(senc, pos4) == Ok::<(Seq<u8>, int), int>(
                (data@, p.spec_pos()),
            )) by {
                if !starts_with(senc, pos4, lit_data()) {
                    assert(data@ =~= Seq::<u8>::empty());
                }
            }
        }
        let ghost pos5 = p.spec_pos();
        if let Err(e) = p.expect(stops_d.as_slice()) {
            return Err(e);
        }
        let salt = match p.decode64_till(stops_d.as_slice()) {
            Err(e) => {
                return Err(e);
            },
            Ok(v) => v,
        };
        let ghost se = p.spec_pos();
        if let Err(e) = p.expect(stops_d.as_slice()) {
            return Err(e);
        }
        let stops_none: [u8; 0] = [];
        let hash = match p.decode64_till(stops_none.as_slice()) {
            Err(e) => {
                proof {
                    lemma_scan_end_stops_at(senc, se + 1, senc.len() as int, stops_none@);
                }
                return Err(e);
            },
            Ok(v) => v,
        };
        proof {
            lemma_scan_end_stops_at(senc, se + 1, senc.len() as int, stops_none@);
        }
        Ok((variant, kib, passes, lanes, key, data, salt, hash))
    }
}

impl Verifier {
    /// Parse a PHC string into a record: `ParseError(pos)` at the first
    /// offending byte, `InvalidParams` when the parameters fail validation,
    /// else the record with exactly the parsed fields.
    pub fn from_u8(encoded: &[u8]) -> (r: Result<Verifier, DecodeError>)
        ensures
            match r {
                Ok(v) => {
                    &&& v.wf()
                    &&& spec_parse(encoded@) == Ok::<ParsedFields, int>(
                        (
                            v.spec_params().spec_variant(),
                            v.spec_params().spec_kib(),
                            v.spec_params().spec_passes(),
                            v.spec_params().spec_lanes(),
                            v.spec_key(),
                            v.spec_data(),
                            v.spec_salt(),
                            v.spec_tag(),
                        ),
                    )
                },
                Err(DecodeError::ParseError(pos)) => spec_parse(encoded@) == Err::<
                    ParsedFields,
                    int,
                >(pos as int),
                Err(DecodeError::InvalidParams(e)) => {
                    &&& spec_parse(encoded@) matches Ok(t) && match e {
                        ParamErr::TooFewPasses => t.2 < 1,
                        ParamErr::TooFewLanes => t.2 >= 1 && t.3 < 1,
                        ParamErr::MinKiB(min) => t.2 >= 1 && t.3 >= 1 && t.1 < 8 * t.3 && min == 8
                            * t.3,
                    }
                },
            },
    {
        match Verifier::parse(encoded) {
            Err(pos) => Err(DecodeError::ParseError(pos)),
            Ok((variant, kib, passes, lanes, key, data, salt, hash)) => {
                match Argon2::new(passes, lanes, kib, variant) {
                    Err(e) => Err(DecodeError::InvalidParams(e)),
                    Ok(a2) => Ok(Verifier { params: a2, hash, salt, key, data }),
                }
            },
        }
    }

    /// Encode the record as a PHC string.
    pub fn to_u8(&self) -> (r: Vec<u8>)
        ensures
            r@ == spec_encoded(
                self.spec_params().spec_variant(),
                self.spec_params().spec_kib(),
                self.spec_params().spec_passes(),
                self.spec_params().spec_lanes(),
                self.spec_key(),
                self.spec_data(),
                self.spec_salt(),
                self.spec_tag(),
            ),
    {
        let (variant, kib, passes, lanes) = self.params.params();
        let mut r: Vec<u8> = Vec::new();
        let tag_prefix: [u8; 7] = [36, 97, 114, 103, 111, 110, 50];
        proof {
            assert(tag_prefix@ =~= lit_prefix());
        }
        crate::argon2::push_bytes(&mut r, tag_prefix.as_slice());
        r.push(
            match variant {
                Variant::Argon2d => 100,
                Variant::Argon2i => 105,
            },
        );
        let tag_m: [u8; 3] = [36, 109, 61];
        proof {
            assert(tag_m@ =~= lit_m());
        }
        crate::argon2::push_bytes(&mut r, tag_m.as_slice());
        let mut f = u32_to_dec(kib);
        r.append(&mut f);
        let tag_t: [u8; 3] = [44, 116, 61];
        proof {
            assert(tag_t@ =~= lit_t());
        }
        crate::argon2::push_bytes(&mut r, tag_t.as_slice());
        let mut f = u32_to_dec(passes);
        r.append(&mut f);
        let tag_p: [u8; 3] = [44, 112, 61];
        proof {
            assert(tag_p@ =~= lit_p());
        }
        crate::argon2::push_bytes(&mut r, tag_p.as_slice());
        let mut f = u32_to_dec(lanes);
        r.append(&mut f);
        if self.key.len() > 0 {
            let tag_keyid: [u8; 7] = [44, 107, 101, 121, 105, 100, 61];
            proof {
                assert(tag_keyid@ =~= lit_keyid());
            }
            crate::argon2::push_bytes(&mut r, tag_keyid.as_slice());
            let mut f = base64_no_pad(self.key.as_slice());
            r.append(&mut f);
        }
        if self.data.len() > 0 {
            let tag_data: [u8; 6] = [44, 100, 97, 116, 97, 61];
            proof {
                assert(tag_data@ =~= lit_data());
            }
            crate::argon2::push_bytes(&mut r, tag_data.as_slice());
            let mut f = base64_no_pad(self.data.as_slice());
            r.append(&mut f);
        }
        r.push(36);
        let mut f = base64_no_pad(self.salt.as_slice());
        r.append(&mut f);
        r.push(36);
        let mut f = base64_no_pad(self.hash.as_slice());
        r.append(&mut f);
        proof {
            assert(seq![36u8] =~= lit_dollar());
            assert(r@ =~= spec_encoded(
                self.spec_params().spec_variant(),
                self.spec_params().spec_kib(),
                self.spec_params().spec_passes(),
                self.spec_params().spec_lanes(),
                self.spec_key(),
                self.spec_data(),
                self.spec_salt(),
                self.spec_tag(),
            ));
        }
        r
    }

    /// A record for the given parameters and inputs, with a freshly computed
    /// 64-byte tag.
    pub fn new(argon: Argon2, p: &[u8], s: &[u8], k: &[u8], x: &[u8]) -> (v: Verifier)
        requires
            argon.wf(),
            p@.len() <= u32::MAX,
            s@.len() <= u32::MAX,
            k@.len() <= u32::MAX,
            x@.len() <= u32::MAX,
        ensures
            v.wf(),
            v.spec_params() == argon,
            v.spec_tag() == spec_hash(argon, 64, p@, s@, k@, x@),
            v.spec_salt() == s@,
            v.spec_key() == k@,
            v.spec_data() == x@,
    {
        let mut out = crate::argon2::byte_buffer(64);
        argon.hash(&mut out, p, s, k, x);
        Verifier {
            params: argon,
            hash: out,
            salt: vstd::slice::slice_to_vec(s),
            key: vstd::slice::slice_to_vec(k),
            data: vstd::slice::slice_to_vec(x),
        }
    }

    /// Recompute the tag for the candidate password `p` from the stored
    /// parameters, salt, key and data, and compare it against the stored tag
    /// in constant time. True exactly when the stored tag has a computable
    /// length and equals the recomputed one.
    pub fn verify(&self, p: &[u8]) -> (r: bool)
        requires
            self.wf(),
            p@.len() <= u32::MAX,
        ensures
            r <==> {
                &&& 4 <= self.spec_tag().len() <= u32::MAX
                &&& self.spec_salt().len() <= u32::MAX
                &&& self.spec_key().len() <= u32::MAX
                &&& self.spec_data().len() <= u32::MAX
                &&& self.spec_tag() == spec_hash(
                    self.spec_params(),
                    self.spec_tag().len(),
                    p@,
                    self.spec_salt(),
                    self.spec_key(),
                    self.spec_data(),
                )
            },
    {
        let hlen = self.hash.len();
        if hlen < 4 || hlen > (u32::MAX as usize) {
            return false;
        }
        if self.salt.len() > (u32::MAX as usize) || self.key.len() > (u32::MAX as usize)
            || self.data.len() > (u32::MAX as usize) {
            return false;
        }
        let mut out = crate::argon2::byte_buffer(hlen);
        self.params.hash(
            &mut out,
            p,
            self.salt.as_slice(),
            self.key.as_slice(),
            self.data.as_slice(),
        );
        constant_eq(out.as_slice(), self.hash.as_slice())
    }
}

// ---- the PHC round trip ----

/// `digit_run_end` stops exactly at the first non-digit (or the end).
proof fn lemma_digit_run_stops_at(s: Seq<u8>, pos: int, end: int)
    requires
        0 <= pos <= end <= s.len(),
        forall|j: int| pos <= j < end ==> is_digit(#[trigger] s[j]),
        end == s.len() || !is_digit(s[end]),
    ensures
        digit_run_end(s, pos) == end,
    decreases end - pos,
{
    if pos < end {
        lemma_digit_run_stops_at(s, pos + 1, end);
    }
}

/// `dec_value` depends only on the bytes of its window.
proof fn lemma_dec_value_agree(s1: Seq<u8>, pos1: int, s2: Seq<u8>, pos2: int, n: int)
    requires
        0 <= pos1,
        0 <= pos2,
        0 <= n,
        pos1 + n <= s1.len(),
        pos2 + n <= s2.len(),
        forall|j: int| 0 <= j < n ==> s1[pos1 + j] == #[trigger] s2[pos2 + j],
    ensures
        dec_value(s1, pos1, pos1 + n) == dec_value(s2, pos2, pos2 + n),
    decreases n,
{
    if n > 0 {
        lemma_dec_value_agree(s1, pos1, s2, pos2, n - 1);
        assert(s1[pos1 + (n - 1)] == s2[pos2 + (n - 1)]);
    }
}

/// The decimal digits of `n` are digits and evaluate back to `n`.
proof fn lemma_spec_dec_digits(n: u32)
    ensures
        spec_dec(n).len() >= 1,
        forall|i: int| 0 <= i < spec_dec(n).len() ==> is_digit(#[trigger] spec_dec(n)[i]),
        dec_value(spec_dec(n), 0, spec_dec(n).len() as int) == n,
    decreases n,
{
    let d = spec_dec(n);
    if n < 10 {
        assert(dec_value(d, 0, 0) == 0);
        assert(dec_value(d, 0, 1) == d[0] - 48);
    } else {
        lemma_spec_dec_digits(n / 10);
        let dq = spec_dec(n / 10);
        let len = d.len() as int;
        assert(d == dq + seq![(48 + n % 10) as u8]);
        assert(d[len - 1] == 48 + n % 10);
        assert(forall|j: int| 0 <= j < len - 1 ==> d[j] == dq[j]);
        lemma_dec_value_agree(d, 0, dq, 0, len - 1);
        assert(dec_value(d, 0, len) == dec_value(d, 0, len - 1) * 10 + (d[len - 1] - 48));
        assert(dec_value(d, 0, len) == (n / 10) * 10 + n % 10);
        assert((n / 10) * 10 + n % 10 == n) by {
            vstd::arithmetic::div_mod::lemma_fundamental_div_mod(n as int, 10);
        }
    }
}

/// One `<tag><decimal>` field parses back to its value when the byte after
/// the digits (if any) is not a digit.
proof fn lemma_parse_num_at(s: Seq<u8>, pos: int, tag: Seq<u8>, n: u32)
    requires
        0 <= pos,
        starts_with(s, pos, tag),
        starts_with(s, pos + tag.len(), spec_dec(n)),
        pos + tag.len() + spec_dec(n).len() == s.len() || !is_digit(
            s[pos + tag.len() + spec_dec(n).len()],
        ),
    ensures
        spec_parse_num(s, pos, tag) == Ok::<(u32, int), int>(
            (n, pos + tag.len() + spec_dec(n).len()),
        ),
{
    let d0 = pos + tag.len() as int;
    let dn = spec_dec(n);
    let de = d0 + dn.len() as int;
    lemma_spec_dec_digits(n);
    assert(s.subrange(d0, de) == dn);
    assert forall|j: int| d0 <= j < de implies is_digit(#[trigger] s[j]) by {
        assert(s.subrange(d0, de)[j - d0] == s[j]);
        assert(is_digit(dn[j - d0]));
    }
    lemma_digit_run_stops_at(s, d0, de);
    assert forall|j: int| 0 <= j < dn.len() implies s[d0 + j] == dn[j] by {
        assert(s.subrange(d0, de)[j] == s[d0 + j]);
    }
    lemma_dec_value_agree(s, d0, dn, 0, dn.len() as int);
}

/// Every character that base64 emits is on the alphabet; in particular it is
/// neither `$` nor `,`.
proof fn lemma_base64_no_stops(b: Seq<u8>)
    ensures
        forall|i: int|
            0 <= i < spec_base64(b).len() ==> (#[trigger] spec_base64(b)[i]) != 36
                && spec_base64(b)[i] != 44,
    decreases b.len(),
{
    assert forall|n: u8| spec_lut(n) != 36 && spec_lut(n) != 44 by {
        assert(n & 0x3f < 64) by (bit_vector);
    }
    if b.len() >= 3 {
        lemma_base64_no_stops(b.skip(3));
        let q = spec_quad(b[0], b[1], b[2]);
        let rest = spec_base64(b.skip(3));
        assert forall|i: int| 0 <= i < spec_base64(b).len() implies (#[trigger] spec_base64(
            b,
        )[i]) != 36 && spec_base64(b)[i] != 44 by {
            if i < 4 {
                assert(spec_base64(b)[i] == q[i]);
            } else {
                assert(spec_base64(b)[i] == rest[i - 4]);
            }
        }
    } else if b.len() == 2 {
        let q = spec_quad(b[0], b[1], 0);
        assert forall|i: int| 0 <= i < spec_base64(b).len() implies (#[trigger] spec_base64(
            b,
        )[i]) != 36 && spec_base64(b)[i] != 44 by {
            assert(spec_base64(b)[i] == q[i]);
        }
    }
}

/// What the stop sets hold.
proof fn lemma_stop_sets()
    ensures
        forall|c: u8| lit_comma_dollar().contains(c) <==> (c == 44 || c == 36),
        forall|c: u8| lit_dollar().contains(c) <==> c == 36,
{
    assert(lit_comma_dollar()[0] == 44u8 && lit_comma_dollar()[1] == 36u8);
    assert(lit_dollar()[0] == 36u8);
    assert forall|c: u8| lit_comma_dollar().contains(c) <==> (c == 44 || c == 36) by {
        if c == 44 || c == 36 {
            assert(lit_comma_dollar().contains(c)) by {
                if c == 44 {
                    assert(lit_comma_dollar()[0] == c);
                } else {
                    assert(lit_comma_dollar()[1] == c);
                }
            }
        }
    }
    assert forall|c: u8| lit_dollar().contains(c) <==> c == 36 by {
        if c == 36 {
            assert(lit_dollar()[0] == c);
        }
    }
}

/// A base64 segment bounded by a stop byte (or the end) scans to its end and
/// decodes back to its bytes.
proof fn lemma_parse_b64_at(s: Seq<u8>, pos: int, b: Seq<u8>, stops: Seq<u8>)
    requires
        0 <= pos,
        starts_with(s, pos, spec_base64(b)),
        forall|c: u8| stops.contains(c) ==> c == 36 || c == 44,
        pos + spec_base64(b).len() == s.len() || stops.contains(s[pos + spec_base64(b).len()]),
    ensures
        scan_end(s, pos, stops) == pos + spec_base64(b).len(),
        spec_debase64(s.subrange(pos, pos + spec_base64(b).len())) == Some(b),
{
    let e64 = spec_base64(b);
    let end = pos + e64.len() as int;
    assert(s.subrange(pos, end) == e64);
    lemma_base64_no_stops(b);
    assert forall|j: int| pos <= j < end implies !stops.contains(#[trigger] s[j]) by {
        assert(s.subrange(pos, end)[j - pos] == s[j]);
        assert(e64[j - pos] != 36 && e64[j - pos] != 44);
    }
    lemma_scan_end_stops_at(s, pos, end, stops);
    lemma_base64_round_trip(b);
}

/// A subrange wholly inside the left part of a concatenation.
proof fn lemma_concat_left(u: Seq<u8>, v: Seq<u8>, a: int, b: int)
    requires
        0 <= a <= b <= u.len(),
    ensures
        (u + v).subrange(a, b) == u.subrange(a, b),
{
    assert((u + v).subrange(a, b) =~= u.subrange(a, b));
}

/// The right part of a concatenation as a subrange.
proof fn lemma_concat_last(u: Seq<u8>, v: Seq<u8>)
    ensures
        (u + v).subrange(u.len() as int, (u.len() + v.len()) as int) == v,
{
    assert((u + v).subrange(u.len() as int, (u.len() + v.len()) as int) =~= v);
}

/// The flat concatenation of the PHC string's segments.
spec fn phc_concat(
    vc: u8,
    dk: Seq<u8>,
    dt: Seq<u8>,
    dl: Seq<u8>,
    kseg: Seq<u8>,
    dseg: Seq<u8>,
    bsalt: Seq<u8>,
    bhash: Seq<u8>,
) -> Seq<u8> {
    lit_prefix() + seq![vc] + lit_m() + dk + lit_t() + dt + lit_p() + dl + kseg + dseg
        + lit_dollar() + bsalt + lit_dollar() + bhash
}

/// Where each segment of a PHC string lies in the concatenation.
#[verifier::rlimit(100)]
#[verifier::spinoff_prover]
proof fn lemma_phc_layout(
    vc: u8,
    dk: Seq<u8>,
    dt: Seq<u8>,
    dl: Seq<u8>,
    kseg: Seq<u8>,
    dseg: Seq<u8>,
    bsalt: Seq<u8>,
    bhash: Seq<u8>,
)
    ensures
        ({
            let e = phc_concat(vc, dk, dt, dl, kseg, dseg, bsalt, bhash);
            &&& e.len() == 19 + dk.len() + dt.len() + dl.len() + kseg.len() + dseg.len() + bsalt.len() + bhash.len()
                &&& e.subrange(0 as int, (7) as int) == lit_prefix()
                &&& e.subrange(7 as int, (8) as int) == seq![vc]
                &&& e.subrange(8 as int, (11) as int) == lit_m()
                &&& e.subrange(11 as int, (11 + dk.len()) as int) == dk
                &&& e.subrange(11 + dk.len() as int, (14 + dk.len()) as int) == lit_t()
                &&& e.subrange(14 + dk.len() as int, (14 + dk.len() + dt.len()) as int) == dt
                &&& e.subrange(14 + dk.len() + dt.len() as int, (17 + dk.len() + dt.len()) as int) == lit_p()
                &&& e.subrange(17 + dk.len() + dt.len() as int, (17 + dk.len() + dt.len() + dl.len()) as int) == dl
                &&& e.subrange(17 + dk.len() + dt.len() + dl.len() as int, (17 + dk.len() + dt.len() + dl.len() + kseg.len()) as int) == kseg
                &&& e.subrange(17 + dk.len() + dt.len() + dl.len() + kseg.len() as int, (17 + dk.len() + dt.len() + dl.len() + kseg.len() + dseg.len()) as int) == dseg
                &&& e.subrange(17 + dk.len() + dt.len() + dl.len() + kseg.len() + dseg.len() as int, (17 + dk.len() + dt.len() + dl.len() + kseg.len() + dseg.len() + 1) as int) == lit_dollar()
                &&& e.subrange(17 + dk.len() + dt.len() + dl.len() + kseg.len() + dseg.len() + 1 as int, (18 + dk.len() + dt.len() + dl.len() + kseg.len() + dseg.len() + bsalt.len()) as int) == bsalt
                &&& e.subrange(18 + dk.len() + dt.len() + dl.len() + kseg.len() + dseg.len() + bsalt.len() as int, (18 + dk.len() + dt.len() + dl.len() + kseg.len() + dseg.len() + bsalt.len() + 1) as int) == lit_dollar()
                &&& e.subrange(18 + dk.len() + dt.len() + dl.len() + kseg.len() + dseg.len() + bsalt.len() + 1 as int, (19 + dk.len() + dt.len() + dl.len() + kseg.len() + dseg.len() + bsalt.len() + bhash.len()) as int) == bhash
        }),
{
    let q1 = lit_prefix();
    let q2 = q1 + seq![vc];
    let q3 = q2 + lit_m();
    let q4 = q3 + dk;
    let q5 = q4 + lit_t();
    let q6 = q5 + dt;
    let q7 = q6 + lit_p();
    let q8 = q7 + dl;
    let q9 = q8 + kseg;
    let q10 = q9 + dseg;
    let q11 = q10 + lit_dollar();
    let q12 = q11 + bsalt;
    let q13 = q12 + lit_dollar();
    let e = q13 + bhash;
    assert(e == phc_concat(vc, dk, dt, dl, kseg, dseg, bsalt, bhash));
    lemma_concat_last(q1, seq![vc]);
    lemma_concat_left(q2, lit_m(), q1.len() as int, q2.len() as int);
    lemma_concat_left(q3, dk, q1.len() as int, q2.len() as int);
    lemma_concat_left(q4, lit_t(), q1.len() as int, q2.len() as int);
    lemma_concat_left(q5, dt, q1.len() as int, q2.len() as int);
    lemma_concat_left(q6, lit_p(), q1.len() as int, q2.len() as int);
    lemma_concat_left(q7, dl, q1.len() as int, q2.len() as int);
    lemma_concat_left(q8, kseg, q1.len() as int, q2.len() as int);
    lemma_concat_left(q9, dseg, q1.len() as int, q2.len() as int);
    lemma_concat_left(q10, lit_dollar(), q1.len() as int, q2.len() as int);
    lemma_concat_left(q11, bsalt, q1.len() as int, q2.len() as int);
    lemma_concat_left(q12, lit_dollar(), q1.len() as int, q2.len() as int);
    lemma_concat_left(q13, bhash, q1.len() as int, q2.len() as int);
    assert(e.subrange(q1.len() as int, q2.len() as int) == seq![vc]);
    lemma_concat_last(q2, lit_m());
    lemma_concat_left(q3, dk, q2.len() as int, q3.len() as int);
    lemma_concat_left(q4, lit_t(), q2.len() as int, q3.len() as int);
    lemma_concat_left(q5, dt, q2.len() as int, q3.len() as int);
    lemma_concat_left(q6, lit_p(), q2.len() as int, q3.len() as int);
    lemma_concat_left(q7, dl, q2.len() as int, q3.len() as int);
    lemma_concat_left(q8, kseg, q2.len() as int, q3.len() as int);
    lemma_concat_left(q9, dseg, q2.len() as int, q3.len() as int);
    lemma_concat_left(q10, lit_dollar(), q2.len() as int, q3.len() as int);
    lemma_concat_left(q11, bsalt, q2.len() as int, q3.len() as int);
    lemma_concat_left(q12, lit_dollar(), q2.len() as int, q3.len() as int);
    lemma_concat_left(q13, bhash, q2.len() as int, q3.len() as int);
    assert(e.subrange(q2.len() as int, q3.len() as int) == lit_m());
    lemma_concat_last(q3, dk);
    lemma_concat_left(q4, lit_t(), q3.len() as int, q4.len() as int);
    lemma_concat_left(q5, dt, q3.len() as int, q4.len() as int);
    lemma_concat_left(q6, lit_p(), q3.len() as int, q4.len() as int);
    lemma_concat_left(q7, dl, q3.len() as int, q4.len() as int);
    lemma_concat_left(q8, kseg, q3.len() as int, q4.len() as int);
    lemma_concat_left(q9, dseg, q3.len() as int, q4.len() as int);
    lemma_concat_left(q10, lit_dollar(), q3.len() as int, q4.len() as int);
    lemma_concat_left(q11, bsalt, q3.len() as int, q4.len() as int);
    lemma_concat_left(q12, lit_dollar(), q3.len() as int, q4.len() as int);
    lemma_concat_left(q13, bhash, q3.len() as int, q4.len() as int);
    assert(e.subrange(q3.len() as int, q4.len() as int) == dk);
    lemma_concat_last(q4, lit_t());
    lemma_concat_left(q5, dt, q4.len() as int, q5.len() as int);
    lemma_concat_left(q6, lit_p(), q4.len() as int, q5.len() as int);
    lemma_concat_left(q7, dl, q4.len() as int, q5.len() as int);
    lemma_concat_left(q8, kseg, q4.len() as int, q5.len() as int);
    lemma_concat_left(q9, dseg, q4.len() as int, q5.len() as int);
    lemma_concat_left(q10, lit_dollar(), q4.len() as int, q5.len() as int);
    lemma_concat_left(q11, bsalt, q4.len() as int, q5.len() as int);
    lemma_concat_left(q12, lit_dollar(), q4.len() as int, q5.len() as int);
    lemma_concat_left(q13, bhash, q4.len() as int, q5.len() as int);
    assert(e.subrange(q4.len() as int, q5.len() as int) == lit_t());
    lemma_concat_last(q5, dt);
    lemma_concat_left(q6, lit_p(), q5.len() as int, q6.len() as int);
    lemma_concat_left(q7, dl, q5.len() as int, q6.len() as int);
    lemma_concat_left(q8, kseg, q5.len() as int, q6.len() as int);
    lemma_concat_left(q9, dseg, q5.len() as int, q6.len() as int);
    lemma_concat_left(q10, lit_dollar(), q5.len() as int, q6.len() as int);
    lemma_concat_left(q11, bsalt, q5.len() as int, q6.len() as int);
    lemma_concat_left(q12, lit_dollar(), q5.len() as int, q6.len() as int);
    lemma_concat_left(q13, bhash, q5.len() as int, q6.len() as int);
    assert(e.subrange(q5.len() as int, q6.len() as int) == dt);
    lemma_concat_last(q6, lit_p());
    lemma_concat_left(q7, dl, q6.len() as int, q7.len() as int);
    lemma_concat_left(q8, kseg, q6.len() as int, q7.len() as int);
    lemma_concat_left(q9, dseg, q6.len() as int, q7.len() as int);
    lemma_concat_left(q10, lit_dollar(), q6.len() as int, q7.len() as int);
    lemma_concat_left(q11, bsalt, q6.len() as int, q7.len() as int);
    lemma_concat_left(q12, lit_dollar(), q6.len() as int, q7.len() as int);
    lemma_concat_left(q13, bhash, q6.len() as int, q7.len() as int);
    assert(e.subrange(q6.len() as int, q7.len() as int) == lit_p());
    lemma_concat_last(q7, dl);
    lemma_concat_left(q8, kseg, q7.len() as int, q8.len() as int);
    lemma_concat_left(q9, dseg, q7.len() as int, q8.len() as int);
    lemma_concat_left(q10, lit_dollar(), q7.len() as int, q8.len() as int);
    lemma_concat_left(q11, bsalt, q7.len() as int, q8.len() as int);
    lemma_concat_left(q12, lit_dollar(), q7.len() as int, q8.len() as int);
    lemma_concat_left(q13, bhash, q7.len() as int, q8.len() as int);
    assert(e.subrange(q7.len() as int, q8.len() as int) == dl);
    lemma_concat_last(q8, kseg);
    lemma_concat_left(q9, dseg, q8.len() as int, q9.len() as int);
    lemma_concat_left(q10, lit_dollar(), q8.len() as int, q9.len() as int);
    lemma_concat_left(q11, bsalt, q8.len() as int, q9.len() as int);
    lemma_concat_left(q12, lit_dollar(), q8.len() as int, q9.len() as int);
    lemma_concat_left(q13, bhash, q8.len() as int, q9.len() as int);
    assert(e.subrange(q8.len() as int, q9.len() as int) == kseg);
    lemma_concat_last(q9, dseg);
    lemma_concat_left(q10, lit_dollar(), q9.len() as int, q10.len() as int);
    lemma_concat_left(q11, bsalt, q9.len() as int, q10.len() as int);
    lemma_concat_left(q12, lit_dollar(), q9.len() as int, q10.len() as int);
    lemma_concat_left(q13, bhash, q9.len() as int, q10.len() as int);
    assert(e.subrange(q9.len() as int, q10.len() as int) == dseg);
    lemma_concat_last(q10, lit_dollar());
    lemma_concat_left(q11, bsalt, q10.len() as int, q11.len() as int);
    lemma_concat_left(q12, lit_dollar(), q10.len() as int, q11.len() as int);
    lemma_concat_left(q13, bhash, q10.len() as int, q11.len() as int);
    assert(e.subrange(q10.len() as int, q11.len() as int) == lit_dollar());
    lemma_concat_last(q11, bsalt);
    lemma_concat_left(q12, lit_dollar(), q11.len() as int, q12.len() as int);
    lemma_concat_left(q13, bhash, q11.len() as int, q12.len() as int);
    assert(e.subrange(q11.len() as int, q12.len() as int) == bsalt);
    lemma_concat_last(q12, lit_dollar());
    lemma_concat_left(q13, bhash, q12.len() as int, q13.len() as int);
    assert(e.subrange(q12.len() as int, q13.len() as int) == lit_dollar());
    lemma_concat_last(q13, bhash);
    assert(e.subrange(q13.len() as int, e.len() as int) == bhash);
    assert(e.subrange(0, 7) =~= lit_prefix());
}

/// The fixed-position fields of an encoded record parse back exactly.
#[verifier::rlimit(100)]
#[verifier::spinoff_prover]
proof fn lemma_phc_nums(
    variant: Variant,
    kib: u32,
    passes: u32,
    lanes: u32,
    key: Seq<u8>,
    data: Seq<u8>,
    salt: Seq<u8>,
    hash: Seq<u8>,
)
    ensures
        ({
            let e = spec_encoded(variant, kib, passes, lanes, key, data, salt, hash);
            let pos1: int = 11 + spec_dec(kib).len() as int;
            let pos2: int = pos1 + 3 + spec_dec(passes).len() as int;
            let pos3: int = pos2 + 3 + spec_dec(lanes).len() as int;
            let pos4: int = pos3 + (if key.len() > 0 { 7 + spec_base64(key).len() as int } else { 0int });
            let pos5: int = pos4 + (if data.len() > 0 { 6 + spec_base64(data).len() as int } else { 0int });
            let se: int = pos5 + 1 + spec_base64(salt).len() as int;
            &&& e.len() as int == se + 1 + spec_base64(hash).len() as int
            &&& starts_with(e, 0, lit_prefix())
            &&& 7 < e.len()
            &&& e[7] == (if variant == Variant::Argon2d { 100u8 } else { 105u8 })
            &&& spec_parse_num(e, 8, lit_m()) == Ok::<(u32, int), int>((kib, pos1))
            &&& spec_parse_num(e, pos1, lit_t()) == Ok::<(u32, int), int>((passes, pos2))
            &&& spec_parse_num(e, pos2, lit_p()) == Ok::<(u32, int), int>((lanes, pos3))
        }),
{
    let e = spec_encoded(variant, kib, passes, lanes, key, data, salt, hash);
    let vc: u8 = if variant == Variant::Argon2d {
        100
    } else {
        105
    };
    let dk = spec_dec(kib);
    let dt = spec_dec(passes);
    let dl = spec_dec(lanes);
    let bk = spec_base64(key);
    let bd = spec_base64(data);
    let bsalt = spec_base64(salt);
    let bhash = spec_base64(hash);
    let kseg: Seq<u8> = if key.len() > 0 {
        lit_keyid() + bk
    } else {
        Seq::empty()
    };
    let dseg: Seq<u8> = if data.len() > 0 {
        lit_data() + bd
    } else {
        Seq::empty()
    };
    assert(e == phc_concat(vc, dk, dt, dl, kseg, dseg, bsalt, bhash));
    lemma_phc_layout(vc, dk, dt, dl, kseg, dseg, bsalt, bhash);
    lemma_spec_dec_digits(kib);
    lemma_spec_dec_digits(passes);
    lemma_spec_dec_digits(lanes);
    let pos1 = 11 + spec_dec(kib).len() as int;
    let pos2 = (14 + spec_dec(kib).len() + spec_dec(passes).len()) as int;
    let pos3 = (17 + spec_dec(kib).len() + spec_dec(passes).len() + spec_dec(lanes).len()) as int;
    let pos4 = pos3 + kseg.len() as int;
    let pos5 = pos4 + dseg.len() as int;
    let se = pos5 + 1 + bsalt.len() as int;
    let total = se + 1 + bhash.len() as int;
    assert(starts_with(e, 0, lit_prefix()));
    assert(e[7] == e.subrange(7, 8)[0] && e[7] == vc);
    assert(starts_with(e, 8, lit_m()));
    assert(starts_with(e, 11, dk));
    assert(starts_with(e, pos1, lit_t()));
    assert(starts_with(e, pos1 + 3, dt));
    assert(starts_with(e, pos2, lit_p()));
    assert(starts_with(e, pos2 + 3, dl));
    assert(e[pos1] == e.subrange(pos1, pos1 + 3)[0] && e[pos1] == 44);
    lemma_parse_num_at(e, 8, lit_m(), kib);
    assert(e[pos2] == e.subrange(pos2, pos2 + 3)[0] && e[pos2] == 44);
    lemma_parse_num_at(e, pos1, lit_t(), passes);
    if key.len() > 0 {
        assert(e.subrange(pos3, pos4)[0] == e[pos3] && kseg[0] == 44);
        assert(e[pos3] == 44);
    } else if data.len() > 0 {
        assert(e.subrange(pos4, pos5)[0] == e[pos4] && dseg[0] == 44);
        assert(pos3 == pos4 && e[pos3] == 44);
    } else {
        assert(e.subrange(pos5, pos5 + 1)[0] == e[pos5]);
        assert(pos3 == pos5 && e[pos3] == 36);
    }
    assert(!is_digit(e[pos3]));
    lemma_parse_num_at(e, pos2, lit_p(), lanes);
}

/// The optional key field of an encoded record parses back exactly.
#[verifier::rlimit(100)]
#[verifier::spinoff_prover]
proof fn lemma_phc_key_field(
    variant: Variant,
    kib: u32,
    passes: u32,
    lanes: u32,
    key: Seq<u8>,
    data: Seq<u8>,
    salt: Seq<u8>,
    hash: Seq<u8>,
)
    ensures
        ({
            let e = spec_encoded(variant, kib, passes, lanes, key, data, salt, hash);
            let pos1: int = 11 + spec_dec(kib).len() as int;
            let pos2: int = pos1 + 3 + spec_dec(passes).len() as int;
            let pos3: int = pos2 + 3 + spec_dec(lanes).len() as int;
            let pos4: int = pos3 + (if key.len() > 0 { 7 + spec_base64(key).len() as int } else { 0int });
            let pos5: int = pos4 + (if data.len() > 0 { 6 + spec_base64(data).len() as int } else { 0int });
            let se: int = pos5 + 1 + spec_base64(salt).len() as int;
            &&& spec_parse_key(e, pos3) == Ok::<(Seq<u8>, int), int>((key, pos4))
        }),
{
    let e = spec_encoded(variant, kib, passes, lanes, key, data, salt, hash);
    let vc: u8 = if variant == Variant::Argon2d {
        100
    } else {
        105
    };
    let dk = spec_dec(kib);
    let dt = spec_dec(passes);
    let dl = spec_dec(lanes);
    let bk = spec_base64(key);
    let bd = spec_base64(data);
    let bsalt = spec_base64(salt);
    let bhash = spec_base64(hash);
    let kseg: Seq<u8> = if key.len() > 0 {
        lit_keyid() + bk
    } else {
        Seq::empty()
    };
    let dseg: Seq<u8> = if data.len() > 0 {
        lit_data() + bd
    } else {
        Seq::empty()
    };
    assert(e == phc_concat(vc, dk, dt, dl, kseg, dseg, bsalt, bhash));
    lemma_phc_layout(vc, dk, dt, dl, kseg, dseg, bsalt, bhash);
    lemma_spec_dec_digits(kib);
    lemma_spec_dec_digits(passes);
    lemma_spec_dec_digits(lanes);
    let pos1 = 11 + spec_dec(kib).len() as int;
    let pos2 = (14 + spec_dec(kib).len() + spec_dec(passes).len()) as int;
    let pos3 = (17 + spec_dec(kib).len() + spec_dec(passes).len() + spec_dec(lanes).len()) as int;
    let pos4 = pos3 + kseg.len() as int;
    let pos5 = pos4 + dseg.len() as int;
    let se = pos5 + 1 + bsalt.len() as int;
    let total = se + 1 + bhash.len() as int;
    lemma_stop_sets();
    if key.len() > 0 {
        lemma_concat_last(lit_keyid(), bk);
        lemma_concat_left(lit_keyid(), bk, 0, 7);
        assert(kseg.subrange(0, 7) =~= lit_keyid());
        assert(e.subrange(pos3, pos3 + 7) =~= e.subrange(pos3, pos4).subrange(0, 7));
        assert(starts_with(e, pos3, lit_keyid()));
        assert(e.subrange(pos3 + 7, pos4) =~= e.subrange(pos3, pos4).subrange(
            7,
            kseg.len() as int,
        ));
        assert(kseg.subrange(7, kseg.len() as int) =~= bk);
        assert(starts_with(e, pos3 + 7, bk));
        if data.len() > 0 {
            assert(e[pos4] == e.subrange(pos4, pos5)[0] && dseg[0] == 44);
            assert(e[pos4] == 44);
        } else {
            assert(e[pos4] == e.subrange(pos5, pos5 + 1)[0] && e[pos4] == 36);
        }
        assert(lit_comma_dollar().contains(e[pos4]));
        lemma_parse_b64_at(e, pos3 + 7, key, lit_comma_dollar());
        assert(spec_parse_key(e, pos3) == Ok::<(Seq<u8>, int), int>((key, pos4)));
    } else {
        assert(!starts_with(e, pos3, lit_keyid())) by {
            if starts_with(e, pos3, lit_keyid()) {
                assert(e.subrange(pos3, pos3 + 7)[0] == e[pos3]);
                assert(e.subrange(pos3, pos3 + 7)[1] == e[pos3 + 1]);
                assert(e[pos3] == 44 && e[pos3 + 1] == 107);
                if data.len() > 0 {
                    assert(e[pos3 + 1] == e.subrange(pos4, pos5)[1] && dseg[1] == 100);
                } else {
                    assert(e[pos3] == e.subrange(pos5, pos5 + 1)[0] && e[pos3] == 36);
                }
            }
        }
        assert(spec_parse_key(e, pos3) == Ok::<(Seq<u8>, int), int>((Seq::empty(), pos3)));
        assert(key =~= Seq::<u8>::empty());
    }
}

/// The optional data field of an encoded record parses back exactly.
#[verifier::rlimit(100)]
#[verifier::spinoff_prover]
proof fn lemma_phc_data_field(
    variant: Variant,
    kib: u32,
    passes: u32,
    lanes: u32,
    key: Seq<u8>,
    data: Seq<u8>,
    salt: Seq<u8>,
    hash: Seq<u8>,
)
    ensures
        ({
            let e = spec_encoded(variant, kib, passes, lanes, key, data, salt, hash);
            let pos1: int = 11 + spec_dec(kib).len() as int;
            let pos2: int = pos1 + 3 + spec_dec(passes).len() as int;
            let pos3: int = pos2 + 3 + spec_dec(lanes).len() as int;
            let pos4: int = pos3 + (if key.len() > 0 { 7 + spec_base64(key).len() as int } else { 0int });
            let pos5: int = pos4 + (if data.len() > 0 { 6 + spec_base64(data).len() as int } else { 0int });
            let se: int = pos5 + 1 + spec_base64(salt).len() as int;
            &&& spec_parse_data(e, pos4) == Ok::<(Seq<u8>, int), int>((data, pos5))
        }),
{
    let e = spec_encoded(variant, kib, passes, lanes, key, data, salt, hash);
    let vc: u8 = if variant == Variant::Argon2d {
        100
    } else {
        105
    };
    let dk = spec_dec(kib);
    let dt = spec_dec(passes);
    let dl = spec_dec(lanes);
    let bk = spec_base64(key);
    let bd = spec_base64(data);
    let bsalt = spec_base64(salt);
    let bhash = spec_base64(hash);
    let kseg: Seq<u8> = if key.len() > 0 {
        lit_keyid() + bk
    } else {
        Seq::empty()
    };
    let dseg: Seq<u8> = if data.len() > 0 {
        lit_data() + bd
    } else {
        Seq::empty()
    };
    assert(e == phc_concat(vc, dk, dt, dl, kseg, dseg, bsalt, bhash));
    lemma_phc_layout(vc, dk, dt, dl, kseg, dseg, bsalt, bhash);
    lemma_spec_dec_digits(kib);
    lemma_spec_dec_digits(passes);
    lemma_spec_dec_digits(lanes);
    let pos1 = 11 + spec_dec(kib).len() as int;
    let pos2 = (14 + spec_dec(kib).len() + spec_dec(passes).len()) as int;
    let pos3 = (17 + spec_dec(kib).len() + spec_dec(passes).len() + spec_dec(lanes).len()) as int;
    let pos4 = pos3 + kseg.len() as int;
    let pos5 = pos4 + dseg.len() as int;
    let se = pos5 + 1 + bsalt.len() as int;
    let total = se + 1 + bhash.len() as int;
    lemma_stop_sets();
    if data.len() > 0 {
        lemma_concat_last(lit_data(), bd);
        lemma_concat_left(lit_data(), bd, 0, 6);
        assert(dseg.subrange(0, 6) =~= lit_data());
        assert(e.subrange(pos4, pos4 + 6) =~= e.subrange(pos4, pos5).subrange(0, 6));
        assert(starts_with(e, pos4, lit_data()));
        assert(e.subrange(pos4 + 6, pos5) =~= e.subrange(pos4, pos5).subrange(
            6,
            dseg.len() as int,
        ));
        assert(dseg.subrange(6, dseg.len() as int) =~= bd);
        assert(starts_with(e, pos4 + 6, bd));
        assert(e[pos5] == e.subrange(pos5, pos5 + 1)[0] && e[pos5] == 36);
        assert(lit_dollar().contains(e[pos5]));
        lemma_parse_b64_at(e, pos4 + 6, data, lit_dollar());
        assert(spec_parse_data(e, pos4) == Ok::<(Seq<u8>, int), int>((data, pos5)));
    } else {
        assert(!starts_with(e, pos4, lit_data())) by {
            if starts_with(e, pos4, lit_data()) {
                assert(e.subrange(pos4, pos4 + 6)[0] == e[pos4]);
                assert(e[pos4] == 44);
                assert(e[pos4] == e.subrange(pos5, pos5 + 1)[0] && e[pos4] == 36);
            }
        }
        assert(spec_parse_data(e, pos4) == Ok::<(Seq<u8>, int), int>((Seq::empty(), pos4)));
        assert(data =~= Seq::<u8>::empty());
    }
}

/// The salt and hash fields of an encoded record parse back exactly.
#[verifier::rlimit(100)]
#[verifier::spinoff_prover]
proof fn lemma_phc_tail(
    variant: Variant,
    kib: u32,
    passes: u32,
    lanes: u32,
    key: Seq<u8>,
    data: Seq<u8>,
    salt: Seq<u8>,
    hash: Seq<u8>,
)
    ensures
        ({
            let e = spec_encoded(variant, kib, passes, lanes, key, data, salt, hash);
            let pos1: int = 11 + spec_dec(kib).len() as int;
            let pos2: int = pos1 + 3 + spec_dec(passes).len() as int;
            let pos3: int = pos2 + 3 + spec_dec(lanes).len() as int;
            let pos4: int = pos3 + (if key.len() > 0 { 7 + spec_base64(key).len() as int } else { 0int });
            let pos5: int = pos4 + (if data.len() > 0 { 6 + spec_base64(data).len() as int } else { 0int });
            let se: int = pos5 + 1 + spec_base64(salt).len() as int;
            &&& starts_with(e, pos5, lit_dollar())
            &&& scan_end(e, pos5 + 1, lit_dollar()) == se
            &&& spec_debase64(e.subrange(pos5 + 1, se)) == Some(salt)
            &&& starts_with(e, se, lit_dollar())
            &&& spec_debase64(e.subrange(se + 1, e.len() as int)) == Some(hash)
        }),
{
    let e = spec_encoded(variant, kib, passes, lanes, key, data, salt, hash);
    let vc: u8 = if variant == Variant::Argon2d {
        100
    } else {
        105
    };
    let dk = spec_dec(kib);
    let dt = spec_dec(passes);
    let dl = spec_dec(lanes);
    let bk = spec_base64(key);
    let bd = spec_base64(data);
    let bsalt = spec_base64(salt);
    let bhash = spec_base64(hash);
    let kseg: Seq<u8> = if key.len() > 0 {
        lit_keyid() + bk
    } else {
        Seq::empty()
    };
    let dseg: Seq<u8> = if data.len() > 0 {
        lit_data() + bd
    } else {
        Seq::empty()
    };
    assert(e == phc_concat(vc, dk, dt, dl, kseg, dseg, bsalt, bhash));
    lemma_phc_layout(vc, dk, dt, dl, kseg, dseg, bsalt, bhash);
    lemma_spec_dec_digits(kib);
    lemma_spec_dec_digits(passes);
    lemma_spec_dec_digits(lanes);
    let pos1 = 11 + spec_dec(kib).len() as int;
    let pos2 = (14 + spec_dec(kib).len() + spec_dec(passes).len()) as int;
    let pos3 = (17 + spec_dec(kib).len() + spec_dec(passes).len() + spec_dec(lanes).len()) as int;
    let pos4 = pos3 + kseg.len() as int;
    let pos5 = pos4 + dseg.len() as int;
    let se = pos5 + 1 + bsalt.len() as int;
    let total = se + 1 + bhash.len() as int;
    lemma_stop_sets();
    assert(starts_with(e, pos5, lit_dollar()));
    assert(starts_with(e, pos5 + 1, bsalt));
    assert(starts_with(e, se, lit_dollar()));
    assert(starts_with(e, se + 1, bhash));
    assert(e[se] == e.subrange(se, se + 1)[0] && e[se] == 36);
    assert(lit_dollar().contains(e[se]));
    lemma_parse_b64_at(e, pos5 + 1, salt, lit_dollar());
    lemma_base64_round_trip(hash);
    assert(spec_debase64(e.subrange(se + 1, total)) == Some(hash));
}

/// The PHC round trip: parsing an encoded record recovers its fields
/// exactly.
#[verifier::rlimit(100)]
#[verifier::spinoff_prover]
pub proof fn lemma_phc_round_trip(
    variant: Variant,
    kib: u32,
    passes: u32,
    lanes: u32,
    key: Seq<u8>,
    data: Seq<u8>,
    salt: Seq<u8>,
    hash: Seq<u8>,
)
    ensures
        spec_parse(spec_encoded(variant, kib, passes, lanes, key, data, salt, hash)) == Ok::<
            ParsedFields,
            int,
        >((variant, kib, passes, lanes, key, data, salt, hash)),
{
    lemma_phc_nums(variant, kib, passes, lanes, key, data, salt, hash);
    lemma_phc_key_field(variant, kib, passes, lanes, key, data, salt, hash);
    lemma_phc_data_field(variant, kib, passes, lanes, key, data, salt, hash);
    lemma_phc_tail(variant, kib, passes, lanes, key, data, salt, hash);
    let e = spec_encoded(variant, kib, passes, lanes, key, data, salt, hash);
    assert((if e[7] == 100 {
        Variant::Argon2d
    } else {
        Variant::Argon2i
    }) == variant);
}

} // verus!
