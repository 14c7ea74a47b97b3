//! Byte-level facts and operations on UTF-8 text.
use vstd::prelude::*;
use vstd::utf8::*;
use vstd::string::StringSliceAdditionalSpecFns;

verus! {

broadcast use vstd::utf8::encode_utf8_valid_utf8, vstd::utf8::encode_utf8_decode_utf8;

/// The UTF-8 bytes of a character sequence.
pub open spec fn utf8(s: Seq<char>) -> Seq<u8> {
    encode_utf8(s)
}

/// `p` occurs in `s` starting at byte `i`.
pub open spec fn occurs_at(s: Seq<u8>, p: Seq<u8>, i: int) -> bool {
    0 <= i && i + p.len() <= s.len() && s.subrange(i, i + p.len()) == p
}

/// `p` occurs somewhere in `s` (the empty pattern occurs everywhere).
pub open spec fn contains_bytes(s: Seq<u8>, p: Seq<u8>) -> bool {
    exists|i: int| occurs_at(s, p, i)
}

/// The first occurrence of `p` in `s` at or after byte `from`.
pub open spec fn find_from(s: Seq<u8>, p: Seq<u8>, from: int) -> Option<int>
    decreases s.len() + 1 - from,
{
    if from < 0 || from + p.len() > s.len() {
        None
    } else if occurs_at(s, p, from) {
        Some(from)
    } else {
        find_from(s, p, from + 1)
    }
}

/// The first occurrence of `p` in `s`.
pub open spec fn find_first(s: Seq<u8>, p: Seq<u8>) -> Option<int> {
    find_from(s, p, 0)
}

/// `find_from` returns the least occurrence at or after `from`.
pub proof fn lemma_find_from(s: Seq<u8>, p: Seq<u8>, from: int)
    requires
        0 <= from,
    ensures
        find_from(s, p, from) matches Some(i) ==> from <= i && occurs_at(s, p, i) && forall|j: int|
            from <= j < i ==> !occurs_at(s, p, j),
        find_from(s, p, from) is None ==> forall|j: int| from <= j ==> !occurs_at(s, p, j),
    decreases s.len() + 1 - from,
{
    if from + p.len() > s.len() {
    } else if occurs_at(s, p, from) {
    } else {
        lemma_find_from(s, p, from + 1);
    }
}

/// Characterisation of `find_first`.
pub proof fn lemma_find_first(s: Seq<u8>, p: Seq<u8>)
    ensures
        find_first(s, p) matches Some(i) ==> occurs_at(s, p, i) && forall|j: int|
            0 <= j < i ==> !occurs_at(s, p, j),
        find_first(s, p) is None <==> !contains_bytes(s, p),
{
    lemma_find_from(s, p, 0);
}

/// Index of the first occurrence of `p` in `s`.
pub fn find_bytes(s: &[u8], p: &[u8]) -> (r: Option<usize>)
    ensures
        r matches Some(i) ==> find_first(s@, p@) == Some(i as int),
        r is None ==> find_first(s@, p@) is None,
{
    let n = s.len();
    let m = p.len();
    if m > n {
        return None;
    }
    let mut i: usize = 0;
    while i <= n - m
        invariant
            m <= n,
            n == s@.len(),
            m == p@.len(),
            i <= n - m + 1,
            find_first(s@, p@) == find_from(s@, p@, i as int),
        decreases n - m + 1 - i,
    {
        let mut k: usize = 0;
        let mut same = true;
        while k < m
            invariant
                m == p@.len(),
                i + m <= n,
                n == s@.len(),
                k <= m,
                same <==> forall|t: int| 0 <= t < k ==> s@[i + t] == p@[t],
            decreases m - k,
        {
            if s[i + k] != p[k] {
                same = false;
            }
            k = k + 1;
        }
        if same {
            assert(s@.subrange(i as int, i + m) =~= p@);
            return Some(i);
        }
        assert(!occurs_at(s@, p@, i as int)) by {
            if occurs_at(s@, p@, i as int) {
                assert forall|t: int| 0 <= t < m implies s@[i + t] == p@[t] by {
                    assert(s@.subrange(i as int, i + m)[t] == s@[i + t]);
                }
            }
        }
        i = i + 1;
    }
    None
}

/// Whether `p` occurs in `s`.
pub fn contains_slice(s: &[u8], p: &[u8]) -> (r: bool)
    ensures
        r == contains_bytes(s@, p@),
{
    proof {
        lemma_find_first(s@, p@);
    }
    find_bytes(s, p).is_some()
}

/// Byte-wise equality of two slices.
pub fn slice_eq(a: &[u8], b: &[u8]) -> (r: bool)
    ensures
        r == (a@ == b@),
{
    if a.len() != b.len() {
        return false;
    }
    let mut k: usize = 0;
    while k < a.len()
        invariant
            a@.len() == b@.len(),
            k <= a@.len(),
            forall|t: int| 0 <= t < k ==> a@[t] == b@[t],
        decreases a@.len() - k,
    {
        if a[k] != b[k] {
            return false;
        }
        k = k + 1;
    }
    assert(a@ =~= b@);
    true
}

/// Equality of the text of two string slices.
pub fn str_eq(a: &str, b: &str) -> (r: bool)
    ensures
        r == (a@ == b@),
{
    let r = slice_eq(a.as_bytes(), b.as_bytes());
    proof {
        assert(decode_utf8(utf8(a@)) == a@);
        assert(decode_utf8(utf8(b@)) == b@);
    }
    r
}


/// A character below 128 is encoded as the one byte of its value.
pub proof fn lemma_ascii_char(c: char)
    requires
        (c as u32) < 128,
    ensures
        utf8(seq![c]) == seq![(c as u32) as u8],
{
    let v = c as u32;
    assert(v & 0x7Fu32 == v) by (bit_vector)
        requires
            v < 128u32,
    ;
    assert(seq![c].drop_first() =~= Seq::<char>::empty());
    assert(seq![c][0] == c);
    assert(has_width_1_encoding(v));
    assert(encode_scalar(v) == seq![leading_byte_width_1(v)]);
    assert(leading_byte_width_1(v) == (v & 0x7Fu32) as u8);
    assert(encode_utf8(Seq::<char>::empty()) =~= Seq::<u8>::empty());
    assert(encode_utf8(seq![c]) == encode_scalar(v) + encode_utf8(seq![c].drop_first()));
    assert(utf8(seq![c]) =~= seq![v as u8]);
}

/// The bytes of a string slice are valid UTF-8.
pub proof fn lemma_str_valid(s: &str)
    ensures
        valid_utf8(s.spec_bytes()),
        decode_utf8(s.spec_bytes()) == s@,
{
}

/// Splitting at boundaries: a boundary `a` of `b` lies on a boundary of the prefix
/// ending at `b`, and `b - a` is a boundary of the suffix starting at `a`.
pub proof fn lemma_boundary_sub(bytes: Seq<u8>, a: int, b: int)
    requires
        valid_utf8(bytes),
        0 <= a <= b <= bytes.len(),
        is_char_boundary(bytes, a),
        is_char_boundary(bytes, b),
    ensures
        valid_utf8(bytes.subrange(0, b)),
        valid_utf8(bytes.subrange(a, bytes.len() as int)),
        is_char_boundary(bytes.subrange(0, b), a),
        is_char_boundary(bytes.subrange(a, bytes.len() as int), b - a),
{
    valid_utf8_split(bytes, a);
    valid_utf8_split(bytes, b);
    let pre = bytes.subrange(0, b);
    let suf = bytes.subrange(a, bytes.len() as int);
    is_char_boundary_start_end_of_seq(pre);
    is_char_boundary_start_end_of_seq(suf);
    if a < b {
        is_char_boundary_iff_not_is_continuation_byte(bytes, a);
        is_char_boundary_iff_not_is_continuation_byte(pre, a);
        assert(pre[a] == bytes[a]);
    }
    if b < bytes.len() && a < b {
        is_char_boundary_iff_not_is_continuation_byte(bytes, b);
        is_char_boundary_iff_not_is_continuation_byte(suf, b - a);
        assert(suf[b - a] == bytes[b]);
    }
}

/// A boundary of the bytes `s[a..]` shifted by `a` is a boundary of `s`.
pub proof fn lemma_boundary_shift(bytes: Seq<u8>, a: int, k: int)
    requires
        valid_utf8(bytes),
        0 <= a <= bytes.len(),
        0 <= k <= bytes.len() - a,
        is_char_boundary(bytes, a),
        is_char_boundary(bytes.subrange(a, bytes.len() as int), k),
    ensures
        is_char_boundary(bytes, a + k),
{
    valid_utf8_split(bytes, a);
    let suf = bytes.subrange(a, bytes.len() as int);
    is_char_boundary_start_end_of_seq(bytes);
    if a + k < bytes.len() {
        if k == 0 {
        } else {
            is_char_boundary_iff_not_is_continuation_byte(suf, k);
            is_char_boundary_iff_not_is_continuation_byte(bytes, a + k);
            assert(suf[k] == bytes[a + k]);
        }
    }
}

/// In valid UTF-8, a valid UTF-8 prefix ends on a character boundary.
pub proof fn lemma_prefix_boundary(t: Seq<u8>, p: Seq<u8>)
    requires
        valid_utf8(t),
        valid_utf8(p),
        p.len() <= t.len(),
        t.subrange(0, p.len() as int) == p,
    ensures
        is_char_boundary(t, p.len() as int),
    decreases p.len(),
{
    if p.len() == 0 {
    } else {
        assert(t[0] == p[0]);
        let l = length_of_first_scalar(p);
        assert(valid_leading_and_continuation_bytes_first_codepoint(p));
        assert(1 <= l <= p.len());
        assert(valid_first_scalar(t)) by {
            assert forall|i: int| 0 <= i < l implies t[i] == p[i] by {
                assert(t.subrange(0, p.len() as int)[i] == t[i]);
            }
        }
        assert(length_of_first_scalar(t) == l);
        let pt = pop_first_scalar(t);
        let pp = pop_first_scalar(p);
        assert(pt.subrange(0, pp.len() as int) =~= pp) by {
            assert forall|i: int| 0 <= i < pp.len() implies pt[i] == pp[i] by {
                assert(t.subrange(0, p.len() as int)[i + l] == t[i + l]);
            }
        }
        lemma_prefix_boundary(pt, pp);
    }
}

/// A non-empty valid UTF-8 pattern found in valid UTF-8 text starts and ends on
/// character boundaries.
pub proof fn lemma_occurrence_boundaries(s: Seq<u8>, p: Seq<u8>, i: int)
    requires
        valid_utf8(s),
        valid_utf8(p),
        p.len() > 0,
        occurs_at(s, p, i),
    ensures
        is_char_boundary(s, i),
        is_char_boundary(s, i + p.len()),
{
    assert(p[0] == s[i]) by {
        assert(s.subrange(i, i + p.len())[0] == s[i]);
    }
    assert(valid_leading_and_continuation_bytes_first_codepoint(p));
    is_char_boundary_iff_not_is_continuation_byte(s, i);
    let t = s.subrange(i, s.len() as int);
    valid_utf8_split(s, i);
    assert(t.subrange(0, p.len() as int) =~= p) by {
        assert forall|k: int| 0 <= k < p.len() implies t[k] == p[k] by {
            assert(s.subrange(i, i + p.len())[k] == s[i + k]);
        }
    }
    lemma_prefix_boundary(t, p);
    lemma_boundary_shift(s, i, p.len() as int);
}

/// The sub-slice of `s` between two byte offsets on character boundaries.
pub fn str_range<'a>(s: &'a str, a: usize, b: usize) -> (r: &'a str)
    requires
        a <= b <= s.spec_bytes().len(),
        is_char_boundary(s.spec_bytes(), a as int),
        is_char_boundary(s.spec_bytes(), b as int),
    ensures
        r.spec_bytes() == s.spec_bytes().subrange(a as int, b as int),
{
    proof {
        lemma_boundary_sub(s.spec_bytes(), a as int, b as int);
    }
    let (left, _) = s.split_at(b);
    let (_, r) = left.split_at(a);
    proof {
        assert(r.spec_bytes() =~= s.spec_bytes().subrange(a as int, b as int));
    }
    r
}


/// The UTF-8 bytes of each string slice of a sequence.
pub open spec fn str_bytes(ws: Seq<&str>) -> Seq<Seq<u8>> {
    ws.map_values(|w: &str| w.spec_bytes())
}

/// The pieces of `s` between the non-overlapping occurrences of `p`, searched left to right.
pub open spec fn split_pieces(s: Seq<u8>, p: Seq<u8>) -> Seq<Seq<u8>>
    decreases s.len(),
{
    if p.len() == 0 {
        seq![s]
    } else {
        match find_first(s, p) {
            Some(i) => if 0 <= i && i + p.len() <= s.len() {
                seq![s.subrange(0, i)] + split_pieces(s.subrange(i + p.len(), s.len() as int), p)
            } else {
                seq![s]
            },
            None => seq![s],
        }
    }
}

/// Splits `s` at every occurrence of the non-empty pattern `pat`.
pub fn split_str<'a>(s: &'a str, pat: &str) -> (r: Vec<&'a str>)
    requires
        pat.spec_bytes().len() > 0,
    ensures
        str_bytes(r@) == split_pieces(s.spec_bytes(), pat.spec_bytes()),
{
    let ghost p = pat.spec_bytes();
    let ghost whole = s.spec_bytes();
    let pb = pat.as_bytes();
    let m = pb.len();
    let mut out: Vec<&'a str> = Vec::new();
    let mut rest: &'a str = s;
    proof {
        assert(str_bytes(out@) + split_pieces(rest.spec_bytes(), p) =~= split_pieces(whole, p));
    }
    loop
        invariant_except_break
            p == pat.spec_bytes(),
            pb@ == p,
            m == p.len(),
            m > 0,
            str_bytes(out@) + split_pieces(rest.spec_bytes(), p) == split_pieces(whole, p),
        ensures
            str_bytes(out@) == split_pieces(whole, p),
        decreases rest.spec_bytes().len(),
    {
        let rb = rest.as_bytes();
        let rlen = rb.len();
        let ghost rs = rest.spec_bytes();
        proof {
            lemma_find_first(rs, p);
            lemma_str_valid(rest);
            lemma_str_valid(pat);
        }
        match find_bytes(rb, pb) {
            Some(i) => {
                proof {
                    lemma_occurrence_boundaries(rs, p, i as int);
                    is_char_boundary_start_end_of_seq(rs);
                }
                let piece = str_range(rest, 0, i);
                let next = str_range(rest, i + m, rlen);
                let ghost old_out = out@;
                out.push(piece);
                proof {
                    assert(str_bytes(out@) =~= str_bytes(old_out).push(rs.subrange(0, i as int)));
                    assert(split_pieces(rs, p) == seq![rs.subrange(0, i as int)] + split_pieces(
                        next.spec_bytes(),
                        p,
                    ));
                    assert(str_bytes(out@) + split_pieces(next.spec_bytes(), p) =~= str_bytes(
                        old_out,
                    ) + split_pieces(rs, p));
                }
                rest = next;
            },
            None => {
                let ghost old_out = out@;
                out.push(rest);
                proof {
                    assert(split_pieces(rs, p) == seq![rs]);
                    assert(str_bytes(out@) =~= str_bytes(old_out) + split_pieces(rs, p));
                }
                break ;
            },
        }
    }
    out
}

} // verus!
