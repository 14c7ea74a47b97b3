//! The word cut of a comment: a sequence of byte deltas marking where each word starts.
use vstd::prelude::*;
use vstd::utf8::*;
use vstd::string::StringSliceAdditionalSpecFns;
use crate::text::{utf8, str_range, str_bytes, lemma_str_valid};
use crate::Comment;

verus! {

/// Sum of the first `k` deltas of a cut: the byte offset that the `k`-th delta reaches.
pub open spec fn cut_offset(cut: Seq<u8>, k: int) -> int
    decreases k,
{
    if k <= 0 || cut.len() == 0 {
        0
    } else if k > cut.len() {
        cut_offset(cut, cut.len() as int)
    } else {
        cut_offset(cut, k - 1) + cut[k - 1]
    }
}

/// The `j`-th boundary of a cut over a text of `len` bytes: the offset after `j` deltas,
/// or the end of the text once the deltas are used up.
pub open spec fn cut_bound(cut: Seq<u8>, len: int, j: int) -> int {
    if j <= cut.len() {
        cut_offset(cut, j)
    } else {
        len
    }
}

/// Every offset the cut reaches lies inside the text and on a character boundary.
pub open spec fn cut_fits(bytes: Seq<u8>, cut: Seq<u8>) -> bool {
    forall|j: int|
        1 <= j <= cut.len() ==> #[trigger] cut_offset(cut, j) <= bytes.len() && is_char_boundary(
            bytes,
            cut_offset(cut, j),
        )
}

/// The bytes of the `k`-th word that a cut marks in a text.
pub open spec fn cut_piece(bytes: Seq<u8>, cut: Seq<u8>, k: int) -> Seq<u8> {
    bytes.subrange(cut_bound(cut, bytes.len() as int, k + 1), cut_bound(cut, bytes.len() as int, k + 2))
}

/// The words a cut marks in a text: one per delta.
pub open spec fn cut_words(bytes: Seq<u8>, cut: Seq<u8>) -> Seq<Seq<u8>> {
    Seq::new(cut.len(), |k: int| cut_piece(bytes, cut, k))
}

/// The offsets of a cut never decrease.
pub proof fn lemma_cut_offset_mono(cut: Seq<u8>, a: int, b: int)
    requires
        a <= b,
    ensures
        cut_offset(cut, a) <= cut_offset(cut, b),
        cut_offset(cut, a) >= 0,
    decreases b - a,
{
    if a == b {
        lemma_cut_offset_nonneg(cut, a);
    } else {
        lemma_cut_offset_mono(cut, a, b - 1);
        if b > cut.len() {
            assert(cut_offset(cut, b) == cut_offset(cut, cut.len() as int));
        }
    }
}

proof fn lemma_cut_offset_nonneg(cut: Seq<u8>, k: int)
    ensures
        cut_offset(cut, k) >= 0,
    decreases k,
{
    if k <= 0 || cut.len() == 0 {
    } else if k > cut.len() {
        lemma_cut_offset_nonneg(cut, cut.len() as int);
    } else {
        lemma_cut_offset_nonneg(cut, k - 1);
    }
}

/// Whether the offsets a cut reaches all lie inside the text and on character boundaries.
pub fn cut_fits_text(content: &str, cut: &[u8]) -> (r: bool)
    ensures
        r == cut_fits(utf8(content@), cut@),
{
    let ghost bytes = content.spec_bytes();
    let blen = content.as_bytes().len();
    let n = cut.len();
    let mut sum: usize = 0;
    let mut j: usize = 0;
    while j < n
        invariant
            n == cut@.len(),
            bytes == content.spec_bytes(),
            bytes == utf8(content@),
            blen == bytes.len(),
            j <= n,
            sum == cut_offset(cut@, j as int),
            sum <= blen,
            forall|t: int|
                1 <= t <= j ==> #[trigger] cut_offset(cut@, t) <= bytes.len() && is_char_boundary(
                    bytes,
                    cut_offset(cut@, t),
                ),
        decreases n - j,
    {
        assert(cut_offset(cut@, j + 1) == cut_offset(cut@, j as int) + cut@[j as int]);
        let d = cut[j] as usize;
        if d > blen - sum {
            return false;
        }
        sum = sum + d;
        if !content.is_char_boundary(sum) {
            return false;
        }
        j = j + 1;
    }
    true
}

impl Comment {
    /// Whether the comment has a word cut of at least one delta that fits its text, as
    /// `words` requires of a cut.
    pub fn cut_is_usable(&self) -> (r: bool)
        ensures
            r == (self.words_cut is Some && self.words_cut->0@.len() >= 1 && cut_fits(
                utf8(self.content@),
                self.words_cut->0@,
            )),
    {
        match &self.words_cut {
            Some(c) => c.len() >= 1 && cut_fits_text(self.content.as_str(), c.as_slice()),
            None => false,
        }
    }

    /// The words of the comment, as marked by its word cut; `None` when it has no cut.
    pub fn words(&self) -> (r: Option<Vec<&str>>)
        requires
            self.words_cut matches Some(cut) ==> cut@.len() >= 1 && cut_fits(
                utf8(self.content@),
                cut@,
            ),
        ensures
            r is Some <==> self.words_cut is Some,
            r matches Some(ws) ==> {
                let cut = self.words_cut->0@;
                &&& ws@.len() == cut.len()
                &&& forall|k: int|
                    0 <= k < cut.len() ==> #[trigger] ws@[k].spec_bytes() == cut_piece(
                        utf8(self.content@),
                        cut,
                        k,
                    )
            },
    {
        let cut = match &self.words_cut {
            Some(c) => c,
            None => return None,
        };
        let content = self.content.as_str();
        let ghost bytes = content.spec_bytes();
        let blen = content.as_bytes().len();
        let n = cut.len();
        let mut sum: usize = 0;
        let mut words: Vec<&str> = Vec::with_capacity(n);
        let mut i: usize = 0;
        while i < n - 1
            invariant
                n == cut@.len(),
                n >= 1,
                bytes == utf8(self.content@),
                bytes == content.spec_bytes(),
                blen == bytes.len(),
                cut_fits(bytes, cut@),
                i <= n - 1,
                sum == cut_offset(cut@, i as int),
                words@.len() == i,
                forall|k: int|
                    0 <= k < i ==> #[trigger] words@[k].spec_bytes() == cut_piece(bytes, cut@, k),
            decreases n - 1 - i,
        {
            assert(cut_offset(cut@, i + 1) <= bytes.len());
            assert(cut_offset(cut@, i + 2) <= bytes.len());
            assert(cut_offset(cut@, i + 1) == cut_offset(cut@, i as int) + cut@[i as int]);
            assert(cut_offset(cut@, i + 2) == cut_offset(cut@, i + 1) + cut@[i + 1]);
            sum = sum + cut[i] as usize;
            let end = sum + cut[i + 1] as usize;
            proof {
                lemma_cut_offset_mono(cut@, i + 1, i + 2);
            }
            let w = str_range(content, sum, end);
            words.push(w);
            i = i + 1;
        }
        assert(cut_offset(cut@, n as int) <= bytes.len());
        assert(cut_offset(cut@, n as int) == cut_offset(cut@, n - 1) + cut@[n - 1]);
        let start = sum + cut[n - 1] as usize;
        proof {
            lemma_str_valid(content);
            is_char_boundary_start_end_of_seq(bytes);
        }
        let w = str_range(content, start, blen);
        words.push(w);
        Some(words)
    }
}


/// The deltas recording a gap of `d` bytes: a 255 for every full 255 bytes, then the rest.
pub open spec fn gap_deltas(d: nat) -> Seq<u8>
    decreases d,
{
    if d >= 255 {
        seq![255u8] + gap_deltas((d - 255) as nat)
    } else {
        seq![d as u8]
    }
}

/// The deltas recording the gaps `lens`, one after another.
pub open spec fn gaps_deltas(lens: Seq<nat>) -> Seq<u8>
    decreases lens.len(),
{
    if lens.len() == 0 {
        seq![]
    } else {
        gaps_deltas(lens.drop_last()) + gap_deltas(lens.last())
    }
}

/// Byte lengths of a sequence of words.
pub open spec fn word_lengths(ws: Seq<Seq<u8>>) -> Seq<nat> {
    ws.map_values(|w: Seq<u8>| w.len())
}

/// The word cut recorded for the words `ws` (each given by its bytes): a leading 0,
/// then the gap from each word to the next, that is the length of every word but the last.
pub open spec fn cut_of_words(ws: Seq<Seq<u8>>) -> Seq<u8> {
    if ws.len() == 0 {
        seq![0u8]
    } else {
        seq![0u8] + gaps_deltas(word_lengths(ws.drop_last()))
    }
}

/// The words joined together.
pub open spec fn concat_all(ws: Seq<Seq<u8>>) -> Seq<u8>
    decreases ws.len(),
{
    if ws.len() == 0 {
        seq![]
    } else {
        concat_all(ws.drop_last()) + ws.last()
    }
}

/// Records the word cut of a text from its words, which lie one after another in the text.
pub fn cut_of(words: &Vec<&str>) -> (r: Vec<u8>)
    ensures
        r@ == cut_of_words(str_bytes(words@)),
{
    let ghost ws = str_bytes(words@);
    let n = words.len();
    let mut delta: Vec<u8> = Vec::with_capacity(n);
    delta.push(0);
    let mut i: usize = 1;
    assert(word_lengths(ws.take(0)) =~= Seq::<nat>::empty());
    while i < n
        invariant
            n == words@.len(),
            ws == str_bytes(words@),
            1 <= i,
            i <= n || n == 0,
            n > 0 ==> delta@ == seq![0u8] + gaps_deltas(word_lengths(ws.take(i - 1))),
            n == 0 ==> delta@ == seq![0u8],
        decreases n - i,
    {
        let mut d: usize = words[i - 1].as_bytes().len();
        let ghost before = delta@;
        let ghost orig = d as nat;
        assert(gap_deltas(orig) == gap_deltas(d as nat));
        while d >= 255
            invariant
                before + gap_deltas(orig) == delta@ + gap_deltas(d as nat),
            decreases d,
        {
            d = d - 255;
            delta.push(255);
            assert(delta@ + gap_deltas(d as nat) =~= before + gap_deltas(orig));
        }
        delta.push(d as u8);
        proof {
            assert(delta@ =~= before + gap_deltas(orig));
            let l = word_lengths(ws.take(i as int));
            assert(l.drop_last() =~= word_lengths(ws.take(i - 1)));
            assert(l.last() == orig);
            assert(delta@ =~= seq![0u8] + gaps_deltas(l));
        }
        i = i + 1;
    }
    proof {
        if n > 0 {
            assert(ws.take(n - 1) =~= ws.drop_last());
        }
    }
    delta
}

/// Gaps shorter than 255 bytes are recorded by one delta each.
proof fn lemma_short_gaps(lens: Seq<nat>)
    requires
        forall|k: int| 0 <= k < lens.len() ==> lens[k] < 255,
    ensures
        gaps_deltas(lens).len() == lens.len(),
        forall|k: int| 0 <= k < lens.len() ==> gaps_deltas(lens)[k] == lens[k],
    decreases lens.len(),
{
    if lens.len() > 0 {
        let dl = lens.drop_last();
        assert forall|k: int| 0 <= k < dl.len() implies dl[k] < 255 by {
            assert(dl[k] == lens[k]);
        }
        lemma_short_gaps(dl);
        assert(lens.last() < 255);
        assert(gap_deltas(lens.last()) =~= seq![lens.last() as u8]);
        assert forall|k: int| 0 <= k < lens.len() implies gaps_deltas(lens)[k] == lens[k] by {
            if k < dl.len() {
                assert(dl[k] == lens[k]);
            }
        }
    }
}

/// Joining splits at any point.
pub proof fn lemma_concat_split(ws: Seq<Seq<u8>>, m: int)
    requires
        0 <= m <= ws.len(),
    ensures
        concat_all(ws) == concat_all(ws.take(m)) + concat_all(ws.skip(m)),
    decreases ws.len(),
{
    if m == ws.len() {
        assert(ws.take(m) =~= ws);
        assert(ws.skip(m) =~= Seq::<Seq<u8>>::empty());
        assert(concat_all(ws) + Seq::<u8>::empty() =~= concat_all(ws));
    } else {
        let dl = ws.drop_last();
        lemma_concat_split(dl, m);
        assert(dl.take(m) =~= ws.take(m));
        assert(ws.skip(m).drop_last() =~= dl.skip(m));
        assert(ws.skip(m).last() == ws.last());
        assert(concat_all(ws) =~= concat_all(ws.take(m)) + concat_all(ws.skip(m)));
    }
}

/// The `k`-th word sits right after the words before it.
proof fn lemma_concat_piece(ws: Seq<Seq<u8>>, k: int)
    requires
        0 <= k < ws.len(),
    ensures
        concat_all(ws.take(k + 1)) == concat_all(ws.take(k)) + ws[k],
        concat_all(ws).subrange(
            concat_all(ws.take(k)).len() as int,
            concat_all(ws.take(k + 1)).len() as int,
        ) == ws[k],
        concat_all(ws.take(k + 1)).len() <= concat_all(ws).len(),
{
    assert(ws.take(k + 1).drop_last() =~= ws.take(k));
    lemma_concat_split(ws, k + 1);
    let a = concat_all(ws.take(k));
    let b = concat_all(ws.skip(k + 1));
    assert(concat_all(ws) == a + ws[k] + b);
    assert(concat_all(ws).subrange(a.len() as int, (a.len() + ws[k].len()) as int) =~= ws[k]);
}

/// A cut that starts with 0 and then gives the length of every piece but the last.
pub open spec fn cut_of_lengths(ps: Seq<Seq<u8>>, c: Seq<u8>) -> bool {
    &&& ps.len() >= 1
    &&& c.len() == ps.len()
    &&& c[0] == 0
    &&& forall|k: int| 1 <= k < c.len() ==> #[trigger] c[k] as int == ps[k - 1].len()
}

/// The offsets of such a cut are the starts of the pieces.
proof fn lemma_offsets_of_lengths(ps: Seq<Seq<u8>>, c: Seq<u8>, j: int)
    requires
        cut_of_lengths(ps, c),
        1 <= j <= ps.len(),
    ensures
        cut_offset(c, j) == concat_all(ps.take(j - 1)).len(),
    decreases j,
{
    if j == 1 {
        assert(cut_offset(c, 0) == 0);
        assert(ps.take(0) =~= Seq::<Seq<u8>>::empty());
    } else {
        lemma_offsets_of_lengths(ps, c, j - 1);
        assert(c[j - 1] as int == ps[j - 2].len());
        lemma_concat_piece(ps, j - 2);
    }
}

/// A cut giving the length of every piece but the last marks exactly those pieces again
/// in the joined text, and every offset it reaches lies inside that text.
pub proof fn lemma_cut_marks_pieces(ps: Seq<Seq<u8>>, c: Seq<u8>)
    requires
        cut_of_lengths(ps, c),
    ensures
        cut_words(concat_all(ps), c) == ps,
        forall|j: int|
            1 <= j <= ps.len() ==> #[trigger] cut_offset(c, j) == concat_all(ps.take(j - 1)).len()
                && cut_offset(c, j) <= concat_all(ps).len(),
{
    let text = concat_all(ps);
    assert forall|j: int| 1 <= j <= ps.len() implies #[trigger] cut_offset(c, j) == concat_all(
        ps.take(j - 1),
    ).len() && cut_offset(c, j) <= text.len() by {
        lemma_offsets_of_lengths(ps, c, j);
        lemma_concat_piece(ps, j - 1);
    }
    assert forall|k: int| 0 <= k < ps.len() implies #[trigger] cut_piece(text, c, k) == ps[k] by {
        lemma_concat_piece(ps, k);
        lemma_offsets_of_lengths(ps, c, k + 1);
        if k + 2 <= ps.len() {
            lemma_offsets_of_lengths(ps, c, k + 2);
        } else {
            assert(ps.take(k + 1) =~= ps);
        }
    }
    assert(cut_words(text, c) =~= ps);
}

/// A word cut recorded from words shorter than 255 bytes (the last excepted) marks exactly
/// those words again in the joined text, and every offset it reaches lies inside that text.
pub proof fn lemma_cut_roundtrip(ws: Seq<Seq<u8>>)
    requires
        ws.len() >= 1,
        forall|i: int| 0 <= i < ws.len() - 1 ==> #[trigger] ws[i].len() < 255,
    ensures
        cut_words(concat_all(ws), cut_of_words(ws)) == ws,
        forall|j: int|
            1 <= j <= ws.len() ==> #[trigger] cut_offset(cut_of_words(ws), j) == concat_all(
                ws.take(j - 1),
            ).len() && cut_offset(cut_of_words(ws), j) <= concat_all(ws).len(),
{
    let lens = word_lengths(ws.drop_last());
    lemma_short_gaps(lens);
    let c = cut_of_words(ws);
    assert forall|k: int| 1 <= k < c.len() implies #[trigger] c[k] as int == ws[k - 1].len() by {
        assert(c[k] == gaps_deltas(lens)[k - 1]);
        assert(lens[k - 1] == ws.drop_last()[k - 1].len());
    }
    lemma_cut_marks_pieces(ws, c);
}

proof fn lemma_concat_single(x: Seq<u8>)
    ensures
        concat_all(seq![x]) == x,
{
    assert(seq![x].drop_last() =~= Seq::<Seq<u8>>::empty());
    assert(concat_all(Seq::<Seq<u8>>::empty()) =~= Seq::<u8>::empty());
    assert(concat_all(seq![x]) =~= x);
}

/// The pieces a word is recorded as: a piece of 255 bytes while 255 bytes or more remain,
/// then the rest, which may be empty.
pub open spec fn chunks_255(w: Seq<u8>) -> Seq<Seq<u8>>
    decreases w.len(),
{
    if w.len() >= 255 {
        seq![w.take(255)] + chunks_255(w.skip(255))
    } else {
        seq![w]
    }
}

/// The pieces of each word, one word after another.
pub open spec fn all_chunks(ws: Seq<Seq<u8>>) -> Seq<Seq<u8>>
    decreases ws.len(),
{
    if ws.len() == 0 {
        seq![]
    } else {
        all_chunks(ws.drop_last()) + chunks_255(ws.last())
    }
}

/// The words a recorded cut marks again: every word but the last in its 255-byte pieces,
/// then the last word whole.
pub open spec fn marked_words(ws: Seq<Seq<u8>>) -> Seq<Seq<u8>> {
    all_chunks(ws.drop_last()).push(ws.last())
}

/// Piece lengths as the deltas that record them.
pub open spec fn piece_deltas(ps: Seq<Seq<u8>>) -> Seq<u8> {
    ps.map_values(|p: Seq<u8>| p.len() as u8)
}

proof fn lemma_chunks(w: Seq<u8>)
    ensures
        gap_deltas(w.len()) == piece_deltas(chunks_255(w)),
        concat_all(chunks_255(w)) == w,
        forall|i: int| 0 <= i < chunks_255(w).len() ==> #[trigger] chunks_255(w)[i].len() <= 255,
    decreases w.len(),
{
    if w.len() >= 255 {
        let rest = w.skip(255);
        lemma_chunks(rest);
        let cs = chunks_255(w);
        assert(rest.len() == (w.len() - 255) as nat);
        assert(piece_deltas(cs) =~= seq![255u8] + piece_deltas(chunks_255(rest)));
        lemma_concat_split(cs, 1);
        assert(cs.take(1) =~= seq![w.take(255)]);
        assert(cs.skip(1) =~= chunks_255(rest));
        lemma_concat_single(w.take(255));
        assert(w.take(255) + rest =~= w);
        assert forall|i: int| 0 <= i < cs.len() implies #[trigger] cs[i].len() <= 255 by {
            if i > 0 {
                assert(cs[i] == chunks_255(rest)[i - 1]);
            }
        }
    } else {
        assert(piece_deltas(chunks_255(w)) =~= seq![w.len() as u8]);
        lemma_concat_single(w);
    }
}

proof fn lemma_all_chunks(ws: Seq<Seq<u8>>)
    ensures
        gaps_deltas(word_lengths(ws)) == piece_deltas(all_chunks(ws)),
        concat_all(all_chunks(ws)) == concat_all(ws),
        forall|i: int| 0 <= i < all_chunks(ws).len() ==> #[trigger] all_chunks(ws)[i].len() <= 255,
    decreases ws.len(),
{
    if ws.len() > 0 {
        let dl = ws.drop_last();
        lemma_all_chunks(dl);
        lemma_chunks(ws.last());
        let a = all_chunks(dl);
        let b = chunks_255(ws.last());
        assert(word_lengths(ws).drop_last() =~= word_lengths(dl));
        assert(word_lengths(ws).last() == ws.last().len());
        assert(piece_deltas(a + b) =~= piece_deltas(a) + piece_deltas(b));
        lemma_concat_split(a + b, a.len() as int);
        assert((a + b).take(a.len() as int) =~= a);
        assert((a + b).skip(a.len() as int) =~= b);
        assert forall|i: int| 0 <= i < (a + b).len() implies #[trigger] (a + b)[i].len() <= 255 by {
            if i >= a.len() {
                assert((a + b)[i] == b[i - a.len()]);
            }
        }
    }
}

/// What a word cut recorded from words of any length marks: each word but the last comes
/// back split into pieces of 255 bytes followed by the rest (possibly empty), and the last
/// word comes back whole; joined, the pieces are the text.
pub proof fn lemma_cut_marks_long_words(ws: Seq<Seq<u8>>)
    requires
        ws.len() >= 1,
    ensures
        cut_words(concat_all(ws), cut_of_words(ws)) == marked_words(ws),
        concat_all(marked_words(ws)) == concat_all(ws),
{
    let dl = ws.drop_last();
    lemma_all_chunks(dl);
    let ps = marked_words(ws);
    let c = cut_of_words(ws);
    let a = all_chunks(dl);
    assert(ps.drop_last() =~= a);
    assert(concat_all(ps) == concat_all(a) + ws.last());
    assert(concat_all(ws) == concat_all(dl) + ws.last());
    assert(c =~= seq![0u8] + piece_deltas(a));
    assert forall|k: int| 1 <= k < c.len() implies #[trigger] c[k] as int == ps[k - 1].len() by {
        assert(c[k] == piece_deltas(a)[k - 1]);
        assert(a[k - 1].len() <= 255);
        assert(ps[k - 1] == a[k - 1]);
    }
    lemma_cut_marks_pieces(ps, c);
}

/// Word starts are character boundaries of the joined text when every word is valid UTF-8.
pub proof fn lemma_word_starts_boundaries(ws: Seq<Seq<u8>>, m: int)
    requires
        0 <= m <= ws.len(),
        forall|i: int| 0 <= i < ws.len() ==> valid_utf8(#[trigger] ws[i]),
    ensures
        valid_utf8(concat_all(ws)),
        valid_utf8(concat_all(ws.take(m))),
        is_char_boundary(concat_all(ws), concat_all(ws.take(m)).len() as int),
{
    lemma_concat_valid(ws);
    lemma_concat_valid(ws.take(m));
    lemma_concat_valid(ws.skip(m));
    lemma_concat_split(ws, m);
    let a = concat_all(ws.take(m));
    let b = concat_all(ws.skip(m));
    assert((a + b).subrange(0, a.len() as int) =~= a);
    crate::text::lemma_prefix_boundary(a + b, a);
}

/// Joining valid UTF-8 words gives valid UTF-8.
pub proof fn lemma_concat_valid(ws: Seq<Seq<u8>>)
    requires
        forall|i: int| 0 <= i < ws.len() ==> valid_utf8(#[trigger] ws[i]),
    ensures
        valid_utf8(concat_all(ws)),
    decreases ws.len(),
{
    if ws.len() > 0 {
        let dl = ws.drop_last();
        assert forall|i: int| 0 <= i < dl.len() implies valid_utf8(#[trigger] dl[i]) by {
            assert(dl[i] == ws[i]);
        }
        lemma_concat_valid(dl);
        assert(valid_utf8(ws[ws.len() - 1]));
        valid_utf8_concat(concat_all(dl), ws.last());
    }
}

} // verus!
