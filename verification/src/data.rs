//! The corpus: building it from a raw export, and encoding it for storage.
use vstd::prelude::*;
use vstd::utf8::*;
use vstd::string::StringSliceAdditionalSpecFns;
use crate::text::{utf8, str_bytes};
use crate::cut::{cut_of, cut_of_words, cut_fits, cut_words, concat_all, lemma_cut_roundtrip, lemma_word_starts_boundaries};
use crate::raw::{raw_comments, raw_entries, raw_text_readable, comment_entry};
use crate::{Comment, CommentView, COMPRESS_LEVEL};

verus! {

/// All the comments of the corpus.
#[derive(Debug, Clone)]
pub struct Data {
    pub comments: Vec<Comment>,
}

impl View for Data {
    type V = Seq<CommentView>;

    open spec fn view(&self) -> Seq<CommentView> {
        self.comments@.map_values(|c: Comment| c@)
    }
}

impl PartialEq for Data {
    fn eq(&self, other: &Self) -> (r: bool) {
        if self.comments.len() != other.comments.len() {
            assert(self@.len() != other@.len());
            return false;
        }
        let mut i: usize = 0;
        while i < self.comments.len()
            invariant
                self.comments@.len() == other.comments@.len(),
                i <= self.comments@.len(),
                forall|k: int| 0 <= k < i ==> self@[k] == other@[k],
            decreases self.comments@.len() - i,
        {
            if self.comments[i] != other.comments[i] {
                assert(self@[i as int] != other@[i as int]);
                return false;
            }
            i = i + 1;
        }
        assert(self@ =~= other@);
        true
    }
}

impl vstd::std_specs::cmp::PartialEqSpecImpl for Data {
    open spec fn obeys_eq_spec() -> bool {
        true
    }

    open spec fn eq_spec(&self, other: &Data) -> bool {
        self@ == other@
    }
}

impl Default for Data {
    fn default() -> (r: Data)
        ensures
            r.comments@.len() == 0,
    {
        Data { comments: Vec::new() }
    }
}

/// The words that jieba's default dictionary, with HMM for unknown words, cuts a text into.
pub uninterp spec fn jieba_cut_words(text: Seq<char>) -> Seq<Seq<char>>;

/// Cuts `text` with `jieba_rs::Jieba::new()` and `Jieba::cut(text, true)`.
/// Trusted: the words are `jieba_cut_words(text@)`, and they lie one after another and
/// cover the text, since `cut_internal` pushes every non-empty piece of every block in order;
/// no word is empty (the route and the HMM path each end a word past its start, and empty
/// pieces of the splitters are skipped).
#[verifier::external_body]
fn jieba_cut<'a>(text: &'a str) -> (r: Vec<&'a str>)
    ensures
        r@.map_values(|w: &str| w@) == jieba_cut_words(text@),
        concat_all(str_bytes(r@)) == text.spec_bytes(),
        forall|i: int| 0 <= i < r@.len() ==> (#[trigger] r@[i]).spec_bytes().len() > 0,
{
    jieba_rs::Jieba::new().cut(text, true)
}

/// The UTF-8 bytes of each word.
pub open spec fn words_utf8(ws: Seq<Seq<char>>) -> Seq<Seq<u8>> {
    ws.map_values(|w: Seq<char>| utf8(w))
}

/// The word cut stored for a comment text: jieba's words recorded as byte deltas.
pub open spec fn word_cut_of(text: Seq<char>) -> Seq<u8> {
    cut_of_words(words_utf8(jieba_cut_words(text)))
}

/// Jieba's words of a text are all shorter than 255 bytes, the last one excepted, and there
/// is at least one: then the stored cut marks exactly those words.
pub open spec fn short_words(text: Seq<char>) -> bool {
    let ws = words_utf8(jieba_cut_words(text));
    &&& ws.len() >= 1
    &&& forall|i: int| 0 <= i < ws.len() - 1 ==> #[trigger] ws[i].len() < 255
}

/// The word cut of a comment text: a 0, then for each word but the last its byte length,
/// written as 255s followed by the remainder.
pub fn word_cut(content: &str) -> (r: Vec<u8>)
    ensures
        r@ == word_cut_of(content@),
        short_words(content@) ==> cut_fits(utf8(content@), r@) && cut_words(utf8(content@), r@)
            == words_utf8(jieba_cut_words(content@)),
        content@.len() == 0 ==> r@ == seq![0u8],
{
    let words = jieba_cut(content);
    let ghost ws = str_bytes(words@);
    assert(ws =~= words_utf8(jieba_cut_words(content@)));
    let r = cut_of(&words);
    proof {
        if content@.len() == 0 && ws.len() > 0 {
            crate::text::lemma_str_valid(content);
            assert(utf8(content@) == content.spec_bytes());
            assert(ws.last() == words@[ws.len() - 1].spec_bytes());
            assert(concat_all(ws).len() >= ws.last().len());
        }
        if short_words(content@) {
            lemma_cut_roundtrip(ws);
            assert forall|i: int| 0 <= i < ws.len() implies valid_utf8(#[trigger] ws[i]) by {
                assert(ws[i] == words@[i].spec_bytes());
                crate::text::lemma_str_valid(words@[i]);
            }
            assert forall|j: int| 1 <= j <= r@.len() implies #[trigger] crate::cut::cut_offset(r@, j)
                <= utf8(content@).len() && is_char_boundary(
                utf8(content@),
                crate::cut::cut_offset(r@, j),
            ) by {
                lemma_word_starts_boundaries(ws, j - 1);
            }
        }
    }
    r
}

/// The record a comment is stored as: book name, text, and word cut.
pub type RecordView = (Seq<char>, Seq<char>, Option<Seq<u8>>);

/// The record of a comment.
pub open spec fn record_of(c: CommentView) -> RecordView {
    (c.book_name, c.content, c.words_cut)
}

/// The record held by a tuple of borrowed parts.
pub open spec fn record_parts(t: (&str, &str, Option<&[u8]>)) -> RecordView {
    (t.0@, t.1@, match t.2 {
        Some(b) => Some(b@),
        None => None,
    })
}

/// The bytes that bincode's standard configuration encodes a sequence of records into
/// (the same bytes as for the comments they hold).
pub uninterp spec fn bincode_records(records: Seq<RecordView>) -> Seq<u8>;

/// What `bincode::decode_from_slice` reads from `bytes` as a sequence of records, with the
/// standard configuration limited to `limit` bytes of claimed memory: the records and the
/// number of bytes read, or nothing on an error (malformed bytes, or more memory claimed
/// than the limit allows).
pub uninterp spec fn bincode_records_decoded(bytes: Seq<u8>, limit: nat) -> Option<(Seq<RecordView>, nat)>;

/// The most memory, in bytes, that decoding a stored corpus may claim. Lengths read from the
/// bytes are checked against it before anything is allocated for them.
pub const DECODE_LIMIT: usize = 1073741824;

/// The number of bytes of text a record holds: its book name, its text and its cut.
pub open spec fn record_bytes(r: RecordView) -> int {
    utf8(r.0).len() + utf8(r.1).len() + match r.2 {
        Some(c) => c.len() as int,
        None => 0,
    }
}

/// An upper bound on the memory that bincode claims while decoding `rs`: the length of the
/// sequence, then for each record its size in memory with the lengths and tag read before
/// its parts (together at most 128 bytes), and the bytes of its text.
pub open spec fn records_claim(rs: Seq<RecordView>) -> int
    decreases rs.len(),
{
    if rs.len() == 0 {
        8
    } else {
        records_claim(rs.drop_last()) + 128 + record_bytes(rs.last())
    }
}

/// Encodes the records with `bincode::encode_to_vec(records, bincode::config::standard())`.
/// Trusted: the result is `bincode_records` of the records; encoding into a `Vec` with this
/// configuration does not fail for strings, byte slices and options of them. Decoding the
/// result reads back the same records using all of its bytes, whenever the memory that
/// decoding claims for them fits the limit: bincode claims, per record, its in-memory size
/// (72 bytes on a 64-bit target) and 8 bytes for each length and 1 for the option's tag read,
/// plus the bytes of each string and cut, and 8 bytes for the record count.
#[verifier::external_body]
fn bincode_encode_records(records: &Vec<(&str, &str, Option<&[u8]>)>) -> (r: Vec<u8>)
    ensures
        r@ == bincode_records(
            records@.map_values(|t: (&str, &str, Option<&[u8]>)| record_parts(t)),
        ),
        records_claim(records@.map_values(|t: (&str, &str, Option<&[u8]>)| record_parts(t)))
            <= DECODE_LIMIT ==> bincode_records_decoded(r@, DECODE_LIMIT as nat) == Some(
            (records@.map_values(|t: (&str, &str, Option<&[u8]>)| record_parts(t)), r@.len()),
        ),
{
    bincode::encode_to_vec(records, bincode::config::standard()).expect("encoding into a Vec")
}

/// The zstd frame that `zstd::encode_all` produces for `raw` at compression level `level`.
pub uninterp spec fn zstd_frame(raw: Seq<u8>, level: int) -> Seq<u8>;

/// What `zstd::decode_all` gives back for `frame`: the decompressed bytes, or nothing
/// when the bytes are not a zstd frame it can read.
pub uninterp spec fn zstd_decoded(frame: Seq<u8>) -> Option<Seq<u8>>;

/// Compresses with `zstd::encode_all(raw, level)`.
/// Trusted: the result is `zstd_frame(raw@, level)`, and decompressing it gives `raw` back
/// (zstd is lossless). It does not fail: the source reads from a byte slice and writes into
/// a `Vec`, neither of which can fail, and the level is clamped by zstd; what is left is the
/// compressor failing to allocate memory, which is set aside, as Rust's own allocation
/// failures abort the process.
#[verifier::external_body]
fn zstd_encode_all(raw: &[u8], level: i32) -> (r: Vec<u8>)
    ensures
        r@ == zstd_frame(raw@, level as int),
        zstd_decoded(r@) == Some(raw@),
{
    zstd::encode_all(raw, level).expect("compressing a slice into a Vec")
}

/// Decompresses with `zstd::decode_all(frame)`.
/// Trusted: the outcome is `zstd_decoded(frame@)`: it depends on the bytes alone.
#[verifier::external_body]
fn zstd_decode_all(frame: &[u8]) -> (r: Option<Vec<u8>>)
    ensures
        r matches Some(v) ==> zstd_decoded(frame@) == Some(v@),
        r is None ==> zstd_decoded(frame@) is None,
{
    zstd::decode_all(frame).ok()
}

/// The record held by an owned tuple.
pub open spec fn owned_record(t: (String, String, Option<Vec<u8>>)) -> RecordView {
    (t.0@, t.1@, match t.2 {
        Some(b) => Some(b@),
        None => None,
    })
}

/// Decodes records with `bincode::decode_from_slice`, with the standard configuration limited
/// to `DECODE_LIMIT` bytes of claimed memory.
/// Trusted: the outcome is `bincode_records_decoded(bytes@, DECODE_LIMIT)`. With the limit,
/// bincode checks every length it reads against the memory still allowed before it allocates
/// (`claim_container_read`), and answers `LimitExceeded` past it, so a length read from the
/// bytes never reaches an allocation larger than the limit. What is left unsaid is the
/// allocator failing to serve memory within the limit, which aborts the process, as Rust's
/// allocation failures do everywhere.
#[verifier::external_body]
fn bincode_decode_records(bytes: &[u8]) -> (r: Option<(Vec<(String, String, Option<Vec<u8>>)>, usize)>)
    ensures
        r matches Some(p) ==> bincode_records_decoded(bytes@, DECODE_LIMIT as nat) == Some(
            (p.0@.map_values(|t: (String, String, Option<Vec<u8>>)| owned_record(t)), p.1 as nat),
        ),
        r is None ==> bincode_records_decoded(bytes@, DECODE_LIMIT as nat) is None,
{
    bincode::decode_from_slice(bytes, bincode::config::standard().with_limit::<DECODE_LIMIT>()).ok()
}

/// The records stored in a compressed corpus: decompressed, then decoded using every byte.
pub open spec fn stored_records(bytes: Seq<u8>) -> Option<Seq<RecordView>> {
    match zstd_decoded(bytes) {
        None => None,
        Some(raw) => match bincode_records_decoded(raw, DECODE_LIMIT as nat) {
            Some((rs, n)) => if n == raw.len() {
                Some(rs)
            } else {
                None
            },
            None => None,
        },
    }
}

/// The comment a record holds.
pub open spec fn comment_of(r: RecordView) -> CommentView {
    CommentView { book_name: r.0, content: r.1, words_cut: r.2 }
}

/// The corpus stored in compressed bytes, if they hold one.
pub open spec fn stored_corpus(bytes: Seq<u8>) -> Option<Seq<CommentView>> {
    match stored_records(bytes) {
        Some(rs) => Some(rs.map_values(|r: RecordView| comment_of(r))),
        None => None,
    }
}

/// Storing then reading back gives the same corpus: the records of a corpus hold it.
pub proof fn lemma_records_hold_corpus(d: Seq<CommentView>)
    ensures
        d.map_values(|c: CommentView| record_of(c)).map_values(|r: RecordView| comment_of(r)) == d,
{
    let back = d.map_values(|c: CommentView| record_of(c)).map_values(|r: RecordView| comment_of(r));
    assert forall|k: int| 0 <= k < d.len() implies back[k] == d[k] by {
        assert(d.map_values(|c: CommentView| record_of(c))[k] == record_of(d[k]));
    }
    assert(back =~= d);
}

/// The storage round trip: bytes that hold the records of a corpus (as `Data::encode`
/// ensures of what it returns) are read back (by `Data::decode`) as that very corpus.
pub proof fn lemma_storage_round_trip(d: Seq<CommentView>, stored: Seq<u8>)
    requires
        stored_records(stored) == Some(d.map_values(|c: CommentView| record_of(c))),
    ensures
        stored_corpus(stored) == Some(d),
{
    lemma_records_hold_corpus(d);
}

/// Why a stored corpus could not be read.
#[derive(Debug, Clone, Copy, PartialEq, Eq)]
pub enum DecodeError {
    /// The bytes are not a zstd frame that can be decompressed.
    Decompress,
    /// The decompressed bytes are not a sequence of records, or decoding them would claim
    /// more than `DECODE_LIMIT` bytes of memory.
    Malformed,
    /// Bytes are left over after the records.
    TrailingBytes,
}

impl Data {
    /// The corpus as stored: its records encoded by bincode, compressed by zstd at
    /// `COMPRESS_LEVEL`. Reading the result back gives this corpus, whenever decoding it
    /// fits in `DECODE_LIMIT` bytes of memory.
    pub fn encode(&self) -> (r: Vec<u8>)
        ensures
            r@ == zstd_frame(
                bincode_records(self@.map_values(|c: CommentView| record_of(c))),
                COMPRESS_LEVEL as int,
            ),
            records_claim(self@.map_values(|c: CommentView| record_of(c))) <= DECODE_LIMIT
                ==> stored_records(r@) == Some(self@.map_values(|c: CommentView| record_of(c))),
            records_claim(self@.map_values(|c: CommentView| record_of(c))) <= DECODE_LIMIT
                ==> stored_corpus(r@) == Some(self@),
    {
        let mut records: Vec<(&str, &str, Option<&[u8]>)> = Vec::with_capacity(self.comments.len());
        let mut i: usize = 0;
        while i < self.comments.len()
            invariant
                i <= self.comments@.len(),
                records@.map_values(|t: (&str, &str, Option<&[u8]>)| record_parts(t))
                    == self@.map_values(|c: CommentView| record_of(c)).take(i as int),
            decreases self.comments@.len() - i,
        {
            let c = &self.comments[i];
            let cut: Option<&[u8]> = match &c.words_cut {
                Some(v) => Some(v.as_slice()),
                None => None,
            };
            let ghost before = records@;
            records.push((c.book_name.as_str(), c.content.as_str(), cut));
            proof {
                let f = |t: (&str, &str, Option<&[u8]>)| record_parts(t);
                let g = self@.map_values(|c: CommentView| record_of(c));
                assert(records@.map_values(f) =~= before.map_values(f).push(f(records@[i as int])));
                assert(g.take(i + 1) =~= g.take(i as int).push(g[i as int]));
            }
            i = i + 1;
        }
        proof {
            let g = self@.map_values(|c: CommentView| record_of(c));
            assert(g.take(i as int) =~= g);
        }
        let raw = bincode_encode_records(&records);
        let r = zstd_encode_all(raw.as_slice(), COMPRESS_LEVEL);
        proof {
            if records_claim(self@.map_values(|c: CommentView| record_of(c))) <= DECODE_LIMIT {
                lemma_storage_round_trip(self@, r@);
            }
        }
        r
    }

    /// Reads a stored corpus back: decompresses it, and decodes its records, which must use
    /// every decompressed byte.
    pub fn decode(bytes: &[u8]) -> (r: Result<Data, DecodeError>)
        ensures
            r is Ok <==> stored_corpus(bytes@) is Some,
            r matches Ok(d) ==> stored_corpus(bytes@) == Some(d@),
            r matches Ok(d) ==> stored_records(bytes@) == Some(d@.map_values(|c: CommentView| record_of(c))),
            r matches Err(e) ==> (e == DecodeError::Decompress <==> zstd_decoded(bytes@) is None),
            r matches Err(e) ==> (e == DecodeError::Malformed <==> (zstd_decoded(bytes@) matches Some(raw) && bincode_records_decoded(raw, DECODE_LIMIT as nat) is None)),
    {
        let raw = match zstd_decode_all(bytes) {
            Some(v) => v,
            None => return Err(DecodeError::Decompress),
        };
        let (mut records, used) = match bincode_decode_records(raw.as_slice()) {
            Some(p) => p,
            None => return Err(DecodeError::Malformed),
        };
        if used != raw.len() {
            return Err(DecodeError::TrailingBytes);
        }
        let ghost rs = records@.map_values(|t: (String, String, Option<Vec<u8>>)| owned_record(t));
        let mut reversed: Vec<Comment> = Vec::new();
        while records.len() > 0
            invariant
                rs.len() >= records@.len(),
                records@.map_values(|t: (String, String, Option<Vec<u8>>)| owned_record(t)) == rs.take(records@.len() as int),
                reversed@.len() + records@.len() == rs.len(),
                forall|k: int| 0 <= k < reversed@.len() ==> record_of(#[trigger] reversed@[k]@) == rs[rs.len() - 1 - k],
            decreases records@.len(),
        {
            let ghost before = records@;
            let (book_name, content, words_cut) = records.pop().unwrap();
            proof {
                let f = |t: (String, String, Option<Vec<u8>>)| owned_record(t);
                assert(before.map_values(f)[before.len() - 1] == rs[before.len() - 1]);
                assert(records@ =~= before.drop_last());
                assert(records@.map_values(f) =~= rs.take(records@.len() as int));
            }
            reversed.push(Comment { book_name, content, words_cut });
        }
        let mut comments: Vec<Comment> = Vec::new();
        while reversed.len() > 0
            invariant
                reversed@.len() + comments@.len() == rs.len(),
                forall|k: int| 0 <= k < reversed@.len() ==> record_of(#[trigger] reversed@[k]@) == rs[rs.len() - 1 - k],
                forall|k: int| 0 <= k < comments@.len() ==> record_of(#[trigger] comments@[k]@) == rs[k],
            decreases reversed@.len(),
        {
            let ghost before = reversed@;
            let c = reversed.pop().unwrap();
            proof {
                assert(record_of(c@) == rs[rs.len() - 1 - (before.len() - 1)]);
                assert(reversed@ =~= before.drop_last());
            }
            comments.push(c);
        }
        let d = Data { comments };
        proof {
            assert(d@.map_values(|c: CommentView| record_of(c)) =~= rs);
            lemma_records_hold_corpus(d@);
        }
        Ok(d)
    }

    /// Builds the corpus from a raw export: every kept comment with its book name, its text,
    /// and the word cut of its text.
    pub fn from_raw(text: &str) -> (r: Data)
        requires
            raw_text_readable(text.spec_bytes()),
        ensures
            r.comments@.len() == raw_entries(text.spec_bytes()).len(),
            forall|k: int|
                0 <= k < r.comments@.len() ==> {
                    let e = raw_entries(text.spec_bytes())[k];
                    let c = #[trigger] r.comments@[k];
                    &&& c.book_name@ == e.0
                    &&& c.content@ == e.1
                    &&& c.words_cut is Some
                    &&& c.words_cut->0@ == word_cut_of(e.1)
                    &&& short_words(e.1) ==> cut_fits(utf8(e.1), c.words_cut->0@) && cut_words(
                        utf8(e.1),
                        c.words_cut->0@,
                    ) == words_utf8(jieba_cut_words(e.1))
                },
    {
        let mut comments = raw_comments(text);
        let ghost entries = raw_entries(text.spec_bytes());
        let ghost orig = comments@;
        assert(orig.len() == entries.len()) by {
            assert(orig.map_values(|c: Comment| comment_entry(c)).len() == orig.len());
        }
        let n = comments.len();
        let mut i: usize = 0;
        while i < n
            invariant
                n == comments@.len(),
                orig.len() == n,
                entries == raw_entries(text.spec_bytes()),
                orig.map_values(|c: Comment| comment_entry(c)) == entries,
                i <= n,
                forall|k: int|
                    0 <= k < n ==> (#[trigger] comments@[k]).book_name@ == orig[k].book_name@
                        && comments@[k].content@ == orig[k].content@,
                forall|k: int|
                    0 <= k < i ==> {
                        let c = #[trigger] comments@[k];
                        &&& c.words_cut is Some
                        &&& c.words_cut->0@ == word_cut_of(c.content@)
                        &&& short_words(c.content@) ==> cut_fits(utf8(c.content@), c.words_cut->0@)
                            && cut_words(utf8(c.content@), c.words_cut->0@) == words_utf8(
                            jieba_cut_words(c.content@),
                        )
                    },
            decreases n - i,
        {
            let cut = word_cut(comments[i].content.as_str());
            let c = Comment {
                book_name: comments[i].book_name.clone(),
                content: comments[i].content.clone(),
                words_cut: Some(cut),
            };
            comments.set(i, c);
            i = i + 1;
        }
        proof {
            assert forall|k: int| 0 <= k < n implies comments@[k].book_name@ == entries[k].0
                && comments@[k].content@ == entries[k].1 by {
                assert(orig.map_values(|c: Comment| comment_entry(c))[k] == comment_entry(orig[k]));
            }
        }
        Data { comments }
    }
}

} // verus!
