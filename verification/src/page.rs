//! What the search page shows: the state of the search bar, and a book's comments split
//! into lines.
use vstd::prelude::*;
use vstd::utf8::*;
use vstd::string::StringSliceAdditionalSpecFns;
use vstd::string::StrSliceExecFns;
use crate::text::{utf8, lemma_ascii_char, find_first, find_bytes, str_range, str_bytes, lemma_find_first, lemma_str_valid, lemma_occurrence_boundaries};
use crate::engine::{Engine, entry_positions, matching_books};

verus! {

/// The search bar once the corpus is loaded: what is typed, and what was last searched.
#[derive(Debug, Clone)]
pub struct ReadyState {
    pub pattern: String,
    pub searched_pattern: String,
}

impl ReadyState {
    /// An empty search bar.
    pub fn new() -> (r: ReadyState)
        ensures
            r.pattern@ == Seq::<char>::empty(),
            r.searched_pattern@ == Seq::<char>::empty(),
    {
        ReadyState { pattern: String::new(), searched_pattern: String::new() }
    }

    /// Submitting the search: the typed pattern becomes the searched one.
    pub fn submit(&mut self)
        ensures
            final(self).pattern@ == old(self).pattern@,
            final(self).searched_pattern@ == old(self).pattern@,
    {
        self.searched_pattern = self.pattern.clone();
    }

    /// Whether the results are headed by a line naming the searched pattern: only once a
    /// non-empty pattern was searched.
    pub fn shows_hint(&self) -> (r: bool)
        ensures
            r == (self.searched_pattern@.len() > 0),
    {
        self.searched_pattern.as_str().unicode_len() > 0
    }
}

/// A character with the Unicode `White_Space` property.
pub open spec fn white_space(c: char) -> bool {
    let v = c as u32;
    ||| 0x09 <= v <= 0x0D
    ||| v == 0x20
    ||| v == 0x85
    ||| v == 0xA0
    ||| v == 0x1680
    ||| 0x2000 <= v <= 0x200A
    ||| v == 0x2028
    ||| v == 0x2029
    ||| v == 0x202F
    ||| v == 0x205F
    ||| v == 0x3000
}

/// Whether `c` has the Unicode `White_Space` property.
pub fn is_white_space(c: char) -> (r: bool)
    ensures
        r == white_space(c),
{
    let v = c as u32;
    (0x09 <= v && v <= 0x0D) || v == 0x20 || v == 0x85 || v == 0xA0 || v == 0x1680 || (0x2000
        <= v && v <= 0x200A) || v == 0x2028 || v == 0x2029 || v == 0x202F || v == 0x205F || v
        == 0x3000
}

/// Where the word starting at `i` ends: at the next white space, or at the end.
pub open spec fn word_end(s: Seq<char>, i: int) -> int
    decreases s.len() - i,
{
    if i >= s.len() || i < 0 || white_space(s[i]) {
        i
    } else {
        word_end(s, i + 1)
    }
}

/// A word runs from its start to its end without white space.
pub proof fn lemma_word_end(s: Seq<char>, i: int)
    requires
        0 <= i,
    ensures
        i <= word_end(s, i),
        i <= s.len() ==> word_end(s, i) <= s.len(),
        forall|k: int| i <= k < word_end(s, i) ==> !white_space(#[trigger] s[k]),
    decreases s.len() - i,
{
    if i < s.len() && !white_space(s[i]) {
        lemma_word_end(s, i + 1);
    }
}

/// The words of `s` from character `i` on: white space is skipped, and a word runs up to
/// the next white space.
pub open spec fn words_from(s: Seq<char>, i: int) -> Seq<Seq<char>>
    decreases s.len() - i,
{
    if i < 0 || i >= s.len() {
        seq![]
    } else if white_space(s[i]) {
        words_from(s, i + 1)
    } else {
        let j = word_end(s, i + 1);
        proof {
            lemma_word_end(s, i + 1);
        }
        seq![s.subrange(i, j)] + words_from(s, j)
    }
}

/// The words of a text separated by white space.
pub open spec fn whitespace_words(s: Seq<char>) -> Seq<Seq<char>> {
    words_from(s, 0)
}

/// The words of a text separated by white space.
pub fn split_whitespace<'a>(s: &'a str) -> (r: Vec<&'a str>)
    ensures
        r@.map_values(|w: &'a str| w@) == whitespace_words(s@),
{
    let n = s.unicode_len();
    let mut out: Vec<&'a str> = Vec::new();
    let mut i: usize = 0;
    assert(out@.map_values(|w: &'a str| w@) + words_from(s@, 0) =~= whitespace_words(s@));
    while i < n
        invariant
            n == s@.len(),
            i <= n,
            out@.map_values(|w: &'a str| w@) + words_from(s@, i as int) == whitespace_words(s@),
        decreases n - i,
    {
        let c = s.get_char(i);
        if is_white_space(c) {
            i = i + 1;
        } else {
            let mut j = i + 1;
            while j < n && !is_white_space(s.get_char(j))
                invariant
                    n == s@.len(),
                    i < j <= n,
                    word_end(s@, i + 1) == word_end(s@, j as int),
                decreases n - j,
            {
                j = j + 1;
            }
            let w = s.substring_char(i, j);
            let ghost before = out@;
            out.push(w);
            proof {
                let f = |w: &'a str| w@;
                assert(word_end(s@, j as int) == j);
                assert(words_from(s@, i as int) == seq![s@.subrange(i as int, j as int)] + words_from(s@, j as int));
                assert(out@.map_values(f) =~= before.map_values(f).push(w@));
                assert(out@.map_values(f) + words_from(s@, j as int) =~= before.map_values(f) + words_from(s@, i as int));
            }
            i = j;
        }
    }
    out
}

/// Submitting the search bar: the typed pattern becomes the searched one, and the engine
/// keeps the books matching its white-space separated words.
pub fn search_bar<'a>(state: &mut ReadyState, engine: &mut Engine<'a>)
    requires
        old(engine).positions_in_range(),
    ensures
        final(state).pattern@ == old(state).pattern@,
        final(state).searched_pattern@ == old(state).pattern@,
        final(engine).data == old(engine).data,
        final(engine).map@ == old(engine).map@,
        final(engine).positions_in_range(),
        final(engine).well_formed() == old(engine).well_formed(),
        final(engine).results_view() == matching_books(
            old(engine).data@,
            old(engine).index_view(),
            whitespace_words(old(state).pattern@),
        ),
{
    state.submit();
    let words = split_whitespace(state.pattern.as_str());
    engine.search(words.as_slice());
}

/// A line without the carriage return that ends it, if any.
pub open spec fn strip_cr(l: Seq<u8>) -> Seq<u8> {
    if l.len() > 0 && l.last() == 13u8 {
        l.drop_last()
    } else {
        l
    }
}

/// The lines of a text: the pieces ended by a line feed (without it, and without a carriage
/// return before it), then the rest if it is not empty.
pub open spec fn text_lines(b: Seq<u8>) -> Seq<Seq<u8>>
    decreases b.len(),
{
    if b.len() == 0 {
        seq![]
    } else {
        match find_first(b, seq![10u8]) {
            Some(i) => if 0 <= i < b.len() {
                seq![strip_cr(b.subrange(0, i))] + text_lines(b.subrange(i + 1, b.len() as int))
            } else {
                seq![b]
            },
            None => seq![b],
        }
    }
}

/// The lines of a text.
pub fn lines<'a>(s: &'a str) -> (r: Vec<&'a str>)
    ensures
        str_bytes(r@) == text_lines(s.spec_bytes()),
{
    let nl = "\n";
    proof {
        reveal_strlit("\n");
        lemma_str_valid(nl);
        lemma_ascii_char('\n');
        assert(nl.spec_bytes() =~= seq![10u8]);
    }
    let mut out: Vec<&'a str> = Vec::new();
    let mut rest: &'a str = s;
    proof {
        assert(str_bytes(out@) + text_lines(rest.spec_bytes()) =~= text_lines(s.spec_bytes()));
    }
    loop
        invariant_except_break
            nl.spec_bytes() == seq![10u8],
            valid_utf8(nl.spec_bytes()),
            str_bytes(out@) + text_lines(rest.spec_bytes()) == text_lines(s.spec_bytes()),
        ensures
            str_bytes(out@) == text_lines(s.spec_bytes()),
        decreases rest.spec_bytes().len(),
    {
        let rb = rest.as_bytes();
        let rlen = rb.len();
        let ghost rs = rest.spec_bytes();
        proof {
            lemma_str_valid(rest);
            lemma_find_first(rs, seq![10u8]);
            is_char_boundary_start_end_of_seq(rs);
        }
        if rlen == 0 {
            assert(str_bytes(out@) =~= text_lines(s.spec_bytes()));
            break;
        }
        let ghost old_out = out@;
        match find_bytes(rb, nl.as_bytes()) {
            Some(i) => {
                proof {
                    lemma_occurrence_boundaries(rs, seq![10u8], i as int);
                }
                let mut end = i;
                if i > 0 && rb[i - 1] == 13u8 {
                    end = i - 1;
                    proof {
                        // a carriage return is a character of its own
                        is_char_boundary_iff_not_is_continuation_byte(rs, i - 1);
                    }
                }
                let line = str_range(rest, 0, end);
                let next = str_range(rest, i + 1, rlen);
                out.push(line);
                proof {
                    assert(line.spec_bytes() =~= strip_cr(rs.subrange(0, i as int)));
                    assert(str_bytes(out@) =~= str_bytes(old_out).push(line.spec_bytes()));
                    assert(text_lines(rs) == seq![strip_cr(rs.subrange(0, i as int))] + text_lines(next.spec_bytes()));
                    assert(str_bytes(out@) + text_lines(next.spec_bytes()) =~= str_bytes(old_out) + text_lines(rs));
                }
                rest = next;
            },
            None => {
                out.push(rest);
                proof {
                    assert(text_lines(rs) == seq![rs]);
                    assert(str_bytes(out@) =~= str_bytes(old_out) + text_lines(rs));
                }
                break;
            },
        }
    }
    out
}

/// A book as the result list shows it: its name, how many comments it has, and the lines of
/// each comment.
#[derive(Debug, Clone)]
pub struct BookPage<'a> {
    pub title: String,
    pub count: usize,
    pub comments: Vec<Vec<&'a str>>,
}

/// The page of a book found by a search: the comments at the positions of the book's entry
/// in the index (on the index of the corpus, every comment of the book, in corpus order).
pub fn display_book<'a>(engine: &Engine<'a>, result: &str) -> (r: BookPage<'a>)
    requires
        engine.positions_in_range(),
        entry_positions(engine.index_view(), result@) is Some,
    ensures
        r.title@ == result@,
        r.count == entry_positions(engine.index_view(), result@)->0.len(),
        r.comments@.len() == r.count,
        forall|t: int|
            0 <= t < r.comments@.len() ==> str_bytes(#[trigger] r.comments@[t]@) == text_lines(
                utf8(engine.data@[entry_positions(engine.index_view(), result@)->0[t] as int].content),
            ),
{
    let list = engine.get_book(result).unwrap();
    let ghost idx = entry_positions(engine.index_view(), result@)->0;
    proof {
        assert(idx.map_values(|i: usize| engine.data@[i as int].content).len() == idx.len());
    }
    let mut comments: Vec<Vec<&'a str>> = Vec::with_capacity(list.len());
    let mut t: usize = 0;
    assert(list@.map_values(|s: &'a str| s@).len() == list@.len());
    while t < list.len()
        invariant
            list@.map_values(|s: &'a str| s@) == idx.map_values(|i: usize| engine.data@[i as int].content),
            list@.len() == idx.len(),
            t <= list@.len(),
            comments@.len() == t,
            forall|u: int|
                0 <= u < t ==> str_bytes(#[trigger] comments@[u]@) == text_lines(
                    utf8(engine.data@[idx[u] as int].content),
                ),
        decreases list@.len() - t,
    {
        let ls = lines(list[t]);
        proof {
            let f = |s: &'a str| s@;
            assert(list@.map_values(f)[t as int] == list@[t as int]@);
            assert(idx.map_values(|i: usize| engine.data@[i as int].content)[t as int]
                == engine.data@[idx[t as int] as int].content);
        }
        comments.push(ls);
        t = t + 1;
    }
    BookPage { title: result.to_owned(), count: list.len(), comments }
}

} // verus!
