//! Book-comment corpus: parsing, word-cut decoding, indexing, search and n-gram tagging.
pub mod text;
pub mod cut;
pub mod raw;
pub mod data;
pub mod engine;
pub mod tag;
pub mod page;
pub mod export;

use vstd::prelude::*;

verus! {

/// The zstd compression level used for the stored corpus.
pub const COMPRESS_LEVEL: i32 = 13;

/// One comment: the book it is about, its text, and optionally the word cut of the text.
#[derive(Debug, Clone)]
pub struct Comment {
    pub book_name: String,
    pub content: String,
    pub words_cut: Option<Vec<u8>>,
}

/// The mathematical value of a comment.
pub struct CommentView {
    pub book_name: Seq<char>,
    pub content: Seq<char>,
    pub words_cut: Option<Seq<u8>>,
}

impl View for Comment {
    type V = CommentView;

    open spec fn view(&self) -> CommentView {
        CommentView {
            book_name: self.book_name@,
            content: self.content@,
            words_cut: match self.words_cut {
                Some(c) => Some(c@),
                None => None,
            },
        }
    }
}

impl PartialEq for Comment {
    fn eq(&self, other: &Self) -> (r: bool) {
        let cuts_equal = match (&self.words_cut, &other.words_cut) {
            (Some(a), Some(b)) => text::slice_eq(a.as_slice(), b.as_slice()),
            (None, None) => true,
            _ => false,
        };
        text::str_eq(self.book_name.as_str(), other.book_name.as_str()) && text::str_eq(
            self.content.as_str(),
            other.content.as_str(),
        ) && cuts_equal
    }
}

impl vstd::std_specs::cmp::PartialEqSpecImpl for Comment {
    open spec fn obeys_eq_spec() -> bool {
        true
    }

    open spec fn eq_spec(&self, other: &Comment) -> bool {
        self@ == other@
    }
}

impl Default for Comment {
    fn default() -> (r: Comment)
        ensures
            r.book_name@ == Seq::<char>::empty(),
            r.content@ == Seq::<char>::empty(),
            r.words_cut is None,
    {
        Comment { book_name: String::new(), content: String::new(), words_cut: None }
    }
}

} // verus!
