//! Reading the raw export: comments separated by a fixed separator, each naming its book
//! between 《 and 》 on its first line.
use vstd::prelude::*;
use vstd::utf8::*;
use vstd::string::StringSliceAdditionalSpecFns;
use vstd::string::StringExecFns;
use crate::text::{
    utf8, contains_bytes, find_first, find_bytes, contains_slice, str_range, str_bytes,
    split_pieces, split_str, lemma_find_first, lemma_str_valid, lemma_occurrence_boundaries,
};
use crate::Comment;

verus! {

/// The separator between two comments in the raw export.
pub open spec fn comment_separator() -> Seq<char> {
    "\n\u{3000}\u{3000}\n\u{3000}\u{3000}\n\u{3000}\u{3000}"@
}

/// Pieces of the export whose text holds this marker are not comments and are left out.
pub open spec fn skip_marker() -> Seq<char> {
    "Time"@
}

/// A decimal digit.
pub open spec fn digit_char(d: nat) -> char {
    if d == 0 {
        '0'
    } else if d == 1 {
        '1'
    } else if d == 2 {
        '2'
    } else if d == 3 {
        '3'
    } else if d == 4 {
        '4'
    } else if d == 5 {
        '5'
    } else if d == 6 {
        '6'
    } else if d == 7 {
        '7'
    } else if d == 8 {
        '8'
    } else {
        '9'
    }
}

/// The decimal notation of `n`.
pub open spec fn decimal_chars(n: nat) -> Seq<char>
    decreases n,
{
    if n < 10 {
        seq![digit_char(n)]
    } else {
        decimal_chars(n / 10) + seq![digit_char(n % 10)]
    }
}

/// The number that a string of decimal digits stands for, read in base 10.
pub open spec fn decimal_value(s: Seq<char>) -> int
    decreases s.len(),
{
    if s.len() == 0 {
        0
    } else {
        decimal_value(s.drop_last()) * 10 + (s.last() as int - '0' as int)
    }
}

proof fn lemma_digit_value(d: nat)
    requires
        d < 10,
    ensures
        digit_char(d) as int - '0' as int == d,
{
}

/// The decimal notation is the usual base-10 one: one or more of the digits '0' to '9',
/// with no leading zero, that read back as the number itself.
pub proof fn lemma_decimal_notation(n: nat)
    ensures
        decimal_chars(n).len() >= 1,
        forall|i: int|
            0 <= i < decimal_chars(n).len() ==> '0' as int <= #[trigger] decimal_chars(n)[i] as int
                <= '9' as int,
        decimal_value(decimal_chars(n)) == n,
        decimal_chars(n)[0] == '0' ==> n == 0,
    decreases n,
{
    if n < 10 {
        lemma_digit_value(n);
        assert(decimal_chars(n).drop_last() =~= Seq::<char>::empty());
        assert(decimal_value(Seq::<char>::empty()) == 0);
        assert(decimal_value(decimal_chars(n)) == decimal_value(decimal_chars(n).drop_last()) * 10
            + (decimal_chars(n).last() as int - '0' as int));
    } else {
        lemma_decimal_notation(n / 10);
        lemma_digit_value(n % 10);
        let s = decimal_chars(n);
        let p = decimal_chars(n / 10);
        assert(s.drop_last() =~= p);
        assert(s.last() == digit_char(n % 10));
        assert(decimal_value(s) == decimal_value(p) * 10 + (s.last() as int - '0' as int));
        assert(decimal_value(s) == (n / 10) * 10 + n % 10);
        assert(s[0] == p[0]);
        assert(n / 10 != 0);
        vstd::arithmetic::div_mod::lemma_fundamental_div_mod(n as int, 10);
        assert forall|i: int| 0 <= i < s.len() implies '0' as int <= #[trigger] s[i] as int <= '9' as int by {
            if i < p.len() {
                assert(s[i] == p[i]);
            }
        }
    }
}

/// Distinct numbers have distinct decimal notations, so distinct unnamed comments are given
/// distinct book names.
pub proof fn lemma_unnamed_books_distinct(n: nat, m: nat)
    requires
        n != m,
    ensures
        decimal_chars(n) != decimal_chars(m),
        unnamed_book(n) != unnamed_book(m),
{
    lemma_decimal_notation(n);
    lemma_decimal_notation(m);
    let pre = "NoSpecific"@;
    if unnamed_book(n) == unnamed_book(m) {
        assert(unnamed_book(n).skip(pre.len() as int) =~= decimal_chars(n));
        assert(unnamed_book(m).skip(pre.len() as int) =~= decimal_chars(m));
    }
}

/// The name given to the `n`-th comment (counting from 1) that names no book.
pub open spec fn unnamed_book(n: nat) -> Seq<char> {
    "NoSpecific"@ + decimal_chars(n)
}

/// Where the book name sits in a comment: the first line, the first 《 in it, and the
/// first 》 in it, as byte offsets.
pub open spec fn book_name_marks(e: Seq<u8>) -> Option<(int, int, int)> {
    match find_first(e, utf8("\n"@)) {
        None => None,
        Some(nl) => {
            let line = e.subrange(0, nl);
            match (find_first(line, utf8("《"@)), find_first(line, utf8("》"@))) {
                (Some(l), Some(r)) => Some((nl, l, r)),
                _ => None,
            }
        },
    }
}

/// A comment's book name can be read without the closing mark coming before the opening one.
pub open spec fn book_name_readable(e: Seq<u8>) -> bool {
    book_name_marks(e) matches Some((nl, l, r)) ==> l + utf8("《"@).len() <= r
}

/// The book name of a comment: what lies between the first 《 and the first 》 of its first
/// line; none when the comment has a single line or lacks either mark there.
pub open spec fn book_name_of(e: Seq<u8>) -> Option<Seq<u8>> {
    match book_name_marks(e) {
        None => None,
        Some((nl, l, r)) => Some(e.subrange(l + utf8("《"@).len(), r)),
    }
}

/// The (book name, text) of each comment in the pieces `elems`, given `unnamed` comments
/// without a book name before them.
pub open spec fn entries_from(elems: Seq<Seq<u8>>, unnamed: nat) -> Seq<(Seq<char>, Seq<char>)>
    decreases elems.len(),
{
    if elems.len() == 0 {
        seq![]
    } else {
        let e = elems[0];
        let rest = elems.drop_first();
        if contains_bytes(e, utf8(skip_marker())) {
            entries_from(rest, unnamed)
        } else {
            match book_name_of(e) {
                Some(b) => seq![(decode_utf8(b), decode_utf8(e))] + entries_from(rest, unnamed),
                None => seq![(unnamed_book(unnamed + 1), decode_utf8(e))] + entries_from(
                    rest,
                    unnamed + 1,
                ),
            }
        }
    }
}

/// The pieces of a raw export between separators.
pub open spec fn raw_pieces(text: Seq<u8>) -> Seq<Seq<u8>> {
    split_pieces(text, utf8(comment_separator()))
}

/// The (book name, text) of every comment in a raw export.
pub open spec fn raw_entries(text: Seq<u8>) -> Seq<(Seq<char>, Seq<char>)> {
    entries_from(raw_pieces(text), 0)
}

/// Every comment of the export that is kept has a readable book name.
pub open spec fn raw_text_readable(text: Seq<u8>) -> bool {
    forall|k: int|
        0 <= k < raw_pieces(text).len() && !contains_bytes(
            #[trigger] raw_pieces(text)[k],
            utf8(skip_marker()),
        ) ==> book_name_readable(raw_pieces(text)[k])
}

/// The (book name, text) of a comment.
pub open spec fn comment_entry(c: Comment) -> (Seq<char>, Seq<char>) {
    (c.book_name@, c.content@)
}

fn digit_str(d: usize) -> (r: &'static str)
    requires
        d < 10,
    ensures
        r@ == seq![digit_char(d as nat)],
{
    if d == 0 {
        proof { reveal_strlit("0"); }
        "0"
    } else if d == 1 {
        proof { reveal_strlit("1"); }
        "1"
    } else if d == 2 {
        proof { reveal_strlit("2"); }
        "2"
    } else if d == 3 {
        proof { reveal_strlit("3"); }
        "3"
    } else if d == 4 {
        proof { reveal_strlit("4"); }
        "4"
    } else if d == 5 {
        proof { reveal_strlit("5"); }
        "5"
    } else if d == 6 {
        proof { reveal_strlit("6"); }
        "6"
    } else if d == 7 {
        proof { reveal_strlit("7"); }
        "7"
    } else if d == 8 {
        proof { reveal_strlit("8"); }
        "8"
    } else {
        proof { reveal_strlit("9"); }
        "9"
    }
}

/// The decimal notation of `n`.
pub fn decimal_string(n: usize) -> (r: String)
    ensures
        r@ == decimal_chars(n as nat),
    decreases n,
{
    if n < 10 {
        digit_str(n).to_owned()
    } else {
        let mut s = decimal_string(n / 10);
        s.append(digit_str(n % 10));
        s
    }
}

/// The name given to the `n`-th comment without a book name.
pub fn unnamed_book_name(n: usize) -> (r: String)
    ensures
        r@ == unnamed_book(n as nat),
{
    let mut s = "NoSpecific".to_owned();
    let d = decimal_string(n);
    s.append(d.as_str());
    s
}

/// The book name of a comment, read from its first line.
pub fn parse_book_name(text: &str) -> (r: Option<&str>)
    requires
        book_name_readable(text.spec_bytes()),
    ensures
        r is Some <==> book_name_of(text.spec_bytes()) is Some,
        r matches Some(b) ==> book_name_of(text.spec_bytes()) == Some(b.spec_bytes()),
{
    let ghost e = text.spec_bytes();
    let nl_pat = "\n";
    let open_pat = "《";
    let close_pat = "》";
    proof {
        reveal_strlit("\n");
        reveal_strlit("《");
        reveal_strlit("》");
        lemma_str_valid(text);
        lemma_str_valid(nl_pat);
        lemma_str_valid(open_pat);
        lemma_str_valid(close_pat);
        lemma_find_first(e, nl_pat.spec_bytes());
    }
    let nl = match find_bytes(text.as_bytes(), nl_pat.as_bytes()) {
        Some(i) => i,
        None => return None,
    };
    proof {
        lemma_occurrence_boundaries(e, nl_pat.spec_bytes(), nl as int);
        is_char_boundary_start_end_of_seq(e);
    }
    let line = str_range(text, 0, nl);
    let ghost lb = line.spec_bytes();
    proof {
        lemma_str_valid(line);
        lemma_find_first(lb, open_pat.spec_bytes());
        lemma_find_first(lb, close_pat.spec_bytes());
    }
    let l = match find_bytes(line.as_bytes(), open_pat.as_bytes()) {
        Some(i) => i,
        None => return None,
    };
    let left = l + open_pat.as_bytes().len();
    let r = match find_bytes(line.as_bytes(), close_pat.as_bytes()) {
        Some(i) => i,
        None => return None,
    };
    proof {
        lemma_occurrence_boundaries(lb, open_pat.spec_bytes(), l as int);
        lemma_occurrence_boundaries(lb, close_pat.spec_bytes(), r as int);
    }
    Some(str_range(line, left, r))
}

/// Whether a comment's book name can be read (see `book_name_readable`).
pub fn book_name_is_readable(text: &str) -> (r: bool)
    ensures
        r == book_name_readable(text.spec_bytes()),
{
    let ghost e = text.spec_bytes();
    let nl_pat = "\n";
    let open_pat = "《";
    let close_pat = "》";
    proof {
        reveal_strlit("\n");
        lemma_str_valid(text);
        lemma_str_valid(nl_pat);
        lemma_find_first(e, nl_pat.spec_bytes());
    }
    let nl = match find_bytes(text.as_bytes(), nl_pat.as_bytes()) {
        Some(i) => i,
        None => return true,
    };
    proof {
        lemma_occurrence_boundaries(e, nl_pat.spec_bytes(), nl as int);
        is_char_boundary_start_end_of_seq(e);
    }
    let line = str_range(text, 0, nl);
    let l = match find_bytes(line.as_bytes(), open_pat.as_bytes()) {
        Some(i) => i,
        None => return true,
    };
    let r = match find_bytes(line.as_bytes(), close_pat.as_bytes()) {
        Some(i) => i,
        None => return true,
    };
    let open_len = open_pat.as_bytes().len();
    l <= r && open_len <= r - l
}

/// Whether every kept comment of a raw export has a readable book name.
pub fn raw_text_is_readable(text: &str) -> (r: bool)
    ensures
        r == raw_text_readable(text.spec_bytes()),
{
    let sep = "\n\u{3000}\u{3000}\n\u{3000}\u{3000}\n\u{3000}\u{3000}";
    let marker = "Time";
    proof {
        reveal_strlit("\n\u{3000}\u{3000}\n\u{3000}\u{3000}\n\u{3000}\u{3000}");
    }
    let elems = split_str(text, sep);
    let ghost pieces = str_bytes(elems@);
    assert(pieces == raw_pieces(text.spec_bytes()));
    let mut i: usize = 0;
    while i < elems.len()
        invariant
            pieces == str_bytes(elems@),
            pieces == raw_pieces(text.spec_bytes()),
            marker@ == skip_marker(),
            i <= elems@.len(),
            forall|k: int|
                0 <= k < i && !contains_bytes(#[trigger] pieces[k], utf8(skip_marker()))
                    ==> book_name_readable(pieces[k]),
        decreases elems@.len() - i,
    {
        let e: &str = elems[i];
        assert(e.spec_bytes() == pieces[i as int]);
        if !contains_slice(e.as_bytes(), marker.as_bytes()) && !book_name_is_readable(e) {
            return false;
        }
        i = i + 1;
    }
    true
}

/// The comments of a raw export, with their book names and without word cuts.
pub fn raw_comments(text: &str) -> (r: Vec<Comment>)
    requires
        raw_text_readable(text.spec_bytes()),
    ensures
        r@.map_values(|c: Comment| comment_entry(c)) == raw_entries(text.spec_bytes()),
        forall|k: int| 0 <= k < r@.len() ==> (#[trigger] r@[k]).words_cut is None,
{
    let sep = "\n\u{3000}\u{3000}\n\u{3000}\u{3000}\n\u{3000}\u{3000}";
    let marker = "Time";
    proof {
        reveal_strlit("\n\u{3000}\u{3000}\n\u{3000}\u{3000}\n\u{3000}\u{3000}");
    }
    let elems = split_str(text, sep);
    let ghost pieces = str_bytes(elems@);
    assert(pieces == raw_pieces(text.spec_bytes()));
    let mut comments: Vec<Comment> = Vec::new();
    let mut unnamed: usize = 0;
    let mut i: usize = 0;
    assert(pieces.skip(0) =~= pieces);
    while i < elems.len()
        invariant
            pieces == str_bytes(elems@),
            pieces == raw_pieces(text.spec_bytes()),
            raw_text_readable(text.spec_bytes()),
            marker@ == skip_marker(),
            i <= elems@.len(),
            unnamed <= i,
            comments@.map_values(|c: Comment| comment_entry(c)) + entries_from(
                pieces.skip(i as int),
                unnamed as nat,
            ) == raw_entries(text.spec_bytes()),
            forall|k: int| 0 <= k < comments@.len() ==> (#[trigger] comments@[k]).words_cut is None,
        decreases elems@.len() - i,
    {
        let e: &str = elems[i];
        let ghost eb = e.spec_bytes();
        assert(eb == pieces[i as int]);
        let ghost rest = pieces.skip(i as int);
        assert(rest[0] == eb);
        assert(rest.drop_first() =~= pieces.skip(i + 1));
        proof {
            lemma_str_valid(e);
        }
        let ghost before = comments@.map_values(|c: Comment| comment_entry(c));
        if contains_slice(e.as_bytes(), marker.as_bytes()) {
        } else {
            assert(book_name_readable(raw_pieces(text.spec_bytes())[i as int]));
            let name = match parse_book_name(e) {
                Some(b) => {
                    proof {
                        lemma_str_valid(b);
                    }
                    b.to_owned()
                },
                None => {
                    unnamed = unnamed + 1;
                    unnamed_book_name(unnamed)
                },
            };
            let c = Comment { book_name: name, content: e.to_owned(), words_cut: None };
            comments.push(c);
            proof {
                assert(comments@.map_values(|c: Comment| comment_entry(c)) =~= before.push(
                    comment_entry(c),
                ));
            }
        }
        i = i + 1;
    }
    proof {
        assert(pieces.skip(i as int) =~= Seq::<Seq<u8>>::empty());
        assert(comments@.map_values(|c: Comment| comment_entry(c)) + Seq::<(Seq<char>, Seq<char>)>::empty()
            =~= comments@.map_values(|c: Comment| comment_entry(c)));
    }
    comments
}

} // verus!
