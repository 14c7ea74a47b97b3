//! Plain-text exports of the corpus: the word-cut dump, and one text per book.
use vstd::prelude::*;
use vstd::utf8::*;
use vstd::string::StringExecFns;
use crate::text::{utf8, str_bytes, split_pieces, split_str, lemma_str_valid};
use crate::cut::{cut_fits, cut_words};
use crate::data::Data;
use crate::CommentView;

verus! {

/// Each word followed by a bar.
pub open spec fn barred_words(ws: Seq<Seq<char>>) -> Seq<char>
    decreases ws.len(),
{
    if ws.len() == 0 {
        seq![]
    } else {
        barred_words(ws.drop_last()) + ws.last() + "|"@
    }
}

/// The barred words are every word, in order, each followed by a bar: nothing is left out,
/// added or reordered.
pub proof fn lemma_barred_words(ws: Seq<Seq<char>>)
    ensures
        barred_words(ws) == ws.map_values(|w: Seq<char>| w + "|"@).flatten(),
    decreases ws.len(),
{
    let f = |w: Seq<char>| w + "|"@;
    if ws.len() == 0 {
        assert(ws.map_values(f) =~= Seq::<Seq<char>>::empty());
    } else {
        let dl = ws.drop_last();
        lemma_barred_words(dl);
        assert(ws.map_values(f) =~= dl.map_values(f).push(f(ws.last())));
        dl.map_values(f).lemma_flatten_push(f(ws.last()));
    }
}

/// The dump is every comment's barred words followed by an empty line, comment after comment.
pub proof fn lemma_words_dump(cs: Seq<CommentView>)
    ensures
        words_dump(cs) == cs.map_values(
            |c: CommentView| comment_words(c).map_values(|w: Seq<char>| w + "|"@).flatten() + "\n\n"@,
        ).flatten(),
    decreases cs.len(),
{
    let h = |c: CommentView| comment_words(c).map_values(|w: Seq<char>| w + "|"@).flatten() + "\n\n"@;
    if cs.len() == 0 {
        assert(cs.map_values(h) =~= Seq::<Seq<char>>::empty());
    } else {
        let dl = cs.drop_last();
        lemma_words_dump(dl);
        lemma_barred_words(comment_words(cs.last()));
        assert(cs.map_values(h) =~= dl.map_values(h).push(h(cs.last())));
        dl.map_values(h).lemma_flatten_push(h(cs.last()));
    }
}

/// The words of a comment as its word cut marks them.
pub open spec fn comment_words(c: CommentView) -> Seq<Seq<char>> {
    cut_words(utf8(c.content), c.words_cut->0).map_values(|w: Seq<u8>| decode_utf8(w))
}

/// The dump of comments: for each, its barred words and an empty line.
pub open spec fn words_dump(cs: Seq<CommentView>) -> Seq<char>
    decreases cs.len(),
{
    if cs.len() == 0 {
        seq![]
    } else {
        words_dump(cs.drop_last()) + barred_words(comment_words(cs.last())) + "\n\n"@
    }
}

/// Every comment has a word cut of at least one delta that fits its text.
pub open spec fn all_cut(cs: Seq<CommentView>) -> bool {
    forall|k: int|
        0 <= k < cs.len() ==> (#[trigger] cs[k]).words_cut is Some && cs[k].words_cut->0.len() >= 1
            && cut_fits(utf8(cs[k].content), cs[k].words_cut->0)
}

/// The word-cut dump of the corpus: every word of every comment followed by `|`, each comment
/// followed by an empty line.
pub fn dump_words(data: &Data) -> (r: String)
    requires
        all_cut(data@),
    ensures
        r@ == words_dump(data@),
        r@ == data@.map_values(
            |c: CommentView| comment_words(c).map_values(|w: Seq<char>| w + "|"@).flatten() + "\n\n"@,
        ).flatten(),
{
    let mut out = String::new();
    let mut k: usize = 0;
    assert(data@.take(0) =~= Seq::<CommentView>::empty());
    while k < data.comments.len()
        invariant
            all_cut(data@),
            k <= data@.len(),
            out@ == words_dump(data@.take(k as int)),
        decreases data@.len() - k,
    {
        let c = &data.comments[k];
        assert(data@[k as int] == c@);
        let ws = c.words().unwrap();
        let ghost cw = comment_words(c@);
        let ghost start = out@;
        assert(cw.len() == ws@.len());
        assert forall|t: int| 0 <= t < ws@.len() implies #[trigger] ws@[t]@ == cw[t] by {
            lemma_str_valid(ws@[t]);
        }
        let mut i: usize = 0;
        assert(cw.take(0) =~= Seq::<Seq<char>>::empty());
        while i < ws.len()
            invariant
                cw == comment_words(c@),
                cw.len() == ws@.len(),
                forall|t: int| 0 <= t < ws@.len() ==> #[trigger] ws@[t]@ == cw[t],
                i <= ws@.len(),
                out@ == start + barred_words(cw.take(i as int)),
            decreases ws@.len() - i,
        {
            out.append(ws[i]);
            out.append("|");
            assert(cw.take(i + 1).drop_last() =~= cw.take(i as int));
            assert(out@ =~= start + barred_words(cw.take(i + 1)));
            i = i + 1;
        }
        out.append("\n\n");
        proof {
            assert(cw.take(i as int) =~= cw);
            let pre = data@.take(k + 1);
            assert(pre.drop_last() =~= data@.take(k as int));
            assert(pre.last() == c@);
            assert(out@ =~= words_dump(pre));
        }
        k = k + 1;
    }
    assert(data@.take(k as int) =~= data@);
    proof {
        lemma_words_dump(data@);
    }
    out
}

/// The pieces joined with `sep` between them.
pub open spec fn joined(pieces: Seq<Seq<char>>, sep: Seq<char>) -> Seq<char>
    decreases pieces.len(),
{
    if pieces.len() == 0 {
        seq![]
    } else if pieces.len() == 1 {
        pieces[0]
    } else {
        joined(pieces.drop_last(), sep) + sep + pieces.last()
    }
}

/// A book name made safe as a file name: each `/` becomes `_`.
pub open spec fn file_stem_of(name: Seq<char>) -> Seq<char> {
    joined(split_pieces(utf8(name), utf8("/"@)).map_values(|p: Seq<u8>| decode_utf8(p)), "_"@)
}

/// A book name made safe as a file name: each `/` becomes `_`.
pub fn file_stem(name: &str) -> (r: String)
    ensures
        r@ == file_stem_of(name@),
{
    let slash = "/";
    proof {
        reveal_strlit("/");
    }
    let pieces = split_str(name, slash);
    let ghost ps = str_bytes(pieces@).map_values(|p: Seq<u8>| decode_utf8(p));
    assert(ps == split_pieces(utf8(name@), utf8("/"@)).map_values(|p: Seq<u8>| decode_utf8(p)));
    let mut out = String::new();
    let mut i: usize = 0;
    assert(ps.take(0) =~= Seq::<Seq<char>>::empty());
    while i < pieces.len()
        invariant
            ps == str_bytes(pieces@).map_values(|p: Seq<u8>| decode_utf8(p)),
            i <= pieces@.len(),
            out@ == joined(ps.take(i as int), "_"@),
        decreases pieces@.len() - i,
    {
        proof {
            lemma_str_valid(pieces@[i as int]);
            assert(ps[i as int] == pieces@[i as int]@);
            assert(ps.take(i + 1).drop_last() =~= ps.take(i as int));
        }
        if i > 0 {
            out.append("_");
        }
        out.append(pieces[i]);
        proof {
            if i == 0 {
                assert(ps.take(1) =~= seq![ps[0]]);
                assert(out@ =~= joined(ps.take(1), "_"@));
            } else {
                assert(out@ =~= joined(ps.take(i + 1), "_"@));
            }
        }
        i = i + 1;
    }
    assert(ps.take(i as int) =~= ps);
    out
}

/// Comment texts, each followed by an empty line.
pub open spec fn spaced_texts(ts: Seq<Seq<char>>) -> Seq<char>
    decreases ts.len(),
{
    if ts.len() == 0 {
        seq![]
    } else {
        spaced_texts(ts.drop_last()) + ts.last() + "\n\n"@
    }
}

/// The text written for a book: each of its comments followed by an empty line.
pub fn book_text(contents: &Vec<&str>) -> (r: String)
    ensures
        r@ == spaced_texts(contents@.map_values(|s: &str| s@)),
{
    let ghost ts = contents@.map_values(|s: &str| s@);
    let mut out = String::new();
    let mut i: usize = 0;
    assert(ts.take(0) =~= Seq::<Seq<char>>::empty());
    while i < contents.len()
        invariant
            ts == contents@.map_values(|s: &str| s@),
            i <= contents@.len(),
            out@ == spaced_texts(ts.take(i as int)),
        decreases contents@.len() - i,
    {
        out.append(contents[i]);
        out.append("\n\n");
        proof {
            assert(ts[i as int] == contents@[i as int]@);
            assert(ts.take(i + 1).drop_last() =~= ts.take(i as int));
            assert(out@ =~= spaced_texts(ts.take(i + 1)));
        }
        i = i + 1;
    }
    assert(ts.take(i as int) =~= ts);
    out
}

} // verus!
