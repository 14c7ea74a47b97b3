//! The search engine: comments grouped by book, and a search for books whose comments
//! mention every pattern.
use vstd::prelude::*;
use crate::text::{utf8, contains_bytes, contains_slice, str_eq};
use crate::data::Data;
use crate::CommentView;

verus! {

/// The book name of every comment, in order.
pub open spec fn book_names(d: Seq<CommentView>) -> Seq<Seq<char>> {
    d.map_values(|c: CommentView| c.book_name)
}

/// The distinct names of `s`, in the order of their first appearance.
pub open spec fn distinct_in_order(s: Seq<Seq<char>>) -> Seq<Seq<char>>
    decreases s.len(),
{
    if s.len() == 0 {
        seq![]
    } else {
        let d = distinct_in_order(s.drop_last());
        if d.contains(s.last()) {
            d
        } else {
            d.push(s.last())
        }
    }
}

/// The positions in `s` holding `name`, in increasing order.
pub open spec fn indices_of(s: Seq<Seq<char>>, name: Seq<char>) -> Seq<usize>
    decreases s.len(),
{
    if s.len() == 0 {
        seq![]
    } else if s.last() == name {
        indices_of(s.drop_last(), name).push((s.len() - 1) as usize)
    } else {
        indices_of(s.drop_last(), name)
    }
}

/// The index of the comments: each distinct book name, in order of first appearance, with
/// the positions of its comments.
pub open spec fn book_index(s: Seq<Seq<char>>) -> Seq<(Seq<char>, Seq<usize>)> {
    distinct_in_order(s).map_values(|n: Seq<char>| (n, indices_of(s, n)))
}

/// Some comment at one of the positions `idx` mentions `pat`.
pub open spec fn some_comment_mentions(
    d: Seq<CommentView>,
    idx: Seq<usize>,
    pat: Seq<char>,
) -> bool {
    exists|t: int| 0 <= t < idx.len() && contains_bytes(utf8(d[idx[t] as int].content), utf8(pat))
}

/// Every pattern is mentioned by some comment at the positions `idx`.
pub open spec fn all_mentioned(d: Seq<CommentView>, idx: Seq<usize>, pats: Seq<Seq<char>>) -> bool {
    forall|j: int| 0 <= j < pats.len() ==> #[trigger] some_comment_mentions(d, idx, pats[j])
}

/// The names of the index entries whose comments mention every pattern, in index order.
pub open spec fn matching_books(
    d: Seq<CommentView>,
    index: Seq<(Seq<char>, Seq<usize>)>,
    pats: Seq<Seq<char>>,
) -> Seq<Seq<char>>
    decreases index.len(),
{
    if index.len() == 0 {
        seq![]
    } else if all_mentioned(d, index.last().1, pats) {
        matching_books(d, index.drop_last(), pats).push(index.last().0)
    } else {
        matching_books(d, index.drop_last(), pats)
    }
}

/// Searches a corpus by book.
#[derive(Debug, Clone)]
pub struct Engine<'a> {
    pub data: &'a Data,
    pub map: Vec<(&'a str, Vec<usize>)>,
    pub results: Vec<&'a str>,
}

impl<'a> Engine<'a> {
    /// The index as names and positions.
    pub open spec fn index_view(&self) -> Seq<(Seq<char>, Seq<usize>)> {
        self.map@.map_values(|e: (&'a str, Vec<usize>)| (e.0@, e.1@))
    }

    /// The names of the last search's results.
    pub open spec fn results_view(&self) -> Seq<Seq<char>> {
        self.results@.map_values(|r: &'a str| r@)
    }

    /// The index is the index of the corpus.
    pub open spec fn well_formed(&self) -> bool {
        self.index_view() == book_index(book_names(self.data@))
    }

    /// Every position the index holds is the position of a comment of the corpus.
    pub open spec fn positions_in_range(&self) -> bool {
        forall|k: int, t: int|
            0 <= k < self.index_view().len() && 0 <= t < self.index_view()[k].1.len()
                ==> #[trigger] self.index_view()[k].1[t] < self.data@.len()
    }
}

/// The positions of the first entry of `index` named `name`, if there is one.
pub open spec fn entry_positions(index: Seq<(Seq<char>, Seq<usize>)>, name: Seq<char>) -> Option<
    Seq<usize>,
>
    decreases index.len(),
{
    if index.len() == 0 {
        None
    } else {
        match entry_positions(index.drop_last(), name) {
            Some(p) => Some(p),
            None => if index.last().0 == name {
                Some(index.last().1)
            } else {
                None
            },
        }
    }
}

/// The first entry named `name` is the one at `p` when no earlier entry has that name.
proof fn lemma_entry_positions_first(index: Seq<(Seq<char>, Seq<usize>)>, name: Seq<char>, p: int)
    requires
        0 <= p <= index.len(),
        forall|q: int| 0 <= q < p ==> (#[trigger] index[q]).0 != name,
    ensures
        p < index.len() && index[p].0 == name ==> entry_positions(index, name) == Some(index[p].1),
        p == index.len() ==> entry_positions(index, name) is None,
    decreases index.len(),
{
    if index.len() > 0 {
        let dl = index.drop_last();
        if p < index.len() - 1 {
            assert forall|q: int| 0 <= q < p implies (#[trigger] dl[q]).0 != name by {
                assert(dl[q] == index[q]);
            }
            lemma_entry_positions_first(dl, name, p);
            assert(dl[p] == index[p]);
        } else {
            assert forall|q: int| 0 <= q < dl.len() implies (#[trigger] dl[q]).0 != name by {
                assert(dl[q] == index[q]);
            }
            lemma_entry_positions_first(dl, name, dl.len() as int);
            if p == index.len() {
                assert(index.last() == index[index.len() - 1]);
            }
        }
    }
}

/// In the index of a list of names, the entry of a name holds its positions.
proof fn lemma_entry_positions_of_names(names: Seq<Seq<char>>, books: Seq<Seq<char>>, name: Seq<char>)
    ensures
        entry_positions(names.map_values(|n: Seq<char>| (n, indices_of(books, n))), name) == if names.contains(
            name,
        ) {
            Some(indices_of(books, name))
        } else {
            None
        },
    decreases names.len(),
{
    if names.len() > 0 {
        let f = |n: Seq<char>| (n, indices_of(books, n));
        let dl = names.drop_last();
        lemma_entry_positions_of_names(dl, books, name);
        assert(names.map_values(f).drop_last() =~= dl.map_values(f));
        assert(names.map_values(f).last() == f(names.last()));
        if dl.contains(name) {
            let k = choose|k: int| 0 <= k < dl.len() && dl[k] == name;
            assert(names[k] == name);
        }
        if names.contains(name) && !dl.contains(name) {
            let k = choose|k: int| 0 <= k < names.len() && names[k] == name;
            if k < dl.len() {
                assert(dl[k] == name);
            }
        }
        if names.last() == name {
            assert(names[names.len() - 1] == name);
        }
    }
}

/// In the index of a corpus, a book's entry holds exactly the positions of the comments
/// naming it, and a name no comment has has no entry: `get_book` on an engine built by
/// `from_data` lists every comment of the book.
pub proof fn lemma_index_entries(d: Seq<CommentView>, name: Seq<char>)
    ensures
        entry_positions(book_index(book_names(d)), name) == if book_names(d).contains(name) {
            Some(indices_of(book_names(d), name))
        } else {
            None
        },
{
    lemma_entry_positions_of_names(distinct_in_order(book_names(d)), book_names(d), name);
    lemma_distinct_contains(book_names(d), name);
}

proof fn lemma_distinct_contains(s: Seq<Seq<char>>, x: Seq<char>)
    ensures
        distinct_in_order(s).contains(x) <==> s.contains(x),
    decreases s.len(),
{
    if s.len() > 0 {
        lemma_distinct_contains(s.drop_last(), x);
        let d = distinct_in_order(s.drop_last());
        if s.drop_last().contains(x) {
            let k = choose|k: int| 0 <= k < s.drop_last().len() && s.drop_last()[k] == x;
            assert(s[k] == x);
        }
        if s.contains(x) {
            let k = choose|k: int| 0 <= k < s.len() && s[k] == x;
            if k < s.len() - 1 {
                assert(s.drop_last()[k] == x);
            }
        }
        if !d.contains(s.last()) {
            if d.push(s.last()).contains(x) {
                let k = choose|k: int| 0 <= k < d.push(s.last()).len() && d.push(s.last())[k] == x;
                if k < d.len() {
                    assert(d[k] == x);
                }
            }
            if d.contains(x) {
                let k = choose|k: int| 0 <= k < d.len() && d[k] == x;
                assert(d.push(s.last())[k] == x);
            }
            assert(d.push(s.last())[d.len() as int] == s.last());
        }
    }
}

proof fn lemma_distinct_no_dups(s: Seq<Seq<char>>)
    ensures
        distinct_in_order(s).no_duplicates(),
    decreases s.len(),
{
    if s.len() > 0 {
        lemma_distinct_no_dups(s.drop_last());
    }
}

proof fn lemma_indices_absent(s: Seq<Seq<char>>, x: Seq<char>)
    requires
        !s.contains(x),
    ensures
        indices_of(s, x) == Seq::<usize>::empty(),
    decreases s.len(),
{
    if s.len() > 0 {
        assert(s[s.len() - 1] == s.last());
        assert(!s.drop_last().contains(x)) by {
            if s.drop_last().contains(x) {
                let k = choose|k: int| 0 <= k < s.drop_last().len() && s.drop_last()[k] == x;
                assert(s[k] == x);
            }
        }
        lemma_indices_absent(s.drop_last(), x);
    }
}

/// Positions of a name are in range and hold that name.
pub proof fn lemma_indices_in_range(s: Seq<Seq<char>>, x: Seq<char>)
    requires
        s.len() <= usize::MAX,
    ensures
        forall|t: int|
            0 <= t < indices_of(s, x).len() ==> #[trigger] indices_of(s, x)[t] < s.len() && s[indices_of(
                s,
                x,
            )[t] as int] == x,
    decreases s.len(),
{
    if s.len() > 0 {
        lemma_indices_in_range(s.drop_last(), x);
        assert forall|t: int| 0 <= t < indices_of(s, x).len() implies #[trigger] indices_of(s, x)[t]
            < s.len() && s[indices_of(s, x)[t] as int] == x by {
            let prev = indices_of(s.drop_last(), x);
            if t < prev.len() {
                assert(indices_of(s, x)[t] == prev[t]);
                assert(s.drop_last()[prev[t] as int] == x);
                assert(s[prev[t] as int] == s.drop_last()[prev[t] as int]);
            } else {
                assert(s[s.len() - 1] == s.last());
            }
        }
    }
}

impl<'a> Engine<'a> {
    /// Builds the engine for a corpus: every book with the positions of its comments, and
    /// no results yet.
    pub fn from_data(data: &'a Data) -> (r: Engine<'a>)
        ensures
            r.data == data,
            r.well_formed(),
            r.positions_in_range(),
            r.index_view() == book_index(book_names(data@)),
            r.results@.len() == 0,
    {
        let ghost books = book_names(data@);
        let mut map: Vec<(&'a str, Vec<usize>)> = Vec::new();
        let n = data.comments.len();
        let mut idx: usize = 0;
        assert(books.take(0) =~= Seq::<Seq<char>>::empty());
        assert(map@.map_values(|e: (&'a str, Vec<usize>)| (e.0@, e.1@)) =~= book_index(books.take(0)));
        while idx < n
            invariant
                n == data.comments@.len(),
                books == book_names(data@),
                idx <= n,
                map@.map_values(|e: (&'a str, Vec<usize>)| (e.0@, e.1@)) == book_index(
                    books.take(idx as int),
                ),
            decreases n - idx,
        {
            let name: &'a str = data.comments[idx].book_name.as_str();
            let ghost pre = books.take(idx as int);
            let ghost post = books.take(idx + 1);
            assert(post =~= pre.push(name@));
            assert(post.drop_last() =~= pre);
            assert(books[idx as int] == name@);
            proof {
                lemma_distinct_no_dups(pre);
                lemma_distinct_contains(pre, name@);
            }
            let ghost old_view = map@.map_values(|e: (&'a str, Vec<usize>)| (e.0@, e.1@));
            let mut p: usize = 0;
            while p < map.len() && !str_eq(map[p].0, name)
                invariant
                    p <= map@.len(),
                    old_view == map@.map_values(|e: (&'a str, Vec<usize>)| (e.0@, e.1@)),
                    forall|q: int| 0 <= q < p ==> map@[q].0@ != name@,
                decreases map@.len() - p,
            {
                p = p + 1;
            }
            let found = p < map.len();
            let ghost d = distinct_in_order(pre);
            assert(old_view.len() == d.len());
            if found {
                assert(d[p as int] == name@) by {
                    assert(old_view[p as int].0 == d[p as int]);
                }
                map[p].1.push(idx);
                proof {
                    assert(d.contains(name@));
                    assert(distinct_in_order(post) == d);
                    let nv = map@.map_values(|e: (&'a str, Vec<usize>)| (e.0@, e.1@));
                    assert forall|q: int| 0 <= q < nv.len() implies nv[q] == book_index(post)[q] by {
                        assert(old_view[q] == book_index(pre)[q]);
                        if q != p {
                            assert(d[q] != name@);
                        }
                    }
                    assert(nv =~= book_index(post));
                }
            } else {
                proof {
                    assert(!d.contains(name@)) by {
                        if d.contains(name@) {
                            let k = choose|k: int| 0 <= k < d.len() && d[k] == name@;
                            assert(old_view[k].0 == d[k]);
                            assert(old_view[k].0 == map@[k].0@);
                        }
                    }
                    lemma_indices_absent(pre, name@);
                }
                let mut v: Vec<usize> = Vec::new();
                v.push(idx);
                map.push((name, v));
                proof {
                    assert(distinct_in_order(post) == d.push(name@));
                    let nv = map@.map_values(|e: (&'a str, Vec<usize>)| (e.0@, e.1@));
                    assert forall|q: int| 0 <= q < nv.len() implies nv[q] == book_index(post)[q] by {
                        if q < d.len() {
                            assert(old_view[q] == book_index(pre)[q]);
                            assert(d[q] != name@);
                        } else {
                            assert(indices_of(post, name@) =~= seq![idx]);
                        }
                    }
                    assert(nv =~= book_index(post));
                }
            }
            idx = idx + 1;
        }
        assert(books.take(n as int) =~= books);
        let r = Engine { data, map, results: Vec::new() };
        proof {
            let dist = distinct_in_order(books);
            assert forall|k: int, t: int|
                0 <= k < r.index_view().len() && 0 <= t < r.index_view()[k].1.len()
                    implies #[trigger] r.index_view()[k].1[t] < r.data@.len() by {
                assert(r.index_view()[k] == (dist[k], indices_of(books, dist[k])));
                lemma_indices_in_range(books, dist[k]);
            }
        }
        r
    }
}


/// A book's positions are exactly the positions of the comments naming it, in increasing
/// order: what `Engine::get_book` lists is every comment about the book and nothing else,
/// in corpus order.
pub proof fn lemma_indices_of(s: Seq<Seq<char>>, x: Seq<char>)
    requires
        s.len() <= usize::MAX,
    ensures
        forall|i: int| 0 <= i < s.len() && s[i] == x ==> #[trigger] indices_of(s, x).contains(i as usize),
        forall|t: int|
            0 <= t < indices_of(s, x).len() ==> #[trigger] indices_of(s, x)[t] < s.len() && s[indices_of(
                s,
                x,
            )[t] as int] == x,
        forall|t: int, u: int|
            0 <= t < u < indices_of(s, x).len() ==> #[trigger] indices_of(s, x)[t]
                < #[trigger] indices_of(s, x)[u],
    decreases s.len(),
{
    lemma_indices_in_range(s, x);
    if s.len() > 0 {
        let d = s.drop_last();
        lemma_indices_of(d, x);
        lemma_indices_in_range(d, x);
        let prev = indices_of(d, x);
        assert forall|i: int| 0 <= i < s.len() && s[i] == x implies #[trigger] indices_of(s, x).contains(
            i as usize,
        ) by {
            if i < s.len() - 1 {
                assert(d[i] == s[i]);
                assert(indices_of(d, x).contains(i as usize));
                let t = choose|t: int| 0 <= t < prev.len() && prev[t] == i as usize;
                assert(indices_of(s, x)[t] == prev[t]);
                assert(indices_of(s, x).len() >= prev.len());
            } else {
                assert(s.last() == s[i]);
                assert(indices_of(s, x)[prev.len() as int] == i as usize);
            }
        }
        assert forall|t: int, u: int| 0 <= t < u < indices_of(s, x).len() implies #[trigger] indices_of(
            s,
            x,
        )[t] < #[trigger] indices_of(s, x)[u] by {
            if u < prev.len() {
                assert(indices_of(s, x)[t] == prev[t]);
                assert(indices_of(s, x)[u] == prev[u]);
            } else {
                assert(indices_of(s, x)[t] == prev[t]);
                assert(prev[t] < d.len());
            }
        }
    }
}

proof fn lemma_matching_contains(
    d: Seq<CommentView>,
    index: Seq<(Seq<char>, Seq<usize>)>,
    pats: Seq<Seq<char>>,
    n: Seq<char>,
)
    ensures
        matching_books(d, index, pats).contains(n) <==> exists|k: int|
            0 <= k < index.len() && (#[trigger] index[k]).0 == n && all_mentioned(d, index[k].1, pats),
    decreases index.len(),
{
    if index.len() > 0 {
        let dl = index.drop_last();
        lemma_matching_contains(d, dl, pats, n);
        let m = matching_books(d, dl, pats);
        if exists|k: int| 0 <= k < dl.len() && (#[trigger] dl[k]).0 == n && all_mentioned(d, dl[k].1, pats) {
            let k = choose|k: int| 0 <= k < dl.len() && (#[trigger] dl[k]).0 == n && all_mentioned(d, dl[k].1, pats);
            assert(index[k] == dl[k]);
        }
        if exists|k: int| 0 <= k < index.len() && (#[trigger] index[k]).0 == n && all_mentioned(d, index[k].1, pats) {
            let k = choose|k: int| 0 <= k < index.len() && (#[trigger] index[k]).0 == n && all_mentioned(d, index[k].1, pats);
            if k < dl.len() {
                assert(dl[k] == index[k]);
            }
        }
        if all_mentioned(d, index.last().1, pats) {
            let mp = m.push(index.last().0);
            assert(mp[m.len() as int] == index.last().0);
            if mp.contains(n) {
                let j = choose|j: int| 0 <= j < mp.len() && mp[j] == n;
                if j < m.len() {
                    assert(m[j] == n);
                }
            }
            if m.contains(n) {
                let j = choose|j: int| 0 <= j < m.len() && m[j] == n;
                assert(mp[j] == n);
            }
        }
    }
}

/// What a search answers: a book is among the results exactly when some comment names it
/// and every pattern occurs in one of its comments; no book is listed twice.
pub proof fn lemma_search_results(d: Seq<CommentView>, pats: Seq<Seq<char>>, n: Seq<char>)
    ensures
        matching_books(d, book_index(book_names(d)), pats).contains(n) <==> book_names(d).contains(n)
            && all_mentioned(d, indices_of(book_names(d), n), pats),
        matching_books(d, book_index(book_names(d)), pats).no_duplicates(),
{
    let books = book_names(d);
    let index = book_index(books);
    let dist = distinct_in_order(books);
    lemma_matching_contains(d, index, pats, n);
    lemma_distinct_contains(books, n);
    lemma_distinct_no_dups(books);
    if books.contains(n) && all_mentioned(d, indices_of(books, n), pats) {
        let k = choose|k: int| 0 <= k < dist.len() && dist[k] == n;
        assert(index[k] == (dist[k], indices_of(books, dist[k])));
    }
    if matching_books(d, index, pats).contains(n) {
        let k = choose|k: int| 0 <= k < index.len() && (#[trigger] index[k]).0 == n && all_mentioned(d, index[k].1, pats);
        assert(index[k] == (dist[k], indices_of(books, dist[k])));
        assert(dist.contains(n));
    }
    lemma_matching_no_dups(d, index, pats);
}

/// What a search over the index of a corpus answers, stated on the comments themselves: a
/// book is among the results exactly when some comment names it and, for every pattern,
/// some comment naming the book holds that pattern in its text. No other comment of the
/// book matters.
pub proof fn lemma_search_finds(d: Seq<CommentView>, pats: Seq<Seq<char>>, n: Seq<char>)
    requires
        d.len() <= usize::MAX,
    ensures
        matching_books(d, book_index(book_names(d)), pats).contains(n) <==> (exists|i: int|
            0 <= i < d.len() && #[trigger] d[i].book_name == n) && forall|j: int|
            #![trigger pats[j]]
            0 <= j < pats.len() ==> exists|i: int|
                0 <= i < d.len() && d[i].book_name == n && contains_bytes(
                    utf8(#[trigger] d[i].content),
                    utf8(pats[j]),
                ),
{
    let books = book_names(d);
    let idx = indices_of(books, n);
    lemma_search_results(d, pats, n);
    lemma_indices_of(books, n);
    assert(books.len() == d.len());
    assert(books.contains(n) <==> exists|i: int| 0 <= i < d.len() && #[trigger] d[i].book_name == n) by {
        if books.contains(n) {
            let i = choose|i: int| 0 <= i < books.len() && books[i] == n;
            assert(d[i].book_name == books[i]);
        }
        if exists|i: int| 0 <= i < d.len() && #[trigger] d[i].book_name == n {
            let i = choose|i: int| 0 <= i < d.len() && #[trigger] d[i].book_name == n;
            assert(books[i] == n);
        }
    }
    assert forall|j: int|
        #![trigger pats[j]]
        #![trigger some_comment_mentions(d, idx, pats[j])]
        0 <= j < pats.len() implies (some_comment_mentions(d, idx, pats[j]) <==> exists|i: int|
        0 <= i < d.len() && d[i].book_name == n && contains_bytes(utf8(#[trigger] d[i].content), utf8(pats[j]))) by {
        if some_comment_mentions(d, idx, pats[j]) {
            let t = choose|t: int| 0 <= t < idx.len() && contains_bytes(utf8(d[idx[t] as int].content), utf8(pats[j]));
            let i = idx[t] as int;
            assert(books[i] == n);
            assert(d[i].book_name == books[i]);
        }
        if exists|i: int| 0 <= i < d.len() && d[i].book_name == n && contains_bytes(utf8(#[trigger] d[i].content), utf8(pats[j])) {
            let i = choose|i: int| 0 <= i < d.len() && d[i].book_name == n && contains_bytes(utf8(#[trigger] d[i].content), utf8(pats[j]));
            assert(books[i] == n);
            assert(idx.contains(i as usize));
            let t = choose|t: int| 0 <= t < idx.len() && idx[t] == i as usize;
            assert(contains_bytes(utf8(d[idx[t] as int].content), utf8(pats[j])));
        }
    }
    if all_mentioned(d, idx, pats) {
        assert forall|j: int| #![trigger pats[j]] 0 <= j < pats.len() implies exists|i: int|
            0 <= i < d.len() && d[i].book_name == n && contains_bytes(utf8(#[trigger] d[i].content), utf8(pats[j])) by {
            assert(some_comment_mentions(d, idx, pats[j]));
        }
    } else {
        let j = choose|j: int| 0 <= j < pats.len() && !#[trigger] some_comment_mentions(d, idx, pats[j]);
        assert(!exists|i: int|
            0 <= i < d.len() && d[i].book_name == n && contains_bytes(utf8(#[trigger] d[i].content), utf8(pats[j])));
    }
}

proof fn lemma_matching_no_dups(
    d: Seq<CommentView>,
    index: Seq<(Seq<char>, Seq<usize>)>,
    pats: Seq<Seq<char>>,
)
    requires
        index.map_values(|e: (Seq<char>, Seq<usize>)| e.0).no_duplicates(),
    ensures
        matching_books(d, index, pats).no_duplicates(),
    decreases index.len(),
{
    if index.len() > 0 {
        let dl = index.drop_last();
        let f = |e: (Seq<char>, Seq<usize>)| e.0;
        assert(dl.map_values(f).no_duplicates()) by {
            assert forall|i: int, j: int| 0 <= i < dl.len() && 0 <= j < dl.len() && i != j implies dl.map_values(f)[i] != dl.map_values(f)[j] by {
                assert(index.map_values(f)[i] != index.map_values(f)[j]);
            }
        }
        lemma_matching_no_dups(d, dl, pats);
        let m = matching_books(d, dl, pats);
        if all_mentioned(d, index.last().1, pats) {
            let x = index.last().0;
            lemma_matching_contains(d, dl, pats, x);
            if m.contains(x) {
                let k = choose|k: int| 0 <= k < dl.len() && (#[trigger] dl[k]).0 == x && all_mentioned(d, dl[k].1, pats);
                assert(index.map_values(f)[k] == index.map_values(f)[index.len() - 1]);
            }
            let mp = m.push(x);
            assert forall|i: int, j: int| 0 <= i < mp.len() && 0 <= j < mp.len() && i != j implies mp[i] != mp[j] by {
                if i < m.len() && j < m.len() {
                } else if i < m.len() {
                    assert(m.contains(mp[i]));
                } else {
                    assert(m.contains(mp[j]));
                }
            }
        }
    }
}

/// Whether some comment at the positions `list` of the corpus mentions `pat`.
fn some_mentions(data: &Data, list: &Vec<usize>, pat: &str) -> (r: bool)
    requires
        forall|t: int| 0 <= t < list@.len() ==> #[trigger] list@[t] < data.comments@.len(),
    ensures
        r == some_comment_mentions(data@, list@, pat@),
{
    let mut t: usize = 0;
    while t < list.len()
        invariant
            t <= list@.len(),
            forall|u: int| 0 <= u < list@.len() ==> #[trigger] list@[u] < data.comments@.len(),
            forall|u: int|
                0 <= u < t ==> !contains_bytes(
                    utf8(data@[list@[u] as int].content),
                    utf8(pat@),
                ),
        decreases list@.len() - t,
    {
        let c = &data.comments[list[t]];
        if contains_slice(c.content.as_str().as_bytes(), pat.as_bytes()) {
            assert(data@[list@[t as int] as int].content == c.content@);
            return true;
        }
        assert(data@[list@[t as int] as int].content == c.content@);
        t = t + 1;
    }
    false
}

impl<'a> Engine<'a> {
    /// The texts of the comments at the positions of a book's entry, in the entry's order;
    /// `None` when the index has no entry for the book. On the index of the corpus, these
    /// are the book's comments in corpus order.
    pub fn get_book(&self, book_name: &str) -> (r: Option<Vec<&'a str>>)
        requires
            self.positions_in_range(),
        ensures
            r is Some <==> entry_positions(self.index_view(), book_name@) is Some,
            r matches Some(v) ==> v@.map_values(|s: &'a str| s@) == entry_positions(
                self.index_view(),
                book_name@,
            )->0.map_values(|i: usize| self.data@[i as int].content),
            self.well_formed() ==> (r is Some <==> book_names(self.data@).contains(book_name@)),
            self.well_formed() ==> (r matches Some(v) ==> v@.map_values(|s: &'a str| s@) == indices_of(
                book_names(self.data@),
                book_name@,
            ).map_values(|i: usize| self.data@[i as int].content)),
    {
        let ghost index = self.index_view();
        let mut p: usize = 0;
        while p < self.map.len() && !str_eq(self.map[p].0, book_name)
            invariant
                p <= self.map@.len(),
                index == self.index_view(),
                forall|q: int| 0 <= q < p ==> self.map@[q].0@ != book_name@,
            decreases self.map@.len() - p,
        {
            p = p + 1;
        }
        proof {
            assert forall|q: int| 0 <= q < p implies (#[trigger] index[q]).0 != book_name@ by {
                assert(index[q] == (self.map@[q].0@, self.map@[q].1@));
            }
            lemma_entry_positions_first(index, book_name@, p as int);
            lemma_index_entries(self.data@, book_name@);
        }
        if p == self.map.len() {
            return None;
        }
        let list = &self.map[p].1;
        let ghost idx = list@;
        proof {
            assert(index[p as int] == (self.map@[p as int].0@, list@));
            assert forall|u: int| 0 <= u < idx.len() implies #[trigger] idx[u] < self.data@.len() by {
                assert(index[p as int].1[u] == idx[u]);
            }
        }
        let mut out: Vec<&'a str> = Vec::with_capacity(list.len());
        let mut t: usize = 0;
        while t < list.len()
            invariant
                list@ == idx,
                self.data@.len() == self.data.comments@.len(),
                forall|u: int| 0 <= u < idx.len() ==> #[trigger] idx[u] < self.data@.len(),
                t <= list@.len(),
                out@.map_values(|s: &'a str| s@) == idx.take(t as int).map_values(
                    |i: usize| self.data@[i as int].content,
                ),
            decreases list@.len() - t,
        {
            let x = list[t];
            assert(x < self.data@.len());
            let s: &'a str = self.data.comments[x].content.as_str();
            let ghost before = out@;
            out.push(s);
            proof {
                let f = |s: &'a str| s@;
                let g = |i: usize| self.data@[i as int].content;
                assert(out@.map_values(f) =~= before.map_values(f).push(s@));
                assert(idx.take(t + 1) =~= idx.take(t as int).push(x));
                assert(idx.take(t + 1).map_values(g) =~= idx.take(t as int).map_values(g).push(
                    g(x),
                ));
            }
            t = t + 1;
        }
        assert(idx.take(t as int) =~= idx);
        Some(out)
    }

    /// Keeps as results the books some comment of which mentions each pattern, in index
    /// order; the corpus and the index are unchanged.
    pub fn search(&mut self, pattern: &[&str])
        requires
            old(self).positions_in_range(),
        ensures
            final(self).data == old(self).data,
            final(self).map@ == old(self).map@,
            final(self).positions_in_range(),
            final(self).well_formed() == old(self).well_formed(),
            final(self).results_view() == matching_books(
                old(self).data@,
                old(self).index_view(),
                pattern@.map_values(|p: &str| p@),
            ),
    {
        let ghost index = self.index_view();
        let ghost pats = pattern@.map_values(|p: &str| p@);
        let ghost d = self.data@;
        let mut results: Vec<&'a str> = Vec::new();
        let mut k: usize = 0;
        assert(index.take(0) =~= Seq::<(Seq<char>, Seq<usize>)>::empty());
        while k < self.map.len()
            invariant
                self.positions_in_range(),
                index == self.index_view(),
                d == self.data@,
                d.len() == self.data.comments@.len(),
                pats == pattern@.map_values(|p: &str| p@),
                k <= self.map@.len(),
                results@.map_values(|r: &'a str| r@) == matching_books(d, index.take(k as int), pats),
            decreases self.map@.len() - k,
        {
            let list = &self.map[k].1;
            let ghost name = self.map@[k as int].0@;
            proof {
                assert(index[k as int] == (name, list@));
                assert forall|t: int| 0 <= t < list@.len() implies #[trigger] list@[t]
                    < self.data.comments@.len() by {
                    assert(index[k as int].1[t] == list@[t]);
                }
            }
            let mut j: usize = 0;
            let mut all = true;
            while j < pattern.len()
                invariant
                    j <= pattern@.len(),
                    pats == pattern@.map_values(|p: &str| p@),
                    d == self.data@,
                    forall|t: int| 0 <= t < list@.len() ==> #[trigger] list@[t] < self.data.comments@.len(),
                    all <==> forall|u: int| 0 <= u < j ==> #[trigger] some_comment_mentions(d, list@, pats[u]),
                decreases pattern@.len() - j,
            {
                assert(pats[j as int] == pattern@[j as int]@);
                if !some_mentions(self.data, list, pattern[j]) {
                    all = false;
                }
                j = j + 1;
            }
            let ghost before = results@;
            if all {
                results.push(self.map[k].0);
            }
            proof {
                let f = |r: &'a str| r@;
                let sub = index.take(k + 1);
                assert(sub.drop_last() =~= index.take(k as int));
                assert(sub.last() == index[k as int]);
                assert(index[k as int] == (name, list@));
                assert(all == all_mentioned(d, list@, pats));
                if all {
                    assert(results@.map_values(f) =~= before.map_values(f).push(name));
                } else {
                    assert(results@.map_values(f) =~= before.map_values(f));
                }
            }
            k = k + 1;
        }
        assert(index.take(k as int) =~= index);
        self.results = results;
    }
}

} // verus!
