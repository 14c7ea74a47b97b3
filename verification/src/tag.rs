//! Tag analysis: counting the runs of one to five consecutive words of the comments that are
//! neither a single character nor hold a stop word.
use vstd::prelude::*;
use vstd::utf8::*;
use vstd::string::StringSliceAdditionalSpecFns;
use vstd::string::StrSliceExecFns;
use dashmap::DashMap;
use crate::text::{utf8, contains_bytes, contains_slice, str_range, lemma_str_valid};
use crate::cut::{cut_offset, cut_bound, cut_fits, cut_words, concat_all, lemma_cut_offset_mono};
use crate::{Comment, CommentView};

verus! {

/// The stop words: a run holding any of them is not a tag.
pub open spec fn stop_words() -> Seq<Seq<char>> {
    seq![
        ","@,
        "-"@,
        "/"@,
        "\n"@,
        " "@,
        "_"@,
        "+"@,
        "-"@,
        "，"@,
        "，"@,
        "。"@,
        "："@,
        "　　"@,
        "—"@,
        "　"@,
        "("@,
        ")"@,
        "（"@,
        "）"@,
        "1"@,
        "2"@,
        "3"@,
        "4"@,
        "5"@,
        "6"@,
        "7"@,
        "8"@,
        "9"@,
        "0"@,
        "."@,
        ":"@,
        "@"@,
        "·"@,
        "《"@,
        "》"@,
        "的"@,
        "地"@,
        "得"@,
        "着"@,
        "了"@,
        "过"@,
        "所"@,
        "和"@,
        "与"@,
        "及"@,
        "或"@,
        "但"@,
        "而"@,
        "若"@,
        "因"@,
        "所以"@,
        "因为"@,
        "于是"@,
        "在"@,
        "于"@,
        "从"@,
        "到"@,
        "对"@,
        "对于"@,
        "关于"@,
        "把"@,
        "被"@,
        "由"@,
        "我"@,
        "你"@,
        "他"@,
        "她"@,
        "它"@,
        "我们"@,
        "你们"@,
        "他们"@,
        "这"@,
        "那"@,
        "此"@,
        "其"@,
        "谁"@,
        "什么"@,
        "很"@,
        "非常"@,
        "太"@,
        "也"@,
        "又"@,
        "还"@,
        "都"@,
        "只"@,
        "就"@,
        "才"@,
        "呀"@,
        "啊"@,
        "呢"@,
        "吗"@,
        "吧"@,
        "一"@,
        "二"@,
        "三"@,
        "个"@,
        "只"@,
        "本"@,
        "上"@,
        "下"@,
        "左"@,
        "右"@,
        "前"@,
        "后"@,
        "里"@,
        "外"@,
        "以"@,
        "者"@,
        "之"@,
        "怎"@,
        "么"@,
        "、"@,
        "】"@,
        "【"@,
        "？"@,
        "?"@,
        "!"@,
        "！"@
    ]
}

/// The stop words, in the same order.
pub fn stop_list() -> (r: Vec<&'static str>)
    ensures
        r@.map_values(|s: &'static str| s@) == stop_words(),
{
    let r = vec![
        ",",
        "-",
        "/",
        "\n",
        " ",
        "_",
        "+",
        "-",
        "，",
        "，",
        "。",
        "：",
        "　　",
        "—",
        "　",
        "(",
        ")",
        "（",
        "）",
        "1",
        "2",
        "3",
        "4",
        "5",
        "6",
        "7",
        "8",
        "9",
        "0",
        ".",
        ":",
        "@",
        "·",
        "《",
        "》",
        "的",
        "地",
        "得",
        "着",
        "了",
        "过",
        "所",
        "和",
        "与",
        "及",
        "或",
        "但",
        "而",
        "若",
        "因",
        "所以",
        "因为",
        "于是",
        "在",
        "于",
        "从",
        "到",
        "对",
        "对于",
        "关于",
        "把",
        "被",
        "由",
        "我",
        "你",
        "他",
        "她",
        "它",
        "我们",
        "你们",
        "他们",
        "这",
        "那",
        "此",
        "其",
        "谁",
        "什么",
        "很",
        "非常",
        "太",
        "也",
        "又",
        "还",
        "都",
        "只",
        "就",
        "才",
        "呀",
        "啊",
        "呢",
        "吗",
        "吧",
        "一",
        "二",
        "三",
        "个",
        "只",
        "本",
        "上",
        "下",
        "左",
        "右",
        "前",
        "后",
        "里",
        "外",
        "以",
        "者",
        "之",
        "怎",
        "么",
        "、",
        "】",
        "【",
        "？",
        "?",
        "!",
        "！"
    ];
    assert(r@.map_values(|s: &'static str| s@) =~= stop_words());
    r
}


/// A run of words is a tag when no stop word occurs in it and it is not a single character.
pub open spec fn is_tag(sel: Seq<u8>) -> bool {
    &&& forall|k: int| 0 <= k < stop_words().len() ==> !contains_bytes(sel, #[trigger] utf8(stop_words()[k]))
    &&& decode_utf8(sel).len() != 1
}

/// The bytes of the run of `j + 1` words starting at word `i` of a text cut by `c`.
pub open spec fn run_bytes(b: Seq<u8>, c: Seq<u8>, i: int, j: int) -> Seq<u8> {
    b.subrange(cut_offset(c, i + 1), cut_bound(c, b.len() as int, i + j + 2))
}

/// The tags among the runs starting at word `i` of lengths 1 to `j`.
pub open spec fn row_tags(b: Seq<u8>, c: Seq<u8>, i: int, j: int) -> Seq<Seq<char>>
    decreases j,
{
    if j <= 0 {
        seq![]
    } else if i + (j - 1) < c.len() && is_tag(run_bytes(b, c, i, j - 1)) {
        row_tags(b, c, i, j - 1).push(decode_utf8(run_bytes(b, c, i, j - 1)))
    } else {
        row_tags(b, c, i, j - 1)
    }
}

/// The tags among the runs of up to five words starting at the first `i` words.
pub open spec fn text_tags(b: Seq<u8>, c: Seq<u8>, i: int) -> Seq<Seq<char>>
    decreases i,
{
    if i <= 0 {
        seq![]
    } else {
        text_tags(b, c, i - 1) + row_tags(b, c, i - 1, 5)
    }
}

/// The tags of a comment with a word cut.
pub open spec fn comment_tags(c: CommentView) -> Seq<Seq<char>> {
    let cut = c.words_cut->0;
    text_tags(utf8(c.content), cut, cut.len() as int)
}

/// The tags of the first `k` comments, one comment after another.
pub open spec fn all_tags(cs: Seq<CommentView>, k: int) -> Seq<Seq<char>>
    decreases k,
{
    if k <= 0 {
        seq![]
    } else {
        all_tags(cs, k - 1) + comment_tags(cs[k - 1])
    }
}

/// How often `x` occurs in `s`.
pub open spec fn occurrences(s: Seq<Seq<char>>, x: Seq<char>) -> nat
    decreases s.len(),
{
    if s.len() == 0 {
        0
    } else {
        occurrences(s.drop_last(), x) + if s.last() == x {
            1nat
        } else {
            0nat
        }
    }
}

/// Each element of `s` with how often it occurs.
pub open spec fn tally(s: Seq<Seq<char>>) -> Map<Seq<char>, u32> {
    Map::new(|x: Seq<char>| occurrences(s, x) > 0, |x: Seq<char>| occurrences(s, x) as u32)
}

/// Comments that tag analysis can read: each has a word cut that fits its text.
pub open spec fn taggable(cs: Seq<CommentView>) -> bool {
    forall|k: int|
        0 <= k < cs.len() ==> (#[trigger] cs[k]).words_cut is Some && cut_fits(
            utf8(cs[k].content),
            cs[k].words_cut->0,
        )
}

/// The views of borrowed comments.
pub open spec fn comment_views(all: Seq<&Comment>) -> Seq<CommentView> {
    all.map_values(|c: &Comment| c@)
}

/// Total byte length of the first `k` comment texts.
pub open spec fn total_len(cs: Seq<CommentView>, k: int) -> int
    decreases k,
{
    if k <= 0 {
        0
    } else {
        total_len(cs, k - 1) + utf8(cs[k - 1].content).len()
    }
}

#[verifier::external_type_specification]
#[verifier::external_body]
#[verifier::reject_recursive_types(K)]
#[verifier::reject_recursive_types(V)]
#[verifier::reject_recursive_types(S)]
pub struct ExDashMap<K, V, S>(DashMap<K, V, S>);

/// A map from tag to count.
pub type TagCounts<'a> = DashMap<&'a str, u32>;

/// What a tag map holds: each key's text with its count.
pub uninterp spec fn dashmap_counts(m: DashMap<&str, u32>) -> Map<Seq<char>, u32>;

/// `DashMap::with_capacity(cap)`. Trusted: the new map is empty.
#[verifier::external_body]
fn counts_with_capacity<'a>(cap: usize) -> (fresh: TagCounts<'a>)
    ensures
        dashmap_counts(fresh).dom() == Set::<Seq<char>>::empty(),
{
    DashMap::with_capacity(cap)
}

/// `DashMap::get(key)`, copying the value out. Trusted: the count held for the key's text.
#[verifier::external_body]
fn counts_get(m: &TagCounts, key: &str) -> (r: Option<u32>)
    ensures
        r == dashmap_counts(*m).get(key@),
{
    match m.get(key) {
        Some(v) => Some(*v),
        None => None,
    }
}

/// `DashMap::insert(key, value)`. Trusted: afterwards the key's text maps to `value` and
/// every other entry is unchanged.
#[verifier::external_body]
fn counts_insert<'a>(m: &mut TagCounts<'a>, key: &'a str, value: u32)
    ensures
        dashmap_counts(*final(m)) == dashmap_counts(*old(m)).insert(key@, value),
{
    m.insert(key, value);
}


/// Every run that tag analysis weighs is a run of consecutive words of the comment, as
/// `Comment::words` gives them: the `j + 1` words starting at word `i`, joined.
pub proof fn lemma_runs_are_words(b: Seq<u8>, c: Seq<u8>, i: int, j: int)
    requires
        cut_fits(b, c),
        0 <= i,
        0 <= j,
        i + j < c.len(),
    ensures
        run_bytes(b, c, i, j) == concat_all(cut_words(b, c).subrange(i, i + j + 1)),
    decreases j,
{
    let len = b.len() as int;
    let ws = cut_words(b, c);
    lemma_cut_offset_mono(c, i + 1, i + j + 1);
    assert(cut_offset(c, i + j + 1) <= len);
    if i + j + 2 <= c.len() {
        lemma_cut_offset_mono(c, i + j + 1, i + j + 2);
        assert(cut_offset(c, i + j + 2) <= len);
    }
    let sub = ws.subrange(i, i + j + 1);
    if j == 0 {
        assert(sub =~= seq![ws[i]]);
        assert(sub.drop_last() =~= Seq::<Seq<u8>>::empty());
        assert(concat_all(Seq::<Seq<u8>>::empty()) =~= Seq::<u8>::empty());
        assert(sub.last() == ws[i]);
        assert(concat_all(sub) =~= ws[i]);
    } else {
        lemma_runs_are_words(b, c, i, j - 1);
        assert(sub.drop_last() =~= ws.subrange(i, i + j));
        assert(sub.last() == ws[i + j]);
        assert(run_bytes(b, c, i, j) =~= run_bytes(b, c, i, j - 1) + ws[i + j]);
    }
}

/// The tags of the first `k` comments depend on those comments alone.
proof fn lemma_all_tags_prefix(a: Seq<CommentView>, b: Seq<CommentView>, k: int)
    requires
        0 <= k <= a.len(),
        k <= b.len(),
        forall|i: int| 0 <= i < k ==> a[i] == b[i],
    ensures
        all_tags(a, k) == all_tags(b, k),
    decreases k,
{
    if k > 0 {
        lemma_all_tags_prefix(a, b, k - 1);
    }
}

/// How often `x` is a tag of the comments `cs`.
pub open spec fn tag_count(cs: Seq<CommentView>, x: Seq<char>) -> nat {
    occurrences(all_tags(cs, cs.len() as int), x)
}

proof fn lemma_tag_count_last(cs: Seq<CommentView>, x: Seq<char>)
    requires
        cs.len() > 0,
    ensures
        tag_count(cs, x) == tag_count(cs.drop_last(), x) + occurrences(comment_tags(cs.last()), x),
{
    let n = cs.len() as int;
    lemma_all_tags_prefix(cs, cs.drop_last(), n - 1);
    lemma_occurrences_concat(all_tags(cs, n - 1), comment_tags(cs[n - 1]), x);
}

/// Tag counts add up over joined lists of comments: the tags of `a + b` are those of `a`
/// followed by those of `b`, so each count is the sum of the two.
pub proof fn lemma_tag_counts_add(a: Seq<CommentView>, b: Seq<CommentView>)
    ensures
        all_tags(a + b, (a + b).len() as int) == all_tags(a, a.len() as int) + all_tags(b, b.len() as int),
        forall|x: Seq<char>| #[trigger] tag_count(a + b, x) == tag_count(a, x) + tag_count(b, x),
    decreases b.len(),
{
    if b.len() == 0 {
        assert(a + b =~= a);
        assert(all_tags(a, a.len() as int) + all_tags(b, 0) =~= all_tags(a, a.len() as int));
    } else {
        let bl = b.drop_last();
        lemma_tag_counts_add(a, bl);
        let ab = a + b;
        let n = ab.len() as int;
        assert(ab.drop_last() =~= a + bl);
        lemma_all_tags_prefix(ab, a + bl, n - 1);
        lemma_all_tags_prefix(b, bl, bl.len() as int);
        assert(ab[n - 1] == b.last());
        assert(all_tags(ab, n) =~= all_tags(a, a.len() as int) + all_tags(b, b.len() as int));
    }
    assert forall|x: Seq<char>| #[trigger] tag_count(a + b, x) == tag_count(a, x) + tag_count(b, x) by {
        lemma_occurrences_concat(all_tags(a, a.len() as int), all_tags(b, b.len() as int), x);
    }
}

proof fn lemma_tag_count_remove(cs: Seq<CommentView>, j: int, x: Seq<char>)
    requires
        0 <= j < cs.len(),
    ensures
        tag_count(cs, x) == tag_count(cs.remove(j), x) + occurrences(comment_tags(cs[j]), x),
    decreases cs.len(),
{
    let n = cs.len() as int;
    lemma_tag_count_last(cs, x);
    if j == n - 1 {
        assert(cs.remove(j) =~= cs.drop_last());
    } else {
        let r = cs.remove(j);
        let dl = cs.drop_last();
        lemma_tag_count_remove(dl, j, x);
        assert(r.drop_last() =~= dl.remove(j));
        assert(r.last() == cs.last());
        assert(dl[j] == cs[j]);
        lemma_tag_count_last(r, x);
    }
}

proof fn lemma_total_len_prefix(a: Seq<CommentView>, b: Seq<CommentView>, k: int)
    requires
        0 <= k <= a.len(),
        k <= b.len(),
        forall|i: int| 0 <= i < k ==> a[i] == b[i],
    ensures
        total_len(a, k) == total_len(b, k),
    decreases k,
{
    if k > 0 {
        lemma_total_len_prefix(a, b, k - 1);
    }
}

proof fn lemma_total_len_remove(cs: Seq<CommentView>, j: int)
    requires
        0 <= j < cs.len(),
    ensures
        total_len(cs, cs.len() as int) == total_len(cs.remove(j), cs.len() - 1) + utf8(cs[j].content).len(),
    decreases cs.len(),
{
    let n = cs.len() as int;
    let r = cs.remove(j);
    let dl = cs.drop_last();
    lemma_total_len_prefix(cs, dl, n - 1);
    if j == n - 1 {
        assert(r =~= dl);
    } else {
        lemma_total_len_remove(dl, j);
        assert(r.drop_last() =~= dl.remove(j));
        lemma_total_len_prefix(r, r.drop_last(), n - 2);
        assert(r[n - 2] == cs[n - 1]);
    }
}

/// Every comment of `b` is one of `a` when the two hold the same comments: so `b` can be
/// tagged when `a` can.
proof fn lemma_taggable_permutation(a: Seq<CommentView>, b: Seq<CommentView>)
    requires
        a.to_multiset() == b.to_multiset(),
        taggable(a),
    ensures
        taggable(b),
{
    assert forall|k: int| 0 <= k < b.len() implies (#[trigger] b[k]).words_cut is Some && cut_fits(
        utf8(b[k].content),
        b[k].words_cut->0,
    ) by {
        assert(b.contains(b[k]));
        vstd::seq_lib::to_multiset_contains(b, b[k]);
        vstd::seq_lib::to_multiset_contains(a, b[k]);
        let i = choose|i: int| 0 <= i < a.len() && a[i] == b[k];
        assert(a[i] == b[k]);
    }
}

/// Tag counts do not depend on the order of the comments: two lists holding the same
/// comments, each as often, give the same counts; and one can be tagged, within the same
/// bounds, exactly when the other can.
pub proof fn lemma_tag_counts_permutation(a: Seq<CommentView>, b: Seq<CommentView>)
    requires
        a.to_multiset() == b.to_multiset(),
    ensures
        forall|x: Seq<char>| #[trigger] tag_count(a, x) == tag_count(b, x),
        tally(all_tags(a, a.len() as int)) == tally(all_tags(b, b.len() as int)),
        taggable(a) <==> taggable(b),
        total_len(a, a.len() as int) == total_len(b, b.len() as int),
    decreases a.len(),
{
    vstd::seq_lib::to_multiset_len(a);
    vstd::seq_lib::to_multiset_len(b);
    if taggable(a) {
        lemma_taggable_permutation(a, b);
    }
    if taggable(b) {
        lemma_taggable_permutation(b, a);
    }
    if a.len() > 0 {
        let l = a.last();
        let dl = a.drop_last();
        assert(a =~= dl.push(l));
        vstd::seq_lib::to_multiset_build(dl, l);
        vstd::seq_lib::to_multiset_contains(b, l);
        assert(a.to_multiset().count(l) > 0);
        let j = choose|j: int| 0 <= j < b.len() && b[j] == l;
        let br = b.remove(j);
        vstd::seq_lib::to_multiset_remove(b, j);
        assert(br.to_multiset() =~= dl.to_multiset()) by {
            broadcast use vstd::multiset::group_multiset_axioms;
        }
        lemma_tag_counts_permutation(dl, br);
        assert forall|x: Seq<char>| #[trigger] tag_count(a, x) == tag_count(b, x) by {
            lemma_tag_count_last(a, x);
            lemma_tag_count_remove(b, j, x);
        }
        lemma_total_len_remove(b, j);
        lemma_total_len_prefix(a, dl, dl.len() as int);
    }
    assert(tally(all_tags(a, a.len() as int)) =~= tally(all_tags(b, b.len() as int))) by {
        assert forall|x: Seq<char>| #[trigger] occurrences(all_tags(a, a.len() as int), x)
            == occurrences(all_tags(b, b.len() as int), x) by {
            assert(tag_count(a, x) == tag_count(b, x));
        }
    }
}

/// Occurrences add up over a concatenation.
pub proof fn lemma_occurrences_concat(a: Seq<Seq<char>>, b: Seq<Seq<char>>, x: Seq<char>)
    ensures
        occurrences(a + b, x) == occurrences(a, x) + occurrences(b, x),
    decreases b.len(),
{
    if b.len() == 0 {
        assert(a + b =~= a);
    } else {
        lemma_occurrences_concat(a, b.drop_last(), x);
        assert((a + b).drop_last() =~= a + b.drop_last());
        assert((a + b).last() == b.last());
    }
}

/// Counting one more element.
proof fn lemma_tally_push(s: Seq<Seq<char>>, x: Seq<char>)
    requires
        occurrences(s, x) + 1 <= u32::MAX,
    ensures
        tally(s.push(x)) == tally(s).insert(x, (occurrences(s, x) + 1) as u32),
{
    assert(s.push(x).drop_last() =~= s);
    assert(tally(s.push(x)) =~= tally(s).insert(x, (occurrences(s, x) + 1) as u32));
}

/// Shorter rows hold fewer of each tag.
proof fn lemma_row_mono(b: Seq<u8>, c: Seq<u8>, i: int, j: int, j2: int, x: Seq<char>)
    requires
        0 <= j <= j2,
    ensures
        occurrences(row_tags(b, c, i, j), x) <= occurrences(row_tags(b, c, i, j2), x),
    decreases j2 - j,
{
    if j < j2 {
        lemma_row_mono(b, c, i, j, j2 - 1, x);
        let r = row_tags(b, c, i, j2 - 1);
        if i + (j2 - 1) < c.len() && is_tag(run_bytes(b, c, i, j2 - 1)) {
            assert(r.push(decode_utf8(run_bytes(b, c, i, j2 - 1))).drop_last() =~= r);
        }
    }
}

/// Fewer rows hold fewer of each tag.
proof fn lemma_text_mono(b: Seq<u8>, c: Seq<u8>, i: int, i2: int, x: Seq<char>)
    requires
        0 <= i <= i2,
    ensures
        occurrences(text_tags(b, c, i), x) <= occurrences(text_tags(b, c, i2), x),
    decreases i2 - i,
{
    if i < i2 {
        lemma_text_mono(b, c, i, i2 - 1, x);
        lemma_occurrences_concat(text_tags(b, c, i2 - 1), row_tags(b, c, i2 - 1, 5), x);
    }
}

/// Fewer comments hold fewer of each tag.
proof fn lemma_all_mono(cs: Seq<CommentView>, k: int, k2: int, x: Seq<char>)
    requires
        0 <= k <= k2,
    ensures
        occurrences(all_tags(cs, k), x) <= occurrences(all_tags(cs, k2), x),
    decreases k2 - k,
{
    if k < k2 {
        lemma_all_mono(cs, k, k2 - 1, x);
        lemma_occurrences_concat(all_tags(cs, k2 - 1), comment_tags(cs[k2 - 1]), x);
    }
}

/// The total text length only grows.
proof fn lemma_total_len_mono(cs: Seq<CommentView>, k: int, k2: int)
    requires
        0 <= k <= k2,
    ensures
        0 <= total_len(cs, k) <= total_len(cs, k2),
    decreases k2 - k,
{
    if k < k2 {
        lemma_total_len_mono(cs, k, k2 - 1);
    } else {
        lemma_total_len_nonneg(cs, k);
    }
}

proof fn lemma_total_len_nonneg(cs: Seq<CommentView>, k: int)
    ensures
        0 <= total_len(cs, k),
    decreases k,
{
    if k > 0 {
        lemma_total_len_nonneg(cs, k - 1);
    }
}

/// The number of word-cut entries of the first `k` comments.
pub open spec fn cut_total(cs: Seq<CommentView>, k: int) -> int
    decreases k,
{
    if k <= 0 {
        0
    } else {
        cut_total(cs, k - 1) + cs[k - 1].words_cut->0.len()
    }
}

proof fn lemma_cut_total_mono(cs: Seq<CommentView>, k: int, k2: int)
    requires
        0 <= k <= k2,
    ensures
        0 <= cut_total(cs, k) <= cut_total(cs, k2),
    decreases k2,
{
    if k < k2 {
        lemma_cut_total_mono(cs, k, k2 - 1);
    } else if k > 0 {
        lemma_cut_total_mono(cs, k - 1, k - 1);
    }
}

proof fn lemma_occurrences_at_most_len(s: Seq<Seq<char>>, x: Seq<char>)
    ensures
        occurrences(s, x) <= s.len(),
    decreases s.len(),
{
    if s.len() > 0 {
        lemma_occurrences_at_most_len(s.drop_last(), x);
    }
}

proof fn lemma_row_tags_len(b: Seq<u8>, c: Seq<u8>, i: int, j: int)
    requires
        0 <= j,
    ensures
        row_tags(b, c, i, j).len() <= j,
    decreases j,
{
    if j > 0 {
        lemma_row_tags_len(b, c, i, j - 1);
    }
}

proof fn lemma_text_tags_len(b: Seq<u8>, c: Seq<u8>, i: int)
    requires
        0 <= i,
    ensures
        text_tags(b, c, i).len() <= 5 * i,
    decreases i,
{
    if i > 0 {
        lemma_text_tags_len(b, c, i - 1);
        lemma_row_tags_len(b, c, i - 1, 5);
    }
}

/// Each word-cut entry starts at most five runs, so the comments yield at most five tags
/// per entry, and no tag is counted more often than that.
proof fn lemma_tags_at_most(cs: Seq<CommentView>, k: int, x: Seq<char>)
    requires
        0 <= k,
    ensures
        occurrences(all_tags(cs, k), x) <= all_tags(cs, k).len() <= 5 * cut_total(cs, k),
    decreases k,
{
    lemma_occurrences_at_most_len(all_tags(cs, k), x);
    if k > 0 {
        lemma_tags_at_most(cs, k - 1, x);
        let cut = cs[k - 1].words_cut->0;
        lemma_text_tags_len(utf8(cs[k - 1].content), cut, cut.len() as int);
    }
}

/// Whether the tag counts of these comments surely fit a `u32`: the comments have at most
/// `u32::MAX / 5` word-cut entries in all. Then no tag is counted more than `u32::MAX` times.
pub fn counts_fit_u32(all: &Vec<&Comment>) -> (r: bool)
    requires
        taggable(comment_views(all@)),
    ensures
        r == (5 * cut_total(comment_views(all@), all@.len() as int) <= u32::MAX),
        r ==> forall|x: Seq<char>|
            #[trigger] occurrences(all_tags(comment_views(all@), all@.len() as int), x) <= u32::MAX,
{
    let ghost cs = comment_views(all@);
    let bound: usize = 858993459;
    let mut total: usize = 0;
    let mut k: usize = 0;
    while k < all.len()
        invariant
            cs == comment_views(all@),
            taggable(cs),
            k <= all@.len(),
            total == cut_total(cs, k as int),
            total <= bound,
            bound == 858993459,
        decreases all@.len() - k,
    {
        assert(cs[k as int] == all@[k as int]@);
        let n: usize = match &all[k].words_cut {
            Some(cut) => cut.len(),
            None => 0,
        };
        if n > bound - total {
            proof {
                lemma_cut_total_mono(cs, k + 1, all@.len() as int);
            }
            return false;
        }
        total = total + n;
        k = k + 1;
    }
    proof {
        assert forall|x: Seq<char>| #[trigger] occurrences(all_tags(cs, all@.len() as int), x) <= u32::MAX by {
            lemma_tags_at_most(cs, all@.len() as int, x);
        }
    }
    true
}

/// A counted tag: not a single character, and free of every stop word.
spec fn tag_shape(x: Seq<char>) -> bool {
    &&& x.len() != 1
    &&& forall|k: int| 0 <= k < stop_words().len() ==> !contains_bytes(utf8(x), #[trigger] utf8(stop_words()[k]))
}

/// A run of words that a cut marks in valid UTF-8 text is valid UTF-8 itself.
proof fn lemma_run_valid(b: Seq<u8>, c: Seq<u8>, i: int, j: int)
    requires
        valid_utf8(b),
        cut_fits(b, c),
        0 <= i,
        0 <= j,
        i + j < c.len(),
    ensures
        valid_utf8(run_bytes(b, c, i, j)),
        encode_utf8(decode_utf8(run_bytes(b, c, i, j))) == run_bytes(b, c, i, j),
{
    let start = cut_offset(c, i + 1);
    let end = cut_bound(c, b.len() as int, i + j + 2);
    assert(start <= b.len() && is_char_boundary(b, start));
    is_char_boundary_start_end_of_seq(b);
    if i + j + 2 <= c.len() {
        assert(cut_offset(c, i + j + 2) <= b.len());
        lemma_cut_offset_mono(c, i + 1, i + j + 2);
    }
    assert(start <= end <= b.len() && is_char_boundary(b, end));
    crate::text::lemma_boundary_sub(b, start, end);
    let s2 = b.subrange(start, b.len() as int);
    is_char_boundary_start_end_of_seq(s2);
    crate::text::lemma_boundary_sub(s2, 0, end - start);
    assert(s2.subrange(0, end - start) =~= b.subrange(start, end));
    decode_utf8_encode_utf8(run_bytes(b, c, i, j));
}

proof fn lemma_row_tags_shape(b: Seq<u8>, c: Seq<u8>, i: int, j: int)
    requires
        valid_utf8(b),
        cut_fits(b, c),
        0 <= i,
    ensures
        forall|t: int| 0 <= t < row_tags(b, c, i, j).len() ==> tag_shape(#[trigger] row_tags(b, c, i, j)[t]),
    decreases j,
{
    if j > 0 {
        lemma_row_tags_shape(b, c, i, j - 1);
        let prev = row_tags(b, c, i, j - 1);
        if i + (j - 1) < c.len() && is_tag(run_bytes(b, c, i, j - 1)) {
            let sel = run_bytes(b, c, i, j - 1);
            lemma_run_valid(b, c, i, j - 1);
            assert(utf8(decode_utf8(sel)) == sel);
            assert forall|t: int| 0 <= t < row_tags(b, c, i, j).len() implies tag_shape(
                #[trigger] row_tags(b, c, i, j)[t],
            ) by {
                if t < prev.len() {
                    assert(row_tags(b, c, i, j)[t] == prev[t]);
                }
            }
        }
    }
}

proof fn lemma_text_tags_shape(b: Seq<u8>, c: Seq<u8>, i: int)
    requires
        valid_utf8(b),
        cut_fits(b, c),
    ensures
        forall|t: int| 0 <= t < text_tags(b, c, i).len() ==> tag_shape(#[trigger] text_tags(b, c, i)[t]),
    decreases i,
{
    if i > 0 {
        lemma_text_tags_shape(b, c, i - 1);
        lemma_row_tags_shape(b, c, i - 1, 5);
        let p = text_tags(b, c, i - 1);
        let r = row_tags(b, c, i - 1, 5);
        assert forall|t: int| 0 <= t < text_tags(b, c, i).len() implies tag_shape(
            #[trigger] text_tags(b, c, i)[t],
        ) by {
            if t < p.len() {
                assert(text_tags(b, c, i)[t] == p[t]);
            } else {
                assert(text_tags(b, c, i)[t] == r[t - p.len()]);
            }
        }
    }
}

proof fn lemma_all_tags_shape(cs: Seq<CommentView>, k: int)
    requires
        taggable(cs),
        k <= cs.len(),
    ensures
        forall|t: int| 0 <= t < all_tags(cs, k).len() ==> tag_shape(#[trigger] all_tags(cs, k)[t]),
    decreases k,
{
    if k > 0 {
        lemma_all_tags_shape(cs, k - 1);
        let cm = cs[k - 1];
        let cut = cm.words_cut->0;
        assert(cm.words_cut is Some && cut_fits(utf8(cm.content), cut));
        encode_utf8_valid_utf8(cm.content);
        lemma_text_tags_shape(utf8(cm.content), cut, cut.len() as int);
        let p = all_tags(cs, k - 1);
        let r = comment_tags(cm);
        assert forall|t: int| 0 <= t < all_tags(cs, k).len() implies tag_shape(
            #[trigger] all_tags(cs, k)[t],
        ) by {
            if t < p.len() {
                assert(all_tags(cs, k)[t] == p[t]);
            } else {
                assert(all_tags(cs, k)[t] == r[t - p.len()]);
            }
        }
    }
}

proof fn lemma_occurrences_member(s: Seq<Seq<char>>, x: Seq<char>)
    requires
        occurrences(s, x) > 0,
    ensures
        exists|t: int| 0 <= t < s.len() && s[t] == x,
    decreases s.len(),
{
    if s.last() == x {
        assert(s[s.len() - 1] == x);
    } else {
        lemma_occurrences_member(s.drop_last(), x);
        let t = choose|t: int| 0 <= t < s.drop_last().len() && s.drop_last()[t] == x;
        assert(s[t] == x);
    }
}

/// What tag analysis never counts: a tag is never a single character (a run of one CJK
/// character is left out, however many bytes it takes), and never holds any of the stop
/// words below, which are punctuation, digits and function words.
pub proof fn lemma_counted_tags(cs: Seq<CommentView>, x: Seq<char>)
    requires
        taggable(cs),
        tally(all_tags(cs, cs.len() as int)).contains_key(x),
    ensures
        x.len() != 1,
        forall|w: Seq<char>|
            #![trigger utf8(w)]
            seq![
                ","@,
                "-"@,
                "/"@,
                "\n"@,
                " "@,
                "_"@,
                "+"@,
                "-"@,
                "，"@,
                "，"@,
                "。"@,
                "："@,
                "　　"@,
                "—"@,
                "　"@,
                "("@,
                ")"@,
                "（"@,
                "）"@,
                "1"@,
                "2"@,
                "3"@,
                "4"@,
                "5"@,
                "6"@,
                "7"@,
                "8"@,
                "9"@,
                "0"@,
                "."@,
                ":"@,
                "@"@,
                "·"@,
                "《"@,
                "》"@,
                "的"@,
                "地"@,
                "得"@,
                "着"@,
                "了"@,
                "过"@,
                "所"@,
                "和"@,
                "与"@,
                "及"@,
                "或"@,
                "但"@,
                "而"@,
                "若"@,
                "因"@,
                "所以"@,
                "因为"@,
                "于是"@,
                "在"@,
                "于"@,
                "从"@,
                "到"@,
                "对"@,
                "对于"@,
                "关于"@,
                "把"@,
                "被"@,
                "由"@,
                "我"@,
                "你"@,
                "他"@,
                "她"@,
                "它"@,
                "我们"@,
                "你们"@,
                "他们"@,
                "这"@,
                "那"@,
                "此"@,
                "其"@,
                "谁"@,
                "什么"@,
                "很"@,
                "非常"@,
                "太"@,
                "也"@,
                "又"@,
                "还"@,
                "都"@,
                "只"@,
                "就"@,
                "才"@,
                "呀"@,
                "啊"@,
                "呢"@,
                "吗"@,
                "吧"@,
                "一"@,
                "二"@,
                "三"@,
                "个"@,
                "只"@,
                "本"@,
                "上"@,
                "下"@,
                "左"@,
                "右"@,
                "前"@,
                "后"@,
                "里"@,
                "外"@,
                "以"@,
                "者"@,
                "之"@,
                "怎"@,
                "么"@,
                "、"@,
                "】"@,
                "【"@,
                "？"@,
                "?"@,
                "!"@,
                "！"@,
            ].contains(w) ==> !contains_bytes(utf8(x), utf8(w)),
{
    lemma_all_tags_shape(cs, cs.len() as int);
    lemma_occurrences_member(all_tags(cs, cs.len() as int), x);
    let t = choose|t: int| 0 <= t < all_tags(cs, cs.len() as int).len() && all_tags(cs, cs.len() as int)[t] == x;
    assert(tag_shape(all_tags(cs, cs.len() as int)[t]));
    assert forall|w: Seq<char>| #![trigger utf8(w)] stop_words().contains(w) implies !contains_bytes(
        utf8(x),
        utf8(w),
    ) by {
        let k = choose|k: int| 0 <= k < stop_words().len() && stop_words()[k] == w;
        assert(!contains_bytes(utf8(x), utf8(stop_words()[k])));
    }
}

/// Whether a stop word occurs in `sel`.
fn hits_stop_word(stops: &Vec<&'static str>, sel: &str) -> (r: bool)
    requires
        stops@.map_values(|s: &'static str| s@) == stop_words(),
    ensures
        r == !(forall|k: int| 0 <= k < stop_words().len() ==> !contains_bytes(sel.spec_bytes(), #[trigger] utf8(stop_words()[k]))),
{
    let mut k: usize = 0;
    while k < stops.len()
        invariant
            stops@.map_values(|s: &'static str| s@) == stop_words(),
            k <= stops@.len(),
            forall|t: int| 0 <= t < k ==> !contains_bytes(sel.spec_bytes(), #[trigger] utf8(stop_words()[t])),
        decreases stops@.len() - k,
    {
        assert(stop_words()[k as int] == stops@[k as int]@);
        if contains_slice(sel.as_bytes(), stops[k].as_bytes()) {
            assert(contains_bytes(sel.spec_bytes(), utf8(stop_words()[k as int])));
            return true;
        }
        k = k + 1;
    }
    assert(stops@.map_values(|s: &'static str| s@).len() == stops@.len());
    false
}

/// Adds the tags of one comment to the counts.
fn tag_comment<'a>(
    map: &mut TagCounts<'a>,
    comment: &'a Comment,
    stops: &Vec<&'static str>,
    Ghost(before): Ghost<Seq<Seq<char>>>,
)
    requires
        stops@.map_values(|s: &'static str| s@) == stop_words(),
        dashmap_counts(*old(map)) == tally(before),
        comment.words_cut is Some,
        cut_fits(utf8(comment.content@), comment.words_cut->0@),
        forall|x: Seq<char>| #[trigger] occurrences(before + comment_tags(comment@), x) <= u32::MAX,
    ensures
        dashmap_counts(*final(map)) == tally(before + comment_tags(comment@)),
{
    let content: &'a str = comment.content.as_str();
    let cut = comment.words_cut.as_ref().unwrap();
    let ghost b = content.spec_bytes();
    let ghost c = cut@;
    let blen = content.as_bytes().len();
    let n = cut.len();
    proof {
        lemma_str_valid(content);
        is_char_boundary_start_end_of_seq(b);
        assert(comment_tags(comment@) == text_tags(b, c, n as int));
    }
    let mut left: usize = 0;
    let mut i: usize = 0;
    while i < n
        invariant
            stops@.map_values(|s: &'static str| s@) == stop_words(),
            b == content.spec_bytes(),
            b == utf8(comment.content@),
            blen == b.len(),
            c == cut@,
            n == c.len(),
            cut_fits(b, c),
            is_char_boundary(b, b.len() as int),
            valid_utf8(b),
            comment_tags(comment@) == text_tags(b, c, n as int),
            forall|x: Seq<char>| #[trigger] occurrences(before + comment_tags(comment@), x) <= u32::MAX,
            i <= n,
            left == cut_offset(c, i as int),
            dashmap_counts(*map) == tally(before + text_tags(b, c, i as int)),
        decreases n - i,
    {
        assert(cut_offset(c, i + 1) == cut_offset(c, i as int) + c[i as int]);
        assert(cut_offset(c, i + 1) <= b.len());
        left = left + cut[i] as usize;
        let mut right = left;
        let mut j: usize = 0;
        let ghost base = before + text_tags(b, c, i as int);
        assert(row_tags(b, c, i as int, 0) =~= Seq::<Seq<char>>::empty());
        assert(base + row_tags(b, c, i as int, 0) =~= base);
        while j < 5
            invariant
                stops@.map_values(|s: &'static str| s@) == stop_words(),
                b == content.spec_bytes(),
                blen == b.len(),
                c == cut@,
                n == c.len(),
                cut_fits(b, c),
                is_char_boundary(b, b.len() as int),
                valid_utf8(b),
                comment_tags(comment@) == text_tags(b, c, n as int),
                forall|x: Seq<char>| #[trigger] occurrences(before + comment_tags(comment@), x) <= u32::MAX,
                i < n,
                j <= 5,
                base == before + text_tags(b, c, i as int),
                left == cut_offset(c, i + 1),
                i + j <= n ==> right == cut_bound(c, b.len() as int, i + j + 1),
                dashmap_counts(*map) == tally(base + row_tags(b, c, i as int, j as int)),
            decreases 5 - j,
        {
            let ghost row = row_tags(b, c, i as int, j as int);
            if j < n - i {
                if j + 1 < n - i {
                    assert(cut_offset(c, i + j + 2) == cut_offset(c, i + j + 1) + c[i + j + 1]);
                    assert(cut_offset(c, i + j + 2) <= b.len());
                    right = cut[i + j + 1] as usize + right;
                } else {
                    right = blen;
                }
                proof {
                    lemma_cut_offset_mono(c, i + 1, i + j + 2);
                    if i + j + 2 <= n {
                        assert(cut_offset(c, i + j + 2) <= b.len());
                    }
                }
                let selected: &'a str = str_range(content, left, right);
                proof {
                    lemma_str_valid(selected);
                    assert(selected.spec_bytes() == run_bytes(b, c, i as int, j as int));
                }
                let stop = hits_stop_word(stops, selected);
                let chars = selected.unicode_len();
                if !stop && chars != 1 {
                    let ghost key_view = selected@;
                    assert(row_tags(b, c, i as int, j + 1) == row.push(key_view));
                    proof {
                        let x = key_view;
                        assert(base + row.push(x) =~= (base + row).push(x));
                        lemma_occurrences_concat(base + row, seq![x], x);
                        assert((base + row) + seq![x] =~= (base + row).push(x));
                        lemma_row_mono(b, c, i as int, j + 1, 5, x);
                        lemma_occurrences_concat(before, text_tags(b, c, i as int), x);
                        lemma_occurrences_concat(before + text_tags(b, c, i as int), row_tags(b, c, i as int, j + 1), x);
                        lemma_occurrences_concat(text_tags(b, c, i as int), row_tags(b, c, i as int, 5), x);
                        lemma_text_mono(b, c, i + 1, n as int, x);
                        lemma_occurrences_concat(before, text_tags(b, c, n as int), x);
                        assert(occurrences(before + comment_tags(comment@), x) <= u32::MAX);
                        lemma_tally_push(base + row, x);
                    }
                    match counts_get(map, selected) {
                        Some(v) => {
                            counts_insert(map, selected, v + 1);
                        },
                        None => {
                            counts_insert(map, selected, 1);
                        },
                    }
                    proof {
                        assert(base + row_tags(b, c, i as int, j + 1) =~= (base + row).push(key_view));
                    }
                } else {
                    assert(row_tags(b, c, i as int, j + 1) == row);
                }
            } else {
                assert(row_tags(b, c, i as int, j + 1) == row);
            }
            j = j + 1;
        }
        proof {
            assert(text_tags(b, c, i + 1) == text_tags(b, c, i as int) + row_tags(b, c, i as int, 5));
            assert(before + text_tags(b, c, i + 1) =~= base + row_tags(b, c, i as int, 5));
        }
        i = i + 1;
    }
}

/// Counts the tags of the comments: every run of one to five consecutive words, as marked by
/// each comment's word cut, that holds no stop word and is not a single character.
pub fn tag_analyze<'a>(all: Vec<&'a Comment>) -> (r: TagCounts<'a>)
    requires
        taggable(comment_views(all@)),
        total_len(comment_views(all@), all@.len() as int) * 4 <= usize::MAX,
        forall|x: Seq<char>|
            #[trigger] occurrences(all_tags(comment_views(all@), all@.len() as int), x) <= u32::MAX,
    ensures
        dashmap_counts(r) == tally(all_tags(comment_views(all@), all@.len() as int)),
        forall|x: Seq<char>| #[trigger] dashmap_counts(r).contains_key(x) ==> x.len() != 1,
{
    let ghost cs = comment_views(all@);
    let ghost total = all@.len() as int;
    let mut cap: usize = 0;
    let mut k: usize = 0;
    while k < all.len()
        invariant
            cs == comment_views(all@),
            total == all@.len(),
            total_len(cs, total) * 4 <= usize::MAX,
            k <= all@.len(),
            cap == total_len(cs, k as int) * 4,
        decreases all@.len() - k,
    {
        proof {
            lemma_total_len_mono(cs, k + 1, total);
            lemma_total_len_mono(cs, k as int, k + 1);
            assert(cs[k as int] == all@[k as int]@);
        }
        cap = cap + all[k].content.as_str().as_bytes().len() * 4;
        k = k + 1;
    }
    let stops = stop_list();
    let mut map = counts_with_capacity(cap);
    proof {
        assert(dashmap_counts(map) =~= tally(all_tags(cs, 0)));
    }
    let mut k: usize = 0;
    while k < all.len()
        invariant
            cs == comment_views(all@),
            total == all@.len(),
            taggable(cs),
            stops@.map_values(|s: &'static str| s@) == stop_words(),
            forall|x: Seq<char>| #[trigger] occurrences(all_tags(cs, total), x) <= u32::MAX,
            k <= all@.len(),
            dashmap_counts(map) == tally(all_tags(cs, k as int)),
        decreases all@.len() - k,
    {
        let comment: &'a Comment = all[k];
        proof {
            assert(cs[k as int] == comment@);
            assert(all_tags(cs, k + 1) == all_tags(cs, k as int) + comment_tags(comment@));
            assert forall|x: Seq<char>| #[trigger] occurrences(all_tags(cs, k as int) + comment_tags(comment@), x) <= u32::MAX by {
                lemma_all_mono(cs, k + 1, total, x);
            }
        }
        tag_comment(&mut map, comment, &stops, Ghost(all_tags(cs, k as int)));
        k = k + 1;
    }
    proof {
        assert forall|x: Seq<char>| #[trigger] dashmap_counts(map).contains_key(x) implies x.len() != 1 by {
            lemma_counted_tags(cs, x);
        }
    }
    map
}


/// The entries counted at least `min` times, in their order.
pub open spec fn tags_at_least<'a>(es: Seq<(&'a str, u32)>, min: u32) -> Seq<(&'a str, u32)>
    decreases es.len(),
{
    if es.len() == 0 {
        seq![]
    } else if es.last().1 >= min {
        tags_at_least(es.drop_last(), min).push(es.last())
    } else {
        tags_at_least(es.drop_last(), min)
    }
}

/// The counts never increase along the sequence.
pub open spec fn by_count_desc<'a>(es: Seq<(&'a str, u32)>) -> bool {
    forall|i: int, j: int| 0 <= i < j < es.len() ==> #[trigger] es[i].1 >= #[trigger] es[j].1
}

/// The tags counted at least `min` times, most frequent first.
pub fn frequent_tags<'a>(entries: Vec<(&'a str, u32)>, min: u32) -> (r: Vec<(&'a str, u32)>)
    ensures
        r@.to_multiset() == tags_at_least(entries@, min).to_multiset(),
        by_count_desc(r@),
{
    let mut out: Vec<(&'a str, u32)> = Vec::new();
    let mut k: usize = 0;
    assert(entries@.take(0) =~= Seq::<(&'a str, u32)>::empty());
    assert(out@ =~= tags_at_least(entries@.take(0), min));
    while k < entries.len()
        invariant
            k <= entries@.len(),
            out@.to_multiset() == tags_at_least(entries@.take(k as int), min).to_multiset(),
            by_count_desc(out@),
        decreases entries@.len() - k,
    {
        let e = entries[k];
        let ghost pre = entries@.take(k as int);
        assert(entries@.take(k + 1) =~= pre.push(e));
        assert(entries@.take(k + 1).drop_last() =~= pre);
        if e.1 >= min {
            let mut p: usize = 0;
            while p < out.len() && out[p].1 >= e.1
                invariant
                    p <= out@.len(),
                    forall|q: int| 0 <= q < p ==> #[trigger] out@[q].1 >= e.1,
                decreases out@.len() - p,
            {
                p = p + 1;
            }
            let ghost old_out = out@;
            out.insert(p, e);
            proof {
                assert(out@ == old_out.insert(p as int, e));
                assert(entries@.take(k + 1).last() == e);
                assert(tags_at_least(entries@.take(k + 1), min) == tags_at_least(pre, min).push(e));
                vstd::seq_lib::to_multiset_insert(old_out, p as int, e);
                vstd::seq_lib::to_multiset_build(tags_at_least(pre, min), e);
                assert forall|i: int, j: int| 0 <= i < j < out@.len() implies #[trigger] out@[i].1
                    >= #[trigger] out@[j].1 by {
                    if p < old_out.len() {
                        assert(old_out[p as int].1 < e.1);
                    }
                    if i < p {
                        assert(out@[i] == old_out[i]);
                        if j < p {
                            assert(out@[j] == old_out[j]);
                        } else if j > p {
                            assert(out@[j] == old_out[j - 1]);
                        }
                    } else if i == p {
                        assert(out@[j] == old_out[j - 1]);
                        assert(old_out[p as int].1 >= old_out[j - 1].1 || j - 1 == p);
                    } else {
                        assert(out@[i] == old_out[i - 1]);
                        assert(out@[j] == old_out[j - 1]);
                    }
                }
            }
        } else {
            assert(entries@.take(k + 1).last() == e);
            assert(tags_at_least(entries@.take(k + 1), min) == tags_at_least(pre, min));
        }
        k = k + 1;
    }
    assert(entries@.take(k as int) =~= entries@);
    out
}


/// The entries counted at least `min` times are those entries.
proof fn lemma_tags_at_least_contains<'a>(es: Seq<(&'a str, u32)>, min: u32, e: (&'a str, u32))
    ensures
        tags_at_least(es, min).contains(e) <==> es.contains(e) && e.1 >= min,
    decreases es.len(),
{
    if es.len() > 0 {
        let dl = es.drop_last();
        lemma_tags_at_least_contains(dl, min, e);
        let t = tags_at_least(dl, min);
        if es.contains(e) {
            let k = choose|k: int| 0 <= k < es.len() && es[k] == e;
            if k < dl.len() {
                assert(dl[k] == e);
            }
        }
        if dl.contains(e) {
            let k = choose|k: int| 0 <= k < dl.len() && dl[k] == e;
            assert(es[k] == e);
        }
        if es.last().1 >= min {
            let tp = t.push(es.last());
            assert(tp[t.len() as int] == es.last());
            if tp.contains(e) {
                let k = choose|k: int| 0 <= k < tp.len() && tp[k] == e;
                if k < t.len() {
                    assert(t[k] == e);
                }
            }
            if t.contains(e) {
                let k = choose|k: int| 0 <= k < t.len() && t[k] == e;
                assert(tp[k] == e);
            }
        }
        assert(es[es.len() - 1] == es.last());
    }
}

/// Keeping the entries counted at least `min` times keeps a sequence free of repeats.
proof fn lemma_tags_at_least_no_duplicates<'a>(es: Seq<(&'a str, u32)>, min: u32)
    requires
        es.no_duplicates(),
    ensures
        tags_at_least(es, min).no_duplicates(),
    decreases es.len(),
{
    if es.len() > 0 {
        let dl = es.drop_last();
        assert(dl.no_duplicates());
        lemma_tags_at_least_no_duplicates(dl, min);
        let t = tags_at_least(dl, min);
        if es.last().1 >= min {
            lemma_tags_at_least_contains(dl, min, es.last());
            if dl.contains(es.last()) {
                let k = choose|k: int| 0 <= k < dl.len() && dl[k] == es.last();
                assert(es[k] == es[es.len() - 1]);
            }
            let tp = t.push(es.last());
            assert forall|i: int, j: int| 0 <= i < tp.len() && 0 <= j < tp.len() && i != j
                implies tp[i] != tp[j] by {
                if i == t.len() {
                    assert(!t.contains(es.last()));
                    assert(t[j] != es.last());
                } else if j == t.len() {
                    assert(!t.contains(es.last()));
                    assert(t[i] != es.last());
                }
            }
        }
    }
}

/// Every entry of a tag map. `DashMap::into_iter`, collected into a `Vec`.
/// Trusted: each key of the map is handed out once, with its count, and nothing else is;
/// the order follows the map's shards and hashing, so nothing is said of it.
#[verifier::external_body]
fn counts_entries<'a>(m: TagCounts<'a>) -> (r: Vec<(&'a str, u32)>)
    ensures
        forall|k: int|
            0 <= k < r@.len() ==> #[trigger] dashmap_counts(m).contains_key(r@[k].0@)
                && dashmap_counts(m)[r@[k].0@] == r@[k].1,
        forall|i: int, j: int| 0 <= i < j < r@.len() ==> #[trigger] r@[i].0@ != #[trigger] r@[j].0@,
        forall|key: Seq<char>|
            #[trigger] dashmap_counts(m).contains_key(key) ==> exists|k: int|
                0 <= k < r@.len() && r@[k].0@ == key,
{
    m.into_iter().collect()
}

/// The tags of a tag map counted at least `min` times, with their counts, most frequent
/// first; every such tag is listed.
pub fn frequent_tag_counts<'a>(counts: TagCounts<'a>, min: u32) -> (r: Vec<(&'a str, u32)>)
    ensures
        by_count_desc(r@),
        forall|k: int|
            0 <= k < r@.len() ==> #[trigger] dashmap_counts(counts).contains_key(r@[k].0@)
                && dashmap_counts(counts)[r@[k].0@] == r@[k].1 && r@[k].1 >= min,
        forall|key: Seq<char>|
            #[trigger] dashmap_counts(counts).contains_key(key) && dashmap_counts(counts)[key] >= min
                ==> exists|k: int| 0 <= k < r@.len() && r@[k].0@ == key,
        forall|i: int, j: int| 0 <= i < j < r@.len() ==> #[trigger] r@[i].0@ != #[trigger] r@[j].0@,
{
    let ghost m = dashmap_counts(counts);
    let entries = counts_entries(counts);
    let ghost es = entries@;
    let r = frequent_tags(entries, min);
    let ghost t = tags_at_least(es, min);
    assert forall|k: int| 0 <= k < r@.len() implies #[trigger] m.contains_key(r@[k].0@)
        && m[r@[k].0@] == r@[k].1 && r@[k].1 >= min by {
        let e = r@[k];
        assert(r@.contains(e));
        vstd::seq_lib::to_multiset_contains(r@, e);
        vstd::seq_lib::to_multiset_contains(t, e);
        lemma_tags_at_least_contains(es, min, e);
        let j = choose|j: int| 0 <= j < es.len() && es[j] == e;
        assert(m.contains_key(es[j].0@));
    }
    assert forall|key: Seq<char>| #[trigger] m.contains_key(key) && m[key] >= min implies exists|k: int|
        0 <= k < r@.len() && r@[k].0@ == key by {
        let j = choose|j: int| 0 <= j < es.len() && es[j].0@ == key;
        let e = es[j];
        assert(m.contains_key(es[j].0@));
        assert(es.contains(e));
        lemma_tags_at_least_contains(es, min, e);
        vstd::seq_lib::to_multiset_contains(r@, e);
        vstd::seq_lib::to_multiset_contains(t, e);
        let k = choose|k: int| 0 <= k < r@.len() && r@[k] == e;
        assert(r@[k].0@ == key);
    }
    assert(es.no_duplicates()) by {
        assert forall|i: int, j: int| 0 <= i < es.len() && 0 <= j < es.len() && i != j
            implies es[i] != es[j] by {
            if i < j {
                assert(es[i].0@ != es[j].0@);
            } else {
                assert(es[j].0@ != es[i].0@);
            }
        }
    }
    assert(r@.no_duplicates()) by {
        lemma_tags_at_least_no_duplicates(es, min);
        t.lemma_multiset_has_no_duplicates();
        r@.lemma_multiset_has_no_duplicates_conv();
    }
    assert forall|i: int, j: int| 0 <= i < j < r@.len() implies #[trigger] r@[i].0@
        != #[trigger] r@[j].0@ by {
        let (ei, ej) = (r@[i], r@[j]);
        assert(r@.contains(ei));
        assert(r@.contains(ej));
        vstd::seq_lib::to_multiset_contains(r@, ei);
        vstd::seq_lib::to_multiset_contains(t, ei);
        vstd::seq_lib::to_multiset_contains(r@, ej);
        vstd::seq_lib::to_multiset_contains(t, ej);
        lemma_tags_at_least_contains(es, min, ei);
        lemma_tags_at_least_contains(es, min, ej);
        let a = choose|a: int| 0 <= a < es.len() && es[a] == ei;
        let b = choose|b: int| 0 <= b < es.len() && es[b] == ej;
        if ei.0@ == ej.0@ {
            if a < b {
                assert(es[a].0@ != es[b].0@);
            } else if b < a {
                assert(es[b].0@ != es[a].0@);
            }
            assert(r@[i] != r@[j]);
        }
    }
    r
}

} // verus!
