use novstar::tag::{counts_fit_u32, frequent_tag_counts, stop_list, tag_analyze};
use novstar::text::{contains_slice, find_bytes, split_str, str_eq};
use novstar::Comment;

fn comment(content: &str, cut: Vec<u8>) -> Comment {
    Comment { book_name: "b".to_string(), content: content.to_string(), words_cut: Some(cut) }
}

#[test]
fn tags_count_runs_of_words() {
    // words: 宇宙 / 文明 / 宇宙 / 文明
    let c = comment("宇宙文明宇宙文明", vec![0, 6, 6, 6]);
    let map = tag_analyze(vec![&c]);
    assert_eq!(*map.get("宇宙").unwrap(), 2);
    assert_eq!(*map.get("文明").unwrap(), 2);
    assert_eq!(*map.get("宇宙文明").unwrap(), 2);
    assert_eq!(*map.get("文明宇宙").unwrap(), 1);
    assert_eq!(*map.get("宇宙文明宇宙").unwrap(), 1);
    assert_eq!(*map.get("宇宙文明宇宙文明").unwrap(), 1);
    assert_eq!(map.len(), 7);
}

#[test]
fn tags_skip_stop_words_and_single_characters() {
    // words: 我 / 喜欢 / 科幻 / 。
    let c = comment("我喜欢科幻。", vec![0, 3, 6, 6]);
    let map = tag_analyze(vec![&c]);
    assert!(map.get("我").is_none());
    assert!(map.get("我喜欢").is_none());
    assert!(map.get("科幻。").is_none());
    assert_eq!(*map.get("喜欢").unwrap(), 1);
    assert_eq!(*map.get("科幻").unwrap(), 1);
    assert_eq!(*map.get("喜欢科幻").unwrap(), 1);
    assert_eq!(map.len(), 3);
}

#[test]
fn tags_add_up_over_comments() {
    let a = comment("宇宙", vec![0]);
    let b = comment("宇宙", vec![0]);
    let map = tag_analyze(vec![&a, &b]);
    assert_eq!(*map.get("宇宙").unwrap(), 2);
    assert_eq!(map.len(), 1);
}

#[test]
fn runs_stop_at_five_words() {
    let c = comment("abcdefg", vec![0, 1, 1, 1, 1, 1, 1]);
    let map = tag_analyze(vec![&c]);
    assert!(map.get("abcde").is_some());
    assert!(map.get("abcdef").is_none());
    assert!(map.get("a").is_none());
}

#[test]
fn stop_list_is_complete() {
    let s = stop_list();
    assert_eq!(s.len(), 118);
    assert_eq!(s[0], ",");
    assert_eq!(s[117], "！");
}

#[test]
fn byte_search_helpers() {
    assert_eq!(find_bytes(b"hello", b"ll"), Some(2));
    assert_eq!(find_bytes(b"hello", b"lo!"), None);
    assert_eq!(find_bytes(b"abc", b""), Some(0));
    assert!(contains_slice("三体".as_bytes(), "体".as_bytes()));
    assert!(!contains_slice("三体".as_bytes(), "活".as_bytes()));
    assert!(str_eq("三体", "三体"));
    assert!(!str_eq("三体", "三"));
    assert_eq!(split_str("a--b----c", "--"), vec!["a", "b", "", "c"]);
    assert_eq!(split_str("--", "--"), vec!["", ""]);
    assert_eq!(split_str("", "--"), vec![""]);
}

#[test]
fn frequent_tag_counts_from_the_map() {
    let c = comment("宇宙文明宇宙文明", vec![0, 6, 6, 6]);
    let map = tag_analyze(vec![&c]);
    let got = frequent_tag_counts(map, 2);
    assert_eq!(got.len(), 3);
    assert!(got.iter().all(|(_, n)| *n == 2));
    let mut keys: Vec<&str> = got.iter().map(|(k, _)| *k).collect();
    keys.sort();
    assert_eq!(keys, vec!["宇宙", "宇宙文明", "文明"]);
}

#[test]
fn tag_counts_add_up_and_ignore_order() {
    let a = comment("宇宙文明", vec![0, 6]);
    let b = comment("文明宇宙", vec![0, 6]);
    let ma = tag_analyze(vec![&a]);
    let mb = tag_analyze(vec![&b]);
    let mab = tag_analyze(vec![&a, &b]);
    let mba = tag_analyze(vec![&b, &a]);
    for (k, v) in mab.clone().into_iter() {
        let sum = ma.get(k).map(|x| *x).unwrap_or(0) + mb.get(k).map(|x| *x).unwrap_or(0);
        assert_eq!(v, sum);
        assert_eq!(*mba.get(k).unwrap(), v);
    }
    assert_eq!(mab.len(), mba.len());
}

#[test]
fn frequent_tag_counts_lists_each_tag_once_most_frequent_first() {
    // words: 宇宙 / 文明 / 宇宙 / 文明 / 宇宙
    let c = comment("宇宙文明宇宙文明宇宙", vec![0, 6, 6, 6, 6]);
    let map = tag_analyze(vec![&c]);
    let got = frequent_tag_counts(map, 2);
    assert_eq!(got[0], ("宇宙", 3));
    let mut keys: Vec<&str> = got.iter().map(|(k, _)| *k).collect();
    keys.sort();
    let len = keys.len();
    keys.dedup();
    assert_eq!(keys.len(), len);
    assert_eq!(keys, vec!["宇宙", "宇宙文明", "宇宙文明宇宙", "文明", "文明宇宙"]);
    assert!(got.windows(2).all(|w| w[0].1 >= w[1].1));
}

#[test]
fn small_corpora_fit_u32_counts() {
    let a = comment("宇宙文明", vec![0, 6]);
    let b = comment("文明", vec![0]);
    assert!(counts_fit_u32(&vec![&a, &b]));
    assert!(counts_fit_u32(&vec![]));
}
