use novstar::data::Data;
use novstar::export::{book_text, dump_words, file_stem};
use novstar::tag::frequent_tags;
use novstar::Comment;

#[test]
fn dump_bars_every_word() {
    let data = Data {
        comments: vec![
            Comment { book_name: "a".into(), content: "你好世界".into(), words_cut: Some(vec![0, 6]) },
            Comment { book_name: "b".into(), content: "x".into(), words_cut: Some(vec![0]) },
        ],
    };
    assert_eq!(dump_words(&data), "你好|世界|\n\nx|\n\n");
}

#[test]
fn file_stem_replaces_slashes() {
    assert_eq!(file_stem("a/b//c"), "a_b__c");
    assert_eq!(file_stem("三体"), "三体");
    assert_eq!(file_stem("/"), "_");
    assert_eq!(file_stem(""), "");
}

#[test]
fn book_text_spaces_comments() {
    assert_eq!(book_text(&vec!["一", "二"]), "一\n\n二\n\n");
    assert_eq!(book_text(&vec![]), "");
}

#[test]
fn frequent_tags_sorted_and_filtered() {
    let got = frequent_tags(vec![("a", 5), ("b", 150), ("c", 100), ("d", 99), ("e", 300)], 100);
    assert_eq!(got, vec![("e", 300), ("b", 150), ("c", 100)]);
    let ties = frequent_tags(vec![("x", 2), ("y", 2), ("z", 3)], 0);
    assert_eq!(ties, vec![("z", 3), ("x", 2), ("y", 2)]);
    assert!(frequent_tags(vec![], 1).is_empty());
}
