use novstar::cut::{cut_fits_text, cut_of};
use novstar::data::{word_cut, Data, DecodeError};
use novstar::raw::{
    book_name_is_readable, decimal_string, parse_book_name, raw_comments, raw_text_is_readable,
    unnamed_book_name,
};
use novstar::Comment;

const SEP: &str = "\n\u{3000}\u{3000}\n\u{3000}\u{3000}\n\u{3000}\u{3000}";

fn comment(book: &str, content: &str, cut: Option<Vec<u8>>) -> Comment {
    Comment { book_name: book.to_string(), content: content.to_string(), words_cut: cut }
}

#[test]
fn words_without_cut_is_none() {
    let c = comment("b", "abc", None);
    assert_eq!(c.words(), None);
}

#[test]
fn words_follow_the_deltas() {
    let c = comment("b", "你好世界!", Some(vec![0, 6, 6]));
    assert_eq!(c.words(), Some(vec!["你好", "世界", "!"]));
}

#[test]
fn words_single_delta_is_the_rest() {
    let c = comment("b", "abcdef", Some(vec![2]));
    assert_eq!(c.words(), Some(vec!["cdef"]));
}

#[test]
fn words_long_gap_is_split_at_255() {
    let text = "a".repeat(300) + "b";
    let c = comment("b", &text, Some(vec![0, 255, 45]));
    let ws = c.words().unwrap();
    assert_eq!(ws.len(), 3);
    assert_eq!(ws[0].len(), 255);
    assert_eq!(ws[1].len(), 45);
    assert_eq!(ws[2], "b");
}

#[test]
fn cut_of_records_lengths() {
    let words = vec!["ab", "c", "def"];
    assert_eq!(cut_of(&words), vec![0, 2, 1]);
    let long = "x".repeat(600);
    let words = vec![long.as_str(), "y"];
    assert_eq!(cut_of(&words), vec![0, 255, 255, 90]);
    let exact = "x".repeat(255);
    let words = vec![exact.as_str(), "y"];
    assert_eq!(cut_of(&words), vec![0, 255, 0]);
    let none: Vec<&str> = vec![];
    assert_eq!(cut_of(&none), vec![0]);
}

#[test]
fn decimal_names() {
    assert_eq!(decimal_string(0), "0");
    assert_eq!(decimal_string(7), "7");
    assert_eq!(decimal_string(10), "10");
    assert_eq!(decimal_string(1234567), "1234567");
    assert_eq!(unnamed_book_name(3), "NoSpecific3");
}

#[test]
fn book_name_from_first_line() {
    assert_eq!(parse_book_name("读《三体》有感\n正文"), Some("三体"));
    assert_eq!(parse_book_name("没有书名\n正文《三体》"), None);
    assert_eq!(parse_book_name("《三体》但没有换行"), None);
    assert_eq!(parse_book_name("《》\n"), Some(""));
}

#[test]
fn raw_export_is_split_into_comments() {
    let text = format!(
        "评《三体》\n很好看{SEP}Time 2020{SEP}随便写写\n内容{SEP}又一篇\n无书名{SEP}《活着》\n感人"
    );
    let cs = raw_comments(&text);
    assert_eq!(cs.len(), 4);
    assert_eq!(cs[0].book_name, "三体");
    assert_eq!(cs[0].content, "评《三体》\n很好看");
    assert_eq!(cs[1].book_name, "NoSpecific1");
    assert_eq!(cs[1].content, "随便写写\n内容");
    assert_eq!(cs[2].book_name, "NoSpecific2");
    assert_eq!(cs[3].book_name, "活着");
    assert!(cs.iter().all(|c| c.words_cut.is_none()));
}

#[test]
fn single_line_comment_has_no_name() {
    let cs = raw_comments("《三体》");
    assert_eq!(cs.len(), 1);
    assert_eq!(cs[0].book_name, "NoSpecific1");
}

#[test]
fn word_cut_marks_jieba_words() {
    let text = "我们中出了一个叛徒";
    let words = jieba_rs::Jieba::new().cut(text, true);
    let cut = word_cut(text);
    let c = comment("b", text, Some(cut));
    assert_eq!(c.words().unwrap(), words);
}

#[test]
fn word_cut_of_empty_text_is_a_single_zero() {
    assert_eq!(word_cut(""), vec![0]);
}

#[test]
fn from_raw_cuts_every_comment() {
    let text = format!("读《三体》\n宇宙很大，生活更大。{SEP}《活着》\n福贵的一生");
    let data = Data::from_raw(&text);
    assert_eq!(data.comments.len(), 2);
    assert_eq!(data.comments[1].book_name, "活着");
    for c in &data.comments {
        let words = c.words().unwrap();
        assert_eq!(words.concat(), c.content);
        assert_eq!(words, jieba_rs::Jieba::new().cut(&c.content, true));
        assert_eq!(c.words_cut.as_ref().unwrap()[0], 0);
    }
}

#[test]
fn encode_decodes_back_to_the_records() {
    let data = Data {
        comments: vec![
            comment("三体", "宇宙", Some(vec![0, 3])),
            comment("NoSpecific1", "x", None),
        ],
    };
    let bytes = data.encode();
    let raw = zstd::decode_all(bytes.as_slice()).unwrap();
    let (records, used): (Vec<(String, String, Option<Vec<u8>>)>, usize) =
        bincode::decode_from_slice(&raw, bincode::config::standard()).unwrap();
    assert_eq!(used, raw.len());
    assert_eq!(
        records,
        vec![
            ("三体".to_string(), "宇宙".to_string(), Some(vec![0, 3])),
            ("NoSpecific1".to_string(), "x".to_string(), None),
        ]
    );
    let expected = zstd::encode_all(
        bincode::encode_to_vec(&records, bincode::config::standard()).unwrap().as_slice(),
        novstar::COMPRESS_LEVEL,
    )
    .unwrap();
    assert_eq!(bytes, expected);
}

#[test]
fn default_values_are_empty() {
    let c = Comment::default();
    assert_eq!(c.book_name, "");
    assert!(c.words_cut.is_none());
    assert!(Data::default().comments.is_empty());
}

#[test]
fn decode_reads_back_encoded_corpus() {
    let data = Data {
        comments: vec![
            comment("三体", "宇宙", Some(vec![0, 3])),
            comment("NoSpecific1", "x", None),
        ],
    };
    let bytes = data.encode();
    let back = Data::decode(&bytes).unwrap();
    assert_eq!(back, data);
    assert_eq!(back.comments.len(), 2);
    assert_eq!(back.comments[0].book_name, "三体");
    assert_eq!(back.comments[0].words_cut, Some(vec![0, 3]));
    assert_eq!(back.comments[1].content, "x");
    assert_eq!(back.comments[1].words_cut, None);
}

#[test]
fn decode_reports_errors() {
    assert_eq!(Data::decode(b"not zstd").unwrap_err(), DecodeError::Decompress);
    let garbage = zstd::encode_all(&[5u8, 1, 2][..], 3).unwrap();
    assert_eq!(Data::decode(&garbage).unwrap_err(), DecodeError::Malformed);
    let mut raw = bincode::encode_to_vec(&Vec::<(String, String, Option<Vec<u8>>)>::new(), bincode::config::standard()).unwrap();
    raw.push(7);
    let trailing = zstd::encode_all(raw.as_slice(), 3).unwrap();
    assert_eq!(Data::decode(&trailing).unwrap_err(), DecodeError::TrailingBytes);
}

#[test]
fn decode_refuses_lengths_beyond_the_memory_limit() {
    // A record count of u64::MAX, and one of 2^32, with nothing after them.
    let all_ones = [0xFDu8, 0xFF, 0xFF, 0xFF, 0xFF, 0xFF, 0xFF, 0xFF, 0xFF];
    let four_giga = [0xFDu8, 0, 0, 0, 0, 1, 0, 0, 0];
    // One record whose book name claims 2^40 bytes.
    let long_name = [1u8, 0xFD, 0, 0, 0, 0, 0, 1, 0, 0];
    for raw in [&all_ones[..], &four_giga[..], &long_name[..]] {
        let framed = zstd::encode_all(raw, 3).unwrap();
        assert_eq!(Data::decode(&framed).unwrap_err(), DecodeError::Malformed);
    }
}

#[test]
fn readability_of_book_names() {
    assert!(book_name_is_readable("《三体》\n"));
    assert!(!book_name_is_readable("》三体《\n"));
    assert!(book_name_is_readable("》三体《"));
    assert!(raw_text_is_readable(&format!("《a》\nx{SEP}》Time《\ny")));
    assert!(!raw_text_is_readable(&format!("《a》\nx{SEP}》b《\ny")));
}

#[test]
fn cut_usability() {
    assert!(cut_fits_text("你好", &[0, 3]));
    assert!(!cut_fits_text("你好", &[0, 2]));
    assert!(!cut_fits_text("你好", &[0, 7]));
    assert!(comment("b", "ab", Some(vec![0, 1])).cut_is_usable());
    assert!(!comment("b", "ab", Some(vec![])).cut_is_usable());
    assert!(!comment("b", "ab", None).cut_is_usable());
}

#[test]
fn equality_compares_every_field() {
    assert_eq!(comment("a", "b", Some(vec![0])), comment("a", "b", Some(vec![0])));
    assert_ne!(comment("a", "b", Some(vec![0])), comment("a", "b", None));
    assert_ne!(comment("a", "b", None), comment("a", "c", None));
    assert_ne!(comment("a", "b", None), comment("x", "b", None));
    let d1 = Data { comments: vec![comment("a", "b", None)] };
    let d2 = Data { comments: vec![comment("a", "b", None), comment("a", "b", None)] };
    assert_ne!(d1, d2);
    assert_eq!(d1.clone(), d1);
}

#[test]
fn long_words_come_back_in_255_byte_pieces() {
    let long = "a".repeat(600);
    let exact = "b".repeat(255);
    let words = vec![long.as_str(), exact.as_str(), "c"];
    let cut = cut_of(&words);
    let text = words.concat();
    let c = comment("b", &text, Some(cut));
    let ws = c.words().unwrap();
    let lens: Vec<usize> = ws.iter().map(|w| w.len()).collect();
    assert_eq!(lens, vec![255, 255, 90, 255, 0, 1]);
    assert_eq!(ws.concat(), text);
}
