use novstar::data::Data;
use novstar::engine::Engine;
use novstar::page::{display_book, is_white_space, lines, search_bar, split_whitespace, ReadyState};
use novstar::Comment;

fn comment(book: &str, content: &str) -> Comment {
    Comment { book_name: book.to_string(), content: content.to_string(), words_cut: None }
}

fn corpus() -> Data {
    Data {
        comments: vec![
            comment("三体", "黑暗森林"),
            comment("活着", "福贵\r\n的一生\n"),
            comment("三体", "水滴很美"),
            comment("围城", "城里的人"),
        ],
    }
}

#[test]
fn index_groups_comments_by_book() {
    let data = corpus();
    let engine = Engine::from_data(&data);
    let names: Vec<&str> = engine.map.iter().map(|(n, _)| *n).collect();
    assert_eq!(names, vec!["三体", "活着", "围城"]);
    assert_eq!(engine.map[0].1, vec![0, 2]);
    assert_eq!(engine.map[1].1, vec![1]);
    assert_eq!(engine.map[2].1, vec![3]);
    assert!(engine.results.is_empty());
}

#[test]
fn get_book_lists_comment_texts() {
    let data = corpus();
    let engine = Engine::from_data(&data);
    assert_eq!(engine.get_book("三体"), Some(vec!["黑暗森林", "水滴很美"]));
    assert_eq!(engine.get_book("不存在"), None);
}

#[test]
fn search_needs_every_pattern() {
    let data = corpus();
    let mut engine = Engine::from_data(&data);
    engine.search(&["森林", "水滴"]);
    assert_eq!(engine.results, vec!["三体"]);
    engine.search(&["的"]);
    assert_eq!(engine.results, vec!["活着", "围城"]);
    engine.search(&["森林", "福贵"]);
    assert!(engine.results.is_empty());
    engine.search(&[]);
    assert_eq!(engine.results, vec!["三体", "活着", "围城"]);
}

#[test]
fn lines_match_std() {
    for s in ["", "a", "a\n", "a\r\nb", "a\n\nb\n", "\r", "x\r", "\n", "中\r\n文\r"] {
        let expected: Vec<&str> = s.lines().collect();
        assert_eq!(lines(s), expected, "{s:?}");
    }
}

#[test]
fn book_page_shows_comment_lines() {
    let data = corpus();
    let engine = Engine::from_data(&data);
    let page = display_book(&engine, "活着");
    assert_eq!(page.title, "活着");
    assert_eq!(page.count, 1);
    assert_eq!(page.comments, vec![vec!["福贵", "的一生"]]);
    let page = display_book(&engine, "三体");
    assert_eq!(page.count, 2);
}

#[test]
fn submitting_records_the_pattern() {
    let mut state = ReadyState::new();
    state.pattern = "三体 活着".to_string();
    state.submit();
    assert_eq!(state.searched_pattern, "三体 活着");
    assert_eq!(state.pattern, "三体 活着");
}

#[test]
fn white_space_matches_std() {
    for v in 0u32..0x110000 {
        if let Some(c) = char::from_u32(v) {
            assert_eq!(is_white_space(c), c.is_whitespace(), "{v:#x}");
        }
    }
}

#[test]
fn split_whitespace_matches_std() {
    for s in ["", "  ", "a", " a b  c ", "三体\u{3000}活着\t围城\n", "x\u{a0}y", "ab"] {
        let expected: Vec<&str> = s.split_whitespace().collect();
        assert_eq!(split_whitespace(s), expected, "{s:?}");
    }
}

#[test]
fn search_bar_searches_the_typed_words() {
    let data = corpus();
    let mut engine = Engine::from_data(&data);
    let mut state = ReadyState::new();
    state.pattern = " 森林\u{3000}水滴 ".to_string();
    search_bar(&mut state, &mut engine);
    assert_eq!(state.searched_pattern, " 森林\u{3000}水滴 ");
    assert_eq!(engine.results, vec!["三体"]);
}

#[test]
fn engine_with_a_hand_built_index_reads_its_positions() {
    let data = corpus();
    let mut engine = Engine { data: &data, map: vec![("选集", vec![3, 0]), ("三体", vec![2])], results: vec![] };
    assert_eq!(engine.get_book("选集"), Some(vec!["城里的人", "黑暗森林"]));
    assert_eq!(engine.get_book("三体"), Some(vec!["水滴很美"]));
    assert_eq!(engine.get_book("活着"), None);
    engine.search(&["森林"]);
    assert_eq!(engine.results, vec!["选集"]);
    let page = display_book(&engine, "选集");
    assert_eq!(page.count, 2);
    assert_eq!(page.comments, vec![vec!["城里的人"], vec!["黑暗森林"]]);
}

#[test]
fn hint_shows_once_a_pattern_was_searched() {
    let mut state = ReadyState::new();
    assert!(!state.shows_hint());
    state.pattern = "三体".to_string();
    assert!(!state.shows_hint());
    state.submit();
    assert!(state.shows_hint());
}
