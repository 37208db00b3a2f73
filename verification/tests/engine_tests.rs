use minisearch::engine::{build, term_frequencies, IndexBuilder};
use minisearch::error::{AppError, AppErrorType};
use minisearch::stopwords::is_stopword;
use minisearch::store::DocStore;
use minisearch::tokenize::Tokenizer;

#[test]
fn ids_are_sequential_and_dense() {
    let mut store = DocStore::new();
    assert_eq!(store.add("第一".to_string()), 0);
    assert_eq!(store.add("第二".to_string()), 1);
    assert_eq!(store.add("第三".to_string()), 2);
    assert_eq!(store.len(), 3);
    assert_eq!(store.get(0).map(|s| s.as_str()), Some("第一"));
    assert_eq!(store.get(1).map(|s| s.as_str()), Some("第二"));
    assert_eq!(store.get(2).map(|s| s.as_str()), Some("第三"));
}

#[test]
fn get_beyond_highest_is_absent() {
    let mut store = DocStore::new();
    store.add("唯一".to_string());
    assert!(store.get(0).is_some());
    assert!(store.get(1).is_none());
    assert!(store.get(99).is_none());
}

#[test]
fn whitespace_tokenize_splits_on_runs_of_spaces() {
    let toks = Tokenizer::Whitespace.tokenize("  猫  追   老鼠 ");
    assert_eq!(toks, vec!["猫", "追", "老鼠"]);
    assert!(Tokenizer::Whitespace.tokenize("").is_empty());
    assert!(Tokenizer::Whitespace.tokenize("   ").is_empty());
}

#[test]
fn jieba_actually_segments() {
    let toks = Tokenizer::Jieba.tokenize("今天天气不错");
    assert!(toks.len() >= 2);
    let joined: String = toks.concat();
    assert_eq!(joined, "今天天气不错");
}

#[test]
fn stopword_membership() {
    assert!(is_stopword(&"的".to_string()));
    assert!(is_stopword(&"了".to_string()));
    assert!(!is_stopword(&"猫".to_string()));
    assert!(!is_stopword(&"".to_string()));
}

#[test]
fn term_frequency_is_exact() {
    let toks = Tokenizer::Whitespace.tokenize("猫 追 猫");
    let tf = term_frequencies(&toks);
    assert_eq!(tf.len(), 2);
    assert_eq!(tf[0].term, "猫");
    assert_eq!(tf[0].count, 2);
    assert_eq!(tf[0].total, 3);
    assert_eq!(tf[1].term, "追");
    assert_eq!(tf[1].count, 1);
    assert_eq!(tf[1].total, 3);
    let ratio = tf[0].count as f64 / tf[0].total as f64;
    assert!((ratio - 2.0 / 3.0).abs() < 1e-12);
}

#[test]
fn builder_surfaces_term_frequencies_even_for_stopwords() {
    let mut b = IndexBuilder::new(Tokenizer::Whitespace);
    let tf = b.add_document("的 猫 的");
    assert_eq!(tf.len(), 2);
    assert_eq!(tf[0].term, "的");
    assert_eq!(tf[0].count, 2);
    assert_eq!(tf[0].total, 3);
    assert_eq!(tf[1].term, "猫");
    assert_eq!(tf[1].count, 1);
    assert_eq!(tf[1].total, 3);
}

#[test]
fn two_documents_or_retrieval() {
    let mut store = DocStore::new();
    store.add("猫 追 老鼠".to_string());
    store.add("老鼠 躺 地上".to_string());
    let idx = build(store, Tokenizer::Whitespace);
    assert_eq!(
        idx.query("老鼠"),
        vec!["猫 追 老鼠".to_string(), "老鼠 躺 地上".to_string()]
    );
    assert_eq!(idx.query("猫"), vec!["猫 追 老鼠".to_string()]);
    assert!(idx.query("狗").is_empty());
}

#[test]
fn query_is_idempotent() {
    let mut store = DocStore::new();
    store.add("猫 追 老鼠".to_string());
    store.add("老鼠 躺 地上".to_string());
    let idx = build(store, Tokenizer::Whitespace);
    let first = idx.query("老鼠 猫");
    let second = idx.query("老鼠 猫");
    assert_eq!(first, second);
}

#[test]
fn stopwords_yield_no_postings() {
    let mut store = DocStore::new();
    store.add("的 猫".to_string());
    store.add("的 的".to_string());
    let idx = build(store, Tokenizer::Whitespace);
    assert!(idx.query("的").is_empty());
    assert_eq!(idx.query("猫"), vec!["的 猫".to_string()]);
}

#[test]
fn empty_text_contributes_nothing() {
    let mut store = DocStore::new();
    store.add(String::new());
    store.add("猫".to_string());
    let idx = build(store, Tokenizer::Whitespace);
    assert_eq!(idx.query("猫"), vec!["猫".to_string()]);
    assert!(idx.query("").is_empty());
}

#[test]
fn ingestion_stops_at_the_cap() {
    let mut store = DocStore::new();
    for _ in 0..10000 {
        store.add("x".to_string());
    }
    store.add("y".to_string());
    assert_eq!(store.len(), 10001);
    let idx = build(store, Tokenizer::Whitespace);
    assert_eq!(idx.query("x").len(), 10000);
    assert!(idx.query("y").is_empty());
}

#[test]
fn notfound_error_variants() {
    let e = AppError::notfound();
    assert!(matches!(e.types, AppErrorType::Notfound));
    assert_eq!(e.message.as_deref(), Some("没有找到符合条件的数据"));
    let e = AppError::notfound_msg("missing row");
    assert!(matches!(e.types, AppErrorType::Notfound));
    assert_eq!(e.message.as_deref(), Some("missing row"));
    let e = AppError::notfound_opt(None);
    assert!(matches!(e.types, AppErrorType::Notfound));
    assert!(e.message.is_none());
}

#[test]
fn test_search() {
    let mut store = DocStore::new();
    store.add("谢娜是主持人".to_string());
    store.add("今天天气很好".to_string());
    let idx = build(store, Tokenizer::Jieba);
    let res = idx.query("谢娜");
    assert_eq!(res, vec!["谢娜是主持人".to_string()]);
    assert!(idx.query("").is_empty());
}
