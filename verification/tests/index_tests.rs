use emoji_search::EmojiSearch;
use emoji_search::IndexError;

fn pair(k: &str, g: &[&str]) -> (String, Vec<String>) {
    (k.to_string(), g.iter().map(|s| s.to_string()).collect())
}

fn english_dataset() -> &'static str {
    "{\"english\": {\"cat\": \"\u{1F431} \u{1F408}\", \"car\": \"\u{1F697}\"}}"
}

#[test]
fn example_prefix_search() {
    let mut idx = EmojiSearch::new();
    idx.initialize(english_dataset()).unwrap();
    let r = idx.search_entries("ca", "english");
    assert_eq!(
        r,
        vec![pair("car", &["\u{1F697}"]), pair("cat", &["\u{1F431}", "\u{1F408}"])]
    );
}

#[test]
fn example_exact_search() {
    let mut idx = EmojiSearch::new();
    idx.initialize(english_dataset()).unwrap();
    let r = idx.search_entries("cat", "english");
    assert_eq!(r, vec![pair("cat", &["\u{1F431}", "\u{1F408}"])]);
}

#[test]
fn example_stats() {
    let mut idx = EmojiSearch::new();
    idx.initialize(english_dataset()).unwrap();
    assert_eq!(idx.get_stats(), "{\"english\":2}");
    assert_eq!(idx.stats_list(), vec![("english".to_string(), 2)]);
    assert_eq!(idx.get_languages(), "[\"english\"]");
}

#[test]
fn search_json_exact_text() {
    let mut idx = EmojiSearch::new();
    idx.initialize(english_dataset()).unwrap();
    assert_eq!(
        idx.search("cat", "english"),
        "[[\"cat\",[\"\u{1F431}\",\"\u{1F408}\"]]]"
    );
}

#[test]
fn initialize_is_idempotent() {
    let mut once = EmojiSearch::new();
    once.initialize(english_dataset()).unwrap();
    let mut twice = EmojiSearch::new();
    twice.initialize("{\"german\": {\"hund\": \"\u{1F436}\"}}").unwrap();
    twice.initialize(english_dataset()).unwrap();
    twice.initialize(english_dataset()).unwrap();
    assert_eq!(once.get_languages(), twice.get_languages());
    assert_eq!(once.get_stats(), twice.get_stats());
    assert_eq!(once.search_entries("ca", "english"), twice.search_entries("ca", "english"));
    assert_eq!(twice.search_entries("hund", "german"), Vec::new());
}

#[test]
fn search_is_case_insensitive() {
    let mut idx = EmojiSearch::new();
    idx.initialize("{\"English\": {\"Cat\": \"\u{1F431}\"}}").unwrap();
    assert_eq!(idx.search_entries("cAt", "engLISH"), vec![pair("cat", &["\u{1F431}"])]);
    assert_eq!(
        idx.search("CAT", "ENGLISH"),
        idx.search("cat", "english")
    );
}

#[test]
fn exact_match_comes_first() {
    let mut idx = EmojiSearch::new();
    idx.initialize(
        "{\"en\": {\"car\": \"\u{1F697}\", \"cart\": \"\u{1F6D2}\", \"carp\": \"\u{1F41F}\"}}",
    )
    .unwrap();
    let r = idx.search_entries("car", "en");
    assert_eq!(r.len(), 3);
    assert_eq!(r[0], pair("car", &["\u{1F697}"]));
}

#[test]
fn exact_match_is_not_repeated() {
    let mut idx = EmojiSearch::new();
    idx.initialize("{\"en\": {\"car\": \"\u{1F697}\", \"cart\": \"\u{1F6D2}\"}}").unwrap();
    let r = idx.search_entries("car", "en");
    let cars = r.iter().filter(|e| e.0 == "car").count();
    assert_eq!(cars, 1);
}

#[test]
fn multi_language_search_deduplicates() {
    let mut idx = EmojiSearch::new();
    idx.initialize(
        "{\"a\": {\"cat\": \"\u{1F431}\"}, \"b\": {\"cat\": \"\u{1F408}\", \"cab\": \"\u{1F695}\"}}",
    )
    .unwrap();
    let langs = vec!["b".to_string(), "a".to_string()];
    let r = idx.search_multiple_entries("cat", &langs);
    assert_eq!(r, vec![pair("cat", &["\u{1F408}"])]);
    let langs2 = vec!["a".to_string(), "b".to_string()];
    let r2 = idx.search_multiple_entries("ca", &langs2);
    assert_eq!(r2, vec![pair("cat", &["\u{1F431}"]), pair("cab", &["\u{1F695}"])]);
    assert_eq!(
        idx.search_multiple("cat", "[\"a\",\"b\"]"),
        "[[\"cat\",[\"\u{1F431}\"]]]"
    );
}

#[test]
fn multi_language_skips_unknown_and_empty_list() {
    let mut idx = EmojiSearch::new();
    idx.initialize(english_dataset()).unwrap();
    assert_eq!(
        idx.search_multiple("cat", "[\"nowhere\",\"english\"]"),
        "[[\"cat\",[\"\u{1F431}\",\"\u{1F408}\"]]]"
    );
    assert_eq!(idx.search_multiple("cat", "[]"), "[]");
    assert_eq!(idx.search_multiple("cat", "{\"not\": \"a list\"}"), "[]");
}

#[test]
fn removal_empties_the_language() {
    let mut idx = EmojiSearch::new();
    idx.initialize(english_dataset()).unwrap();
    idx.remove_language("ENGLISH");
    assert_eq!(idx.search_entries("cat", "english"), Vec::new());
    assert_eq!(idx.get_languages(), "[]");
    idx.remove_language("never-loaded");
    assert_eq!(idx.get_languages(), "[]");
}

#[test]
fn unknown_language_is_safe() {
    let mut idx = EmojiSearch::new();
    idx.initialize(english_dataset()).unwrap();
    assert_eq!(idx.search("x", "nonexistent-lang"), "[]");
    assert_eq!(idx.search_entries("x", "nonexistent-lang"), Vec::new());
}

#[test]
fn malformed_initialize_is_rejected_and_atomic() {
    let mut idx = EmojiSearch::new();
    idx.initialize(english_dataset()).unwrap();
    assert_eq!(idx.initialize("not json at all"), Err(IndexError::MalformedInput));
    assert_eq!(idx.initialize("[1, 2, 3]"), Err(IndexError::MalformedInput));
    assert_eq!(idx.initialize("{\"en\": 5}"), Err(IndexError::MalformedInput));
    assert_eq!(idx.initialize("{\"en\": {\"cat\": 7}}"), Err(IndexError::MalformedInput));
    assert_eq!(idx.search_entries("cat", "english"), vec![pair("cat", &["\u{1F431}", "\u{1F408}"])]);
    assert_eq!(idx.get_stats(), "{\"english\":2}");
}

#[test]
fn update_language_replaces_one_table_only() {
    let mut idx = EmojiSearch::new();
    idx.initialize(english_dataset()).unwrap();
    idx.update_language("German", "{\"Hund\": \"\u{1F436}\"}").unwrap();
    assert_eq!(idx.search_entries("hund", "german"), vec![pair("hund", &["\u{1F436}"])]);
    assert_eq!(idx.search_entries("cat", "english"), vec![pair("cat", &["\u{1F431}", "\u{1F408}"])]);
    idx.update_language("english", "{\"dog\": \"\u{1F415}\"}").unwrap();
    assert_eq!(idx.search_entries("cat", "english"), Vec::new());
    assert_eq!(idx.search_entries("dog", "english"), vec![pair("dog", &["\u{1F415}"])]);
    assert_eq!(
        idx.update_language("english", "\"just a string\""),
        Err(IndexError::MalformedInput)
    );
    assert_eq!(idx.search_entries("dog", "english"), vec![pair("dog", &["\u{1F415}"])]);
}

#[test]
fn whitespace_runs_are_one_separator() {
    let mut idx = EmojiSearch::new();
    idx.initialize("{\"en\": {\"mix\": \" a  b\\tc\\nd \", \"blank\": \"   \", \"twin\": \"\u{1F431} \u{1F431}\"}}")
        .unwrap();
    assert_eq!(
        idx.search_entries("mix", "en"),
        vec![pair("mix", &["a", "b", "c", "d"])]
    );
    assert_eq!(idx.search_entries("blank", "en"), Vec::new());
    assert_eq!(idx.search_entries("twin", "en"), vec![pair("twin", &["\u{1F431}", "\u{1F431}"])]);
    assert_eq!(idx.get_stats(), "{\"en\":2}");
}

#[test]
fn empty_dataset_and_empty_query() {
    let mut idx = EmojiSearch::new();
    idx.initialize("{}").unwrap();
    assert_eq!(idx.get_languages(), "[]");
    assert_eq!(idx.get_stats(), "{}");
    idx.initialize(english_dataset()).unwrap();
    let r = idx.search_entries("", "english");
    assert_eq!(r, vec![pair("car", &["\u{1F697}"]), pair("cat", &["\u{1F431}", "\u{1F408}"])]);
}

#[test]
fn keywords_colliding_after_lowercasing_keep_the_later_value() {
    let mut idx = EmojiSearch::new();
    idx.initialize("{\"en\": {\"Cat\": \"\u{1F431}\", \"cAT\": \"\u{1F408}\"}}").unwrap();
    assert_eq!(idx.get_stats(), "{\"en\":1}");
    assert_eq!(idx.search_entries("cat", "en"), vec![pair("cat", &["\u{1F408}"])]);
}

#[test]
fn load_dataset_from_pairs() {
    let mut idx = EmojiSearch::new();
    let data = vec![(
        "EN".to_string(),
        vec![
            ("Cat".to_string(), "\u{1F431}".to_string()),
            ("car".to_string(), "\u{1F697}".to_string()),
        ],
    )];
    idx.load_dataset(&data);
    assert_eq!(idx.language_list(), vec!["en".to_string()]);
    assert_eq!(
        idx.search_entries("ca", "en"),
        vec![pair("cat", &["\u{1F431}"]), pair("car", &["\u{1F697}"])]
    );
    let pairs = vec![
        ("dog".to_string(), "\u{1F415}".to_string()),
        ("DOG".to_string(), "\u{1F436}".to_string()),
    ];
    idx.update_language_pairs("en", &pairs);
    assert_eq!(idx.search_entries("dog", "en"), vec![pair("dog", &["\u{1F436}"])]);
}

#[test]
fn whitespace_set_matches_std() {
    let mut count = 0u32;
    for u in 0..=0x10FFFFu32 {
        if let Some(c) = char::from_u32(u) {
            let in_set = matches!(
                u,
                0x09..=0x0D
                    | 0x20
                    | 0x85
                    | 0xA0
                    | 0x1680
                    | 0x2000..=0x200A
                    | 0x2028
                    | 0x2029
                    | 0x202F
                    | 0x205F
                    | 0x3000
            );
            assert_eq!(c.is_whitespace(), in_set);
            if in_set {
                count += 1;
            }
        }
    }
    assert_eq!(count, 25);
}

#[test]
fn languages_listed_once_each() {
    let mut idx = EmojiSearch::new();
    idx.initialize("{\"EN\": {\"cat\": \"\u{1F431}\"}, \"en\": {\"dog\": \"\u{1F415}\"}}")
        .unwrap();
    assert_eq!(idx.language_list(), vec!["en".to_string()]);
    assert_eq!(idx.search_entries("cat", "en"), Vec::new());
    assert_eq!(idx.search_entries("dog", "en"), vec![pair("dog", &["\u{1F415}"])]);
}
