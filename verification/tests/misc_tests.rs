use meilidb::config::{criterion_for, AccessToken, Config, RankingOrdering, RankingRule};
use meilidb::criterion::{Criterion, Match};
use meilidb::crop::{crop_document, crop_text, sort_by_position, Hit};
use meilidb::database::Database;
use meilidb::guard::{
    authorize, index_name, Access, AdminGuard, ApiKeyError, ReadGuard, SuperAdminGuard,
    SuperAdminToken, WriteGuard,
};
use meilidb::option::{ArgsOpt, EnvOpt, Opt};
use meilidb::schema::{Schema, SchemaBuilder, SchemaProps};
use meilidb::text::same_text;
use meilidb::tokenizer::{scalars_of, tokenize, StopWords};
use meilidb::types::SchemaAttr;
use meilidb::word::{compare_words, same_word, starts_with, utf8_len_within, Order};

fn chars(s: &str) -> Vec<char> {
    s.chars().collect()
}

fn schema() -> Schema {
    let mut builder = SchemaBuilder::with_identifier("id");
    builder.new_attribute("id", SchemaProps { stored: true, indexed: false, ranked: false });
    builder.new_attribute("title", SchemaProps { stored: true, indexed: true, ranked: false });
    builder.new_attribute("views", SchemaProps { stored: false, indexed: false, ranked: true });
    builder.build().unwrap()
}

fn found(attribute: u16, char_index: u16, char_length: u16) -> Match {
    Match {
        query_index: 0,
        distance: 0,
        attribute,
        word_index: 0,
        is_exact: true,
        char_index,
        char_length,
    }
}

#[test]
fn words_compare_in_dictionary_order() {
    assert_eq!(compare_words(&chars("abc"), &chars("abd")), Order::Less);
    assert_eq!(compare_words(&chars("abc"), &chars("abc")), Order::Equal);
    assert_eq!(compare_words(&chars("abd"), &chars("abc")), Order::Greater);
    assert_eq!(compare_words(&chars("ab"), &chars("abc")), Order::Less);
    assert_eq!(compare_words(&chars(""), &chars("a")), Order::Less);
    assert_eq!(compare_words(&chars("z"), &chars("é")), Order::Less);
    assert!(same_word(&chars("été"), &chars("été")));
    assert!(!same_word(&chars("ete"), &chars("été")));
    assert!(starts_with(&chars("foxes"), &chars("fox")));
    assert!(starts_with(&chars("fox"), &chars("")));
    assert!(!starts_with(&chars("fo"), &chars("fox")));
    assert!(!starts_with(&chars("fax"), &chars("fox")));
}

#[test]
fn utf8_length_counts_bytes() {
    assert_eq!(utf8_len_within(&chars("abc"), 64), Some(3));
    assert_eq!(utf8_len_within(&chars("café"), 64), Some(5));
    assert_eq!(utf8_len_within(&chars("日本"), 64), Some(6));
    assert_eq!(utf8_len_within(&chars("😀"), 64), Some(4));
    assert_eq!(utf8_len_within(&chars("😀"), 3), None);
    assert_eq!(utf8_len_within(&chars(""), 0), Some(0));
    assert!(same_text("héllo", "héllo"));
    assert!(!same_text("hello", "héllo"));
    assert_eq!(scalars_of("añb"), vec!['a', 'ñ', 'b']);
}

#[test]
fn tokens_are_lowercase_runs_of_letters_and_digits() {
    let tokens = tokenize("L'Été 2024, DÉJÀ-vu!", &StopWords::new());
    let words: Vec<String> = tokens.iter().map(|t| t.word.iter().collect()).collect();
    assert_eq!(words, vec!["l", "été", "2024", "déjà", "vu"]);
    let places: Vec<(usize, usize, usize)> =
        tokens.iter().map(|t| (t.word_index, t.char_index, t.char_length)).collect();
    assert_eq!(places, vec![(0, 0, 1), (1, 2, 3), (2, 6, 4), (3, 12, 4), (4, 17, 2)]);
    assert_eq!(tokenize("", &StopWords::new()).len(), 0);
    assert_eq!(tokenize(" .. ", &StopWords::new()).len(), 0);
}

#[test]
fn words_over_the_limit_are_dropped() {
    let long: String = std::iter::repeat('a').take(65).collect();
    let text = format!("{} ok", long);
    let tokens = tokenize(&text, &StopWords::new());
    assert_eq!(tokens.len(), 1);
    assert_eq!(tokens[0].word, chars("ok"));
    assert_eq!(tokens[0].word_index, 0);
    assert_eq!(tokens[0].char_index, 66);
    let limit: String = std::iter::repeat('a').take(64).collect();
    assert_eq!(tokenize(&limit, &StopWords::new()).len(), 1);
}

#[test]
fn stop_words_hold_what_was_inserted() {
    let mut stop_words = StopWords::new();
    assert!(!stop_words.contains(&chars("the")));
    stop_words.insert("the");
    stop_words.insert("of");
    assert!(stop_words.contains(&chars("the")));
    assert!(stop_words.contains(&chars("of")));
    assert!(!stop_words.contains(&chars("th")));
}

#[test]
fn text_is_cropped_around_the_first_match() {
    let text = "0123456789abcdefghij";
    let matches = vec![found(0, 8, 2), found(0, 12, 3), found(0, 17, 2)];
    let (cropped, moved) = crop_text(text, &matches, 4);
    assert_eq!(cropped, "456789ab");
    assert_eq!(moved, vec![found(0, 4, 2)]);
    let (cropped, moved) = crop_text(text, &matches, 5);
    assert_eq!(cropped, "3456789abc");
    assert_eq!(moved, vec![found(0, 5, 2)]);
    let (cropped, moved) = crop_text(text, &matches, 10);
    assert_eq!(cropped, text);
    assert_eq!(moved, matches);
    let (cropped, moved) = crop_text(text, &vec![], 3);
    assert_eq!(cropped, "012345");
    assert_eq!(moved, vec![]);
    let (cropped, moved) = crop_text("añb", &vec![found(0, 1, 1)], 0);
    assert_eq!(cropped, "");
    assert_eq!(moved, vec![]);
    let (cropped, moved) = crop_text("short", &vec![found(0, 40, 1)], 2);
    assert_eq!(cropped, "");
    assert_eq!(moved, vec![found(0, 2, 1)]);
    // a later match may start before the first, as long as it lies in the cropped text
    let unsorted = vec![found(0, 8, 2), found(0, 6, 2), found(0, 2, 20)];
    let (cropped, moved) = crop_text(text, &unsorted, 4);
    assert_eq!(cropped, "456789ab");
    assert_eq!(moved, vec![found(0, 4, 2), found(0, 2, 2)]);
}

#[test]
fn matches_sort_by_start_then_length() {
    let ms = vec![found(1, 5, 2), found(0, 3, 4), found(2, 5, 1), found(3, 3, 4), found(0, 0, 9)];
    assert_eq!(
        sort_by_position(&ms),
        vec![found(0, 0, 9), found(0, 3, 4), found(3, 3, 4), found(2, 5, 1), found(1, 5, 2)]
    );
}

#[test]
fn a_field_of_a_document_is_cropped_with_its_matches() {
    let hit = |name: &str, value: &str| Hit { name: name.to_string(), value: value.to_string() };
    let mut document = vec![hit("id", "7"), hit("title", "the quick brown fox jumps")];
    let mut matches = vec![found(1, 16, 3), found(0, 0, 1), found(1, 10, 5)];
    crop_document(&mut document, &mut matches, &schema(), "title", 3);
    assert_eq!(document, vec![hit("id", "7"), hit("title", "ck bro")]);
    // the match at scalar ten ends beyond the text kept: no match of the title is left
    assert_eq!(matches, vec![found(0, 0, 1)]);
    // a field that the schema does not declare: the matches are sorted, nothing else
    let mut document = vec![hit("title", "abc")];
    let mut matches = vec![found(1, 2, 1), found(1, 0, 1)];
    crop_document(&mut document, &mut matches, &schema(), "nope", 1);
    assert_eq!(document, vec![hit("title", "abc")]);
    assert_eq!(matches, vec![found(1, 0, 1), found(1, 2, 1)]);
    // a field that the document does not have
    let mut document = vec![hit("id", "7")];
    let mut matches = vec![found(1, 2, 1), found(1, 0, 1)];
    crop_document(&mut document, &mut matches, &schema(), "title", 1);
    assert_eq!(document, vec![hit("id", "7")]);
    assert_eq!(matches, vec![found(1, 0, 1), found(1, 2, 1)]);
    // the matches of the cropped field come last
    let mut document = vec![hit("title", "0123456789")];
    let mut matches = vec![found(1, 4, 2), found(2, 5, 1), found(1, 7, 1)];
    crop_document(&mut document, &mut matches, &schema(), "title", 2);
    assert_eq!(document, vec![hit("title", "2345")]);
    assert_eq!(matches, vec![found(2, 5, 1), found(1, 2, 2)]);
}

#[test]
fn settings_take_over_what_new_settings_give() {
    let mut saved = Config::new();
    saved.distinct_field = Some("kind".to_string());
    saved.stop_words = Some(vec!["the".to_string()]);
    let mut new = Config::new();
    new.stop_words = Some(vec![]);
    new.ranking_order = Some(vec!["_exact".to_string()]);
    new.access_token = Some(AccessToken {
        read_key: "r".to_string(),
        write_key: "".to_string(),
        admin_key: "a".to_string(),
    });
    let merged = Config::merged(Some(saved.clone()), new.clone());
    assert_eq!(merged.stop_words, None);
    assert_eq!(merged.ranking_order, Some(vec!["_exact".to_string()]));
    assert_eq!(merged.distinct_field, Some("kind".to_string()));
    assert_eq!(merged.ranking_rules, None);
    assert_eq!(merged.access_token, None);
    // where nothing was saved the new settings are taken as they are
    assert_eq!(Config::merged(None, new.clone()), new);
    let mut config = saved.clone();
    config.update_with(new);
    assert_eq!(config.stop_words, Some(vec![]));
    config.distinct_field = Some(String::new());
    config.ranking_rules = Some(vec![]);
    config.normalize();
    assert_eq!(config.distinct_field, None);
    assert_eq!(config.ranking_rules, None);
    assert_eq!(config.ranking_order, Some(vec!["_exact".to_string()]));
}

#[test]
fn rule_names_stand_for_criteria() {
    let schema = schema();
    let rules = vec![
        RankingRule { name: "views".to_string(), ordering: RankingOrdering::Dsc },
        RankingRule { name: "title".to_string(), ordering: RankingOrdering::Asc },
    ];
    assert_eq!(criterion_for(&schema, &rules, "_sum_of_typos"), Some(Criterion::SumOfTypos));
    assert_eq!(criterion_for(&schema, &rules, "_number_of_words"), Some(Criterion::NumberOfWords));
    assert_eq!(criterion_for(&schema, &rules, "_word_proximity"), Some(Criterion::WordsProximity));
    assert_eq!(
        criterion_for(&schema, &rules, "_sum_of_words_attribute"),
        Some(Criterion::SumOfWordsAttribute)
    );
    assert_eq!(
        criterion_for(&schema, &rules, "_sum_of_words_position"),
        Some(Criterion::SumOfWordsPosition)
    );
    assert_eq!(criterion_for(&schema, &rules, "_exact"), Some(Criterion::Exact));
    assert_eq!(
        criterion_for(&schema, &rules, "views"),
        Some(Criterion::SortByAttr { attribute: SchemaAttr(2), ascending: false })
    );
    // an attribute that is not ranked, a name that is unknown
    assert_eq!(criterion_for(&schema, &rules, "title"), None);
    assert_eq!(criterion_for(&schema, &rules, "title:asc"), None);
    assert_eq!(criterion_for(&schema, &rules, "nope"), None);
    assert_eq!(criterion_for(&schema, &rules, "nope:asc"), None);
    assert_eq!(criterion_for(&schema, &vec![], "views"), None);
    assert_eq!(
        criterion_for(&schema, &vec![], "views:asc"),
        Some(Criterion::SortByAttr { attribute: SchemaAttr(2), ascending: true })
    );
    assert_eq!(criterion_for(&schema, &vec![], "views:up"), None);
    assert_eq!(
        Config::new().pipeline(&schema),
        vec![
            Criterion::SumOfTypos,
            Criterion::NumberOfWords,
            Criterion::WordsProximity,
            Criterion::SumOfWordsAttribute,
            Criterion::SumOfWordsPosition,
            Criterion::Exact,
            Criterion::DocumentId
        ]
    );
}

#[test]
fn the_host_names_the_index() {
    assert_eq!(index_name("books.example.com"), "books");
    assert_eq!(index_name("books"), "books");
    assert_eq!(index_name(".example.com"), "");
    assert_eq!(index_name(""), "");
}

fn guarded_database() -> Database {
    let mut db = Database::new();
    db.create_index("open", schema()).unwrap();
    db.create_index("closed", schema()).unwrap();
    let mut config = Config::new();
    config.access_token = Some(AccessToken {
        read_key: "r".to_string(),
        write_key: "w".to_string(),
        admin_key: "a".to_string(),
    });
    db.update_config("closed", config);
    db
}

#[test]
fn requests_are_let_through_with_the_right_key() {
    let db = guarded_database();
    let host = Some("closed.example.com");
    assert_eq!(authorize(Access::Read, host, Some("r"), Some(&db)), Ok("closed".to_string()));
    assert_eq!(authorize(Access::Write, host, Some("w"), Some(&db)), Ok("closed".to_string()));
    assert_eq!(authorize(Access::Admin, host, Some("a"), Some(&db)), Ok("closed".to_string()));
    assert_eq!(authorize(Access::Read, host, Some("w"), Some(&db)), Err(ApiKeyError::Invalid));
    assert_eq!(authorize(Access::Write, host, Some("r"), Some(&db)), Err(ApiKeyError::Invalid));
    assert_eq!(authorize(Access::Admin, host, None, Some(&db)), Err(ApiKeyError::MissingToken));
    assert_eq!(authorize(Access::Read, None, Some("r"), Some(&db)), Err(ApiKeyError::MissingIndexName));
    assert_eq!(authorize(Access::Read, host, Some("r"), None), Err(ApiKeyError::Internal));
    assert_eq!(
        authorize(Access::Read, Some("nope.example.com"), Some("r"), Some(&db)),
        Err(ApiKeyError::IndexNotFound)
    );
    assert_eq!(authorize(Access::Admin, Some("open"), None, Some(&db)), Ok("open".to_string()));
    assert_eq!(ReadGuard::from_request(host, Some("r"), Some(&db)).map(|g| g.index), Ok("closed".to_string()));
    assert_eq!(WriteGuard::from_request(host, Some("r"), Some(&db)).map(|g| g.index), Err(ApiKeyError::Invalid));
    assert_eq!(AdminGuard::from_request(host, Some("a"), Some(&db)).map(|g| g.index), Ok("closed".to_string()));
}

#[test]
fn the_key_of_the_server_opens_everything() {
    let token = SuperAdminToken(Some("root".to_string()));
    let host = Some("books.example.com");
    assert_eq!(
        SuperAdminGuard::from_request(Some(&token), Some("root"), host).map(|g| g.index),
        Ok(Some("books".to_string()))
    );
    assert_eq!(
        SuperAdminGuard::from_request(Some(&token), Some("toor"), host).map(|g| g.index),
        Err(ApiKeyError::Invalid)
    );
    assert_eq!(
        SuperAdminGuard::from_request(Some(&token), None, host).map(|g| g.index),
        Err(ApiKeyError::MissingToken)
    );
    assert_eq!(
        SuperAdminGuard::from_request(Some(&token), Some("root"), None).map(|g| g.index),
        Err(ApiKeyError::MissingIndexName)
    );
    assert_eq!(
        SuperAdminGuard::from_request(None, Some("root"), host).map(|g| g.index),
        Err(ApiKeyError::Internal)
    );
    assert_eq!(
        SuperAdminGuard::from_request(Some(&SuperAdminToken(None)), Some("root"), host).map(|g| g.index),
        Err(ApiKeyError::Internal)
    );
}

#[test]
fn options_prefer_the_command_line() {
    let args = ArgsOpt { database_path: Some("/a".to_string()), port: None, token: None };
    let env = EnvOpt {
        database_path: Some("/e".to_string()),
        port: Some(9000),
        token: Some("t".to_string()),
    };
    let opt = Opt::new(args, env);
    assert_eq!(opt.database_path, "/a");
    assert_eq!(opt.port, 9000);
    assert_eq!(opt.token, Some("t".to_string()));
    let args = ArgsOpt { database_path: None, port: Some(7), token: Some("x".to_string()) };
    let env = EnvOpt { database_path: Some("/e".to_string()), port: Some(9000), token: None };
    let opt = Opt::new(args, env);
    assert_eq!((opt.database_path.as_str(), opt.port, opt.token.as_deref()), ("/e", 7, Some("x")));
    let args = ArgsOpt { database_path: Some("/a".to_string()), port: None, token: None };
    let env = EnvOpt { database_path: None, port: None, token: None };
    assert_eq!(Opt::new(args, env).port, 8000);
    let args = ArgsOpt { database_path: None, port: None, token: None };
    let env = EnvOpt { database_path: None, port: None, token: None };
    assert!(Opt::try_new(args, env).is_none());
}

#[test]
fn a_refused_request_is_answered_by_its_status() {
    assert_eq!(ApiKeyError::IndexNotFound.status(), 404);
    assert_eq!(ApiKeyError::Internal.status(), 405);
    assert_eq!(ApiKeyError::MissingIndexName.status(), 405);
    assert_eq!(ApiKeyError::MissingToken.status(), 405);
    assert_eq!(ApiKeyError::Invalid.status(), 405);
}
