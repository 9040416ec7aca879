use lsp_syslog_ng::grammar::BlockSchema;
use lsp_syslog_ng::grammar::DriverSchema;
use lsp_syslog_ng::grammar::GrammarDatabase;
use lsp_syslog_ng::grammar::KindSchema;
use lsp_syslog_ng::grammar::OptionSchema;
use lsp_syslog_ng::grammar::get_possible_object_names;
use lsp_syslog_ng::grammar::grammar_get_all_options;
use lsp_syslog_ng::grammar::grammar_get_root_level_keywords;
use lsp_syslog_ng::grammar::remove_surronding_quotes;

fn option(names: &str, hints: &[&str]) -> OptionSchema {
    OptionSchema {
        names: names.to_string(),
        type_hints: hints.iter().map(|h| h.to_string()).collect(),
    }
}

fn sample_database() -> GrammarDatabase {
    GrammarDatabase {
        kinds: vec![
            KindSchema {
                name: "source".to_string(),
                drivers: vec![
                    DriverSchema {
                        name: "network".to_string(),
                        options: vec![
                            option("ip/localip", &["\"string\""]),
                            option("port", &["number"]),
                        ],
                        blocks: vec![BlockSchema {
                            name: "tls".to_string(),
                            options: vec![option("key-file", &["path"])],
                        }],
                    },
                    DriverSchema {
                        name: "stdin".to_string(),
                        options: Vec::new(),
                        blocks: Vec::new(),
                    },
                ],
            },
            KindSchema {
                name: "destination".to_string(),
                drivers: vec![DriverSchema {
                    name: "file".to_string(),
                    options: vec![option("create-dirs", &["yesno"])],
                    blocks: Vec::new(),
                }],
            },
        ],
    }
}

#[test]
fn test_grammar_get_root_level_keywords() {
    let keywords = grammar_get_root_level_keywords();
    assert_eq!(
        keywords,
        vec!["source", "filter", "parser", "rewrite", "destination", "log", "junction"]
    );
}

#[test]
fn test_remove_surronding_quotes() {
    assert_eq!(remove_surronding_quotes("\"string\""), "string");
    assert_eq!(remove_surronding_quotes("bare"), "bare");
    assert_eq!(remove_surronding_quotes("\"\""), "\"\"");
    assert_eq!(remove_surronding_quotes("\"x\""), "x");
}

#[test]
fn test_get_possible_object_names() {
    let db = sample_database();

    let sources = get_possible_object_names(&db, "source").unwrap();
    assert_eq!(sources, vec!["network", "stdin"]);

    let destinations = get_possible_object_names(&db, "destination").unwrap();
    assert_eq!(destinations, vec!["file"]);

    // the `log` kind is not consulted for driver names
    assert!(get_possible_object_names(&db, "log").is_none());
    // a consulted kind missing from the schema yields nothing
    assert!(get_possible_object_names(&db, "parser").is_none());
}

#[test]
fn test_grammar_get_all_options_driver_level() {
    let db = sample_database();

    let table = grammar_get_all_options(&db, "source", "network", &None).unwrap();

    assert_eq!(table.len(), 2);
    assert_eq!(table[0], ("ip".to_string(), "(string)".to_string()));
    assert_eq!(table[1], ("port".to_string(), "(number)".to_string()));
}

#[test]
fn test_grammar_get_all_options_inner_block() {
    let db = sample_database();

    let table =
        grammar_get_all_options(&db, "source", "network", &Some("tls".to_string())).unwrap();

    assert_eq!(table, vec![("key-file".to_string(), "(path)".to_string())]);
}

#[test]
fn test_grammar_get_all_options_lookup_misses() {
    let db = sample_database();

    assert!(grammar_get_all_options(&db, "filter", "network", &None).is_none());
    assert!(grammar_get_all_options(&db, "source", "syslog", &None).is_none());
    assert!(
        grammar_get_all_options(&db, "source", "network", &Some("udp".to_string())).is_none()
    );
}
