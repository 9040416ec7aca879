use lsp_syslog_ng::ast::Context;
use lsp_syslog_ng::language_types::ObjectKind;
use lsp_syslog_ng::ast::Snippet;
use lsp_syslog_ng::ast::SyslogNgConfiguration;
use lsp_syslog_ng::grammar::DriverSchema;
use lsp_syslog_ng::grammar::GrammarDatabase;
use lsp_syslog_ng::grammar::KindSchema;
use lsp_syslog_ng::grammar::OptionSchema;
use lsp_syslog_ng::parser::parse_conf;
use lsp_syslog_ng::protocol::CompletionParams;
use lsp_syslog_ng::protocol::Position;
use lsp_syslog_ng::protocol::Range;

fn snippet(uri: &str, content: &str, children: Vec<Snippet>) -> Snippet {
    Snippet {
        content: content.to_string(),
        directive_range: Range::new(Position::new(0, 0), Position::new(1, 0)),
        snippet_uri: uri.to_string(),
        diagnostics: Vec::new(),
        children,
        resolved_content: String::new(),
        depth: 0,
    }
}

/// A linear chain of snippets, deepest last in `contents`.
fn chain(contents: &[&str]) -> Snippet {
    let mut node: Option<Snippet> = None;
    for (i, content) in contents.iter().enumerate().rev() {
        let children = match node.take() {
            Some(child) => vec![child],
            None => Vec::new(),
        };
        node = Some(snippet(&format!("file:///s{}.conf", i), content, children));
    }
    node.unwrap()
}

fn count_depth_diagnostics(s: &Snippet) -> usize {
    let mut count = s
        .diagnostics
        .iter()
        .filter(|d| d.message.contains("depth limit (15)"))
        .count();
    for c in &s.children {
        count += count_depth_diagnostics(c);
    }
    count
}

#[test]
fn test_resolve_single_snippet_round_trip() {
    let mut s = snippet("file:///a.conf", "source s_a { stdin(); };\n", Vec::new());
    let merged = s.resolve(0).unwrap();
    assert_eq!(merged, "source s_a { stdin(); };\n");
    assert_eq!(s.resolved_content, "source s_a { stdin(); };\n");
    assert_eq!(merged, s.get_resolved_merged());
}

#[test]
fn test_resolve_one_level_chain_round_trip() {
    let mut s = chain(&["outer\n", "inner\n"]);
    let merged = s.resolve(0).unwrap();
    assert_eq!(merged, "inner\nouter\n");
    assert_eq!(merged, s.get_resolved_merged());
}

#[test]
fn test_resolve_three_level_chain_round_trip() {
    let mut s = chain(&["a\n", "b\n", "c\n", "d\n"]);
    let merged = s.resolve(0).unwrap();
    assert_eq!(merged, "d\nc\nb\na\n");
    assert_eq!(merged, s.get_resolved_merged());
}

#[test]
fn test_resolve_siblings_merge_in_identity_order() {
    let mut s = snippet(
        "file:///root.conf",
        "own\n",
        vec![
            snippet("file:///zz.conf", "z-part\n", Vec::new()),
            snippet("file:///aa.conf", "a-part\n", Vec::new()),
        ],
    );
    let merged = s.resolve(0).unwrap();
    assert_eq!(merged, "a-part\nz-part\nown\n");
}

#[test]
fn test_resolve_depth_guard_reports_exactly_once() {
    let contents: Vec<String> = (0..17).map(|i| format!("level {}\n", i)).collect();
    let refs: Vec<&str> = contents.iter().map(|s| s.as_str()).collect();
    let mut s = chain(&refs);

    let res = s.resolve(0);

    assert!(res.is_err());
    assert_eq!(count_depth_diagnostics(&s), 1);
}

#[test]
fn test_resolve_within_depth_ceiling_succeeds() {
    let contents: Vec<String> = (0..16).map(|i| format!("level {}\n", i)).collect();
    let refs: Vec<&str> = contents.iter().map(|s| s.as_str()).collect();
    let mut s = chain(&refs);

    let res = s.resolve(0);

    assert!(res.is_ok());
    assert_eq!(count_depth_diagnostics(&s), 0);
}

#[test]
fn test_check_possible_errors() {
    let clean = snippet("file:///a.conf", "source s {};\n", Vec::new());
    assert!(clean.check_possible_errors(0).is_none());
    assert!(clean.check_possible_errors(16).is_some());

    let versioned = snippet("file:///b.conf", "@version: 3.35\n", Vec::new());
    let diag = versioned.check_possible_errors(0).unwrap();
    assert_eq!(diag.message, "Snippets can not contain @version");
}

#[test]
fn test_resolve_version_in_snippet_is_a_fault() {
    let mut child = snippet("file:///child.conf", "@version: 3.35\nsource s {};\n", Vec::new());
    let err = child.resolve(1).unwrap_err();
    assert_eq!(err.message, "Snippets can not contain @version");
    assert_eq!(err.range, Range::new(Position::new(0, 0), Position::new(1, 0)));
    // no merged content for that snippet
    assert_eq!(child.resolved_content, "");
}

#[test]
fn test_resolve_child_fault_is_reported_at_the_directive() {
    let mut bad_child = snippet("file:///child.conf", "@version: 3.35\n", Vec::new());
    bad_child.directive_range = Range::new(Position::new(4, 0), Position::new(5, 0));
    let mut root = snippet("file:///root.conf", "own\n", vec![bad_child]);

    let err = root.resolve(0).unwrap_err();

    assert_eq!(err.range, Range::new(Position::new(4, 0), Position::new(5, 0)));
    assert!(err.message.contains("file:///child.conf"));
    assert_eq!(root.resolved_content, "");
}

fn sample_database() -> GrammarDatabase {
    GrammarDatabase {
        kinds: vec![KindSchema {
            name: "source".to_string(),
            drivers: vec![DriverSchema {
                name: "network".to_string(),
                options: vec![
                    OptionSchema {
                        names: "ip/localip".to_string(),
                        type_hints: vec!["\"string\"".to_string()],
                    },
                    OptionSchema {
                        names: "port".to_string(),
                        type_hints: vec!["number".to_string()],
                    },
                    OptionSchema {
                        names: "flags".to_string(),
                        type_hints: Vec::new(),
                    },
                ],
                blocks: Vec::new(),
            }],
        }],
    }
}

const DOC: &str = "source s_net {\n  network(\n    \n  );\n};\n";
const URI: &str = "file:///main.conf";

fn parsed_configuration() -> SyslogNgConfiguration {
    let mut conf = SyslogNgConfiguration::new();
    let res = parse_conf(DOC, URI, &mut conf);
    assert!(res.is_none());
    conf
}

#[test]
fn test_get_context_inside_and_outside() {
    let conf = parsed_configuration();

    let inside = CompletionParams {
        uri: URI.to_string(),
        position: Position::new(2, 0),
    };
    assert_eq!(conf.get_context(&inside), Context::Source);

    let outside = CompletionParams {
        uri: URI.to_string(),
        position: Position::new(40, 0),
    };
    assert_eq!(conf.get_context(&outside), Context::Root);
}

#[test]
fn test_completion_inside_source_lists_schema_options() {
    let conf = parsed_configuration();
    let db = sample_database();
    let params = CompletionParams {
        uri: URI.to_string(),
        position: Position::new(2, 0),
    };

    let items = conf.get_code_completion(&db, &params, DOC).unwrap();

    // the full option list of the resolved driver, deprecated aliases
    // collapsed to their canonical first name; entries without a type
    // hint carry no candidate
    assert_eq!(items.len(), 2);
    assert_eq!(items[0].label, "ip");
    assert_eq!(items[0].detail, "(string)");
    assert_eq!(items[1].label, "port");
    assert_eq!(items[1].detail, "(number)");
}

#[test]
fn test_completion_at_root_lists_the_seven_keywords() {
    let conf = parsed_configuration();
    let db = sample_database();
    let params = CompletionParams {
        uri: URI.to_string(),
        position: Position::new(40, 0),
    };

    let items = conf.get_code_completion(&db, &params, DOC).unwrap();

    let labels: Vec<&str> = items.iter().map(|it| it.label.as_str()).collect();
    assert_eq!(
        labels,
        vec!["source", "filter", "parser", "rewrite", "destination", "log", "junction"]
    );
    assert_eq!(items.len(), 7);
    for it in &items {
        assert_eq!(it.label, it.detail);
    }
}

#[test]
fn test_completion_with_unknown_driver_yields_nothing() {
    let mut conf = SyslogNgConfiguration::new();
    let doc = "source s_x {\n  exotic(\n    \n  );\n};\n";
    assert!(parse_conf(doc, URI, &mut conf).is_none());
    let db = sample_database();
    let params = CompletionParams {
        uri: URI.to_string(),
        position: Position::new(2, 0),
    };

    assert!(conf.get_code_completion(&db, &params, doc).is_none());
}

#[test]
fn test_add_snippet_replaces_same_identity() {
    let mut conf = SyslogNgConfiguration::new();
    conf.add_snippet(snippet("file:///a.conf", "first\n", Vec::new()));
    conf.add_snippet(snippet("file:///b.conf", "other\n", Vec::new()));
    conf.add_snippet(snippet("file:///a.conf", "second\n", Vec::new()));
    // replacing by identity is observable through the session only via
    // resolution; the aggregate stays well-formed
    assert_eq!(conf.get_objects().len(), 0);
}

#[test]
fn test_get_objects_by_kind() {
    let mut conf = SyslogNgConfiguration::new();
    let doc = "source s_a { stdin(); };\nlog { source(s_a); };\nsource s_b { stdin(); };\n";
    assert!(parse_conf(doc, URI, &mut conf).is_none());

    let sources = conf.get_objects_by_kind(&ObjectKind::Source);
    assert_eq!(sources.len(), 2);
    assert_eq!(sources[0].get_id(), "s_a");
    assert_eq!(sources[1].get_id(), "s_b");
    assert_eq!(conf.get_objects_by_kind(&ObjectKind::Log).len(), 1);
    assert_eq!(conf.get_objects_by_kind(&ObjectKind::Filter).len(), 0);
}

#[test]
fn test_add_configuration_requires_version_marker() {
    let mut conf = SyslogNgConfiguration::new();
    conf.add_configuration("source s {};\n");
    assert_eq!(conf.get_objects().len(), 0);

    let mut conf2 = SyslogNgConfiguration::new();
    conf2.add_configuration("@version: 3.35\nsource s { stdin(); };\n");
    assert_eq!(conf2.get_objects().len(), 1);
}
