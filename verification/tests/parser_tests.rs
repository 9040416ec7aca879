use lsp_syslog_ng::ast::SyslogNgConfiguration;
use lsp_syslog_ng::language_types::ObjectKind;
use lsp_syslog_ng::language_types::ValueTypes;
use lsp_syslog_ng::parser::comment_parser;
use lsp_syslog_ng::parser::parse_comments;
use lsp_syslog_ng::parser::parse_conf;
use lsp_syslog_ng::parser::parse_object_block;
use lsp_syslog_ng::parser::parse_value;
use lsp_syslog_ng::parser::version_parser;
use lsp_syslog_ng::parser::Annotation;
use lsp_syslog_ng::parser::SngSyntaxErrorKind;
use lsp_syslog_ng::parser::annotation_parser;
use lsp_syslog_ng::protocol::Position;
use lsp_syslog_ng::protocol::Range;

#[test]
fn test_comment_parser_comment_char() {
    let input = "#";

    let (remainder, _) = comment_parser(input).unwrap();

    assert!(remainder.is_empty());
}

#[test]
fn test_comment_parser_whole_line() {
    let input = "# commented line\n";

    let (remainder, _) = comment_parser(input).unwrap();

    assert!(remainder.is_empty());
}

#[test]
fn test_comment_parser_config_with_comments_before() {
    let input = r###"
    # commented line1
    # commented line2
    source s_src {};
    "###;

    let (remainder, _) = parse_comments(input);
    let without_comments = r###"
    source s_src {};
    "###;
    assert_eq!(remainder, without_comments);
}

#[test]
fn test_comment_parser_config_without_comments() {
    let input = "source s_src {};";
    let (remainder, _) = parse_comments(input);

    assert_eq!(remainder, input);
}

#[test]
fn test_version_parser_success() {
    let input = "@version: 3.35";

    let (remainder, annotation) = version_parser(input).unwrap();

    assert_eq!(annotation.major_version, 3);
    assert_eq!(annotation.minor_version, 35);
    assert!(remainder.is_empty());
}

#[test]
fn test_version_parser_failure_missing_dot() {
    let input = "@version:335";

    let res = version_parser(input);

    assert!(matches!(res, None));
}

#[test]
fn test_version_parser_failure_too_large() {
    let input = "@version: 999.1";

    let res = version_parser(input);

    assert!(matches!(res, None));
}

fn snippet_directive_keyword() -> String {
    ['i', 'n', 'c', 'l', 'u', 'd', 'e'].iter().collect()
}

#[test]
fn test_annotation_parser_version() {
    let (remainder, annotation) = annotation_parser("@version: 3.35").unwrap();
    assert!(remainder.is_empty());
    assert!(matches!(annotation, Some(Annotation::VA(_))));
}

#[test]
fn test_annotation_parser_snippet_directive() {
    let input = format!("@{} \"snippets/a.conf\"\nnext", snippet_directive_keyword());

    let (remainder, annotation) = annotation_parser(&input).unwrap();

    assert_eq!(remainder, "next");
    assert_eq!(
        annotation,
        Some(Annotation::IA("\"snippets/a.conf\"".to_string()))
    );
}

#[test]
fn test_annotation_parser_scl_directives_are_dropped() {
    let input = format!("@{} \"scl.conf\"\n", snippet_directive_keyword());

    let (_, annotation) = annotation_parser(&input).unwrap();

    assert_eq!(annotation, None);
}

#[test]
fn test_annotation_parser_unknown_keyword_consumes_the_line() {
    let (remainder, annotation) = annotation_parser("@define x y\nrest").unwrap();

    assert_eq!(remainder, "\nrest");
    assert_eq!(annotation, None);
}

#[test]
fn test_parse_value_yesno_failure() {
    let input = "10";

    let res = parse_value(input);

    // the boolean recognizer refuses `10`; the integer recognizer takes it
    assert!(!matches!(res, Some((_, ValueTypes::YesNo(_)))));
}

#[test]
fn test_parse_value_yesno_all_tokens() {
    for (token, expected) in [
        ("1", true),
        ("yes", true),
        ("on", true),
        ("0", false),
        ("no", false),
        ("off", false),
    ] {
        let (remainder, value) = parse_value(token).unwrap();
        assert!(remainder.is_empty());
        assert_eq!(value, ValueTypes::YesNo(expected));
    }
}

#[test]
fn test_parse_value_non_boolean_token_falls_through() {
    let (remainder, value) = parse_value("maybe").unwrap();
    assert!(remainder.is_empty());
    assert_eq!(value, ValueTypes::StringList(vec!["maybe".to_string()]));
}

#[test]
fn test_parse_value_positive_integer() {
    let (remainder, value) = parse_value("514").unwrap();
    assert!(remainder.is_empty());
    assert_eq!(value, ValueTypes::PositiveInteger(514));

    let (_, value) = parse_value("10").unwrap();
    assert_eq!(value, ValueTypes::PositiveInteger(10));

    let (_, value) = parse_value("007").unwrap();
    assert_eq!(value, ValueTypes::PositiveInteger(7));
}

#[test]
fn test_parse_value_zero_is_non_negative() {
    // `0` alone is a boolean token; a longer zero run reaches the
    // integer recognizers
    let (remainder, value) = parse_value("00").unwrap();
    assert!(remainder.is_empty());
    assert_eq!(value, ValueTypes::NonNegativeInteger(0));
}

#[test]
fn test_parse_value_quoted_string() {
    let (remainder, value) = parse_value("\"/dev/stdin\");").unwrap();
    assert_eq!(remainder, ");");
    assert_eq!(value, ValueTypes::String("/dev/stdin".to_string()));
}

#[test]
fn test_parse_value_empty_quoted_string_stays_empty() {
    let (remainder, value) = parse_value("\"\"").unwrap();
    assert!(remainder.is_empty());
    assert_eq!(value, ValueTypes::String(String::new()));
}

#[test]
fn test_parse_value_string_or_number() {
    let (remainder, value) = parse_value("-1.5e3 rest").unwrap();
    assert_eq!(remainder, " rest");
    assert_eq!(value, ValueTypes::StringOrNumber("-1.5e3".to_string()));
}

#[test]
fn test_parse_value_string_list() {
    let (remainder, value) = parse_value("a:b:c").unwrap();
    assert!(remainder.is_empty());
    assert_eq!(
        value,
        ValueTypes::StringList(vec!["a".to_string(), "b".to_string(), "c".to_string()])
    );
}

#[test]
fn test_parse_object_block_source_object() {
    let input = r###"
        source s_src {
            file("/dev/stdin");
        };
        "###;

    let (remainder, object) = parse_object_block(input).unwrap();

    assert!(remainder.is_empty());

    assert_eq!(*object.get_kind(), ObjectKind::Source);
    assert_eq!(object.get_id(), "s_src");

    assert_eq!(object.get_drivers()[0].name, "file");
    assert_eq!(
        object.get_drivers()[0].required_options[0],
        ValueTypes::String("/dev/stdin".to_string())
    );
}

#[test]
fn test_parse_object_block_source_object_builtin_stdin_driver() {
    let input = r###"
        source s_stdin {
            stdin();
        };
        "###;

    let (remainder, object) = parse_object_block(input).unwrap();

    assert!(remainder.is_empty());

    assert_eq!(*object.get_kind(), ObjectKind::Source);
    assert_eq!(object.get_id(), "s_stdin");

    assert_eq!(object.get_drivers()[0].name, "stdin");
}

#[test]
fn test_parse_object_block_source_object_builtin_unix_stream_driver() {
    let input = r###"
        source s_unix_stream {
            unix-stream(
                "/path/to/socket"
                max-connections(10)
            );
        };
        "###;

    let (remainder, object) = parse_object_block(input).unwrap();

    assert!(remainder.is_empty());

    assert_eq!(*object.get_kind(), ObjectKind::Source);
    assert_eq!(object.get_id(), "s_unix_stream");

    assert_eq!(object.get_drivers()[0].name, "unix-stream");
}

#[test]
fn test_parse_object_block_destination_object() {
    let input = r###"
        destination d_stdout {
            file("/dev/stdout");
        };
        "###;

    let (remainder, object) = parse_object_block(input).unwrap();

    assert!(remainder.is_empty());

    assert_eq!(*object.get_kind(), ObjectKind::Destination);
    assert_eq!(object.get_id(), "d_stdout");

    assert_eq!(object.get_drivers()[0].name, "file");
    assert_eq!(
        object.get_drivers()[0].required_options[0],
        ValueTypes::String("/dev/stdout".to_string())
    );
}

#[test]
fn test_parse_object_block_log_path_object() {
    let input = r###"
        log {
            source(s_local);
            destination(d_local);
        };
        "###;

    let (remainder, object) = parse_object_block(input).unwrap();

    assert!(remainder.is_empty());

    assert_eq!(*object.get_kind(), ObjectKind::Log);
}

#[test]
fn test_() {
    let input = r###"
        source s_network_mine {
            network(
              ip("localhost")
              transport("udp")
            );
        };
        "###;

    let (remainder, object) = parse_object_block(input).unwrap();

    assert!(remainder.is_empty());

    assert_eq!(*object.get_kind(), ObjectKind::Source);

    assert_eq!(
        *object.get_drivers()[0]
            .get_option("transport")
            .unwrap()
            .get_value_type(),
        ValueTypes::String("udp".to_string())
    );
    assert_eq!(
        *object.get_drivers()[0]
            .get_option("ip")
            .unwrap()
            .get_value_type(),
        ValueTypes::String("localhost".to_string())
    );
}

#[test]
fn test_parse_object_block_multiple_objects_success() {
    let mut sng_conf_obj = SyslogNgConfiguration::new();
    let conf = r###"
    #############################################################################
    # Default syslog-ng.conf file which collects all local logs into a
    # single file called /var/log/messages.
    #
    source s_network_mine {
      network(
        ip("localhost")
        transport("udp")
      );
    };

    destination d_local {
    	file("/var/log/messages");
    };

    log {
    	source(s_local);
    	destination(d_local);
    };
    "###;

    let res = parse_conf(conf, "file:///foo/bar.conf", &mut sng_conf_obj);

    assert!(matches!(res, None));

    let objects = sng_conf_obj.get_objects();
    assert_eq!(*objects[0].get_kind(), ObjectKind::Source);
    assert_eq!(objects[0].get_id(), "s_network_mine");

    assert_eq!(objects[0].get_drivers()[0].get_name(), "network");

    let s_network_mine = &objects[0];
    assert_eq!(*s_network_mine.get_kind(), ObjectKind::Source);
    assert_eq!(
        *s_network_mine.get_start_and_end_position().unwrap(),
        Range::new(Position::new(5, 0), Position::new(11, 0))
    );
    assert_eq!(
        *s_network_mine.get_drivers()[0]
            .get_option("transport")
            .unwrap()
            .get_value_type(),
        ValueTypes::String("udp".to_string())
    );
    assert_eq!(
        *s_network_mine.get_drivers()[0]
            .get_option("ip")
            .unwrap()
            .get_value_type(),
        ValueTypes::String("localhost".to_string())
    );

    let d_local = &objects[1];
    assert_eq!(*d_local.get_kind(), ObjectKind::Destination);
    assert_eq!(
        *d_local.get_start_and_end_position().unwrap(),
        Range::new(Position::new(12, 0), Position::new(15, 0))
    );
    assert_eq!(
        d_local.get_drivers()[0].get_required_options()[0],
        ValueTypes::String("/var/log/messages".to_string())
    );

    let log_path_1 = &objects[2];
    assert_eq!(*log_path_1.get_kind(), ObjectKind::Log);
    assert_eq!(
        *log_path_1.get_start_and_end_position().unwrap(),
        Range::new(Position::new(16, 0), Position::new(20, 0))
    );
    assert_eq!(
        log_path_1.get_drivers()[0].get_required_options()[0],
        ValueTypes::Identifier("s_local".to_string())
    );
    assert_eq!(
        log_path_1.get_drivers()[1].get_required_options()[0],
        ValueTypes::Identifier("d_local".to_string())
    );
}

#[test]
fn test_parse_conf_invalid_annotation_is_a_fault() {
    let mut conf = SyslogNgConfiguration::new();
    let res = parse_conf("@version 3.35\n", "file:///a.conf", &mut conf);

    assert_eq!(res, Some(SngSyntaxErrorKind::InvalidType));
}

#[test]
fn test_parse_conf_leftover_text_is_a_fault() {
    let mut conf = SyslogNgConfiguration::new();
    let res = parse_conf("source s_src {\n", "file:///a.conf", &mut conf);

    assert_eq!(
        res,
        Some(SngSyntaxErrorKind::UnknownOption("source s_src {".to_string()))
    );
}

#[test]
fn test_parse_conf_version_annotation_applies() {
    let mut conf = SyslogNgConfiguration::new();
    let res = parse_conf("@version: 4.2\n", "file:///a.conf", &mut conf);

    assert!(matches!(res, None));
}

#[test]
fn test_parse_conf_duplicate_option_last_wins() {
    let input = "source s { network( port(1) port(2) ); };";

    let (_, object) = parse_object_block(input).unwrap();
    let driver = &object.get_drivers()[0];

    assert_eq!(driver.get_options().len(), 1);
    assert_eq!(
        *driver.get_option("port").unwrap().get_value_type(),
        ValueTypes::PositiveInteger(2)
    );
}
