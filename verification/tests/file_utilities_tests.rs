use lsp_syslog_ng::file_utilities::ConfigFile;
use lsp_syslog_ng::file_utilities::create_absolute_path_from_relative;
use lsp_syslog_ng::file_utilities::find_version_annotation;
use lsp_syslog_ng::file_utilities::get_block_by_position;
use lsp_syslog_ng::file_utilities::get_driver_before_position;
use lsp_syslog_ng::file_utilities::get_main_config_file;

const CONF_SNIPPET: &str = r###"
        source s_tls {
            network(
                ip(0.0.0.0) port(1999)
                transport("tls")
                tls(
                    key-file("/opt/syslog-ng/etc/syslog-ng/key.d/syslog-ng.key")
                    cert-file("/opt/syslog-ng/etc/syslog-ng/cert.d/syslog-ng.cert")
                    ca-dir("/opt/syslog-ng/etc/syslog-ng/ca.d")
                )
            );
        };
        "###;

#[test]
fn test_create_absolute_path_from_relative() {
    let from = "/home/user/folder";
    let relative_path = "project/foo";

    let abs_path = create_absolute_path_from_relative(from, relative_path);

    assert_eq!(abs_path, "/home/user/folder/project/foo");
}

#[test]
fn test_create_absolute_path_from_relative_absolute_part_wins() {
    let abs_path = create_absolute_path_from_relative("/base", "/already/absolute");
    assert_eq!(abs_path, "/already/absolute");
}

#[test]
fn test_find_version_annotation() {
    assert_eq!(find_version_annotation("# header\n  @version: 3.35\n"), Some(1));
    assert_eq!(find_version_annotation("source s {};\n"), None);
}

#[test]
fn test_get_main_config_file_success() {
    let file_name = "main.conf";
    let files = vec![
        ConfigFile {
            path: "other.conf".to_string(),
            contents: "source s {};".to_string(),
        },
        ConfigFile {
            path: file_name.to_string(),
            contents: "@version: 3.35".to_string(),
        },
    ];

    let main_conf_file = get_main_config_file(&files).unwrap();

    assert_eq!(main_conf_file.path, file_name);
}

#[test]
fn test_get_main_config_file_failure() {
    let files = vec![ConfigFile {
        path: "not-main.conf".to_string(),
        contents: "foobar".to_string(),
    }];

    let res = get_main_config_file(&files);

    assert!(matches!(res, None));
}

#[test]
fn test_get_block_by_position() {
    let block_by_pos = get_block_by_position(CONF_SNIPPET, 5).unwrap();
    assert_eq!(&block_by_pos, "tls");
}

#[test]
fn test_get_block_by_position_line_without_parenthesis() {
    assert!(get_block_by_position(CONF_SNIPPET, 1).is_none());
    assert!(get_block_by_position(CONF_SNIPPET, 100).is_none());
}

#[test]
fn test_get_driver_before_position() {
    let block_by_pos = get_driver_before_position(CONF_SNIPPET, 2).unwrap();
    assert_eq!(&block_by_pos, "network");
}

#[test]
fn test_get_driver_before_position_without_brackets() {
    assert!(get_driver_before_position("plain text\nwithout brackets\n", 1).is_none());
}
