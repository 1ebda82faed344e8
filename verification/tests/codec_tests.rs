use carp::codec::{parse_config, serialize_config};
use carp::config::{Config, Target};

fn target(p: &str, d: &str, i: &str) -> Target {
    Target { process_name: p.to_string(), display_name: d.to_string(), image: i.to_string() }
}

#[test]
fn serializes_the_exact_canonical_document() {
    let c = Config {
        client_id: 1234567890123456789,
        targets: vec![target("a.exe", "App A", "img-a")],
    };
    assert_eq!(
        serialize_config(&c),
        "{\"client_id\":1234567890123456789,\"targets\":[\
         {\"process_name\":\"a.exe\",\"display_name\":\"App A\",\"image\":\"img-a\"}]}"
    );
}

#[test]
fn serializes_an_empty_config() {
    let c = Config { client_id: 0, targets: vec![] };
    assert_eq!(serialize_config(&c), "{\"client_id\":0,\"targets\":[]}");
}

#[test]
fn round_trip_preserves_client_id_and_target_order() {
    let c = Config {
        client_id: u64::MAX,
        targets: vec![
            target("zz.exe", "Last priority", "img-z"),
            target("a.exe", "First priority", "img-a"),
            target("m.exe", "Middle", "img-m"),
        ],
    };
    let parsed = parse_config(&serialize_config(&c)).expect("canonical form must parse");
    assert_eq!(parsed, c);
}

#[test]
fn round_trip_preserves_escaped_characters() {
    let c = Config {
        client_id: 1,
        targets: vec![target(
            "we\"ird\\name.exe",
            "line\nbreak\tand\rreturns",
            "img \"quoted\"",
        )],
    };
    let parsed = parse_config(&serialize_config(&c)).expect("escaped form must parse");
    assert_eq!(parsed, c);
}

#[test]
fn parses_a_written_out_document() {
    let s = "{\"client_id\":42,\"targets\":[{\"process_name\":\"game.exe\",\
             \"display_name\":\"A Game\",\"image\":\"key\"},\
             {\"process_name\":\"tool.exe\",\"display_name\":\"A Tool\",\"image\":\"k2\"}]}";
    let c = parse_config(s).expect("document must parse");
    assert_eq!(c.client_id, 42);
    assert_eq!(c.targets.len(), 2);
    assert_eq!(c.targets[0].process_name, "game.exe");
    assert_eq!(c.targets[1].display_name, "A Tool");
}

#[test]
fn rejects_corrupt_documents() {
    assert_eq!(parse_config(""), None);
    assert_eq!(parse_config("{}"), None);
    assert_eq!(parse_config("{\"client_id\":,\"targets\":[]}"), None);
    assert_eq!(parse_config("{\"client_id\":7,\"targets\":[}"), None);
    assert_eq!(parse_config("{\"client_id\":7,\"targets\":[]} "), None);
    assert_eq!(parse_config("{\"client_id\":7,\"targets\":[]"), None);
    // One past u64::MAX overflows the client id.
    assert_eq!(parse_config("{\"client_id\":18446744073709551616,\"targets\":[]}"), None);
}

#[test]
fn unicode_text_survives_the_round_trip() {
    let c = Config {
        client_id: 9,
        targets: vec![target("プロセス.exe", "Ünïcødé 名前", "画像")],
    };
    let parsed = parse_config(&serialize_config(&c)).expect("unicode form must parse");
    assert_eq!(parsed, c);
}
