use neurogit::command::{display_path, kind_label, reference_report, symbol_report, Command, Report};
use neurogit::json::{Json, JsonNumber};

fn from_value(v: &serde_json::Value) -> Json {
    match v {
        serde_json::Value::Null => Json::Null,
        serde_json::Value::Bool(b) => Json::Bool(*b),
        serde_json::Value::Number(n) => match (n.as_u64(), n.as_i64()) {
            (Some(u), _) => Json::Number(JsonNumber::PosInt(u)),
            (None, Some(i)) => Json::Number(JsonNumber::NegInt(i)),
            _ => Json::Number(JsonNumber::Float(n.to_string())),
        },
        serde_json::Value::String(s) => Json::Str(s.clone()),
        serde_json::Value::Array(a) => Json::Array(a.iter().map(from_value).collect()),
        serde_json::Value::Object(m) => {
            Json::Object(m.iter().map(|(k, v)| (k.clone(), from_value(v))).collect())
        }
    }
}

fn j(text: &str) -> Json {
    from_value(&serde_json::from_str(text).unwrap())
}

fn parse(words: &[&str]) -> Command {
    Command::parse(words.to_vec())
}

fn describe(c: &Command) -> String {
    match c {
        Command::Exit => "exit".to_string(),
        Command::GitHead => "head".to_string(),
        Command::GitCommits => "commits".to_string(),
        Command::GitDiff => "diff".to_string(),
        Command::LspStart => "start".to_string(),
        Command::LspStop => "stop".to_string(),
        Command::LspSymbols(p) => format!("symbols {}", p),
        Command::LspReferences(p, l, c) => format!("references {} {} {}", p, l, c),
        Command::Unknown(s) => format!("unknown [{}]", s),
    }
}

#[test]
fn commands_of_one_or_two_words() {
    assert_eq!(describe(&parse(&["exit"])), "exit");
    assert_eq!(describe(&parse(&["quit"])), "exit");
    assert_eq!(describe(&parse(&["head"])), "head");
    assert_eq!(describe(&parse(&["commits"])), "commits");
    assert_eq!(describe(&parse(&["diff"])), "diff");
    assert_eq!(describe(&parse(&["lsp", "start"])), "start");
    assert_eq!(describe(&parse(&["lsp", "stop"])), "stop");
}

#[test]
fn references_with_or_without_lsp() {
    assert_eq!(describe(&parse(&["lsp", "references", "src/main.rs", "10", "4"])), "references src/main.rs 10 4");
    assert_eq!(describe(&parse(&["references", "src/main.rs", "10", "4"])), "references src/main.rs 10 4");
    assert_eq!(describe(&parse(&["references", "a.rs", "x", "+7"])), "references a.rs 0 7");
    assert_eq!(describe(&parse(&["references", "a.rs", "4294967296", "-1"])), "references a.rs 0 0");
}

#[test]
fn symbols_with_or_without_lsp() {
    assert_eq!(describe(&parse(&["lsp", "symbols", "src/cli.rs"])), "symbols src/cli.rs");
    assert_eq!(describe(&parse(&["symbols", "src/cli.rs"])), "symbols src/cli.rs");
}

#[test]
fn anything_else_is_unknown() {
    assert_eq!(describe(&parse(&["exit", "now"])), "unknown [exit now]");
    assert_eq!(describe(&parse(&["lsp"])), "unknown [lsp]");
    assert_eq!(describe(&parse(&["lsp", "symbols"])), "unknown [lsp symbols]");
    assert_eq!(describe(&parse(&["references", "a.rs", "1"])), "unknown [references a.rs 1]");
    assert_eq!(describe(&parse(&["EXIT"])), "unknown [EXIT]");
    assert_eq!(describe(&parse(&[])), "unknown []");
}

#[test]
fn typed_lines_are_split_into_words() {
    assert!(Command::from_input("").is_none());
    assert!(Command::from_input("  \t \n").is_none());
    assert_eq!(describe(&Command::from_input("  quit \n").unwrap()), "exit");
    assert_eq!(describe(&Command::from_input("lsp   references  a.rs 3\t9\n").unwrap()), "references a.rs 3 9");
    assert_eq!(describe(&Command::from_input(" git   log \n").unwrap()), "unknown [git log]");
}

#[test]
fn kind_labels() {
    let expected = [
        (Some(1), "File"),
        (Some(2), "Module"),
        (Some(5), "Class"),
        (Some(6), "Method"),
        (Some(11), "Interface"),
        (Some(12), "Function"),
        (Some(13), "Variable"),
        (Some(23), "Struct"),
        (Some(26), "Other"),
        (None, "Other"),
    ];
    for (k, label) in expected {
        assert_eq!(kind_label(k), label);
    }
}

fn symbol_rows(r: Report<(String, String)>) -> String {
    match r {
        Report::Items(v) => v.iter().map(|(n, k)| format!("{}={}", n, k)).collect::<Vec<_>>().join(","),
        Report::Empty => "empty".to_string(),
        Report::ServerError(t) => format!("error {}", t),
        Report::Nothing => "nothing".to_string(),
    }
}

fn reference_rows(r: Report<(String, u64)>) -> String {
    match r {
        Report::Items(v) => v.iter().map(|(p, l)| format!("{}:{}", p, l)).collect::<Vec<_>>().join(","),
        Report::Empty => "empty".to_string(),
        Report::ServerError(t) => format!("error {}", t),
        Report::Nothing => "nothing".to_string(),
    }
}

#[test]
fn symbol_answers_are_shown_as_name_and_kind() {
    let answer = j(r#"{"id":2,"result":[{"name":"main","kind":12},{"kind":23},{"name":"x","kind":"12"},{"name":5}]}"#);
    assert_eq!(symbol_rows(symbol_report(&answer)), "main=Function,?=Struct,x=Other,?=Other");
    assert_eq!(symbol_rows(symbol_report(&j(r#"{"result":[]}"#))), "empty");
    assert_eq!(
        symbol_rows(symbol_report(&j(r#"{"error":{"code":-32601,"message":"unknown method"}}"#))),
        "error \"unknown method\""
    );
    assert_eq!(symbol_rows(symbol_report(&j(r#"{"error":{"code":1}}"#))), "error null");
    assert_eq!(symbol_rows(symbol_report(&j(r#"{"result":null}"#))), "nothing");
    assert_eq!(symbol_rows(symbol_report(&j(r#"{"id":1}"#))), "nothing");
}

#[test]
fn reference_answers_are_shown_as_path_and_line() {
    let answer = j(r#"{"result":[
        {"uri":"file:///p/src/a.rs","range":{"start":{"line":4,"character":2}}},
        {"uri":"untitled:x","range":{"start":{}}},
        {"range":{"start":{"line":1}}}
    ]}"#);
    assert_eq!(reference_rows(reference_report(&answer)), "/p/src/a.rs:4,untitled:x:0,?:1");
    assert_eq!(reference_rows(reference_report(&j(r#"{"result":[]}"#))), "empty");
    assert_eq!(reference_rows(reference_report(&j(r#"{"result":5,"error":{"message":"m"}}"#))), "error \"m\"");
    assert_eq!(reference_rows(reference_report(&Json::Null)), "nothing");
}

#[test]
fn uris_are_shown_as_paths() {
    assert_eq!(display_path("file:///home/a/src/main.rs"), "/home/a/src/main.rs");
    assert_eq!(display_path("/already/a/path"), "/already/a/path");
    assert_eq!(display_path("file://file:///x"), "/x");
    assert_eq!(display_path(""), "");
}
