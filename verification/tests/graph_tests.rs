use neurogit::explorer::{
    calls_have_ranges_exec, collect_visits, definition_target, is_rust_file, part_u32_exec,
    symbol_id, SymbolVisit,
};
use neurogit::export::{dot_document, export_to_cypher};
use neurogit::graph::{Graph, Node};
use neurogit::json::{Json, JsonNumber};

fn from_value(v: &serde_json::Value) -> Json {
    match v {
        serde_json::Value::Null => Json::Null,
        serde_json::Value::Bool(b) => Json::Bool(*b),
        serde_json::Value::Number(n) => match (n.as_u64(), n.as_i64()) {
            (Some(u), _) => Json::Number(JsonNumber::PosInt(u)),
            (None, Some(i)) => Json::Number(JsonNumber::NegInt(i)),
            _ => Json::Number(JsonNumber::Float(n.to_string())),
        },
        serde_json::Value::String(s) => Json::Str(s.clone()),
        serde_json::Value::Array(a) => Json::Array(a.iter().map(from_value).collect()),
        serde_json::Value::Object(m) => {
            Json::Object(m.iter().map(|(k, v)| (k.clone(), from_value(v))).collect())
        }
    }
}

fn j(text: &str) -> Json {
    from_value(&serde_json::from_str(text).unwrap())
}

fn node(id: &str, name: &str, kind: &str) -> Node {
    Node {
        id: id.to_string(),
        name: name.to_string(),
        file: "f.rs".to_string(),
        line: 0,
        col: 0,
        kind: kind.to_string(),
    }
}

fn ids(g: &Graph) -> Vec<String> {
    g.nodes().iter().map(|n| n.id.clone()).collect()
}

fn links(g: &Graph) -> Vec<(String, String)> {
    g.calls().clone()
}

#[test]
fn a_node_put_in_is_found_under_its_id() {
    let mut g = Graph::new();
    g.insert_node(node("a:1:1", "a", "12"));
    g.insert_node(node("b:2:2", "b", "6"));
    assert_eq!(g.find("a:1:1"), Some(0));
    assert_eq!(g.find("b:2:2"), Some(1));
    assert_eq!(g.find("c:3:3"), None);
}

#[test]
fn a_node_with_a_known_id_replaces_the_old_one() {
    let mut g = Graph::new();
    g.insert_node(node("a:1:1", "old", "12"));
    g.insert_node(node("b:2:2", "b", "6"));
    g.insert_node(node("a:1:1", "new", "23"));
    assert_eq!(ids(&g), vec!["a:1:1", "b:2:2"]);
    assert_eq!(g.nodes()[0].name, "new");
    assert_eq!(g.nodes()[0].kind, "23");
}

#[test]
fn ids_are_file_line_character() {
    let s = j(r#"{"name":"f","selectionRange":{"start":{"line":3,"character":7}}}"#);
    assert_eq!(symbol_id("/p/src/a.rs", &s), Some("/p/src/a.rs:3:7".to_string()));
    let l = j(r#"{"name":"f","location":{"range":{"start":{"line":9,"character":0}}}}"#);
    assert_eq!(symbol_id("a.rs", &l), Some("a.rs:9:0".to_string()));
    let both = j(r#"{"selectionRange":{"start":{"line":1,"character":2}},"location":{"range":{"start":{"line":9,"character":0}}}}"#);
    assert_eq!(symbol_id("a.rs", &both), Some("a.rs:1:2".to_string()));
    let missing = j(r#"{"selectionRange":{"start":{"character":3}}}"#);
    assert_eq!(symbol_id("a.rs", &missing), Some("a.rs:null:3".to_string()));
    assert_eq!(symbol_id("a.rs", &j(r#"{"name":"x"}"#)), None);
}

#[test]
fn an_id_reads_back_as_its_position() {
    let s = j(r#"{"selectionRange":{"start":{"line":4294967295,"character":12}}}"#);
    let id: Vec<char> = symbol_id("/p/src/a.rs", &s).unwrap().chars().collect();
    assert_eq!(part_u32_exec(&id, 1), 4294967295);
    assert_eq!(part_u32_exec(&id, 2), 12);
    let odd: Vec<char> = "a.rs:null:3".chars().collect();
    assert_eq!(part_u32_exec(&odd, 1), 0);
    assert_eq!(part_u32_exec(&odd, 2), 3);
    assert_eq!(part_u32_exec(&odd, 3), 0);
}

#[test]
fn symbols_are_visited_depth_first() {
    let syms = j(r#"[
        {"name":"Foo","kind":23,"selectionRange":{"start":{"line":1,"character":4}},
         "children":[{"name":"bar","kind":6,"selectionRange":{"start":{"line":2,"character":8}}}]},
        {"name":"impl Foo","kind":19,"location":{"range":{"start":{"line":5,"character":0}}}},
        {"name":"nowhere"},
        {"kind":26,"selectionRange":{"start":{"line":7,"character":1}}}
    ]"#);
    let list = match syms {
        Json::Array(v) => v,
        _ => unreachable!(),
    };
    let mut out: Vec<SymbolVisit> = Vec::new();
    collect_visits("/p/src/a.rs", &list, None, &mut out);
    let seen: Vec<(String, String, u64, u32, u32, Option<String>, bool)> = out
        .iter()
        .map(|v| (v.id.clone(), v.name.clone(), v.kind, v.line, v.col, v.parent.clone(), v.wants_definition))
        .collect();
    assert_eq!(
        seen,
        vec![
            ("/p/src/a.rs:1:4".to_string(), "Foo".to_string(), 23, 1, 4, None, false),
            ("/p/src/a.rs:2:8".to_string(), "bar".to_string(), 6, 2, 8, Some("/p/src/a.rs:1:4".to_string()), false),
            ("/p/src/a.rs:5:0".to_string(), "impl Foo".to_string(), 19, 5, 0, None, true),
            ("/p/src/a.rs:7:1".to_string(), "?".to_string(), 26, 7, 1, None, true),
        ]
    );
}

#[test]
fn visits_become_nodes_and_links() {
    let syms = j(r#"[
        {"name":"Foo","kind":23,"selectionRange":{"start":{"line":1,"character":4}},
         "children":[{"name":"bar","kind":6,"selectionRange":{"start":{"line":2,"character":8}}}]},
        {"name":"impl Foo","kind":19,"location":{"range":{"start":{"line":5,"character":0}}}}
    ]"#);
    let list = match syms {
        Json::Array(v) => v,
        _ => unreachable!(),
    };
    let mut out: Vec<SymbolVisit> = Vec::new();
    collect_visits("/p/src/a.rs", &list, Some("root"), &mut out);
    let definition = j(r#"{"id":4,"result":[{"uri":"file:///p/src/a.rs","range":{"start":{"line":1,"character":4}}}]}"#);
    let mut g = Graph::new();
    for v in &out {
        g.record_visit("/p/src/a.rs", v, Some(&definition));
    }
    assert_eq!(ids(&g), vec!["/p/src/a.rs:1:4", "/p/src/a.rs:2:8", "/p/src/a.rs:5:0"]);
    assert_eq!(g.nodes()[0].kind, "23");
    assert_eq!(g.nodes()[1].line, 2);
    assert_eq!(g.nodes()[1].col, 8);
    assert_eq!(g.nodes()[2].file, "/p/src/a.rs");
    assert_eq!(
        links(&g),
        vec![
            ("root".to_string(), "/p/src/a.rs:1:4".to_string()),
            ("/p/src/a.rs:1:4".to_string(), "/p/src/a.rs:2:8".to_string()),
            ("root".to_string(), "/p/src/a.rs:5:0".to_string()),
            ("/p/src/a.rs:1:4".to_string(), "/p/src/a.rs:5:0".to_string()),
        ]
    );
}

#[test]
fn definition_answers_point_to_an_id() {
    let list = j(r#"{"result":[{"uri":"file:///p/src/t.rs","range":{"start":{"line":3,"character":11}}},{"uri":"file:///other.rs"}]}"#);
    assert_eq!(definition_target(&list), Some("/p/src/t.rs:3:11".to_string()));
    let one = j(r#"{"result":{"uri":"file:///p/src/t.rs","range":{"start":{"line":0,"character":1}}}}"#);
    assert_eq!(definition_target(&one), Some("/p/src/t.rs:0:1".to_string()));
    assert_eq!(definition_target(&j(r#"{"result":null}"#)), None);
    assert_eq!(definition_target(&j(r#"{"result":[]}"#)), None);
    assert_eq!(definition_target(&j(r#"{"error":{"code":1}}"#)), None);
}

#[test]
fn calls_inside_the_project_become_links() {
    let answer = j(r#"{"result":[
        {"to":{"uri":"file:///p/src/b.rs","selectionRange":{"start":{"line":3,"character":1}},"range":{"start":{"line":9,"character":9}}}},
        {"to":{"uri":"file:///rustlib/core.rs","range":{"start":{"line":1,"character":1}}}},
        {"to":{"uri":"file:///p/src/c.rs","range":{"start":{"line":4294967297,"character":2}}}},
        {"to":{"name":"no uri"}}
    ]}"#);
    assert!(calls_have_ranges_exec(&answer));
    let mut g = Graph::new();
    g.record_calls("me", &answer);
    assert_eq!(
        links(&g),
        vec![
            ("me".to_string(), "/p/src/b.rs:3:1".to_string()),
            ("me".to_string(), "/p/src/c.rs:1:2".to_string()),
        ]
    );
    let mut h = Graph::new();
    h.record_calls("me", &j(r#"{"error":{"message":"no"}}"#));
    assert!(links(&h).is_empty());
}

#[test]
fn a_call_into_the_project_without_a_range_is_refused() {
    let answer = j(r#"{"result":[{"to":{"uri":"file:///p/src/x.rs"}}]}"#);
    assert!(!calls_have_ranges_exec(&answer));
    let outside = j(r#"{"result":[{"to":{"uri":"file:///lib/x.rs"}}]}"#);
    assert!(calls_have_ranges_exec(&outside));
}

#[test]
fn rust_files_are_told_by_their_extension() {
    for name in ["main.rs", "..rs", "a.b.rs", ".rs", "x.rsx", "a.RS", "rs", "a.rs.bak", ""] {
        let expected = std::path::Path::new(name).extension().map_or(false, |e| e == "rs");
        assert_eq!(is_rust_file(name), expected, "{}", name);
    }
    assert!(is_rust_file("main.rs"));
    assert!(!is_rust_file(".rs"));
}

#[test]
fn dot_document_of_a_graph() {
    let mut g = Graph::new();
    g.insert_node(node("a.rs:1:2", "say \"hi\"", "12"));
    g.insert_node(node("b.rs:0:0", "B", "99"));
    g.add_link("x".to_string(), "y".to_string());
    g.add_link("x".to_string(), "y".to_string());
    g.add_link("y".to_string(), "x".to_string());
    assert_eq!(
        dot_document(&g),
        "digraph NeuroGraph {\n  rankdir=LR;\n  node [shape=box, style=rounded, fontname=\"Arial\", fontsize=10];\n  edge [fontsize=8, color=\"#555555\"];\n\n  \"a.rs:1:2\" [label=\"say \\\"hi\\\"\\n(kind:12)\", fillcolor=\"lightgreen\", style=\"filled,rounded\"];\n  \"b.rs:0:0\" [label=\"B\\n(kind:99)\", fillcolor=\"white\", style=\"filled,rounded\"];\n  \"x\" -> \"y\";\n  \"y\" -> \"x\";\n}\n"
    );
}

#[test]
fn dot_colours_by_kind() {
    for (kind, colour) in [("23", "lightblue"), ("5", "lightblue"), ("12", "lightgreen"), ("6", "lightgreen"), ("2", "lightgrey"), ("26", "lightyellow"), ("1", "white"), ("", "white")] {
        let mut g = Graph::new();
        g.insert_node(node("n", "n", kind));
        let doc = dot_document(&g);
        assert!(doc.contains(&format!("fillcolor=\"{}\"", colour)), "{}", kind);
    }
}

#[test]
fn empty_graph_documents() {
    let g = Graph::new();
    assert_eq!(
        dot_document(&g),
        "digraph NeuroGraph {\n  rankdir=LR;\n  node [shape=box, style=rounded, fontname=\"Arial\", fontsize=10];\n  edge [fontsize=8, color=\"#555555\"];\n\n}\n"
    );
    assert_eq!(export_to_cypher(&g), "CREATE CONSTRAINT IF NOT EXISTS FOR (n:Node) REQUIRE n.id IS UNIQUE;\n");
}

#[test]
fn cypher_script_of_a_graph() {
    let mut g = Graph::new();
    g.insert_node(Node {
        id: "C:\\p\\a.rs:1:2".to_string(),
        name: "it's \"x\"".to_string(),
        file: "C:\\p\\a.rs".to_string(),
        line: 1,
        col: 2,
        kind: "23".to_string(),
    });
    g.add_link("C:\\p\\a.rs:1:2".to_string(), "std'x".to_string());
    g.add_link("C:\\p\\a.rs:1:2".to_string(), "std'x".to_string());
    assert_eq!(
        export_to_cypher(&g),
        "CREATE CONSTRAINT IF NOT EXISTS FOR (n:Node) REQUIRE n.id IS UNIQUE;\n\
MERGE (n:Node {id: 'C:/p/a.rs:1:2'}) SET n.name = 'it\\'s \\\"x\\\"', n.kind = '23', n.file = 'C:/p/a.rs';\n\
MERGE (a:Node {id: 'C:/p/a.rs:1:2'}) MERGE (b:Node {id: 'std\\'x'}) MERGE (a)-[:CALLS]->(b);\n\
MERGE (a:Node {id: 'C:/p/a.rs:1:2'}) MERGE (b:Node {id: 'std\\'x'}) MERGE (a)-[:CALLS]->(b);\n"
    );
}

#[test]
fn a_default_graph_is_empty() {
    let g = Graph::default();
    assert!(g.nodes().is_empty());
    assert!(g.calls().is_empty());
    let n = node("a:1:1", "a", "12");
    assert_eq!(n.clone(), n);
    assert_eq!(n.copy(), n);
}

#[test]
fn impl_blocks_are_looked_up_past_their_keyword() {
    let v = SymbolVisit {
        id: "a.rs:3:0".to_string(),
        name: "impl Foo".to_string(),
        kind: 19,
        line: 3,
        col: 0,
        parent: None,
        wants_definition: true,
    };
    assert_eq!(v.definition_position(), Some((3, 5)));
    let w = SymbolVisit { wants_definition: false, ..v };
    assert_eq!(w.definition_position(), None);
}
