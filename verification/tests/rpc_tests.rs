use neurogit::json::{json_string, json_uint, member, object1, object2, Json};
use neurogit::rpc::{
    call_item_params, client_initialize_params, did_open_params, document_params, file_uri,
    hierarchy_step, message_id_of, notification_message, position_params, references_params,
    request_message, session_initialize_params, show_message_alert, Delivery, HierarchyStep,
    PendingRequests,
};

#[test]
fn a_request_is_written_with_its_members_in_key_order() {
    let m = request_message(3, "textDocument/documentSymbol", document_params("file:///p/a.rs"));
    assert_eq!(
        m.to_text(),
        "{\"id\":3,\"jsonrpc\":\"2.0\",\"method\":\"textDocument/documentSymbol\",\"params\":{\"textDocument\":{\"uri\":\"file:///p/a.rs\"}}}"
    );
    let s = request_message(9, "shutdown", Json::Null);
    assert_eq!(s.to_text(), "{\"id\":9,\"jsonrpc\":\"2.0\",\"method\":\"shutdown\",\"params\":null}");
}

#[test]
fn a_notification_has_no_id() {
    let n = notification_message("initialized", Json::Object(vec![]));
    assert_eq!(n.to_text(), "{\"jsonrpc\":\"2.0\",\"method\":\"initialized\",\"params\":{}}");
    assert_eq!(message_id_of(&n), None);
}

#[test]
fn parameters_of_the_document_requests() {
    assert_eq!(file_uri("/home/me/src/main.rs"), "file:///home/me/src/main.rs");
    assert_eq!(
        did_open_params("file:///a.rs", "fn main() {}\n").to_text(),
        "{\"textDocument\":{\"languageId\":\"rust\",\"text\":\"fn main() {}\\n\",\"uri\":\"file:///a.rs\",\"version\":1}}"
    );
    assert_eq!(
        position_params("file:///a.rs", 4, 7).to_text(),
        "{\"position\":{\"character\":7,\"line\":4},\"textDocument\":{\"uri\":\"file:///a.rs\"}}"
    );
    assert_eq!(
        references_params("file:///a.rs", 10, 2).to_text(),
        "{\"context\":{\"includeDeclaration\":true},\"position\":{\"character\":2,\"line\":10},\"textDocument\":{\"uri\":\"file:///a.rs\"}}"
    );
    assert_eq!(call_item_params(json_uint(1)).to_text(), "{\"item\":1}");
}

#[test]
fn initialize_parameters() {
    assert_eq!(
        client_initialize_params(42, "file:///p").to_text(),
        "{\"capabilities\":{\"textDocument\":{\"callHierarchy\":{\"dynamicRegistration\":true},\"documentSymbol\":{\"hierarchicalDocumentSymbolSupport\":true},\"references\":{\"dynamicRegistration\":true}},\"workspace\":{\"configuration\":true}},\"processId\":42,\"rootUri\":\"file:///p\"}"
    );
    assert_eq!(
        session_initialize_params(7, "file:///q").to_text(),
        "{\"capabilities\":{\"textDocument\":{\"documentSymbol\":{\"hierarchicalDocumentSymbolSupport\":true}}},\"process_id\":7,\"rootUri\":\"file:///q\"}"
    );
}

#[test]
fn ids_start_at_one_and_follow_each_other() {
    let mut p: PendingRequests<&str> = PendingRequests::new();
    assert_eq!(p.next_request_id(), 1);
    assert_eq!(p.register("first"), 1);
    assert_eq!(p.register("second"), 2);
    assert_eq!(p.next_request_id(), 3);
    assert!(p.is_waiting(1) && p.is_waiting(2) && !p.is_waiting(3));
}

#[test]
fn an_answer_reaches_the_request_that_waits_for_it() {
    let mut p: PendingRequests<&str> = PendingRequests::new();
    p.register("first");
    p.register("second");
    let answer = object2(member("id", json_uint(2)), member("result", Json::Null));
    assert!(matches!(p.deliver(&answer), Delivery::Answer(2, "second")));
    assert!(!p.is_waiting(2));
    assert!(matches!(p.deliver(&answer), Delivery::Unclaimed(2)));
    let note = object1(member("method", json_string("window/logMessage")));
    assert!(matches!(p.deliver(&note), Delivery::Notification));
    let string_id = object1(member("id", json_string("1")));
    assert!(matches!(p.deliver(&string_id), Delivery::Notification));
    assert!(p.is_waiting(1));
    assert_eq!(p.take(1), Some("first"));
    assert_eq!(p.take(1), None);
}

#[test]
fn clearing_gives_up_every_request_and_keeps_the_counter() {
    let mut p: PendingRequests<u8> = PendingRequests::new();
    p.register(1);
    p.register(2);
    p.clear();
    assert!(!p.is_waiting(1) && !p.is_waiting(2));
    assert_eq!(p.register(3), 3);
}

#[test]
fn show_message_notifications_raise_an_alert() {
    let params = object2(member("message", json_string("indexing done")), member("type", json_uint(3)));
    let n = notification_message("window/showMessage", params);
    assert_eq!(show_message_alert(&n), Some("\"indexing done\"".to_string()));
    let no_text = notification_message("window/showMessage", Json::Object(vec![]));
    assert_eq!(show_message_alert(&no_text), Some("null".to_string()));
    let other = notification_message("window/logMessage", Json::Null);
    assert_eq!(show_message_alert(&other), None);
    assert_eq!(show_message_alert(&Json::Null), None);
}

#[test]
fn hierarchy_steps() {
    let none = object1(member("result", Json::Null));
    assert!(matches!(hierarchy_step(&none), HierarchyStep::NoItems));
    let empty = object1(member("result", Json::Array(vec![])));
    assert!(matches!(hierarchy_step(&empty), HierarchyStep::NoCalls));
    let two = object1(member("result", Json::Array(vec![json_string("a"), json_string("b")])));
    match hierarchy_step(&two) {
        HierarchyStep::Follow(item) => assert_eq!(item.to_text(), "\"a\""),
        _ => panic!("expected the first item"),
    }
    assert!(matches!(hierarchy_step(&Json::Null), HierarchyStep::NoItems));
}

#[test]
fn bodies_are_read_as_the_messages_they_hold() {
    let mut p: PendingRequests<&str> = PendingRequests::new();
    p.register("first");
    let (m, d) = p.deliver_body(b"{\"result\":[1,-2,1.5,\"x\"],\"jsonrpc\":\"2.0\",\"id\":1}");
    assert!(matches!(d, Delivery::Answer(1, "first")));
    assert_eq!(m.to_text(), "{\"id\":1,\"jsonrpc\":\"2.0\",\"result\":[1,-2,1.5,\"x\"]}");
    assert!(!p.is_waiting(1));
    let (m, d) = p.deliver_body(b"not json");
    assert!(matches!(d, Delivery::Notification));
    assert_eq!(m.to_text(), "null");
    let (m, d) = p.deliver_body(b"{\"method\":\"window/showMessage\",\"params\":{\"message\":\"hi\"}}");
    assert!(matches!(d, Delivery::Notification));
    assert_eq!(show_message_alert(&m), Some("\"hi\"".to_string()));
    let (_, d) = p.deliver_body(b"{\"id\":7}");
    assert!(matches!(d, Delivery::Unclaimed(7)));
}

#[test]
fn request_ids_count_up_across_other_operations() {
    let mut p: PendingRequests<u8> = PendingRequests::new();
    let mut ids = Vec::new();
    ids.push(p.register(0));
    p.deliver(&object1(member("id", json_uint(1))));
    ids.push(p.register(0));
    p.clear();
    ids.push(p.register(0));
    p.take(3);
    ids.push(p.register(0));
    assert_eq!(ids, vec![1, 2, 3, 4]);
}
