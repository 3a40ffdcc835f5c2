//! JSON-RPC as the client speaks it with a language server: the requests
//! and notifications it sends, the ids that tie each answer to the request
//! that waits for it, and how an incoming message is told apart.
use vstd::prelude::*;
use std::collections::HashMap;
use crate::json::{
    parse_body, parsed_body,
    json_field, json_get, json_str, json_string, json_text, json_u64, json_uint, member, object1,
    object2, object3, object4, Json, JsonView, NumberView,
};
use crate::text::same_text;
use crate::framing::{frames, lemma_frames_round_trip, read_frames};

verus! {

broadcast use vstd::std_specs::hash::group_hash_axioms;

// ---------------------------------------------------------------------
// Outgoing messages
// ---------------------------------------------------------------------

/// A JSON string.
pub open spec fn jstr(s: Seq<char>) -> JsonView {
    JsonView::Str(s)
}

/// A JSON number.
pub open spec fn jnum(n: u64) -> JsonView {
    JsonView::Number(NumberView::PosInt(n))
}

/// A request: `{"id":id,"jsonrpc":"2.0","method":method,"params":params}`
/// (members in the order in which `serde_json`'s map keeps them).
pub open spec fn request_view(id: u64, method: Seq<char>, params: JsonView) -> JsonView {
    JsonView::Object(
        seq![
            ("id"@, jnum(id)),
            ("jsonrpc"@, jstr("2.0"@)),
            ("method"@, jstr(method)),
            ("params"@, params),
        ],
    )
}

/// A notification: `{"jsonrpc":"2.0","method":method,"params":params}`.
pub open spec fn notification_view(method: Seq<char>, params: JsonView) -> JsonView {
    JsonView::Object(
        seq![("jsonrpc"@, jstr("2.0"@)), ("method"@, jstr(method)), ("params"@, params)],
    )
}

/// The request with this id, method and parameters.
pub fn request_message(id: u64, method: &str, params: Json) -> (m: Json)
    ensures
        m@ == request_view(id, method@, params@),
{
    object4(
        member("id", json_uint(id)),
        member("jsonrpc", json_string("2.0")),
        member("method", json_string(method)),
        member("params", params),
    )
}

/// The notification with this method and parameters.
pub fn notification_message(method: &str, params: Json) -> (m: Json)
    ensures
        m@ == notification_view(method@, params@),
{
    object3(
        member("jsonrpc", json_string("2.0")),
        member("method", json_string(method)),
        member("params", params),
    )
}

/// The `file://` URI of an absolute path.
pub open spec fn file_uri_view(path: Seq<char>) -> Seq<char> {
    "file://"@ + path
}

/// The `file://` URI of an absolute path.
pub fn file_uri(path: &str) -> (uri: String)
    ensures
        uri@ == file_uri_view(path@),
{
    let mut v = crate::text::chars_of("file://");
    let p = crate::text::chars_of(path);
    crate::text::push_chars(&mut v, p.as_slice());
    crate::text::string_from_chars(v.as_slice())
}

/// `{"textDocument":{"languageId":"rust","text":text,"uri":uri,"version":1}}`:
/// the parameters of `textDocument/didOpen`.
pub open spec fn did_open_view(uri: Seq<char>, text: Seq<char>) -> JsonView {
    JsonView::Object(
        seq![
            (
                "textDocument"@,
                JsonView::Object(
                    seq![
                        ("languageId"@, jstr("rust"@)),
                        ("text"@, jstr(text)),
                        ("uri"@, jstr(uri)),
                        ("version"@, jnum(1)),
                    ],
                ),
            ),
        ],
    )
}

/// The parameters of `textDocument/didOpen` for a Rust file.
pub fn did_open_params(uri: &str, text: &str) -> (p: Json)
    ensures
        p@ == did_open_view(uri@, text@),
{
    object1(
        member(
            "textDocument",
            object4(
                member("languageId", json_string("rust")),
                member("text", json_string(text)),
                member("uri", json_string(uri)),
                member("version", json_uint(1)),
            ),
        ),
    )
}

/// `{"uri":uri}`.
pub open spec fn document_view(uri: Seq<char>) -> JsonView {
    JsonView::Object(seq![("uri"@, jstr(uri))])
}

/// `{"textDocument":{"uri":uri}}`: the parameters of
/// `textDocument/documentSymbol`.
pub open spec fn document_params_view(uri: Seq<char>) -> JsonView {
    JsonView::Object(seq![("textDocument"@, document_view(uri))])
}

/// The parameters that name a document.
pub fn document_params(uri: &str) -> (p: Json)
    ensures
        p@ == document_params_view(uri@),
{
    object1(member("textDocument", object1(member("uri", json_string(uri)))))
}

/// `{"character":character,"line":line}`.
pub open spec fn position_view(line: u64, character: u64) -> JsonView {
    JsonView::Object(seq![("character"@, jnum(character)), ("line"@, jnum(line))])
}

/// `{"position":{..},"textDocument":{"uri":uri}}`: the parameters of a
/// request about one position in a document.
pub open spec fn position_params_view(uri: Seq<char>, line: u64, character: u64) -> JsonView {
    JsonView::Object(
        seq![("position"@, position_view(line, character)), ("textDocument"@, document_view(uri))],
    )
}

fn position(line: u64, character: u64) -> (p: Json)
    ensures
        p@ == position_view(line, character),
{
    object2(member("character", json_uint(character)), member("line", json_uint(line)))
}

/// The parameters of a request about one position in a document
/// (`textDocument/prepareCallHierarchy`, `textDocument/definition`).
pub fn position_params(uri: &str, line: u64, character: u64) -> (p: Json)
    ensures
        p@ == position_params_view(uri@, line, character),
{
    object2(
        member("position", position(line, character)),
        member("textDocument", object1(member("uri", json_string(uri)))),
    )
}

/// The parameters of `textDocument/references`, declarations included.
pub open spec fn references_params_view(uri: Seq<char>, line: u64, character: u64) -> JsonView {
    JsonView::Object(
        seq![
            ("context"@, JsonView::Object(seq![("includeDeclaration"@, JsonView::Bool(true))])),
            ("position"@, position_view(line, character)),
            ("textDocument"@, document_view(uri)),
        ],
    )
}

/// The parameters of `textDocument/references`, declarations included.
pub fn references_params(uri: &str, line: u32, character: u32) -> (p: Json)
    ensures
        p@ == references_params_view(uri@, line as u64, character as u64),
{
    object3(
        member("context", object1(member("includeDeclaration", Json::Bool(true)))),
        member("position", position(line as u64, character as u64)),
        member("textDocument", object1(member("uri", json_string(uri)))),
    )
}

/// `{"item":item}`: the parameters of `callHierarchy/outgoingCalls` and
/// `callHierarchy/incomingCalls`.
pub fn call_item_params(item: Json) -> (p: Json)
    ensures
        p@ == JsonView::Object(seq![("item"@, item@)]),
{
    object1(member("item", item))
}

/// `{"dynamicRegistration":true}`.
pub open spec fn dynamic_view() -> JsonView {
    JsonView::Object(seq![("dynamicRegistration"@, JsonView::Bool(true))])
}

/// `{"hierarchicalDocumentSymbolSupport":true}`.
pub open spec fn hierarchical_view() -> JsonView {
    JsonView::Object(seq![("hierarchicalDocumentSymbolSupport"@, JsonView::Bool(true))])
}

fn dynamic_registration() -> (j: Json)
    ensures
        j@ == dynamic_view(),
{
    object1(member("dynamicRegistration", Json::Bool(true)))
}

fn hierarchical_symbols() -> (j: Json)
    ensures
        j@ == hierarchical_view(),
{
    object1(member("hierarchicalDocumentSymbolSupport", Json::Bool(true)))
}

/// The `initialize` parameters of the full client: document symbols,
/// references, call hierarchy and workspace configuration.
pub open spec fn client_initialize_view(process_id: u32, root_uri: Seq<char>) -> JsonView {
    JsonView::Object(
        seq![
            (
                "capabilities"@,
                JsonView::Object(
                    seq![
                        (
                            "textDocument"@,
                            JsonView::Object(
                                seq![
                                    ("callHierarchy"@, dynamic_view()),
                                    ("documentSymbol"@, hierarchical_view()),
                                    ("references"@, dynamic_view()),
                                ],
                            ),
                        ),
                        (
                            "workspace"@,
                            JsonView::Object(seq![("configuration"@, JsonView::Bool(true))]),
                        ),
                    ],
                ),
            ),
            ("processId"@, jnum(process_id as u64)),
            ("rootUri"@, jstr(root_uri)),
        ],
    )
}

/// The `initialize` parameters of the full client.
pub fn client_initialize_params(process_id: u32, root_uri: &str) -> (p: Json)
    ensures
        p@ == client_initialize_view(process_id, root_uri@),
{
    let text_document = object3(
        member("callHierarchy", dynamic_registration()),
        member("documentSymbol", hierarchical_symbols()),
        member("references", dynamic_registration()),
    );
    let workspace = object1(member("configuration", Json::Bool(true)));
    object3(
        member("capabilities", object2(member("textDocument", text_document), member("workspace", workspace))),
        member("processId", json_uint(process_id as u64)),
        member("rootUri", json_string(root_uri)),
    )
}

/// The `initialize` parameters of the interactive session: document
/// symbols only, the process id under `process_id`.
pub open spec fn session_initialize_view(process_id: u32, root_uri: Seq<char>) -> JsonView {
    JsonView::Object(
        seq![
            (
                "capabilities"@,
                JsonView::Object(
                    seq![
                        (
                            "textDocument"@,
                            JsonView::Object(seq![("documentSymbol"@, hierarchical_view())]),
                        ),
                    ],
                ),
            ),
            ("process_id"@, jnum(process_id as u64)),
            ("rootUri"@, jstr(root_uri)),
        ],
    )
}

/// The `initialize` parameters of the interactive session.
pub fn session_initialize_params(process_id: u32, root_uri: &str) -> (p: Json)
    ensures
        p@ == session_initialize_view(process_id, root_uri@),
{
    object3(
        member(
            "capabilities",
            object1(member("textDocument", object1(member("documentSymbol", hierarchical_symbols())))),
        ),
        member("process_id", json_uint(process_id as u64)),
        member("rootUri", json_string(root_uri)),
    )
}

// ---------------------------------------------------------------------
// Requests waiting for their answers
// ---------------------------------------------------------------------

/// The requests that wait for an answer, each under its id, and the id the
/// next request gets. Ids start at 1 and grow by one per request.
pub struct PendingRequests<T> {
    next_id: u64,
    waiting: HashMap<u64, T>,
}

impl<T> PendingRequests<T> {
    /// The id the next request gets.
    pub closed spec fn next_id(&self) -> u64 {
        self.next_id
    }

    /// The waiting requests, by id.
    pub closed spec fn waiting(&self) -> Map<u64, T> {
        self.waiting@
    }

    /// Every waiting id was handed out before the next one.
    #[verifier::type_invariant]
    closed spec fn ids_below_next(&self) -> bool {
        &&& self.next_id >= 1
        &&& forall|id: u64| #[trigger] self.waiting@.contains_key(id) ==> id < self.next_id
    }

    /// No request waits yet; the first gets id 1.
    pub fn new() -> (p: Self)
        ensures
            p.next_id() == 1,
            p.waiting() == Map::<u64, T>::empty(),
    {
        PendingRequests { next_id: 1, waiting: HashMap::new() }
    }

    /// The id the next request gets.
    pub fn next_request_id(&self) -> (id: u64)
        ensures
            id == self.next_id(),
    {
        self.next_id
    }

    /// Whether a request waits under `id`.
    pub fn is_waiting(&self, id: u64) -> (b: bool)
        ensures
            b == self.waiting().contains_key(id),
    {
        self.waiting.contains_key(&id)
    }

    /// Hands out the next id and keeps `responder` waiting under it.
    pub fn register(&mut self, responder: T) -> (id: u64)
        requires
            old(self).next_id() < u64::MAX,
        ensures
            id == old(self).next_id(),
            final(self).next_id() == id + 1,
            !old(self).waiting().contains_key(id),
            final(self).waiting() == old(self).waiting().insert(id, responder),
    {
        proof {
            use_type_invariant(&*self);
        }
        let id = self.next_id;
        let mut m: HashMap<u64, T> = HashMap::new();
        std::mem::swap(&mut m, &mut self.waiting);
        m.insert(id, responder);
        self.next_id = id + 1;
        self.waiting = m;
        id
    }

    /// Takes out the request waiting under `id`, where there is one.
    pub fn take(&mut self, id: u64) -> (r: Option<T>)
        ensures
            final(self).next_id() == old(self).next_id(),
            final(self).waiting() == old(self).waiting().remove(id),
            r == (if old(self).waiting().contains_key(id) {
                Some(old(self).waiting()[id])
            } else {
                None::<T>
            }),
    {
        proof {
            use_type_invariant(&*self);
        }
        let mut m: HashMap<u64, T> = HashMap::new();
        std::mem::swap(&mut m, &mut self.waiting);
        let r = m.remove(&id);
        self.waiting = m;
        r
    }

    /// Gives up every waiting request.
    pub fn clear(&mut self)
        ensures
            final(self).next_id() == old(self).next_id(),
            final(self).waiting() == Map::<u64, T>::empty(),
    {
        proof {
            use_type_invariant(&*self);
        }
        self.waiting = HashMap::new();
    }

    /// What an incoming message is: the answer to a waiting request (which
    /// is then no longer waiting), an answer that nothing waits for, or a
    /// notification (a message without an unsigned integer `id`).
    pub fn deliver(&mut self, message: &Json) -> (d: Delivery<T>)
        ensures
            final(self).next_id() == old(self).next_id(),
            d == delivery_of(old(self).waiting(), message@),
            final(self).waiting() == waiting_after(old(self).waiting(), message@),
    {
        match message_id_of(message) {
            Some(id) => match self.take(id) {
                Some(t) => Delivery::Answer(id, t),
                None => Delivery::Unclaimed(id),
            },
            None => Delivery::Notification,
        }
    }
}

/// What an incoming message is, given the requests waiting: the answer to
/// the one waiting under its id, an answer nothing waits for, or a
/// notification.
pub open spec fn delivery_of<T>(waiting: Map<u64, T>, message: JsonView) -> Delivery<T> {
    match message_id(message) {
        Some(id) => if waiting.contains_key(id) {
            Delivery::Answer(id, waiting[id])
        } else {
            Delivery::Unclaimed(id)
        },
        None => Delivery::Notification,
    }
}

/// The requests still waiting once a message has come in: the one it
/// answers is no longer waiting.
pub open spec fn waiting_after<T>(waiting: Map<u64, T>, message: JsonView) -> Map<u64, T> {
    match message_id(message) {
        Some(id) => waiting.remove(id),
        None => waiting,
    }
}

impl<T> PendingRequests<T> {
    /// Reads a message body and handles it as `deliver` does: the message it
    /// holds (`null` where it holds none), and what that message is.
    pub fn deliver_body(&mut self, body: &[u8]) -> (r: (Json, Delivery<T>))
        ensures
            r.0@ == parsed_body(body@),
            r.1 == delivery_of(old(self).waiting(), parsed_body(body@)),
            final(self).waiting() == waiting_after(old(self).waiting(), parsed_body(body@)),
            final(self).next_id() == old(self).next_id(),
    {
        let message = parse_body(body);
        let d = self.deliver(&message);
        (message, d)
    }
}

/// The messages that framed bodies hold, read back from the stream in the
/// order they were written: the message of each body, in turn.
pub proof fn lemma_messages_in_order(bodies: Seq<Seq<u8>>)
    requires
        forall|i: int| 0 <= i < bodies.len() ==> (#[trigger] bodies[i]).len() <= usize::MAX,
    ensures
        read_frames(frames(bodies)).len() == bodies.len(),
        forall|i: int|
            0 <= i < bodies.len() ==> #[trigger] parsed_body(read_frames(frames(bodies))[i])
                == parsed_body(bodies[i]),
{
    lemma_frames_round_trip(bodies);
}

/// The requests of a session get the ids 1, 2, 3, … in the order they are
/// made. `ids[i]` is the id that the `i`-th call of `register` handed out
/// and `before[i]` the table just before that call; the table starts as
/// `new` makes it, and between two calls of `register` only operations that
/// keep the next id (`take`, `deliver`, `clear`) are made.
pub proof fn lemma_ids_in_order<T>(before: Seq<PendingRequests<T>>, ids: Seq<u64>)
    requires
        before.len() == ids.len(),
        before.len() > 0 ==> before[0].next_id() == 1,
        forall|i: int| 0 <= i < ids.len() ==> #[trigger] ids[i] == before[i].next_id(),
        forall|i: int| 0 <= i < ids.len() - 1 ==> #[trigger] before[i + 1].next_id() == ids[i] + 1,
    ensures
        forall|i: int| 0 <= i < ids.len() ==> #[trigger] ids[i] == i + 1,
        forall|i: int, j: int| 0 <= i < j < ids.len() ==> #[trigger] ids[i] < #[trigger] ids[j],
    decreases ids.len(),
{
    if ids.len() > 0 {
        let n = ids.len() - 1;
        lemma_ids_in_order(before.take(n), ids.take(n));
        assert forall|i: int| 0 <= i < ids.len() implies #[trigger] ids[i] == i + 1 by {
            if i < n {
                assert(ids.take(n)[i] == ids[i]);
            } else if n > 0 {
                assert(ids.take(n)[n - 1] == ids[n - 1]);
                assert(before[n].next_id() == ids[n - 1] + 1);
            }
        }
    }
}

/// What an incoming message turned out to be.
pub enum Delivery<T> {
    /// The answer to the request that waited under this id.
    Answer(u64, T),
    /// An answer with an id that no request waits under.
    Unclaimed(u64),
    /// A message that is not an answer.
    Notification,
}

/// `message.get("id").and_then(as_u64)`: the id of an answer.
pub open spec fn message_id(message: JsonView) -> Option<u64> {
    match json_get(message, "id"@) {
        Some(v) => json_u64(v),
        None => None,
    }
}

/// The id of an answer: its `id` member, where that is an unsigned integer.
pub fn message_id_of(message: &Json) -> (r: Option<u64>)
    ensures
        r == message_id(message@),
{
    match message.get("id") {
        Some(v) => v.as_u64(),
        None => None,
    }
}

/// The answer to a request reaches the responder registered for it: once
/// `responder` waits under the id `register` handed out, a message with
/// that id is delivered as its answer, and nothing waits under that id
/// any more while every other request still waits.
pub proof fn lemma_register_then_answer<T>(
    waiting: Map<u64, T>,
    id: u64,
    responder: T,
    message: JsonView,
)
    requires
        !waiting.contains_key(id),
        message_id(message) == Some(id),
    ensures
        delivery_of(waiting.insert(id, responder), message) == Delivery::Answer(id, responder),
        waiting_after(waiting.insert(id, responder), message) == waiting,
{
    assert(waiting.insert(id, responder).remove(id) =~= waiting);
}

/// A message without an id is a notification, and leaves every request
/// waiting.
pub proof fn lemma_notification_leaves_requests<T>(waiting: Map<u64, T>, message: JsonView)
    requires
        message_id(message).is_none(),
    ensures
        delivery_of(waiting, message) == Delivery::<T>::Notification,
        waiting_after(waiting, message) == waiting,
{
}

// ---------------------------------------------------------------------
// Notifications
// ---------------------------------------------------------------------

/// `message["method"].as_str().unwrap_or("")`.
pub open spec fn method_name(message: JsonView) -> Seq<char> {
    match json_str(json_field(message, "method"@)) {
        Some(m) => m,
        None => Seq::empty(),
    }
}

/// For a `window/showMessage` notification, the text of
/// `message["params"]["message"]` (compact JSON, `null` where it is
/// missing); nothing for any other message.
pub open spec fn alert_view(message: JsonView) -> Option<Seq<char>> {
    if method_name(message) == "window/showMessage"@ {
        Some(json_text(json_field(json_field(message, "params"@), "message"@)))
    } else {
        None
    }
}


/// The alert that a `window/showMessage` notification carries.
pub fn show_message_alert(message: &Json) -> (r: Option<String>)
    ensures
        match r {
            Some(s) => alert_view(message@) == Some(s@),
            None => alert_view(message@).is_none(),
        },
{
    let method: &str = match message.get("method") {
        Some(m) => match m.as_str() {
            Some(s) => s,
            None => "",
        },
        None => "",
    };
    proof {
        reveal_strlit("");
        assert(method@ == method_name(message@));
    }
    if same_text(method, "window/showMessage") {
        let params = message.field("params");
        let text = params.field("message");
        Some(text.to_text())
    } else {
        None
    }
}

// ---------------------------------------------------------------------
// Call hierarchy
// ---------------------------------------------------------------------

/// What follows a `textDocument/prepareCallHierarchy` answer.
pub enum HierarchyStep {
    /// The answer holds no list of items.
    NoItems,
    /// The list is empty: there are no calls.
    NoCalls,
    /// Ask for the calls of this item, the first of the list.
    Follow(Json),
}

/// The items of an answer's `result`, where it is an array.
pub open spec fn result_items(answer: JsonView) -> Option<Seq<JsonView>> {
    match json_get(answer, "result"@) {
        Some(r) => crate::json::json_array(r),
        None => None,
    }
}

/// The step after a `textDocument/prepareCallHierarchy` answer: no list
/// of items, an empty list, or the first item to ask about.
pub fn hierarchy_step(answer: &Json) -> (s: HierarchyStep)
    ensures
        match result_items(answer@) {
            None => s is NoItems,
            Some(items) => if items.len() == 0 {
                s is NoCalls
            } else {
                s matches HierarchyStep::Follow(item) && item@ == items[0]
            },
        },
{
    let items = match answer.get("result") {
        Some(r) => r.as_array(),
        None => None,
    };
    match items {
        None => HierarchyStep::NoItems,
        Some(items) => {
            if items.len() == 0 {
                HierarchyStep::NoCalls
            } else {
                proof {
                    crate::json::lemma_items_view(items@);
                }
                HierarchyStep::Follow(items[0].deep_clone())
            }
        },
    }
}

} // verus!
