//! The interactive prompt: what a typed line asks for, and what is shown
//! of the language server's answers to the symbol and reference commands.
use vstd::prelude::*;
use crate::json::{join_with, json_field, json_get, json_str, json_text, json_u64, Json, JsonView};
use crate::rpc::result_items;
use crate::text::{
    chars_of, decimal, lemma_parse_decimal, parse_u32_or_zero, parse_unsigned, push_chars, same_text, split_words,
    string_from_chars, strip_prefixes, strip_prefixes_chars, words, char_seqs,
};

verus! {

// ---------------------------------------------------------------------
// Commands
// ---------------------------------------------------------------------

/// What the user asks for.
pub enum Command {
    Exit,
    GitHead,
    GitCommits,
    GitDiff,
    LspStart,
    LspStop,
    LspSymbols(String),
    LspReferences(String, u32, u32),
    Unknown(String),
}

/// The mathematical form of a [`Command`].
pub enum CommandView {
    Exit,
    GitHead,
    GitCommits,
    GitDiff,
    LspStart,
    LspStop,
    LspSymbols(Seq<char>),
    LspReferences(Seq<char>, u32, u32),
    Unknown(Seq<char>),
}

impl View for Command {
    type V = CommandView;

    open spec fn view(&self) -> CommandView {
        match self {
            Command::Exit => CommandView::Exit,
            Command::GitHead => CommandView::GitHead,
            Command::GitCommits => CommandView::GitCommits,
            Command::GitDiff => CommandView::GitDiff,
            Command::LspStart => CommandView::LspStart,
            Command::LspStop => CommandView::LspStop,
            Command::LspSymbols(p) => CommandView::LspSymbols(p@),
            Command::LspReferences(p, l, c) => CommandView::LspReferences(p@, *l, *c),
            Command::Unknown(s) => CommandView::Unknown(s@),
        }
    }
}

/// A number argument: `parse::<u32>()`, 0 where it is not one.
pub open spec fn u32_or_zero(s: Seq<char>) -> u32 {
    match parse_unsigned(s, u32::MAX as nat) {
        Some(v) => v as u32,
        None => 0,
    }
}

/// The command that the words of a line ask for: `exit` or `quit`; `head`,
/// `commits`, `diff`; `lsp start`, `lsp stop`; `[lsp] references PATH LINE
/// COL`; `[lsp] symbols PATH`; anything else is unknown and kept as its
/// words joined by single spaces.
pub open spec fn parse_command(args: Seq<Seq<char>>) -> CommandView {
    if args == seq!["exit"@] || args == seq!["quit"@] {
        CommandView::Exit
    } else if args == seq!["head"@] {
        CommandView::GitHead
    } else if args == seq!["commits"@] {
        CommandView::GitCommits
    } else if args == seq!["diff"@] {
        CommandView::GitDiff
    } else if args == seq!["lsp"@, "start"@] {
        CommandView::LspStart
    } else if args == seq!["lsp"@, "stop"@] {
        CommandView::LspStop
    } else if args.len() == 5 && args[0] == "lsp"@ && args[1] == "references"@ {
        CommandView::LspReferences(args[2], u32_or_zero(args[3]), u32_or_zero(args[4]))
    } else if args.len() == 4 && args[0] == "references"@ {
        CommandView::LspReferences(args[1], u32_or_zero(args[2]), u32_or_zero(args[3]))
    } else if args.len() == 3 && args[0] == "lsp"@ && args[1] == "symbols"@ {
        CommandView::LspSymbols(args[2])
    } else if args.len() == 2 && args[0] == "symbols"@ {
        CommandView::LspSymbols(args[1])
    } else {
        CommandView::Unknown(join_with(args, seq![' ']))
    }
}

/// The `lsp` word is optional before `references` and `symbols`: both
/// forms ask for the same thing.
pub proof fn lemma_lsp_prefix_optional(path: Seq<char>, line: Seq<char>, col: Seq<char>)
    ensures
        parse_command(seq!["lsp"@, "references"@, path, line, col]) == parse_command(
            seq!["references"@, path, line, col],
        ),
        parse_command(seq!["lsp"@, "symbols"@, path]) == parse_command(seq!["symbols"@, path]),
        parse_command(seq!["references"@, path, line, col]) == CommandView::LspReferences(
            path,
            u32_or_zero(line),
            u32_or_zero(col),
        ),
        parse_command(seq!["symbols"@, path]) == CommandView::LspSymbols(path),
{
    reveal_strlit("lsp");
    reveal_strlit("references");
    reveal_strlit("symbols");
    reveal_strlit("start");
    reveal_strlit("stop");
    let a = seq!["lsp"@, "references"@, path, line, col];
    let b = seq!["references"@, path, line, col];
    let c = seq!["lsp"@, "symbols"@, path];
    let d = seq!["symbols"@, path];
    assert(a.len() == 5 && b.len() == 4 && c.len() == 3 && d.len() == 2);
    assert(c != seq!["lsp"@, "start"@]) by {
        assert(c.len() != 2);
    }
    assert(b[0] != "lsp"@) by {
        assert(b[0].len() != "lsp"@.len());
    }
    assert(d[0] != "lsp"@) by {
        assert(d[0].len() != "lsp"@.len());
    }
    assert(d != seq!["lsp"@, "start"@]);
    assert(d != seq!["lsp"@, "stop"@]);
}

/// A number argument written as the decimal text of any `u32` reads back
/// as that number, so a `references` line asks about exactly the line and
/// character it names.
pub proof fn lemma_number_args_read_back(path: Seq<char>, line: u32, col: u32)
    ensures
        u32_or_zero(decimal(line as nat)) == line,
        u32_or_zero(decimal(col as nat)) == col,
        parse_command(seq!["references"@, path, decimal(line as nat), decimal(col as nat)])
            == CommandView::LspReferences(path, line, col),
        parse_command(seq!["lsp"@, "references"@, path, decimal(line as nat), decimal(col as nat)])
            == CommandView::LspReferences(path, line, col),
{
    lemma_parse_decimal(line as nat, u32::MAX as nat);
    lemma_parse_decimal(col as nat, u32::MAX as nat);
    lemma_lsp_prefix_optional(path, decimal(line as nat), decimal(col as nat));
}

/// The views of a sequence of strings.
pub open spec fn strings_view(v: Seq<&str>) -> Seq<Seq<char>> {
    Seq::new(v.len(), |i: int| v[i]@)
}

fn is_one(args: &Vec<&str>, a: &str) -> (b: bool)
    ensures
        b == (strings_view(args@) == seq![a@]),
{
    if args.len() != 1 {
        proof {
            assert(strings_view(args@).len() != 1);
        }
        return false;
    }
    let r = same_text(args[0], a);
    proof {
        if r {
            assert(strings_view(args@) =~= seq![a@]);
        } else {
            assert(strings_view(args@)[0] != seq![a@][0]);
        }
    }
    r
}

fn is_two(args: &Vec<&str>, a: &str, b: &str) -> (r: bool)
    ensures
        r == (strings_view(args@) == seq![a@, b@]),
{
    if args.len() != 2 {
        proof {
            assert(strings_view(args@).len() != 2);
        }
        return false;
    }
    let r = same_text(args[0], a) && same_text(args[1], b);
    proof {
        if r {
            assert(strings_view(args@) =~= seq![a@, b@]);
        } else if strings_view(args@) == seq![a@, b@] {
            assert(strings_view(args@)[0] == a@);
            assert(strings_view(args@)[1] == b@);
        }
    }
    r
}

fn number_arg(s: &str) -> (n: u32)
    ensures
        n == u32_or_zero(s@),
{
    let cs = chars_of(s);
    parse_u32_or_zero(cs.as_slice())
}

fn joined(args: &Vec<&str>) -> (s: String)
    ensures
        s@ == join_with(strings_view(args@), seq![' ']),
{
    let ghost sv = strings_view(args@);
    let mut out: Vec<char> = Vec::new();
    let mut i: usize = 0;
    proof {
        assert(sv.take(0) =~= Seq::<Seq<char>>::empty());
    }
    while i < args.len()
        invariant
            i <= args@.len(),
            sv == strings_view(args@),
            out@ == join_with(sv.take(i as int), seq![' ']),
        decreases args@.len() - i,
    {
        proof {
            assert(sv.take(i + 1).drop_last() =~= sv.take(i as int));
            assert(sv.take(i + 1).last() == args@[i as int]@);
        }
        if i > 0 {
            out.push(' ');
        }
        let cs = chars_of(args[i]);
        push_chars(&mut out, cs.as_slice());
        proof {
            if i == 0 {
                assert(join_with(sv.take(1), seq![' ']) == sv.take(1)[0]);
                assert(out@ =~= join_with(sv.take(1), seq![' ']));
            } else {
                assert(out@ =~= join_with(sv.take(i + 1), seq![' ']));
            }
        }
        i = i + 1;
    }
    proof {
        assert(sv.take(sv.len() as int) =~= sv);
    }
    string_from_chars(out.as_slice())
}

impl Command {
    /// The command that the words of a line ask for.
    pub fn parse(args: Vec<&str>) -> (c: Command)
        ensures
            c@ == parse_command(strings_view(args@)),
    {
        let ghost sv = strings_view(args@);
        if is_one(&args, "exit") || is_one(&args, "quit") {
            return Command::Exit;
        }
        if is_one(&args, "head") {
            return Command::GitHead;
        }
        if is_one(&args, "commits") {
            return Command::GitCommits;
        }
        if is_one(&args, "diff") {
            return Command::GitDiff;
        }
        if is_two(&args, "lsp", "start") {
            return Command::LspStart;
        }
        if is_two(&args, "lsp", "stop") {
            return Command::LspStop;
        }
        if args.len() == 5 && same_text(args[0], "lsp") && same_text(
            args[1],
            "references",
        ) {
            return Command::LspReferences(
                args[2].to_owned(),
                number_arg(args[3]),
                number_arg(args[4]),
            );
        }
        if args.len() == 4 && same_text(args[0], "references") {
            return Command::LspReferences(
                args[1].to_owned(),
                number_arg(args[2]),
                number_arg(args[3]),
            );
        }
        if args.len() == 3 && same_text(args[0], "lsp") && same_text(
            args[1],
            "symbols",
        ) {
            return Command::LspSymbols(args[2].to_owned());
        }
        if args.len() == 2 && same_text(args[0], "symbols") {
            return Command::LspSymbols(args[1].to_owned());
        }
        Command::Unknown(joined(&args))
    }

    /// The command a typed line asks for: `None` for a line without words.
    pub fn from_input(line: &str) -> (c: Option<Command>)
        ensures
            match c {
                Some(cmd) => words(line@).len() > 0 && cmd@ == parse_command(words(line@)),
                None => words(line@).len() == 0,
            },
    {
        let ws = split_words(line);
        if ws.len() == 0 {
            return None;
        }
        let mut owned: Vec<String> = Vec::new();
        let mut i: usize = 0;
        while i < ws.len()
            invariant
                i <= ws@.len(),
                owned@.len() == i,
                forall|k: int| 0 <= k < i ==> (#[trigger] owned@[k])@ == ws@[k]@,
            decreases ws@.len() - i,
        {
            owned.push(string_from_chars(ws[i].as_slice()));
            i = i + 1;
        }
        let mut args: Vec<&str> = Vec::new();
        let mut j: usize = 0;
        while j < owned.len()
            invariant
                j <= owned@.len(),
                owned@.len() == ws@.len(),
                args@.len() == j,
                forall|k: int| 0 <= k < owned@.len() ==> (#[trigger] owned@[k])@ == ws@[k]@,
                forall|k: int| 0 <= k < j ==> (#[trigger] args@[k])@ == ws@[k]@,
            decreases owned@.len() - j,
        {
            args.push(owned[j].as_str());
            j = j + 1;
        }
        proof {
            assert(strings_view(args@) =~= char_seqs(ws@));
        }
        Some(Command::parse(args))
    }
}

// ---------------------------------------------------------------------
// Symbols
// ---------------------------------------------------------------------

/// The label of a symbol kind.
pub open spec fn kind_label_view(kind: Option<u64>) -> Seq<char> {
    match kind {
        Some(1) => "File"@,
        Some(2) => "Module"@,
        Some(5) => "Class"@,
        Some(6) => "Method"@,
        Some(11) => "Interface"@,
        Some(12) => "Function"@,
        Some(13) => "Variable"@,
        Some(23) => "Struct"@,
        _ => "Other"@,
    }
}

/// The label of a symbol kind: `File`, `Module`, `Class`, `Method`,
/// `Interface`, `Function`, `Variable`, `Struct`, or `Other`.
pub fn kind_label(kind: Option<u64>) -> (s: &'static str)
    ensures
        s@ == kind_label_view(kind),
{
    match kind {
        Some(1) => "File",
        Some(2) => "Module",
        Some(5) => "Class",
        Some(6) => "Method",
        Some(11) => "Interface",
        Some(12) => "Function",
        Some(13) => "Variable",
        Some(23) => "Struct",
        _ => "Other",
    }
}

/// What is shown of an answer.
pub enum Report<T> {
    /// The answer's list, one entry per item.
    Items(Vec<T>),
    /// The list is empty.
    Empty,
    /// The server answered with an error: the text of its message.
    ServerError(String),
    /// Neither a list nor an error: nothing is shown.
    Nothing,
}

/// The mathematical form of a [`Report`].
pub enum ReportView<V> {
    Items(Seq<V>),
    Empty,
    ServerError(Seq<char>),
    Nothing,
}

/// What is shown of an answer, each listed item shown as `show` gives.
pub open spec fn report_view<V>(answer: JsonView, show: spec_fn(JsonView) -> V) -> ReportView<V> {
    match result_items(answer) {
        Some(items) => if items.len() == 0 {
            ReportView::Empty
        } else {
            ReportView::Items(Seq::new(items.len(), |i: int| show(items[i])))
        },
        None => match json_get(answer, "error"@) {
            Some(e) => ReportView::ServerError(json_text(json_field(e, "message"@))),
            None => ReportView::Nothing,
        },
    }
}

/// A symbol shown: its name (`?` where it has none) and the label of its
/// kind.
pub open spec fn symbol_row(s: JsonView) -> (Seq<char>, Seq<char>) {
    (
        match json_str(json_field(s, "name"@)) {
            Some(n) => n,
            None => "?"@,
        },
        kind_label_view(json_u64(json_field(s, "kind"@))),
    )
}

/// A reference shown: its path (the URI without its leading `file://`,
/// `?` where it has no URI) and the line it starts on (0 where missing).
pub open spec fn reference_row(loc: JsonView) -> (Seq<char>, u64) {
    (
        strip_prefixes(
            match json_str(json_field(loc, "uri"@)) {
                Some(u) => u,
                None => "?"@,
            },
            "file://"@,
        ),
        match json_u64(json_field(json_field(json_field(loc, "range"@), "start"@), "line"@)) {
            Some(l) => l,
            None => 0,
        },
    )
}


fn text_or(v: &Json, key: &str, default: &str) -> (r: String)
    ensures
        r@ == match json_str(json_field(v@, key@)) {
            Some(s) => s,
            None => default@,
        },
{
    match v.get(key) {
        Some(x) => match x.as_str() {
            Some(s) => s.to_owned(),
            None => default.to_owned(),
        },
        None => default.to_owned(),
    }
}

/// The reports' shape before the items are shown.
enum Shape<'a> {
    List(&'a Vec<Json>),
    Empty,
    ServerError(String),
    Nothing,
}

fn report_shape(answer: &Json) -> (s: Shape)
    ensures
        match s {
            Shape::List(items) => result_items(answer@) == Some(crate::json::items_view(items@))
                && items@.len() > 0,
            Shape::Empty => (result_items(answer@) matches Some(items) && items.len() == 0),
            Shape::ServerError(t) => result_items(answer@).is_none() && (json_get(answer@, "error"@) matches Some(e)
                && t@ == json_text(json_field(e, "message"@))),
            Shape::Nothing => result_items(answer@).is_none() && json_get(answer@, "error"@).is_none(),
        },
{
    let list = match answer.get("result") {
        Some(r) => r.as_array(),
        None => None,
    };
    match list {
        Some(items) => {
            proof {
                crate::json::lemma_items_view(items@);
            }
            if items.len() == 0 {
                Shape::Empty
            } else {
                Shape::List(items)
            }
        },
        None => match answer.get("error") {
            Some(e) => {
                let m = e.field("message");
                Shape::ServerError(m.to_text())
            },
            None => Shape::Nothing,
        },
    }
}

/// The mathematical form of a symbol report.
pub open spec fn symbol_report_view(r: &Report<(String, String)>) -> ReportView<(Seq<char>, Seq<char>)> {
    match r {
        Report::Items(v) => ReportView::Items(Seq::new(v@.len(), |i: int| (v@[i].0@, v@[i].1@))),
        Report::Empty => ReportView::Empty,
        Report::ServerError(t) => ReportView::ServerError(t@),
        Report::Nothing => ReportView::Nothing,
    }
}

/// What the `symbols` command shows of a `textDocument/documentSymbol`
/// answer: a name and kind label per symbol, that there are none, or the
/// server's error message.
pub fn symbol_report(answer: &Json) -> (r: Report<(String, String)>)
    ensures
        symbol_report_view(&r) == report_view(answer@, |s: JsonView| symbol_row(s)),
{
    match report_shape(answer) {
        Shape::List(items) => {
            let mut rows: Vec<(String, String)> = Vec::new();
            let mut i: usize = 0;
            while i < items.len()
                invariant
                    i <= items@.len(),
                    rows@.len() == i,
                    forall|k: int|
                        0 <= k < i ==> ((#[trigger] rows@[k]).0@, rows@[k].1@) == symbol_row(
                            items@[k]@,
                        ),
                decreases items@.len() - i,
            {
                let name = text_or(&items[i], "name", "?");
                let kind = match items[i].get("kind") {
                    Some(k) => k.as_u64(),
                    None => None,
                };
                let label = kind_label(kind).to_owned();
                rows.push((name, label));
                i = i + 1;
            }
            proof {
                crate::json::lemma_items_view(items@);
                let a = Seq::new(rows@.len(), |k: int| (rows@[k].0@, rows@[k].1@));
                let iv = crate::json::items_view(items@);
                let f = |s: JsonView| symbol_row(s);
                let b = Seq::new(iv.len(), |k: int| f(iv[k]));
                assert(a =~= b);
                assert(report_view(answer@, f) == ReportView::Items(b));
            }
            Report::Items(rows)
        },
        Shape::Empty => Report::Empty,
        Shape::ServerError(t) => Report::ServerError(t),
        Shape::Nothing => Report::Nothing,
    }
}

// ---------------------------------------------------------------------
// References
// ---------------------------------------------------------------------

/// The mathematical form of a reference report.
pub open spec fn reference_report_view(r: &Report<(String, u64)>) -> ReportView<(Seq<char>, u64)> {
    match r {
        Report::Items(v) => ReportView::Items(Seq::new(v@.len(), |i: int| (v@[i].0@, v@[i].1))),
        Report::Empty => ReportView::Empty,
        Report::ServerError(t) => ReportView::ServerError(t@),
        Report::Nothing => ReportView::Nothing,
    }
}

/// What the `references` command shows of a `textDocument/references`
/// answer: a path and start line per location, that there are none, or the
/// server's error message.
pub fn reference_report(answer: &Json) -> (r: Report<(String, u64)>)
    ensures
        reference_report_view(&r) == report_view(answer@, |l: JsonView| reference_row(l)),
{
    match report_shape(answer) {
        Shape::List(items) => {
            let scheme = chars_of("file://");
            let mut rows: Vec<(String, u64)> = Vec::new();
            let mut i: usize = 0;
            while i < items.len()
                invariant
                    i <= items@.len(),
                    scheme@ == "file://"@,
                    rows@.len() == i,
                    forall|k: int|
                        0 <= k < i ==> ((#[trigger] rows@[k]).0@, rows@[k].1) == reference_row(
                            items@[k]@,
                        ),
                decreases items@.len() - i,
            {
                let uri = text_or(&items[i], "uri", "?");
                let uc = chars_of(uri.as_str());
                let path = strip_prefixes_chars(uc.as_slice(), scheme.as_slice());
                let range = items[i].field("range");
                let start = range.field("start");
                let line = match start.get("line") {
                    Some(l) => match l.as_u64() {
                        Some(n) => n,
                        None => 0,
                    },
                    None => 0,
                };
                rows.push((string_from_chars(path.as_slice()), line));
                i = i + 1;
            }
            proof {
                crate::json::lemma_items_view(items@);
                let a = Seq::new(rows@.len(), |k: int| (rows@[k].0@, rows@[k].1));
                let iv = crate::json::items_view(items@);
                let f = |l: JsonView| reference_row(l);
                let b = Seq::new(iv.len(), |k: int| f(iv[k]));
                assert(a =~= b);
                assert(report_view(answer@, f) == ReportView::Items(b));
            }
            Report::Items(rows)
        },
        Shape::Empty => Report::Empty,
        Shape::ServerError(t) => Report::ServerError(t),
        Shape::Nothing => Report::Nothing,
    }
}

/// How a URI is shown: without its leading `file://`
/// (`file:///path` becomes `/path`).
pub fn display_path(uri: &str) -> (p: String)
    ensures
        p@ == strip_prefixes(uri@, "file://"@),
{
    let uc = chars_of(uri);
    let scheme = chars_of("file://");
    let path = strip_prefixes_chars(uc.as_slice(), scheme.as_slice());
    string_from_chars(path.as_slice())
}

} // verus!
