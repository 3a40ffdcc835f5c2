//! Building the project graph from the language server's answers: the
//! symbols of each file become nodes, a symbol's children are linked from
//! it, an `impl` block is linked from the type it implements, and a
//! function is linked to the project functions it calls.
use vstd::prelude::*;
use crate::graph::{nodes_after_insert, Graph, Node, NodeView};
use crate::json::{json_array, json_field, json_get, json_str, json_text, json_u64, Json, JsonView, NumberView};
use crate::text::{
    chars_of, contains_chars, contains_text, decimal, decimal_string, has_prefix, is_digit,
    lemma_parse_decimal, parse_u32_or_zero, parse_unsigned, push_chars, push_decimal, starts_with_chars, string_from_chars, strip_prefixes,
    strip_prefixes_chars,
};

verus! {

// ---------------------------------------------------------------------
// Ids
// ---------------------------------------------------------------------

/// `file:line:character`, each position written as its JSON text
/// (`null` where it is missing).
pub open spec fn location_id(file: Seq<char>, start: JsonView) -> Seq<char> {
    file + seq![':'] + json_text(json_field(start, "line"@)) + seq![':'] + json_text(
        json_field(start, "character"@),
    )
}

/// `v.get(a).and_then(|x| x.get(b))`.
pub open spec fn get2(v: JsonView, a: Seq<char>, b: Seq<char>) -> Option<JsonView> {
    match json_get(v, a) {
        Some(x) => json_get(x, b),
        None => None,
    }
}

/// Where a symbol starts: `selectionRange.start`, or else
/// `location.range.start`.
pub open spec fn symbol_start(s: JsonView) -> Option<JsonView> {
    match get2(s, "selectionRange"@, "start"@) {
        Some(x) => Some(x),
        None => match json_get(s, "location"@) {
            Some(l) => get2(l, "range"@, "start"@),
            None => None,
        },
    }
}

/// The id of a symbol of `file`, where the symbol says where it starts.
pub open spec fn symbol_id_view(file: Seq<char>, s: JsonView) -> Option<Seq<char>> {
    match symbol_start(s) {
        Some(st) => Some(location_id(file, st)),
        None => None,
    }
}

/// The JSON text of `v[key]`.
fn field_text(v: &Json, key: &str) -> (r: Vec<char>)
    ensures
        r@ == json_text(json_field(v@, key@)),
{
    match v.get(key) {
        Some(x) => {
            let t = x.to_text();
            chars_of(t.as_str())
        },
        None => {
            let t = Json::Null.to_text();
            chars_of(t.as_str())
        },
    }
}

fn get2_exec<'a>(v: &'a Json, a: &str, b: &str) -> (r: Option<&'a Json>)
    ensures
        match r {
            Some(x) => get2(v@, a@, b@) == Some(x@),
            None => get2(v@, a@, b@).is_none(),
        },
{
    match v.get(a) {
        Some(x) => x.get(b),
        None => None,
    }
}

/// `file:line:character` for a position.
fn location_id_exec(file: &str, start: &Json) -> (r: Vec<char>)
    ensures
        r@ == location_id(file@, start@),
{
    let mut out = chars_of(file);
    out.push(':');
    let l = field_text(start, "line");
    push_chars(&mut out, l.as_slice());
    out.push(':');
    let c = field_text(start, "character");
    push_chars(&mut out, c.as_slice());
    out
}

/// The id of a symbol of `file`: where it starts, as `file:line:character`.
pub fn symbol_id(file: &str, s: &Json) -> (r: Option<String>)
    ensures
        match r {
            Some(id) => symbol_id_view(file@, s@) == Some(id@),
            None => symbol_id_view(file@, s@).is_none(),
        },
{
    let start = match get2_exec(s, "selectionRange", "start") {
        Some(x) => Some(x),
        None => match s.get("location") {
            Some(l) => get2_exec(l, "range", "start"),
            None => None,
        },
    };
    match start {
        Some(st) => {
            let v = location_id_exec(file, st);
            Some(string_from_chars(v.as_slice()))
        },
        None => None,
    }
}

// ---------------------------------------------------------------------
// Splitting an id
// ---------------------------------------------------------------------

/// The parts of `s` found so far, and the part being read at its end, when
/// `s` is split at each `sep`.
pub open spec fn scan_parts(s: Seq<char>, sep: char) -> (Seq<Seq<char>>, Seq<char>)
    decreases s.len(),
{
    if s.len() == 0 {
        (Seq::empty(), Seq::empty())
    } else {
        let (done, cur) = scan_parts(s.drop_last(), sep);
        if s.last() == sep {
            (done.push(cur), Seq::empty())
        } else {
            (done, cur.push(s.last()))
        }
    }
}

/// `s.split(sep)`: the parts between the separators, empty ones included.
pub open spec fn split_parts(s: Seq<char>, sep: char) -> Seq<Seq<char>> {
    let (done, cur) = scan_parts(s, sep);
    done.push(cur)
}

/// Part `k` of an id read as a `u32` (`parts[k].parse().unwrap_or(0)`).
pub open spec fn part_u32(id: Seq<char>, k: int) -> u32 {
    let parts = split_parts(id, ':');
    if 0 <= k < parts.len() {
        match parse_unsigned(parts[k], u32::MAX as nat) {
            Some(v) => v as u32,
            None => 0,
        }
    } else {
        0
    }
}

/// Part `k` of `s` split at `sep`, where there is one.
fn split_part(s: &[char], sep: char, k: usize) -> (r: Option<Vec<char>>)
    ensures
        match r {
            Some(p) => k < split_parts(s@, sep).len() && p@ == split_parts(s@, sep)[k as int],
            None => k >= split_parts(s@, sep).len(),
        },
{
    let mut done: usize = 0;
    let mut cur: Vec<char> = Vec::new();
    let mut found: Option<Vec<char>> = None;
    let ghost mut parts: Seq<Seq<char>> = Seq::empty();
    let mut i: usize = 0;
    while i < s.len()
        invariant
            i <= s@.len(),
            (parts, cur@) == scan_parts(s@.take(i as int), sep),
            done as int == parts.len(),
            done <= i,
            match found {
                Some(p) => k < parts.len() && p@ == parts[k as int],
                None => k >= parts.len(),
            },
        decreases s@.len() - i,
    {
        proof {
            assert(s@.take(i + 1).drop_last() =~= s@.take(i as int));
        }
        if s[i] == sep {
            if done == k {
                let p = cur;
                cur = Vec::new();
                proof {
                    parts = parts.push(p@);
                }
                found = Some(p);
            } else {
                proof {
                    parts = parts.push(cur@);
                }
                cur = Vec::new();
            }
            done = done + 1;
        } else {
            cur.push(s[i]);
        }
        i = i + 1;
    }
    proof {
        assert(s@.take(s@.len() as int) =~= s@);
    }
    match found {
        Some(p) => Some(p),
        None => {
            if done == k {
                Some(cur)
            } else {
                None
            }
        },
    }
}

/// Part `k` of an id, read as a `u32`, 0 where it is not one.
pub fn part_u32_exec(id: &[char], k: usize) -> (r: u32)
    ensures
        r == part_u32(id@, k as int),
{
    match split_part(id, ':', k) {
        Some(p) => parse_u32_or_zero(p.as_slice()),
        None => 0,
    }
}

proof fn lemma_scan_parts_plain(s: Seq<char>, sep: char)
    requires
        forall|i: int| 0 <= i < s.len() ==> s[i] != sep,
    ensures
        scan_parts(s, sep) == (Seq::<Seq<char>>::empty(), s),
    decreases s.len(),
{
    if s.len() > 0 {
        lemma_scan_parts_plain(s.drop_last(), sep);
        assert(s.drop_last().push(s.last()) =~= s);
    }
}

proof fn lemma_scan_parts_concat(a: Seq<char>, b: Seq<char>, sep: char)
    ensures
        scan_parts(a + seq![sep] + b, sep) == (
            split_parts(a, sep) + scan_parts(b, sep).0,
            scan_parts(b, sep).1,
        ),
    decreases b.len(),
{
    let s = a + seq![sep] + b;
    if b.len() == 0 {
        assert(s.drop_last() =~= a);
        assert(split_parts(a, sep) + Seq::<Seq<char>>::empty() =~= split_parts(a, sep));
    } else {
        lemma_scan_parts_concat(a, b.drop_last(), sep);
        assert(s.drop_last() =~= a + seq![sep] + b.drop_last());
        assert(s.last() == b.last());
        let (d, c) = scan_parts(b.drop_last(), sep);
        if b.last() == sep {
            assert((split_parts(a, sep) + d).push(c) =~= split_parts(a, sep) + d.push(c));
        }
    }
}

/// Splitting `a`, a separator and `b` gives the parts of `a`, then those of
/// `b`.
proof fn lemma_split_parts_concat(a: Seq<char>, b: Seq<char>, sep: char)
    ensures
        split_parts(a + seq![sep] + b, sep) == split_parts(a, sep) + split_parts(b, sep),
{
    lemma_scan_parts_concat(a, b, sep);
    let (d, c) = scan_parts(b, sep);
    assert((split_parts(a, sep) + d).push(c) =~= split_parts(a, sep) + d.push(c));
}

/// An id reads back as the position it was made of: where a symbol of a
/// file whose name holds no `:` starts at line `line` and character
/// `character`, parts 1 and 2 of its id are those numbers, so the node
/// made of the symbol sits where the symbol starts.
pub proof fn lemma_id_round_trip(file: Seq<char>, start: JsonView, line: u32, character: u32)
    requires
        forall|i: int| 0 <= i < file.len() ==> file[i] != ':',
        json_field(start, "line"@) == JsonView::Number(NumberView::PosInt(line as u64)),
        json_field(start, "character"@) == JsonView::Number(
            NumberView::PosInt(character as u64),
        ),
    ensures
        split_parts(location_id(file, start), ':') == seq![
            file,
            decimal(line as nat),
            decimal(character as nat),
        ],
        part_u32(location_id(file, start), 1) == line,
        part_u32(location_id(file, start), 2) == character,
{
    let dl = decimal(line as nat);
    let dc = decimal(character as nat);
    lemma_parse_decimal(line as nat, u32::MAX as nat);
    lemma_parse_decimal(character as nat, u32::MAX as nat);
    assert(json_text(json_field(start, "line"@)) == dl);
    assert(json_text(json_field(start, "character"@)) == dc);
    assert forall|i: int| 0 <= i < dl.len() implies dl[i] != ':' by {
        assert(is_digit(dl[i]));
    }
    assert forall|i: int| 0 <= i < dc.len() implies dc[i] != ':' by {
        assert(is_digit(dc[i]));
    }
    lemma_scan_parts_plain(file, ':');
    lemma_scan_parts_plain(dl, ':');
    lemma_scan_parts_plain(dc, ':');
    let first = file + seq![':'] + dl;
    lemma_split_parts_concat(file, dl, ':');
    lemma_split_parts_concat(first, dc, ':');
    assert(location_id(file, start) =~= first + seq![':'] + dc);
    assert(split_parts(file, ':') =~= seq![file]);
    assert(split_parts(dl, ':') =~= seq![dl]);
    assert(split_parts(dc, ':') =~= seq![dc]);
    assert(split_parts(location_id(file, start), ':') =~= seq![file, dl, dc]);
}

// ---------------------------------------------------------------------
// Visiting the symbols of a file
// ---------------------------------------------------------------------

/// A symbol met while going through a file's symbols, depth first.
pub struct SymbolVisit {
    /// Its id.
    pub id: String,
    /// `name`, or `?` where it has none.
    pub name: String,
    /// `kind`, or 0 where it has none.
    pub kind: u64,
    /// The line and character read back from the id.
    pub line: u32,
    pub col: u32,
    /// The symbol it is declared in.
    pub parent: Option<String>,
    /// Whether it is an `impl` block (kind 26, or a name that starts with
    /// `impl`): the type it implements is looked up at its position.
    pub wants_definition: bool,
}

/// The mathematical form of a [`SymbolVisit`].
pub struct VisitView {
    pub id: Seq<char>,
    pub name: Seq<char>,
    pub kind: u64,
    pub line: u32,
    pub col: u32,
    pub parent: Option<Seq<char>>,
    pub wants_definition: bool,
}

impl View for SymbolVisit {
    type V = VisitView;

    open spec fn view(&self) -> VisitView {
        VisitView {
            id: self.id@,
            name: self.name@,
            kind: self.kind,
            line: self.line,
            col: self.col,
            parent: match &self.parent {
                Some(p) => Some(p@),
                None => None,
            },
            wants_definition: self.wants_definition,
        }
    }
}

/// Where the type an `impl` block implements is looked up: the block's
/// line, five characters after its start (past `impl `); nothing for any
/// other symbol.
pub open spec fn definition_position_view(v: VisitView) -> Option<(u32, u32)> {
    if v.wants_definition {
        Some((v.line, (v.col + 5) as u32))
    } else {
        None
    }
}

impl SymbolVisit {
    /// Where to ask for the definition of the type an `impl` block
    /// implements, if this visit is of one.
    pub fn definition_position(&self) -> (p: Option<(u32, u32)>)
        requires
            self.wants_definition ==> self.col + 5 <= u32::MAX,
        ensures
            p == definition_position_view(self@),
    {
        if self.wants_definition {
            Some((self.line, self.col + 5))
        } else {
            None
        }
    }
}

/// The name of a symbol: `s["name"].as_str().unwrap_or("?")`.
pub open spec fn symbol_name(s: JsonView) -> Seq<char> {
    match json_str(json_field(s, "name"@)) {
        Some(n) => n,
        None => seq!['?'],
    }
}

/// The kind of a symbol: `s["kind"].as_u64().unwrap_or(0)`.
pub open spec fn symbol_kind(s: JsonView) -> u64 {
    match json_u64(json_field(s, "kind"@)) {
        Some(k) => k,
        None => 0,
    }
}

/// The visit of the symbol `s` with id `id`.
pub open spec fn visit_of(s: JsonView, id: Seq<char>, parent: Option<Seq<char>>) -> VisitView {
    VisitView {
        id,
        name: symbol_name(s),
        kind: symbol_kind(s),
        line: part_u32(id, 1),
        col: part_u32(id, 2),
        parent,
        wants_definition: symbol_kind(s) == 26 || has_prefix(symbol_name(s), "impl"@),
    }
}

/// The children of a symbol: `s["children"]` where it is an array.
pub open spec fn symbol_children(s: JsonView) -> Seq<JsonView> {
    match json_get(s, "children"@) {
        Some(c) => match json_array(c) {
            Some(items) => items,
            None => Seq::empty(),
        },
        None => Seq::empty(),
    }
}

/// A symbol's children are part of it.
pub proof fn lemma_children_within(s: JsonView)
    ensures
        symbol_children(s).len() > 0 ==> decreases_to!(s => symbol_children(s)),
{
    if symbol_children(s).len() > 0 {
        let m = s->Object_0;
        let k = choose|i: int| crate::json::is_first_key(m, "children"@, i);
        assert(decreases_to!(s => s->Object_0));
        assert(decreases_to!(m => m[k]));
        assert(decreases_to!(m[k] => m[k].1));
        assert(decreases_to!(m[k].1 => m[k].1->Array_0));
    }
}

/// The visits of a list of symbols of `file`, depth first: each symbol
/// that has an id, then its children, then the next symbol.
pub open spec fn visits(file: Seq<char>, syms: Seq<JsonView>, parent: Option<Seq<char>>) -> Seq<
    VisitView,
>
    decreases syms,
{
    if syms.len() == 0 {
        Seq::empty()
    } else {
        proof {
            assert(decreases_to!(syms => syms[0]));
            lemma_children_within(syms[0]);
            assert(decreases_to!(syms => syms.drop_first()));
        }
        let here = match symbol_id_view(file, syms[0]) {
            Some(id) => seq![visit_of(syms[0], id, parent)] + if symbol_children(syms[0]).len()
                > 0 {
                visits(file, symbol_children(syms[0]), Some(id))
            } else {
                Seq::empty()
            },
            None => Seq::empty(),
        };
        here + visits(file, syms.drop_first(), parent)
    }
}

/// Every symbol of a list that says where it starts is visited with the
/// given parent, and everything visited among its children, whatever
/// its kind, is visited too.
pub proof fn lemma_visits_cover(file: Seq<char>, syms: Seq<JsonView>, parent: Option<Seq<char>>)
    ensures
        forall|i: int|
            0 <= i < syms.len() && (#[trigger] symbol_id_view(file, syms[i])) is Some ==> {
                let id = symbol_id_view(file, syms[i]).unwrap();
                &&& visits(file, syms, parent).contains(visit_of(syms[i], id, parent))
                &&& forall|x: VisitView|
                    #[trigger] visits(file, symbol_children(syms[i]), Some(id)).contains(x)
                        ==> visits(file, syms, parent).contains(x)
            },
    decreases syms.len(),
{
    if syms.len() > 0 {
        let rest = syms.drop_first();
        lemma_visits_cover(file, rest, parent);
        let whole = visits(file, syms, parent);
        let tail = visits(file, rest, parent);
        assert forall|i: int|
            0 <= i < syms.len() && (#[trigger] symbol_id_view(file, syms[i])) is Some implies {
                let id = symbol_id_view(file, syms[i]).unwrap();
                &&& whole.contains(visit_of(syms[i], id, parent))
                &&& forall|x: VisitView|
                    #[trigger] visits(file, symbol_children(syms[i]), Some(id)).contains(x)
                        ==> whole.contains(x)
            } by {
            let id = symbol_id_view(file, syms[i]).unwrap();
            if i == 0 {
                let ch = visits(file, symbol_children(syms[0]), Some(id));
                let here = seq![visit_of(syms[0], id, parent)] + if symbol_children(syms[0]).len()
                    > 0 {
                    ch
                } else {
                    Seq::empty()
                };
                assert(whole == here + tail);
                assert(whole[0] == visit_of(syms[0], id, parent));
                if symbol_children(syms[0]).len() == 0 {
                    assert(ch =~= Seq::<VisitView>::empty());
                }
                assert forall|x: VisitView| #[trigger] ch.contains(x) implies whole.contains(x) by {
                    let k = choose|k: int| 0 <= k < ch.len() && ch[k] == x;
                    assert(whole[k + 1] == x);
                }
            } else {
                assert(rest[i - 1] == syms[i]);
                let here_len = whole.len() - tail.len();
                assert(whole =~= whole.subrange(0, here_len) + tail);
                assert forall|x: VisitView| #[trigger] tail.contains(x) implies whole.contains(x) by {
                    let k = choose|k: int| 0 <= k < tail.len() && tail[k] == x;
                    assert(whole[here_len + k] == x);
                }
                assert(tail.contains(visit_of(rest[i - 1], id, parent)));
                assert forall|x: VisitView|
                    #[trigger] visits(file, symbol_children(syms[i]), Some(id)).contains(x)
                        implies whole.contains(x) by {
                    assert(visits(file, symbol_children(rest[i - 1]), Some(id)).contains(x));
                    assert(tail.contains(x));
                }
            }
        }
    }
}

/// The children of a visited symbol are visited with that symbol as their
/// parent, whatever the symbol's kind: where the `i`-th symbol has id `id`
/// and its `j`-th child has id `cid`, that child's visit, with parent `id`,
/// is among the visits of the list.
pub proof fn lemma_children_visited(
    file: Seq<char>,
    syms: Seq<JsonView>,
    parent: Option<Seq<char>>,
    i: int,
    j: int,
)
    requires
        0 <= i < syms.len(),
        symbol_id_view(file, syms[i]) is Some,
        0 <= j < symbol_children(syms[i]).len(),
        symbol_id_view(file, symbol_children(syms[i])[j]) is Some,
    ensures
        visits(file, syms, parent).contains(
            visit_of(
                symbol_children(syms[i])[j],
                symbol_id_view(file, symbol_children(syms[i])[j]).unwrap(),
                symbol_id_view(file, syms[i]),
            ),
        ),
{
    let id = symbol_id_view(file, syms[i]).unwrap();
    let ch = symbol_children(syms[i]);
    lemma_visits_cover(file, syms, parent);
    lemma_visits_cover(file, ch, Some(id));
    assert(symbol_id_view(file, ch[j]) is Some);
    let v = visit_of(ch[j], symbol_id_view(file, ch[j]).unwrap(), Some(id));
    assert(visits(file, ch, Some(id)).contains(v));
    assert(symbol_id_view(file, syms[i]) is Some);
}

/// The views of a sequence of visits.
pub open spec fn visits_view(v: Seq<SymbolVisit>) -> Seq<VisitView> {
    Seq::new(v.len(), |i: int| v[i]@)
}

proof fn lemma_visits_step(file: Seq<char>, syms: Seq<JsonView>, parent: Option<Seq<char>>, i: int)
    requires
        0 <= i < syms.len(),
    ensures
        visits(file, syms.skip(i), parent) == visits(file, seq![syms[i]], parent) + visits(
            file,
            syms.skip(i + 1),
            parent,
        ),
{
    let t = syms.skip(i);
    assert(t[0] == syms[i]);
    assert(t.drop_first() =~= syms.skip(i + 1));
    let one = seq![syms[i]];
    assert(one.drop_first() =~= Seq::<JsonView>::empty());
    assert(visits(file, Seq::<JsonView>::empty(), parent) =~= Seq::<VisitView>::empty());
    assert(one[0] == syms[i]);
}

fn name_of(s: &Json) -> (r: Vec<char>)
    ensures
        r@ == symbol_name(s@),
{
    match s.get("name") {
        Some(n) => match n.as_str() {
            Some(t) => chars_of(t),
            None => {
                let mut q: Vec<char> = Vec::new();
                q.push('?');
                proof {
                    assert(q@ =~= seq!['?']);
                }
                q
            },
        },
        None => {
            let mut q: Vec<char> = Vec::new();
            q.push('?');
            proof {
                assert(q@ =~= seq!['?']);
            }
            q
        },
    }
}

fn kind_of(s: &Json) -> (r: u64)
    ensures
        r == symbol_kind(s@),
{
    match s.get("kind") {
        Some(k) => match k.as_u64() {
            Some(v) => v,
            None => 0,
        },
        None => 0,
    }
}

/// Appends to `out` the visits of the symbols `syms` of `file`, depth
/// first, each top symbol with `parent` as its parent.
pub fn collect_visits(
    file: &str,
    syms: &Vec<Json>,
    parent: Option<&str>,
    out: &mut Vec<SymbolVisit>,
)
    ensures
        visits_view(final(out)@) == visits_view(old(out)@) + visits(
            file@,
            crate::json::items_view(syms@),
            match parent {
                Some(p) => Some(p@),
                None => None,
            },
        ),
    decreases crate::json::items_view(syms@),
{
    let ghost sv = crate::json::items_view(syms@);
    let ghost pv = match parent {
        Some(p) => Some(p@),
        None => None::<Seq<char>>,
    };
    let ghost start = visits_view(out@);
    proof {
        crate::json::lemma_items_view(syms@);
        assert(sv.skip(0) =~= sv);
    }
    let mut i: usize = 0;
    while i < syms.len()
        invariant
            i <= syms@.len(),
            sv == crate::json::items_view(syms@),
            sv.len() == syms@.len(),
            forall|k: int| 0 <= k < syms@.len() ==> #[trigger] sv[k] == syms@[k]@,
            pv == match parent {
                Some(p) => Some(p@),
                None => None::<Seq<char>>,
            },
            start + visits(file@, sv, pv) == visits_view(out@) + visits(file@, sv.skip(i as int), pv),
        decreases syms@.len() - i,
    {
        proof {
            lemma_visits_step(file@, sv, pv, i as int);
        }
        let s = &syms[i];
        let ghost one = seq![sv[i as int]];
        let ghost before = visits_view(out@);
        proof {
            assert(one.drop_first() =~= Seq::<JsonView>::empty());
            assert(one[0] == s@);
        }
        match symbol_id(file, s) {
            Some(id) => {
                let name = name_of(s);
                let kind = kind_of(s);
                let idc = chars_of(id.as_str());
                let line = part_u32_exec(idc.as_slice(), 1);
                let col = part_u32_exec(idc.as_slice(), 2);
                let mut impl_word: Vec<char> = Vec::new();
                impl_word.push('i');
                impl_word.push('m');
                impl_word.push('p');
                impl_word.push('l');
                proof {
                    reveal_strlit("impl");
                    assert(impl_word@ =~= "impl"@);
                }
                let wants = kind == 26 || starts_with_chars(name.as_slice(), impl_word.as_slice());
                let p = match parent {
                    Some(p) => Some(p.to_owned()),
                    None => None,
                };
                let v = SymbolVisit {
                    id: id.clone(),
                    name: string_from_chars(name.as_slice()),
                    kind,
                    line,
                    col,
                    parent: p,
                    wants_definition: wants,
                };
                proof {
                    assert(v@ == visit_of(s@, id@, pv));
                }
                out.push(v);
                proof {
                    assert(visits_view(out@) =~= before.push(visit_of(s@, id@, pv)));
                }
                let children = match s.get("children") {
                    Some(c) => c.as_array(),
                    None => None,
                };
                match children {
                    Some(ch) => {
                        if ch.len() > 0 {
                            proof {
                                crate::json::lemma_items_view(ch@);
                                assert(crate::json::items_view(ch@) == crate::explorer::symbol_children(
                                    s@,
                                ));
                                lemma_children_within(s@);
                                assert(decreases_to!(sv => sv[i as int]));
                            }
                            let ghost mid = visits_view(out@);
                            collect_visits(file, ch, Some(id.as_str()), out);
                            proof {
                                assert(visits_view(out@) =~= mid + visits(
                                    file@,
                                    symbol_children(s@),
                                    Some(id@),
                                ));
                            }
                        }
                    },
                    None => {},
                }
                proof {
                    assert(visits(file@, one, pv) =~= (seq![visit_of(s@, id@, pv)] + if symbol_children(
                        s@,
                    ).len() > 0 {
                        visits(file@, symbol_children(s@), Some(id@))
                    } else {
                        Seq::empty()
                    }) + visits(file@, Seq::<JsonView>::empty(), pv));
                    assert(visits_view(out@) =~= before + visits(file@, one, pv));
                }
            },
            None => {
                proof {
                    assert(visits(file@, Seq::<JsonView>::empty(), pv) =~= Seq::<VisitView>::empty());
                    assert(visits(file@, one, pv) =~= Seq::<VisitView>::empty() + visits(
                        file@,
                        one.drop_first(),
                        pv,
                    ));
                    assert(visits(file@, one, pv) =~= Seq::<VisitView>::empty());
                    assert(visits_view(out@) =~= before + visits(file@, one, pv));
                }
            },
        }
        i = i + 1;
    }
    proof {
        assert(sv.skip(sv.len() as int) =~= Seq::<JsonView>::empty());
        assert(visits(file@, Seq::<JsonView>::empty(), pv) =~= Seq::<VisitView>::empty());
        assert(visits_view(out@) =~= start + visits(file@, sv, pv));
    }
}

// ---------------------------------------------------------------------
// Putting visits into the graph
// ---------------------------------------------------------------------

/// `res["result"]`, the first item where it is an array, else
/// `res.get("result")`.
pub open spec fn definition_location(res: JsonView) -> Option<JsonView> {
    let r = json_field(res, "result"@);
    if json_array(r).is_some() {
        crate::json::json_item(r, 0)
    } else {
        json_get(res, "result"@)
    }
}

/// The id of the place a definition answer points to:
/// `path:line:character`, the path being the location's URI without its
/// leading `file://`.
pub open spec fn definition_target_view(res: JsonView) -> Option<Seq<char>> {
    match definition_location(res) {
        Some(loc) => match json_str(json_field(loc, "uri"@)) {
            Some(uri) => Some(
                location_id(
                    strip_prefixes(uri, "file://"@),
                    json_field(json_field(loc, "range"@), "start"@),
                ),
            ),
            None => None,
        },
        None => None,
    }
}


/// The id of the place a `textDocument/definition` answer points to.
pub fn definition_target(res: &Json) -> (r: Option<String>)
    ensures
        match r {
            Some(t) => definition_target_view(res@) == Some(t@),
            None => definition_target_view(res@).is_none(),
        },
{
    let r = res.field("result");
    let loc: Option<Json> = if r.is_array() {
        match r.item(0) {
            Some(x) => Some(x.deep_clone()),
            None => None,
        }
    } else {
        match res.get("result") {
            Some(x) => Some(x.deep_clone()),
            None => None,
        }
    };
    match loc {
        Some(l) => match l.get("uri") {
            Some(u) => match u.as_str() {
                Some(uri) => {
                    let uc = chars_of(uri);
                    let prefix = chars_of("file://");
                    let path = strip_prefixes_chars(uc.as_slice(), prefix.as_slice());
                    let range = l.field("range");
                    let start = range.field("start");
                    let paths = string_from_chars(path.as_slice());
                    let id = location_id_exec(paths.as_str(), &start);
                    Some(string_from_chars(id.as_slice()))
                },
                None => None,
            },
            None => None,
        },
        None => None,
    }
}

/// The node a visit puts into the graph.
pub open spec fn node_of_visit(file: Seq<char>, v: VisitView) -> NodeView {
    NodeView { id: v.id, name: v.name, file, line: v.line, col: v.col, kind: decimal(v.kind as nat) }
}

/// The links a visit adds: from its parent, then, for an `impl` block whose
/// definition answer points somewhere, from that place.
pub open spec fn visit_links(v: VisitView, definition: Option<JsonView>) -> Seq<(Seq<char>, Seq<char>)> {
    let from_parent = match v.parent {
        Some(p) => seq![(p, v.id)],
        None => Seq::empty(),
    };
    let from_definition = if v.wants_definition {
        match definition {
            Some(d) => match definition_target_view(d) {
                Some(t) => seq![(t, v.id)],
                None => Seq::empty(),
            },
            None => Seq::empty(),
        }
    } else {
        Seq::empty()
    };
    from_parent + from_definition
}

impl Graph {
    /// Puts a visited symbol of `file` into the graph: its node (in place of
    /// one with the same id), the link from its parent, and for an `impl`
    /// block the link from the place its definition answer points to.
    pub fn record_visit(&mut self, file: &str, v: &SymbolVisit, definition: Option<&Json>)
        ensures
            final(self).node_list() == nodes_after_insert(
                old(self).node_list(),
                node_of_visit(file@, v@),
            ),
            final(self).link_list() == old(self).link_list() + visit_links(
                v@,
                match definition {
                    Some(d) => Some(d@),
                    None => None,
                },
            ),
    {
        let node = Node {
            id: v.id.clone(),
            name: v.name.clone(),
            file: file.to_owned(),
            line: v.line,
            col: v.col,
            kind: decimal_string(v.kind),
        };
        self.insert_node(node);
        let ghost l0 = self.link_list();
        match &v.parent {
            Some(p) => {
                self.add_link(p.clone(), v.id.clone());
            },
            None => {},
        }
        let ghost l1 = self.link_list();
        if v.wants_definition {
            match definition {
                Some(d) => match definition_target(d) {
                    Some(t) => {
                        self.add_link(t, v.id.clone());
                    },
                    None => {},
                },
                None => {},
            }
        }
        proof {
            let dv = match definition {
                Some(d) => Some(d@),
                None => None,
            };
            assert(self.link_list() =~= old(self).link_list() + visit_links(v@, dv));
        }
    }
}

// ---------------------------------------------------------------------
// Calls between project functions
// ---------------------------------------------------------------------

/// The target of an outgoing call: `call["to"]`.
pub open spec fn call_to(call: JsonView) -> JsonView {
    json_field(call, "to"@)
}

/// The URI of a call's target, empty where it has none.
pub open spec fn call_uri(call: JsonView) -> Seq<char> {
    match json_str(json_field(call_to(call), "uri"@)) {
        Some(u) => u,
        None => Seq::empty(),
    }
}

/// Whether a call's target is inside the project (its URI holds `/src/`).
pub open spec fn call_in_project(call: JsonView) -> bool {
    contains_text(call_uri(call), "/src/"@)
}

/// The range of a call's target: `selectionRange`, or else `range`.
pub open spec fn call_range(call: JsonView) -> Option<JsonView> {
    match json_get(call_to(call), "selectionRange"@) {
        Some(r) => Some(r),
        None => json_get(call_to(call), "range"@),
    }
}

/// A number of a range's start, truncated to 32 bits, 0 where missing.
pub open spec fn start_u32(range: JsonView, key: Seq<char>) -> u32 {
    match json_u64(json_field(json_field(range, "start"@), key)) {
        Some(x) => x as u32,
        None => 0,
    }
}

/// The id of a call's target: `path:line:character`.
pub open spec fn call_target_id(call: JsonView, range: JsonView) -> Seq<char> {
    strip_prefixes(call_uri(call), "file://"@) + seq![':'] + decimal(
        start_u32(range, "line"@) as nat,
    ) + seq![':'] + decimal(start_u32(range, "character"@) as nat)
}

/// The calls of an answer: its `result` where that is an array.
pub open spec fn answer_calls(answer: JsonView) -> Seq<JsonView> {
    match json_get(answer, "result"@) {
        Some(r) => match json_array(r) {
            Some(items) => items,
            None => Seq::empty(),
        },
        None => Seq::empty(),
    }
}

/// Every call into the project says where its target is.
pub open spec fn calls_have_ranges(answer: JsonView) -> bool {
    forall|i: int|
        0 <= i < answer_calls(answer).len() && call_in_project(#[trigger] answer_calls(answer)[i])
            ==> call_range(answer_calls(answer)[i]).is_some()
}

/// The links from `from` to the targets of the calls inside the project.
pub open spec fn call_links(from: Seq<char>, calls: Seq<JsonView>) -> Seq<(Seq<char>, Seq<char>)>
    decreases calls.len(),
{
    if calls.len() == 0 {
        Seq::empty()
    } else {
        let c = calls.last();
        call_links(from, calls.drop_last()) + if call_in_project(c) && call_range(c).is_some() {
            seq![(from, call_target_id(c, call_range(c).unwrap()))]
        } else {
            Seq::empty()
        }
    }
}

/// Each call of an answer whose target lies inside the project and says
/// where it is adds exactly one link, from the caller to
/// `path:line:character` of the target, whatever files the caller and the
/// target are in; any other call adds nothing. So the links of an answer
/// are one per such call, in the answer's order.
pub proof fn lemma_call_links_step(from: Seq<char>, calls: Seq<JsonView>, c: JsonView)
    ensures
        call_in_project(c) && call_range(c) is Some ==> call_links(from, calls.push(c))
            == call_links(from, calls).push((from, call_target_id(c, call_range(c).unwrap()))),
        !(call_in_project(c) && call_range(c) is Some) ==> call_links(from, calls.push(c))
            == call_links(from, calls),
{
    assert(calls.push(c).drop_last() =~= calls);
    assert(calls.push(c).last() == c);
}

/// Every link made from an answer starts at the caller and ends at the
/// target of an in-project call of the answer, and there is one link for
/// each such call.
pub proof fn lemma_call_links_count(from: Seq<char>, calls: Seq<JsonView>)
    ensures
        call_links(from, calls).len() == calls.filter(
            |c: JsonView| call_in_project(c) && call_range(c) is Some,
        ).len(),
        forall|k: int|
            0 <= k < call_links(from, calls).len() ==> (#[trigger] call_links(from, calls)[k]).0
                == from,
    decreases calls.len(),
{
    reveal(Seq::filter);
    if calls.len() > 0 {
        let rest = calls.drop_last();
        lemma_call_links_count(from, rest);
        lemma_call_links_step(from, rest, calls.last());
        assert(rest.push(calls.last()) =~= calls);
    }
}

fn call_uri_exec(call: &Json) -> (r: Vec<char>)
    ensures
        r@ == call_uri(call@),
{
    let to = call.field("to");
    match to.get("uri") {
        Some(u) => match u.as_str() {
            Some(s) => chars_of(s),
            None => Vec::new(),
        },
        None => Vec::new(),
    }
}

fn call_range_exec(call: &Json) -> (r: Option<Json>)
    ensures
        match r {
            Some(x) => call_range(call@) == Some(x@),
            None => call_range(call@).is_none(),
        },
{
    let to = call.field("to");
    match to.get("selectionRange") {
        Some(r) => Some(r.deep_clone()),
        None => match to.get("range") {
            Some(r) => Some(r.deep_clone()),
            None => None,
        },
    }
}

fn start_u32_exec(range: &Json, key: &str) -> (r: u32)
    ensures
        r == start_u32(range@, key@),
{
    let start = range.field("start");
    match start.get(key) {
        Some(x) => match x.as_u64() {
            Some(v) => v as u32,
            None => 0,
        },
        None => 0,
    }
}

fn calls_of<'a>(answer: &'a Json) -> (r: Option<&'a Vec<Json>>)
    ensures
        match r {
            Some(v) => crate::json::items_view(v@) == answer_calls(answer@),
            None => answer_calls(answer@) == Seq::<JsonView>::empty(),
        },
{
    match answer.get("result") {
        Some(r) => r.as_array(),
        None => None,
    }
}

/// Whether every call into the project in an answer says where its target
/// is (where one does not, the graph cannot be built).
pub fn calls_have_ranges_exec(answer: &Json) -> (b: bool)
    ensures
        b == calls_have_ranges(answer@),
{
    let prefix = chars_of("/src/");
    match calls_of(answer) {
        None => true,
        Some(calls) => {
            let ghost cv = crate::json::items_view(calls@);
            proof {
                crate::json::lemma_items_view(calls@);
            }
            let mut i: usize = 0;
            while i < calls.len()
                invariant
                    i <= calls@.len(),
                    cv == answer_calls(answer@),
                    cv.len() == calls@.len(),
                    forall|k: int| 0 <= k < calls@.len() ==> #[trigger] cv[k] == calls@[k]@,
                    prefix@ == "/src/"@,
                    forall|k: int|
                        0 <= k < i && call_in_project(#[trigger] cv[k]) ==> call_range(cv[k]).is_some(),
                decreases calls@.len() - i,
            {
                let uri = call_uri_exec(&calls[i]);
                if contains_chars(uri.as_slice(), prefix.as_slice()) {
                    if call_range_exec(&calls[i]).is_none() {
                        proof {
                            assert(call_in_project(cv[i as int]));
                        }
                        return false;
                    }
                }
                i = i + 1;
            }
            true
        },
    }
}

impl Graph {
    /// Adds the links from the node `from` to the targets inside the project
    /// of the calls in an outgoing-calls answer, in the answer's order.
    pub fn record_calls(&mut self, from: &str, answer: &Json)
        requires
            calls_have_ranges(answer@),
        ensures
            final(self).node_list() == old(self).node_list(),
            final(self).link_list() == old(self).link_list() + call_links(
                from@,
                answer_calls(answer@),
            ),
    {
        let prefix = chars_of("/src/");
        let scheme = chars_of("file://");
        match calls_of(answer) {
            None => {
                proof {
                    assert(call_links(from@, Seq::<JsonView>::empty()) =~= Seq::<
                        (Seq<char>, Seq<char>),
                    >::empty());
                    assert(self.link_list() =~= old(self).link_list() + call_links(
                        from@,
                        answer_calls(answer@),
                    ));
                }
            },
            Some(calls) => {
                let ghost cv = crate::json::items_view(calls@);
                proof {
                    crate::json::lemma_items_view(calls@);
                    assert(cv.take(0) =~= Seq::<JsonView>::empty());
                    assert(self.link_list() =~= old(self).link_list() + call_links(from@, cv.take(0)));
                }
                let mut i: usize = 0;
                while i < calls.len()
                    invariant
                        i <= calls@.len(),
                        cv == answer_calls(answer@),
                        cv.len() == calls@.len(),
                        forall|k: int| 0 <= k < calls@.len() ==> #[trigger] cv[k] == calls@[k]@,
                        calls_have_ranges(answer@),
                        prefix@ == "/src/"@,
                        scheme@ == "file://"@,
                        self.node_list() == old(self).node_list(),
                        self.link_list() == old(self).link_list() + call_links(
                            from@,
                            cv.take(i as int),
                        ),
                    decreases calls@.len() - i,
                {
                    proof {
                        assert(cv.take(i + 1).drop_last() =~= cv.take(i as int));
                        assert(cv.take(i + 1).last() == cv[i as int]);
                    }
                    let ghost before = self.link_list();
                    let uri = call_uri_exec(&calls[i]);
                    if contains_chars(uri.as_slice(), prefix.as_slice()) {
                        let range = call_range_exec(&calls[i]);
                        match range {
                            Some(r) => {
                                let line = start_u32_exec(&r, "line");
                                let col = start_u32_exec(&r, "character");
                                let mut t = strip_prefixes_chars(uri.as_slice(), scheme.as_slice());
                                t.push(':');
                                push_decimal(&mut t, line as u64);
                                t.push(':');
                                push_decimal(&mut t, col as u64);
                                let target = string_from_chars(t.as_slice());
                                proof {
                                    let c = cv[i as int];
                                    assert(call_in_project(c));
                                    assert(call_range(c) == Some(r@));
                                    assert(target@ =~= call_target_id(c, r@));
                                    assert(call_links(from@, cv.take(i + 1)) =~= call_links(
                                        from@,
                                        cv.take(i as int),
                                    ).push((from@, target@)));
                                }
                                self.add_link(from.to_owned(), target);
                                proof {
                                    assert(self.link_list() =~= old(self).link_list() + call_links(
                                        from@,
                                        cv.take(i + 1),
                                    ));
                                }
                            },
                            None => {
                                proof {
                                    assert(call_in_project(cv[i as int]));
                                }
                            },
                        }
                    } else {
                        proof {
                            assert(self.link_list() =~= old(self).link_list() + call_links(
                                from@,
                                cv.take(i + 1),
                            ));
                        }
                    }
                    i = i + 1;
                }
                proof {
                    assert(cv.take(cv.len() as int) =~= cv);
                }
            },
        }
    }
}

// ---------------------------------------------------------------------
// Source files
// ---------------------------------------------------------------------

/// Whether a file name has the extension `rs` (`Path::extension` is `rs`:
/// the name ends with `.rs` and something comes before that dot).
pub open spec fn is_rust_file_name(name: Seq<char>) -> bool {
    name.len() > 3 && name.subrange(name.len() - 3, name.len() as int) == seq!['.', 'r', 's']
}

/// Whether a file name has the extension `rs`.
pub fn is_rust_file(name: &str) -> (b: bool)
    ensures
        b == is_rust_file_name(name@),
{
    let cs = chars_of(name);
    let n = cs.len();
    if n <= 3 {
        return false;
    }
    let r = cs[n - 3] == '.' && cs[n - 2] == 'r' && cs[n - 1] == 's';
    proof {
        if r {
            assert(cs@.subrange(n - 3, n as int) =~= seq!['.', 'r', 's']);
        } else {
            let t = cs@.subrange(n - 3, n as int);
            if t == seq!['.', 'r', 's'] {
                assert(t[0] == cs@[n - 3]);
                assert(t[1] == cs@[n - 2]);
                assert(t[2] == cs@[n - 1]);
            }
        }
    }
    r
}

} // verus!
