//! A line-based text form for the violation ledger, with a serializer, a
//! parser, and the proof that parsing a serialized ledger gives it back.
//!
//! The form mirrors the on-disk ledger file: a pack line `name:`, then per
//! constant a quoted key line, a `violations:` section and a `files:` section,
//! each section listing its entries as `- item` lines.
use vstd::prelude::*;

use crate::package_todo::{PackageTodo, ViolationGroup, ViolationGroupV};
use crate::util::str_cmp;

verus! {

pub open spec fn violations_header() -> Seq<char> {
    seq![' ', ' ', ' ', ' ', 'v', 'i', 'o', 'l', 'a', 't', 'i', 'o', 'n', 's', ':']
}

pub open spec fn files_header() -> Seq<char> {
    seq![' ', ' ', ' ', ' ', 'f', 'i', 'l', 'e', 's', ':']
}

pub open spec fn item_prefix() -> Seq<char> {
    seq![' ', ' ', ' ', ' ', '-', ' ']
}

pub open spec fn const_prefix() -> Seq<char> {
    seq![' ', ' ', '"']
}

pub open spec fn is_item_line(l: Seq<char>) -> bool {
    l.len() >= 6 && l.take(6) == item_prefix()
}

pub open spec fn is_const_line(l: Seq<char>) -> bool {
    l.len() >= 5 && l.take(3) == const_prefix() && l.skip(l.len() - 2) == seq!['"', ':']
}

pub open spec fn is_pack_line(l: Seq<char>) -> bool {
    l.len() >= 1 && l.last() == ':' && l.first() != ' '
}

/// The serialized lines of one section's items.
pub open spec fn emit_items(items: Seq<Seq<char>>) -> Seq<Seq<char>>
    decreases items.len(),
{
    if items.len() == 0 {
        Seq::empty()
    } else {
        seq![item_prefix() + items.first()] + emit_items(items.drop_first())
    }
}

/// The serialized lines of one constant's entry.
pub open spec fn emit_group(c: Seq<char>, g: ViolationGroupV) -> Seq<Seq<char>> {
    seq![const_prefix() + c + seq!['"', ':']] + seq![violations_header()] + emit_items(
        g.violation_types,
    ) + seq![files_header()] + emit_items(g.files)
}

/// The serialized lines of a pack's constants, in order.
pub open spec fn emit_groups(cs: Seq<(Seq<char>, ViolationGroupV)>) -> Seq<Seq<char>>
    decreases cs.len(),
{
    if cs.len() == 0 {
        Seq::empty()
    } else {
        emit_group(cs.first().0, cs.first().1) + emit_groups(cs.drop_first())
    }
}

/// The serialized lines of a whole ledger.
pub open spec fn emit_packs(es: Seq<(Seq<char>, Seq<(Seq<char>, ViolationGroupV)>)>) -> Seq<
    Seq<char>,
>
    decreases es.len(),
{
    if es.len() == 0 {
        Seq::empty()
    } else {
        seq![es.first().0 + seq![':']] + emit_groups(es.first().1) + emit_packs(es.drop_first())
    }
}

/// Where the parser stands between two lines.
pub ghost enum PMode {
    /// Nothing read yet.
    Start,
    /// A pack is open; no constant is open.
    AfterPack,
    /// A constant key line was read; its `violations:` header is expected.
    AfterConst,
    /// Reading the open constant's violation types.
    InViolations,
    /// Reading the open constant's files.
    InFiles,
}

/// The parser's state: finished pack entries, the open pack, the open
/// constant with its two item lists so far.
pub ghost struct PState {
    pub done: Seq<(Seq<char>, Seq<(Seq<char>, ViolationGroupV)>)>,
    pub pack_name: Seq<char>,
    pub consts: Seq<(Seq<char>, ViolationGroupV)>,
    pub const_name: Seq<char>,
    pub types: Seq<Seq<char>>,
    pub files: Seq<Seq<char>>,
    pub mode: PMode,
}

/// The open constant, closed into a finished entry.
pub open spec fn close_const(s: PState) -> Seq<(Seq<char>, ViolationGroupV)> {
    s.consts.push((s.const_name, ViolationGroupV { violation_types: s.types, files: s.files }))
}

/// The open pack's constants, the open constant included when one is open.
pub open spec fn pack_consts_of(s: PState) -> Seq<(Seq<char>, ViolationGroupV)> {
    if s.mode is InFiles {
        close_const(s)
    } else {
        s.consts
    }
}

/// A state with a fresh pack opened from the pack line `l`.
pub open spec fn open_pack(
    done: Seq<(Seq<char>, Seq<(Seq<char>, ViolationGroupV)>)>,
    l: Seq<char>,
) -> PState {
    PState {
        done,
        pack_name: l.drop_last(),
        consts: Seq::empty(),
        const_name: Seq::empty(),
        types: Seq::empty(),
        files: Seq::empty(),
        mode: PMode::AfterPack,
    }
}

/// The parser's transition on one line; `None` is a parse failure.
pub open spec fn step(s: PState, l: Seq<char>) -> Option<PState> {
    match s.mode {
        PMode::Start => if is_pack_line(l) {
            Some(open_pack(s.done, l))
        } else {
            Option::<PState>::None
        },
        PMode::AfterPack => if is_const_line(l) {
            Some(
                PState {
                    const_name: l.subrange(3, l.len() - 2),
                    types: Seq::empty(),
                    files: Seq::empty(),
                    mode: PMode::AfterConst,
                    ..s
                },
            )
        } else if is_pack_line(l) {
            Some(open_pack(s.done.push((s.pack_name, s.consts)), l))
        } else {
            Option::<PState>::None
        },
        PMode::AfterConst => if l == violations_header() {
            Some(PState { mode: PMode::InViolations, ..s })
        } else {
            Option::<PState>::None
        },
        PMode::InViolations => if l == files_header() {
            Some(PState { mode: PMode::InFiles, ..s })
        } else if is_item_line(l) {
            Some(PState { types: s.types.push(l.skip(6)), ..s })
        } else {
            Option::<PState>::None
        },
        PMode::InFiles => if is_const_line(l) {
            Some(
                PState {
                    consts: close_const(s),
                    const_name: l.subrange(3, l.len() - 2),
                    types: Seq::empty(),
                    files: Seq::empty(),
                    mode: PMode::AfterConst,
                    ..s
                },
            )
        } else if is_pack_line(l) {
            Some(open_pack(s.done.push((s.pack_name, close_const(s))), l))
        } else if is_item_line(l) {
            Some(PState { files: s.files.push(l.skip(6)), ..s })
        } else {
            Option::<PState>::None
        },
    }
}

/// Runs the parser over a list of lines.
pub open spec fn run(s: PState, lines: Seq<Seq<char>>) -> Option<PState>
    decreases lines.len(),
{
    if lines.len() == 0 {
        Some(s)
    } else {
        match step(s, lines.first()) {
            Option::<PState>::None => Option::<PState>::None,
            Some(s2) => run(s2, lines.drop_first()),
        }
    }
}

/// The parser's starting state.
pub open spec fn init_state() -> PState {
    PState {
        done: Seq::empty(),
        pack_name: Seq::empty(),
        consts: Seq::empty(),
        const_name: Seq::empty(),
        types: Seq::empty(),
        files: Seq::empty(),
        mode: PMode::Start,
    }
}

/// Whether the parser may stop in this state, and what it has then read.
pub open spec fn finish(s: PState) -> Option<
    Seq<(Seq<char>, Seq<(Seq<char>, ViolationGroupV)>)>,
> {
    match s.mode {
        PMode::Start => Some(s.done),
        PMode::AfterPack => Some(s.done.push((s.pack_name, s.consts))),
        PMode::InFiles => Some(s.done.push((s.pack_name, close_const(s)))),
        _ => Option::<Seq<(Seq<char>, Seq<(Seq<char>, ViolationGroupV)>)>>::None,
    }
}

/// What parsing a list of lines yields.
pub open spec fn parse_lines_spec(lines: Seq<Seq<char>>) -> Option<
    Seq<(Seq<char>, Seq<(Seq<char>, ViolationGroupV)>)>,
> {
    match run(init_state(), lines) {
        Some(s) => finish(s),
        Option::<PState>::None => Option::<
            Seq<(Seq<char>, Seq<(Seq<char>, ViolationGroupV)>)>,
        >::None,
    }
}

/// A ledger the text form can carry: each pack name is nonempty and does not
/// start with a space, so its line is told apart from the indented ones.
pub open spec fn wf_ledger(es: Seq<(Seq<char>, Seq<(Seq<char>, ViolationGroupV)>)>) -> bool {
    forall|i: int|
        0 <= i < es.len() ==> ((#[trigger] es[i]).0.len() > 0 && es[i].0.first() != ' ')
}

/// Everything a mid-parse state stands for, once closed out.
pub open spec fn represent(s: PState) -> Seq<(Seq<char>, Seq<(Seq<char>, ViolationGroupV)>)> {
    if s.mode is Start {
        s.done
    } else {
        s.done.push((s.pack_name, pack_consts_of(s)))
    }
}

/// Running over concatenated lines is running over each part in turn.
pub proof fn lemma_run_concat(s: PState, a: Seq<Seq<char>>, b: Seq<Seq<char>>)
    ensures
        run(s, a + b) == (match run(s, a) {
            Some(s2) => run(s2, b),
            Option::<PState>::None => Option::<PState>::None,
        }),
    decreases a.len(),
{
    if a.len() == 0 {
        assert(a + b =~= b);
    } else {
        assert((a + b).first() == a.first());
        assert((a + b).drop_first() =~= a.drop_first() + b);
        match step(s, a.first()) {
            Option::<PState>::None => {},
            Some(s2) => {
                lemma_run_concat(s2, a.drop_first(), b);
            },
        }
    }
}

/// An emitted item line is an item line and nothing else.
proof fn lemma_item_line_class(x: Seq<char>)
    ensures
        is_item_line(item_prefix() + x),
        !is_const_line(item_prefix() + x),
        !is_pack_line(item_prefix() + x),
        item_prefix() + x != violations_header(),
        item_prefix() + x != files_header(),
        (item_prefix() + x).skip(6) == x,
{
    let l = item_prefix() + x;
    assert(l.take(6) =~= item_prefix());
    assert(l.skip(6) =~= x);
    assert(l[0] == ' ');
    if is_const_line(l) {
        assert(l.take(3)[2] == l[2]);
        assert(const_prefix()[2] == '"');
    }
    if l == violations_header() {
        assert(l[4] == violations_header()[4]);
    }
    if l == files_header() {
        assert(l[4] == files_header()[4]);
    }
}

/// An emitted constant key line is a constant line and nothing else, and
/// carries its name.
proof fn lemma_const_line_class(c: Seq<char>)
    ensures
        is_const_line(const_prefix() + c + seq!['"', ':']),
        !is_item_line(const_prefix() + c + seq!['"', ':']),
        !is_pack_line(const_prefix() + c + seq!['"', ':']),
        (const_prefix() + c + seq!['"', ':']) != violations_header(),
        (const_prefix() + c + seq!['"', ':']) != files_header(),
        (const_prefix() + c + seq!['"', ':']).subrange(
            3,
            (const_prefix() + c + seq!['"', ':']).len() - 2,
        ) == c,
{
    let l = const_prefix() + c + seq!['"', ':'];
    assert(l.len() == c.len() + 5);
    assert(l.take(3) =~= const_prefix());
    assert(l.skip(l.len() - 2) =~= seq!['"', ':']);
    assert(l.subrange(3, l.len() - 2) =~= c);
    assert(l[0] == ' ');
    if is_item_line(l) {
        assert(l.take(6)[2] == l[2]);
        assert(item_prefix()[2] == ' ');
        assert(l[2] == '"');
    }
    if l == violations_header() {
        assert(l[2] == violations_header()[2]);
    }
    if l == files_header() {
        assert(l[2] == files_header()[2]);
    }
}

/// An emitted pack line is a pack line and nothing else, and carries its name.
proof fn lemma_pack_line_class(name: Seq<char>)
    requires
        name.len() > 0,
        name.first() != ' ',
    ensures
        is_pack_line(name + seq![':']),
        !is_item_line(name + seq![':']),
        !is_const_line(name + seq![':']),
        (name + seq![':']) != violations_header(),
        (name + seq![':']) != files_header(),
        (name + seq![':']).drop_last() == name,
{
    let l = name + seq![':'];
    assert(l.last() == ':');
    assert(l.first() == name.first());
    assert(l.drop_last() =~= name);
    if is_item_line(l) {
        assert(l.take(6)[0] == l[0]);
        assert(item_prefix()[0] == ' ');
    }
    if is_const_line(l) {
        assert(l.take(3)[0] == l[0]);
        assert(const_prefix()[0] == ' ');
    }
    if l == violations_header() {
        assert(l[0] == violations_header()[0]);
    }
    if l == files_header() {
        assert(l[0] == files_header()[0]);
    }
}

/// The section headers are not item, constant or pack lines.
proof fn lemma_header_class()
    ensures
        !is_item_line(violations_header()),
        !is_const_line(violations_header()),
        !is_pack_line(violations_header()),
        !is_item_line(files_header()),
        !is_const_line(files_header()),
        !is_pack_line(files_header()),
{
    if is_item_line(violations_header()) {
        assert(violations_header().take(6)[4] == violations_header()[4]);
        assert(item_prefix()[4] == '-');
    }
    if is_const_line(violations_header()) {
        assert(violations_header().take(3)[2] == violations_header()[2]);
        assert(const_prefix()[2] == '"');
    }
    assert(violations_header().first() == ' ');
    if is_item_line(files_header()) {
        assert(files_header().take(6)[4] == files_header()[4]);
        assert(item_prefix()[4] == '-');
    }
    if is_const_line(files_header()) {
        assert(files_header().take(3)[2] == files_header()[2]);
        assert(const_prefix()[2] == '"');
    }
    assert(files_header().first() == ' ');
}

/// Reading back a section's emitted items appends exactly those items.
proof fn lemma_run_items(s: PState, items: Seq<Seq<char>>)
    requires
        s.mode is InViolations || s.mode is InFiles,
    ensures
        s.mode is InViolations ==> run(s, emit_items(items)) == Some(
            PState { types: s.types + items, ..s },
        ),
        s.mode is InFiles ==> run(s, emit_items(items)) == Some(
            PState { files: s.files + items, ..s },
        ),
    decreases items.len(),
{
    if items.len() == 0 {
        assert(s.types + items =~= s.types);
        assert(s.files + items =~= s.files);
        assert(PState { types: s.types + items, ..s } == s);
        assert(PState { files: s.files + items, ..s } == s);
    } else {
        let l = item_prefix() + items.first();
        lemma_item_line_class(items.first());
        assert(emit_items(items).first() == l);
        assert(emit_items(items).drop_first() =~= emit_items(items.drop_first()));
        if s.mode is InViolations {
            let s2 = PState { types: s.types.push(items.first()), ..s };
            assert(step(s, l) == Some(s2));
            lemma_run_items(s2, items.drop_first());
            assert(s2.types + items.drop_first() =~= s.types + items);
        } else {
            let s2 = PState { files: s.files.push(items.first()), ..s };
            assert(step(s, l) == Some(s2));
            lemma_run_items(s2, items.drop_first());
            assert(s2.files + items.drop_first() =~= s.files + items);
        }
    }
}

/// Reading back a pack's emitted constants appends exactly those constants.
proof fn lemma_run_groups(s: PState, cs: Seq<(Seq<char>, ViolationGroupV)>)
    requires
        s.mode is AfterPack || s.mode is InFiles,
    ensures
        run(s, emit_groups(cs)) matches Some(s2) && {
            &&& (s2.mode is AfterPack || s2.mode is InFiles)
            &&& s2.done == s.done
            &&& s2.pack_name == s.pack_name
            &&& pack_consts_of(s2) == pack_consts_of(s) + cs
        },
    decreases cs.len(),
{
    if cs.len() == 0 {
        assert(pack_consts_of(s) + cs =~= pack_consts_of(s));
    } else {
        let c = cs.first().0;
        let g = cs.first().1;
        let cline = const_prefix() + c + seq!['"', ':'];
        lemma_const_line_class(c);
        lemma_header_class();
        // One constant's lines, read in order.
        let after_key = PState {
            consts: pack_consts_of(s),
            const_name: c,
            types: Seq::empty(),
            files: Seq::empty(),
            mode: PMode::AfterConst,
            ..s
        };
        assert(step(s, cline) == Some(after_key));
        let in_viol = PState { mode: PMode::InViolations, ..after_key };
        assert(step(after_key, violations_header()) == Some(in_viol));
        lemma_run_items(in_viol, g.violation_types);
        let typed = PState { types: g.violation_types, ..in_viol };
        assert(Seq::<Seq<char>>::empty() + g.violation_types =~= g.violation_types);
        assert(run(in_viol, emit_items(g.violation_types)) == Some(typed));
        let in_files = PState { mode: PMode::InFiles, ..typed };
        assert(step(typed, files_header()) == Some(in_files));
        lemma_run_items(in_files, g.files);
        let filed = PState { files: g.files, ..in_files };
        assert(Seq::<Seq<char>>::empty() + g.files =~= g.files);
        assert(run(in_files, emit_items(g.files)) == Some(filed));
        // Chain the five pieces of this group's line list.
        let l1 = seq![cline];
        let l2 = seq![violations_header()];
        let l3 = emit_items(g.violation_types);
        let l4 = seq![files_header()];
        let l5 = emit_items(g.files);
        assert(run(s, l1) == Some(after_key)) by {
            assert(l1.drop_first() =~= Seq::<Seq<char>>::empty());
            assert(run(after_key, Seq::<Seq<char>>::empty()) == Some(after_key));
        }
        assert(run(after_key, l2) == Some(in_viol)) by {
            assert(l2.drop_first() =~= Seq::<Seq<char>>::empty());
            assert(run(in_viol, Seq::<Seq<char>>::empty()) == Some(in_viol));
        }
        assert(run(typed, l4) == Some(in_files)) by {
            assert(l4.drop_first() =~= Seq::<Seq<char>>::empty());
            assert(run(in_files, Seq::<Seq<char>>::empty()) == Some(in_files));
        }
        lemma_run_concat(in_files, l4, l5);
        assert(run(typed, l4 + l5) == Some(filed)) by {
            lemma_run_concat(typed, l4, l5);
        }
        lemma_run_concat(in_viol, l3, l4 + l5);
        assert(run(in_viol, l3 + (l4 + l5)) == Some(filed));
        lemma_run_concat(after_key, l2, l3 + (l4 + l5));
        assert(run(after_key, l2 + (l3 + (l4 + l5))) == Some(filed));
        lemma_run_concat(s, l1, l2 + (l3 + (l4 + l5)));
        assert(run(s, l1 + (l2 + (l3 + (l4 + l5)))) == Some(filed));
        assert(emit_group(c, g) =~= l1 + (l2 + (l3 + (l4 + l5))));
        assert(run(s, emit_group(c, g)) == Some(filed));
        // The rest of the constants.
        lemma_run_groups(filed, cs.drop_first());
        let s2 = choose|s2: PState| run(filed, emit_groups(cs.drop_first())) == Some(s2);
        lemma_run_concat(s, emit_group(c, g), emit_groups(cs.drop_first()));
        assert(emit_groups(cs) =~= emit_group(c, g) + emit_groups(cs.drop_first()));
        assert(pack_consts_of(filed) =~= pack_consts_of(s) + seq![cs.first()]);
        assert(pack_consts_of(s) + seq![cs.first()] + cs.drop_first() =~= pack_consts_of(s) + cs);
    }
}

/// Reading back a ledger's emitted packs appends exactly those entries.
proof fn lemma_run_packs(s: PState, es: Seq<(Seq<char>, Seq<(Seq<char>, ViolationGroupV)>)>)
    requires
        s.mode is Start || s.mode is AfterPack || s.mode is InFiles,
        wf_ledger(es),
    ensures
        run(s, emit_packs(es)) matches Some(s2) && {
            &&& (s2.mode is Start || s2.mode is AfterPack || s2.mode is InFiles)
            &&& represent(s2) == represent(s) + es
        },
    decreases es.len(),
{
    if es.len() == 0 {
        assert(represent(s) + es =~= represent(s));
    } else {
        let name = es.first().0;
        let cs = es.first().1;
        assert(es[0] == es.first());
        assert(name.len() > 0 && name.first() != ' ');
        lemma_pack_line_class(name);
        let pline = name + seq![':'];
        let opened = step(s, pline)->Some_0;
        assert(step(s, pline) is Some);
        assert(opened.done == represent(s)) by {
            if s.mode is AfterPack {
                assert(pack_consts_of(s) == s.consts);
            }
        }
        assert(opened.pack_name == name);
        assert(opened.mode is AfterPack);
        assert(pack_consts_of(opened) =~= Seq::<(Seq<char>, ViolationGroupV)>::empty());
        lemma_run_groups(opened, cs);
        let after_groups = choose|s2: PState| run(opened, emit_groups(cs)) == Some(s2);
        assert(pack_consts_of(after_groups) =~= cs) by {
            assert(pack_consts_of(after_groups) == pack_consts_of(opened) + cs);
            assert(pack_consts_of(opened) + cs =~= cs);
        }
        assert(represent(after_groups) == represent(s).push((name, cs)));
        assert forall|i: int|
            0 <= i < es.drop_first().len() implies ((#[trigger] es.drop_first()[
            i]).0.len() > 0 && es.drop_first()[i].0.first() != ' ') by {
            assert(es.drop_first()[i] == es[i + 1]);
        }
        lemma_run_packs(after_groups, es.drop_first());
        let s3 = choose|s3: PState| run(after_groups, emit_packs(es.drop_first())) == Some(s3);
        assert(run(s, seq![pline]) == Some(opened)) by {
            assert(seq![pline].drop_first() =~= Seq::<Seq<char>>::empty());
            assert(run(opened, Seq::<Seq<char>>::empty()) == Some(opened));
        }
        lemma_run_concat(opened, emit_groups(cs), emit_packs(es.drop_first()));
        lemma_run_concat(s, seq![pline], emit_groups(cs) + emit_packs(es.drop_first()));
        assert(emit_packs(es) =~= seq![pline] + (emit_groups(cs) + emit_packs(es.drop_first())));
        assert(run(s, emit_packs(es)) == Some(s3));
        assert(represent(s3) == represent(after_groups) + es.drop_first());
        assert(represent(s).push((name, cs)) + es.drop_first() =~= represent(s) + es);
    }
}

/// The round trip: parsing a serialized well-formed ledger yields it back,
/// entry for entry.
pub proof fn lemma_todo_round_trip(es: Seq<(Seq<char>, Seq<(Seq<char>, ViolationGroupV)>)>)
    requires
        wf_ledger(es),
    ensures
        parse_lines_spec(emit_packs(es)) == Some(es),
{
    lemma_run_packs(init_state(), es);
    let s2 = choose|s2: PState| run(init_state(), emit_packs(es)) == Some(s2);
    assert(represent(init_state()) + es =~= es);
    assert(finish(s2) == Some(represent(s2))) by {
        if s2.mode is AfterPack {
            assert(pack_consts_of(s2) == s2.consts);
        }
    }
}


/// The entries of an exec constant list, as the view sees them.
pub open spec fn consts_view(v: Seq<(String, ViolationGroup)>) -> Seq<(Seq<char>, ViolationGroupV)> {
    Seq::new(v.len(), |j: int| (v[j].0@, v[j].1@))
}

/// The entries of an exec ledger list, as the view sees them.
pub open spec fn entries_view(v: Seq<(String, Vec<(String, ViolationGroup)>)>) -> Seq<
    (Seq<char>, Seq<(Seq<char>, ViolationGroupV)>),
> {
    Seq::new(v.len(), |i: int| (v[i].0@, consts_view(v[i].1@)))
}

/// The serialized lines of one section's items, from index `i` on.
fn emit_items_exec(items: &Vec<String>, i: usize) -> (r: Vec<String>)
    requires
        i <= items@.len(),
    ensures
        r.deep_view() == emit_items(items.deep_view().skip(i as int)),
    decreases items@.len() - i,
{
    if i == items.len() {
        let r: Vec<String> = Vec::new();
        proof {
            assert(items.deep_view().skip(i as int) =~= Seq::<Seq<char>>::empty());
            assert(r.deep_view() =~= emit_items(items.deep_view().skip(i as int)));
        }
        r
    } else {
        let mut rest = emit_items_exec(items, i + 1);
        let line = String::from_str("    - ").concat(items[i].as_str());
        let mut r: Vec<String> = Vec::new();
        r.push(line);
        let ghost head = r.deep_view();
        r.append(&mut rest);
        proof {
            reveal_strlit("    - ");
            let dv = items.deep_view();
            assert("    - "@ =~= item_prefix());
            assert(dv.skip(i as int).first() == dv[i as int]);
            assert(dv[i as int] == items@[i as int]@);
            assert(dv.skip(i as int).drop_first() =~= dv.skip(i as int + 1));
            assert(head =~= seq![item_prefix() + dv[i as int]]);
            assert(r.deep_view() =~= head + emit_items(dv.skip(i as int + 1)));
            assert(r.deep_view() =~= emit_items(dv.skip(i as int)));
        }
        r
    }
}

/// The serialized lines of one constant's entry.
fn emit_group_exec(c: &String, g: &ViolationGroup) -> (r: Vec<String>)
    ensures
        r.deep_view() == emit_group(c@, g@),
{
    let mut r: Vec<String> = Vec::new();
    let key = String::from_str("  \"").concat(c.as_str()).concat("\":");
    r.push(key);
    r.push(String::from_str("    violations:"));
    let ghost head = r.deep_view();
    let mut types = emit_items_exec(&g.violation_types, 0);
    r.append(&mut types);
    let ghost with_types = r.deep_view();
    r.push(String::from_str("    files:"));
    let ghost with_files_header = r.deep_view();
    let mut files = emit_items_exec(&g.files, 0);
    r.append(&mut files);
    proof {
        reveal_strlit("  \"");
        reveal_strlit("\":");
        reveal_strlit("    violations:");
        reveal_strlit("    files:");
        assert("  \""@ =~= const_prefix());
        assert("\":"@ =~= seq!['"', ':']);
        assert("    violations:"@ =~= violations_header());
        assert("    files:"@ =~= files_header());
        assert(g.violation_types.deep_view().skip(0) =~= g@.violation_types);
        assert(g.files.deep_view().skip(0) =~= g@.files);
        assert(head =~= seq![const_prefix() + c@ + seq!['"', ':']] + seq![violations_header()]);
        assert(with_types =~= head + emit_items(g@.violation_types));
        assert(with_files_header =~= with_types.push(files_header()));
        assert(r.deep_view() =~= with_files_header + emit_items(g@.files));
        assert(r.deep_view() =~= emit_group(c@, g@));
    }
    r
}

/// The serialized lines of a constant list, from index `q` on.
fn emit_groups_exec(consts: &Vec<(String, ViolationGroup)>, q: usize) -> (r: Vec<String>)
    requires
        q <= consts@.len(),
    ensures
        r.deep_view() == emit_groups(consts_view(consts@).skip(q as int)),
    decreases consts@.len() - q,
{
    if q == consts.len() {
        let r: Vec<String> = Vec::new();
        proof {
            assert(consts_view(consts@).skip(q as int) =~= Seq::<
                (Seq<char>, ViolationGroupV),
            >::empty());
            assert(r.deep_view() =~= emit_groups(consts_view(consts@).skip(q as int)));
        }
        r
    } else {
        let entry = &consts[q];
        let mut r = emit_group_exec(&entry.0, &entry.1);
        let ghost head = r.deep_view();
        let mut rest = emit_groups_exec(consts, q + 1);
        r.append(&mut rest);
        proof {
            let cv = consts_view(consts@);
            assert(cv.skip(q as int).first() == cv[q as int]);
            assert(cv[q as int] == (entry.0@, entry.1@));
            assert(cv.skip(q as int).drop_first() =~= cv.skip(q as int + 1));
            assert(r.deep_view() =~= head + emit_groups(cv.skip(q as int + 1)));
            assert(r.deep_view() =~= emit_groups(cv.skip(q as int)));
        }
        r
    }
}

/// The serialized lines of a ledger's entries, from index `i` on.
fn emit_packs_exec(entries: &Vec<(String, Vec<(String, ViolationGroup)>)>, i: usize) -> (r: Vec<
    String,
>)
    requires
        i <= entries@.len(),
    ensures
        r.deep_view() == emit_packs(entries_view(entries@).skip(i as int)),
    decreases entries@.len() - i,
{
    if i == entries.len() {
        let r: Vec<String> = Vec::new();
        proof {
            assert(entries_view(entries@).skip(i as int) =~= Seq::<
                (Seq<char>, Seq<(Seq<char>, ViolationGroupV)>),
            >::empty());
            assert(r.deep_view() =~= emit_packs(entries_view(entries@).skip(i as int)));
        }
        r
    } else {
        let entry = &entries[i];
        let mut r: Vec<String> = Vec::new();
        r.push(entry.0.clone().concat(":"));
        let ghost head = r.deep_view();
        let mut groups = emit_groups_exec(&entry.1, 0);
        r.append(&mut groups);
        let ghost with_groups = r.deep_view();
        let mut rest = emit_packs_exec(entries, i + 1);
        r.append(&mut rest);
        proof {
            reveal_strlit(":");
            let ev = entries_view(entries@);
            assert(":"@ =~= seq![':']);
            assert(ev.skip(i as int).first() == ev[i as int]);
            assert(ev[i as int] == (entry.0@, consts_view(entry.1@)));
            assert(ev.skip(i as int).drop_first() =~= ev.skip(i as int + 1));
            assert(consts_view(entry.1@).skip(0) =~= consts_view(entry.1@));
            assert(head =~= seq![entry.0@ + seq![':']]);
            assert(with_groups =~= head + emit_groups(consts_view(entry.1@)));
            assert(r.deep_view() =~= with_groups + emit_packs(ev.skip(i as int + 1)));
            assert(r.deep_view() =~= emit_packs(ev.skip(i as int)));
        }
        r
    }
}

impl PackageTodo {
    /// Serializes the ledger into its text lines.
    pub fn serialize_lines(&self) -> (r: Vec<String>)
        ensures
            r.deep_view() == emit_packs(self@),
    {
        let r = emit_packs_exec(&self.violations_by_defining_pack, 0);
        proof {
            assert(entries_view(self.violations_by_defining_pack@).skip(0) =~= self@);
        }
        r
    }
}


/// Decides `is_item_line`.
fn line_is_item(l: &str) -> (r: bool)
    ensures
        r == is_item_line(l@),
{
    let n = l.unicode_len();
    if n < 6 {
        return false;
    }
    let ok = l.get_char(0) == ' ' && l.get_char(1) == ' ' && l.get_char(2) == ' ' && l.get_char(3)
        == ' ' && l.get_char(4) == '-' && l.get_char(5) == ' ';
    proof {
        if ok {
            assert(l@.take(6) =~= item_prefix());
        } else {
            if l@.take(6) == item_prefix() {
                assert(l@.take(6)[0] == l@[0]);
                assert(l@.take(6)[1] == l@[1]);
                assert(l@.take(6)[2] == l@[2]);
                assert(l@.take(6)[3] == l@[3]);
                assert(l@.take(6)[4] == l@[4]);
                assert(l@.take(6)[5] == l@[5]);
            }
        }
    }
    ok
}

/// Decides `is_const_line`.
fn line_is_const(l: &str) -> (r: bool)
    ensures
        r == is_const_line(l@),
{
    let n = l.unicode_len();
    if n < 5 {
        return false;
    }
    let ok = l.get_char(0) == ' ' && l.get_char(1) == ' ' && l.get_char(2) == '"' && l.get_char(
        n - 2,
    ) == '"' && l.get_char(n - 1) == ':';
    proof {
        if ok {
            assert(l@.take(3) =~= const_prefix());
            assert(l@.skip(l@.len() - 2) =~= seq!['"', ':']);
        } else {
            if l@.take(3) == const_prefix() {
                assert(l@.take(3)[0] == l@[0]);
                assert(l@.take(3)[1] == l@[1]);
                assert(l@.take(3)[2] == l@[2]);
            }
            if l@.skip(l@.len() - 2) == seq!['"', ':'] {
                assert(l@.skip(l@.len() - 2)[0] == l@[l@.len() - 2]);
                assert(l@.skip(l@.len() - 2)[1] == l@[l@.len() - 1]);
            }
        }
    }
    ok
}

/// Decides `is_pack_line`.
fn line_is_pack(l: &str) -> (r: bool)
    ensures
        r == is_pack_line(l@),
{
    let n = l.unicode_len();
    if n < 1 {
        return false;
    }
    l.get_char(n - 1) == ':' && l.get_char(0) != ' '
}

/// Decides equality with the `violations:` section header.
fn line_is_viol_header(l: &str) -> (r: bool)
    ensures
        r == (l@ == violations_header()),
{
    proof {
        reveal_strlit("    violations:");
        assert("    violations:"@ =~= violations_header());
    }
    matches!(str_cmp(l, "    violations:"), core::cmp::Ordering::Equal)
}

/// Decides equality with the `files:` section header.
fn line_is_files_header(l: &str) -> (r: bool)
    ensures
        r == (l@ == files_header()),
{
    proof {
        reveal_strlit("    files:");
        assert("    files:"@ =~= files_header());
    }
    matches!(str_cmp(l, "    files:"), core::cmp::Ordering::Equal)
}

/// The parser phase as the spec sees it.
pub open spec fn phase_mode(p: u8) -> PMode {
    if p == 0 {
        PMode::Start
    } else if p == 1 {
        PMode::AfterPack
    } else if p == 2 {
        PMode::AfterConst
    } else if p == 3 {
        PMode::InViolations
    } else {
        PMode::InFiles
    }
}

impl PackageTodo {
    /// Parses serialized ledger lines back into a ledger; `None` on any line
    /// that does not fit the form.
    pub fn deserialize_lines(lines: &Vec<String>) -> (r: Option<PackageTodo>)
        ensures
            match r {
                Some(t) => parse_lines_spec(lines.deep_view()) == Some(t@),
                None => parse_lines_spec(lines.deep_view()) is None,
            },
    {
        let ghost lv = lines.deep_view();
        let mut done: Vec<(String, Vec<(String, ViolationGroup)>)> = Vec::new();
        let mut pack_name = String::new();
        let mut consts: Vec<(String, ViolationGroup)> = Vec::new();
        let mut const_name = String::new();
        let mut types: Vec<String> = Vec::new();
        let mut files: Vec<String> = Vec::new();
        let mut phase: u8 = 0;
        let n = lines.len();
        let mut i: usize = 0;
        proof {
            assert(entries_view(done@) =~= init_state().done);
            assert(consts_view(consts@) =~= init_state().consts);
            assert(types.deep_view() =~= init_state().types);
            assert(files.deep_view() =~= init_state().files);
            assert(run(init_state(), lv.take(0)) == Some(init_state())) by {
                assert(lv.take(0) =~= Seq::<Seq<char>>::empty());
            }
        }
        while i < n
            invariant
                0 <= i <= n,
                n == lv.len(),
                lv == lines.deep_view(),
                phase <= 4,
                run(init_state(), lv.take(i as int)) == Some(
                    PState {
                        done: entries_view(done@),
                        pack_name: pack_name@,
                        consts: consts_view(consts@),
                        const_name: const_name@,
                        types: types.deep_view(),
                        files: files.deep_view(),
                        mode: phase_mode(phase),
                    },
                ),
            decreases n - i,
        {
            let ghost cur = PState {
                done: entries_view(done@),
                pack_name: pack_name@,
                consts: consts_view(consts@),
                const_name: const_name@,
                types: types.deep_view(),
                files: files.deep_view(),
                mode: phase_mode(phase),
            };
            let l = &lines[i];
            let llen = l.as_str().unicode_len();
            proof {
                assert(lv[i as int] == l@);
                assert(lv.take(i as int + 1) =~= lv.take(i as int) + seq![l@]);
                lemma_run_concat(init_state(), lv.take(i as int), seq![l@]);
                assert(seq![l@].first() == l@);
                assert(seq![l@].drop_first() =~= Seq::<Seq<char>>::empty());
            }
            let is_pack = line_is_pack(l.as_str());
            let is_const = line_is_const(l.as_str());
            let is_item = line_is_item(l.as_str());
            let is_viol = line_is_viol_header(l.as_str());
            let is_files = line_is_files_header(l.as_str());
            let step_ok: bool;
            if phase == 0 {
                if is_pack {
                    let name = l.as_str().substring_char(0, llen - 1).to_owned();
                    proof {
                        assert(name@ =~= l@.drop_last());
                    }
                    pack_name = name;
                    consts = Vec::new();
                    const_name = String::new();
                    types = Vec::new();
                    files = Vec::new();
                    phase = 1;
                    proof {
                        assert(consts_view(consts@) =~= Seq::<(Seq<char>, ViolationGroupV)>::empty());
                        assert(types.deep_view() =~= Seq::<Seq<char>>::empty());
                        assert(files.deep_view() =~= Seq::<Seq<char>>::empty());
                    }
                    proof {
                        assert(step(cur, l@) == Some(
                            PState {
                                done: entries_view(done@),
                                pack_name: pack_name@,
                                consts: consts_view(consts@),
                                const_name: const_name@,
                                types: types.deep_view(),
                                files: files.deep_view(),
                                mode: phase_mode(phase),
                            },
                        ));
                    }
                    step_ok = true;
                } else {
                    step_ok = false;
                }
            } else if phase == 1 {
                if is_const {
                    let cname = l.as_str().substring_char(3, llen - 2).to_owned();
                    const_name = cname;
                    types = Vec::new();
                    files = Vec::new();
                    phase = 2;
                    proof {
                        assert(types.deep_view() =~= Seq::<Seq<char>>::empty());
                        assert(files.deep_view() =~= Seq::<Seq<char>>::empty());
                    }
                    proof {
                        assert(step(cur, l@) == Some(
                            PState {
                                done: entries_view(done@),
                                pack_name: pack_name@,
                                consts: consts_view(consts@),
                                const_name: const_name@,
                                types: types.deep_view(),
                                files: files.deep_view(),
                                mode: phase_mode(phase),
                            },
                        ));
                    }
                    step_ok = true;
                } else if is_pack {
                    let ghost pnv = pack_name@;
                    let ghost csv = consts_view(consts@);
                    let pn = pack_name;
                    let cs = consts;
                    done.push((pn, cs));
                    proof {
                        assert(entries_view(done@) =~= cur.done.push((pnv, csv)));
                    }
                    let name = l.as_str().substring_char(0, llen - 1).to_owned();
                    proof {
                        assert(name@ =~= l@.drop_last());
                    }
                    pack_name = name;
                    consts = Vec::new();
                    const_name = String::new();
                    types = Vec::new();
                    files = Vec::new();
                    phase = 1;
                    proof {
                        assert(consts_view(consts@) =~= Seq::<(Seq<char>, ViolationGroupV)>::empty());
                        assert(types.deep_view() =~= Seq::<Seq<char>>::empty());
                        assert(files.deep_view() =~= Seq::<Seq<char>>::empty());
                    }
                    proof {
                        assert(step(cur, l@) == Some(
                            PState {
                                done: entries_view(done@),
                                pack_name: pack_name@,
                                consts: consts_view(consts@),
                                const_name: const_name@,
                                types: types.deep_view(),
                                files: files.deep_view(),
                                mode: phase_mode(phase),
                            },
                        ));
                    }
                    step_ok = true;
                } else {
                    step_ok = false;
                }
            } else if phase == 2 {
                if is_viol {
                    phase = 3;
                    proof {
                        assert(step(cur, l@) == Some(
                            PState {
                                done: entries_view(done@),
                                pack_name: pack_name@,
                                consts: consts_view(consts@),
                                const_name: const_name@,
                                types: types.deep_view(),
                                files: files.deep_view(),
                                mode: phase_mode(phase),
                            },
                        ));
                    }
                    step_ok = true;
                } else {
                    step_ok = false;
                }
            } else if phase == 3 {
                if is_files {
                    phase = 4;
                    proof {
                        assert(step(cur, l@) == Some(
                            PState {
                                done: entries_view(done@),
                                pack_name: pack_name@,
                                consts: consts_view(consts@),
                                const_name: const_name@,
                                types: types.deep_view(),
                                files: files.deep_view(),
                                mode: phase_mode(phase),
                            },
                        ));
                    }
                    step_ok = true;
                } else if is_item {
                    let ghost old_types = types.deep_view();
                    let item = l.as_str().substring_char(6, llen).to_owned();
                    proof {
                        assert(item@ =~= l@.skip(6));
                    }
                    types.push(item);
                    proof {
                        assert(types.deep_view() =~= old_types.push(l@.skip(6)));
                    }
                    proof {
                        assert(step(cur, l@) == Some(
                            PState {
                                done: entries_view(done@),
                                pack_name: pack_name@,
                                consts: consts_view(consts@),
                                const_name: const_name@,
                                types: types.deep_view(),
                                files: files.deep_view(),
                                mode: phase_mode(phase),
                            },
                        ));
                    }
                    step_ok = true;
                } else {
                    step_ok = false;
                }
            } else {
                if is_const {
                    let ghost cnv = const_name@;
                    let ghost tv = types.deep_view();
                    let ghost fv = files.deep_view();
                    let cn = const_name;
                    let t = types;
                    let f = files;
                    let group = ViolationGroup { violation_types: t, files: f };
                    let ghost gsnap = group;
                    proof {
                        assert(gsnap@ == ViolationGroupV { violation_types: tv, files: fv });
                    }
                    consts.push((cn, group));
                    proof {
                        assert(consts_view(consts@) =~= cur.consts.push((cnv, gsnap@)));
                        assert(consts_view(consts@) =~= close_const(cur));
                    }
                    let cname = l.as_str().substring_char(3, llen - 2).to_owned();
                    const_name = cname;
                    types = Vec::new();
                    files = Vec::new();
                    phase = 2;
                    proof {
                        assert(types.deep_view() =~= Seq::<Seq<char>>::empty());
                        assert(files.deep_view() =~= Seq::<Seq<char>>::empty());
                    }
                    proof {
                        assert(step(cur, l@) == Some(
                            PState {
                                done: entries_view(done@),
                                pack_name: pack_name@,
                                consts: consts_view(consts@),
                                const_name: const_name@,
                                types: types.deep_view(),
                                files: files.deep_view(),
                                mode: phase_mode(phase),
                            },
                        ));
                    }
                    step_ok = true;
                } else if is_pack {
                    let ghost cnv = const_name@;
                    let ghost tv = types.deep_view();
                    let ghost fv = files.deep_view();
                    let cn = const_name;
                    let t = types;
                    let f = files;
                    let group = ViolationGroup { violation_types: t, files: f };
                    let ghost gsnap = group;
                    proof {
                        assert(gsnap@ == ViolationGroupV { violation_types: tv, files: fv });
                    }
                    consts.push((cn, group));
                    proof {
                        assert(consts_view(consts@) =~= cur.consts.push((cnv, gsnap@)));
                        assert(consts_view(consts@) =~= close_const(cur));
                    }
                    let ghost pnv = pack_name@;
                    let ghost csv = consts_view(consts@);
                    let pn = pack_name;
                    let cs = consts;
                    done.push((pn, cs));
                    proof {
                        assert(entries_view(done@) =~= cur.done.push((pnv, csv)));
                    }
                    let name = l.as_str().substring_char(0, llen - 1).to_owned();
                    proof {
                        assert(name@ =~= l@.drop_last());
                    }
                    pack_name = name;
                    consts = Vec::new();
                    const_name = String::new();
                    types = Vec::new();
                    files = Vec::new();
                    phase = 1;
                    proof {
                        assert(consts_view(consts@) =~= Seq::<(Seq<char>, ViolationGroupV)>::empty());
                        assert(types.deep_view() =~= Seq::<Seq<char>>::empty());
                        assert(files.deep_view() =~= Seq::<Seq<char>>::empty());
                    }
                    proof {
                        assert(step(cur, l@) == Some(
                            PState {
                                done: entries_view(done@),
                                pack_name: pack_name@,
                                consts: consts_view(consts@),
                                const_name: const_name@,
                                types: types.deep_view(),
                                files: files.deep_view(),
                                mode: phase_mode(phase),
                            },
                        ));
                    }
                    step_ok = true;
                } else if is_item {
                    let ghost old_files = files.deep_view();
                    let item = l.as_str().substring_char(6, llen).to_owned();
                    proof {
                        assert(item@ =~= l@.skip(6));
                    }
                    files.push(item);
                    proof {
                        assert(files.deep_view() =~= old_files.push(l@.skip(6)));
                    }
                    proof {
                        assert(step(cur, l@) == Some(
                            PState {
                                done: entries_view(done@),
                                pack_name: pack_name@,
                                consts: consts_view(consts@),
                                const_name: const_name@,
                                types: types.deep_view(),
                                files: files.deep_view(),
                                mode: phase_mode(phase),
                            },
                        ));
                    }
                    step_ok = true;
                } else {
                    step_ok = false;
                }
            }
            if !step_ok {
                proof {
                    assert(step(cur, l@) is None);
                    assert(run(init_state(), lv.take(i as int + 1)) is None);
                    lemma_run_concat(init_state(), lv.take(i as int + 1), lv.skip(i as int + 1));
                    assert(lv.take(i as int + 1) + lv.skip(i as int + 1) =~= lv);
                    assert(run(init_state(), lv) is None);
                }
                return None;
            }
            proof {
                let next = PState {
                    done: entries_view(done@),
                    pack_name: pack_name@,
                    consts: consts_view(consts@),
                    const_name: const_name@,
                    types: types.deep_view(),
                    files: files.deep_view(),
                    mode: phase_mode(phase),
                };
                assert(step(cur, l@) == Some(next));
                assert(run(next, Seq::<Seq<char>>::empty()) == Some(next));
                assert(run(cur, seq![l@]) == Some(next));
                assert(run(init_state(), lv.take(i as int + 1)) == Some(next));
            }
            i = i + 1;
        }
        proof {
            assert(lv.take(n as int) =~= lv);
        }
        let ghost fin = PState {
            done: entries_view(done@),
            pack_name: pack_name@,
            consts: consts_view(consts@),
            const_name: const_name@,
            types: types.deep_view(),
            files: files.deep_view(),
            mode: phase_mode(phase),
        };
        if phase == 0 {
            let t = PackageTodo { violations_by_defining_pack: done };
            proof {
                assert(t@ =~= entries_view(t.violations_by_defining_pack@));
                assert(finish(fin) == Some(fin.done));
            }
            Some(t)
        } else if phase == 1 {
            let mut d = done;
            let ghost pnv = pack_name@;
            let ghost csv = consts_view(consts@);
            d.push((pack_name, consts));
            proof {
                assert(entries_view(d@) =~= fin.done.push((pnv, csv)));
            }
            let t = PackageTodo { violations_by_defining_pack: d };
            proof {
                assert(t@ =~= entries_view(t.violations_by_defining_pack@));
                assert(finish(fin) == Some(fin.done.push((fin.pack_name, fin.consts))));
            }
            Some(t)
        } else if phase == 4 {
            let ghost cnv = const_name@;
            let ghost tv = types.deep_view();
            let ghost fv = files.deep_view();
            let group = ViolationGroup { violation_types: types, files };
            let ghost gsnap = group;
            proof {
                assert(gsnap@ == ViolationGroupV { violation_types: tv, files: fv });
            }
            let mut cs = consts;
            cs.push((const_name, group));
            proof {
                assert(consts_view(cs@) =~= fin.consts.push((cnv, gsnap@)));
                assert(consts_view(cs@) =~= close_const(fin));
            }
            let mut d = done;
            let ghost pnv = pack_name@;
            let ghost csv = consts_view(cs@);
            d.push((pack_name, cs));
            proof {
                assert(entries_view(d@) =~= fin.done.push((pnv, csv)));
            }
            let t = PackageTodo { violations_by_defining_pack: d };
            proof {
                assert(t@ =~= entries_view(t.violations_by_defining_pack@));
                assert(finish(fin) == Some(fin.done.push((fin.pack_name, close_const(fin)))));
            }
            Some(t)
        } else {
            proof {
                assert(finish(fin) is None);
            }
            None
        }
    }
}

} // verus!
