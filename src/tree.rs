//! Rebuilding the tree of entries from the flat record stream, by the
//! naming conventions of begin and end records.
use vstd::prelude::*;
use crate::model::{CfgBin, entries_view, entry_view, vars_view, Entry, EntryView, VarValue, Variable, VariableView};
use crate::layout::{first_index, lemma_first_index_skip};
use crate::names::{canonical, contains, ends_with, last_segment, last_sep, replace_all, starts_with};
use crate::names::{
    canonical_chars, contains_exec, ends_with_exec, last_sep_index, lemma_last_sep_bounds,
    replace_all_exec, starts_with_exec,
};
use crate::text::{chars_of, lower_of, lowercase, string_of};

verus! {

/// The reconstruction state: open scopes (innermost last), finished
/// top-level entries, and the depth recorded for each open begin name.
pub ghost struct BuildState {
    pub stack: Seq<EntryView>,
    pub output: Seq<EntryView>,
    pub depth: Seq<(Seq<char>, nat)>,
}

/// The type segment of a decorated name: the one before the occurrence
/// index.
pub open spec fn type_segment(name: Seq<char>) -> Seq<char> {
    last_segment(canonical(name))
}

/// The type segment, lower-cased.
pub open spec fn node_type(name: Seq<char>) -> Seq<char> {
    lower_of(type_segment(name))
}

/// How a record takes part in nesting.
#[derive(Debug, Clone, Copy, PartialEq, Eq, Structural)]
pub struct RecordKind {
    /// It opens a scope.
    pub begin: bool,
    /// It closes a scope.
    pub end: bool,
    /// Its type ends with `beg` or `begin`.
    pub plain_begin: bool,
}

/// The kind of a record named `name` whose type segment, lower-cased, is `t`.
pub open spec fn kind_of(name: Seq<char>, t: Seq<char>) -> RecordKind {
    let ptree_marker = contains(name, seq!['_', 'P', 'T', 'R', 'E', 'E']);
    let plain = ends_with(t, seq!['b', 'e', 'g']) || ends_with(t, seq!['b', 'e', 'g', 'i', 'n']);
    RecordKind {
        begin: (plain || ends_with(t, seq!['s', 't', 'a', 'r', 't']) || ends_with(
            t,
            seq!['p', 't', 'r', 'e', 'e'],
        )) && !ptree_marker,
        end: ends_with(t, seq!['e', 'n', 'd']) || ptree_marker,
        plain_begin: plain,
    }
}

/// Classifies a record from its name and its lower-cased type segment.
pub fn record_kind(name: &[char], lowered_type: &[char]) -> (r: RecordKind)
    ensures
        r == kind_of(name@, lowered_type@),
{
    let ptree_marker = contains_exec(name, vec!['_', 'P', 'T', 'R', 'E', 'E'].as_slice());
    let plain = ends_with_exec(lowered_type, vec!['b', 'e', 'g'].as_slice()) || ends_with_exec(
        lowered_type,
        vec!['b', 'e', 'g', 'i', 'n'].as_slice(),
    );
    let start = ends_with_exec(lowered_type, vec!['s', 't', 'a', 'r', 't'].as_slice());
    let ptree = ends_with_exec(lowered_type, vec!['p', 't', 'r', 'e', 'e'].as_slice());
    let end = ends_with_exec(lowered_type, vec!['e', 'n', 'd'].as_slice());
    RecordKind { begin: (plain || start || ptree) && !ptree_marker, end: end || ptree_marker, plain_begin: plain }
}

/// The name with its last two segments dropped, after `_LIST_BEG_` is
/// collapsed to `_BEG_`; empty where fewer than two separators remain.
pub open spec fn base_name(k: Seq<char>) -> Seq<char> {
    let adj = replace_all(
        k,
        seq!['_', 'L', 'I', 'S', 'T', '_', 'B', 'E', 'G', '_'],
        seq!['_', 'B', 'E', 'G', '_'],
    );
    if last_sep(adj) >= 0 && last_sep(canonical(adj)) >= 0 {
        canonical(canonical(adj))
    } else {
        Seq::empty()
    }
}

/// Whether a scope name looks like a begin-type tag.
pub open spec fn is_begin_type(k: Seq<char>) -> bool {
    contains(k, seq!['B', 'E', 'G', 'I', 'N']) || contains(k, seq!['B', 'E', 'G']) || contains(
        k,
        seq!['S', 'T', 'A', 'R', 'T'],
    ) || contains(k, seq!['P', 'T', 'R', 'E', 'E'])
}

/// The depth recorded for `key`: the first pair with that name.
pub open spec fn depth_get(d: Seq<(Seq<char>, nat)>, key: Seq<char>) -> Option<nat>
    decreases d.len(),
{
    if d.len() == 0 {
        None
    } else if d[0].0 == key {
        Some(d[0].1)
    } else {
        depth_get(d.drop_first(), key)
    }
}

/// `d` without the pairs named `key`.
pub open spec fn depth_remove(d: Seq<(Seq<char>, nat)>, key: Seq<char>) -> Seq<(Seq<char>, nat)>
    decreases d.len(),
{
    if d.len() == 0 {
        d
    } else if d.last().0 == key {
        depth_remove(d.drop_last(), key)
    } else {
        depth_remove(d.drop_last(), key).push(d.last())
    }
}

/// The last pair of greatest depth.
pub open spec fn depth_max(d: Seq<(Seq<char>, nat)>) -> Option<(Seq<char>, nat)>
    decreases d.len(),
{
    if d.len() == 0 {
        None
    } else {
        match depth_max(d.drop_last()) {
            None => Some(d.last()),
            Some(m) => if d.last().1 >= m.1 {
                Some(d.last())
            } else {
                Some(m)
            },
        }
    }
}

/// The name of the deepest open scope, or the empty name.
pub open spec fn depth_max_key(d: Seq<(Seq<char>, nat)>) -> Seq<char> {
    match depth_max(d) {
        Some(m) => m.0,
        None => Seq::empty(),
    }
}

/// The begin name that an end name closes: the first candidate with a
/// recorded depth, or the empty name.
pub open spec fn end_key(d: Seq<(Seq<char>, nat)>, name: Seq<char>) -> Seq<char> {
    let end_ = seq!['_', 'E', 'N', 'D', '_'];
    let c1 = replace_all(name, end_, seq!['_', 'B', 'E', 'G', '_']);
    let c2 = replace_all(name, end_, seq!['_', 'B', 'E', 'G', 'I', 'N', '_']);
    let c3 = replace_all(name, end_, seq!['_', 'S', 'T', 'A', 'R', 'T', '_']);
    let c4 = replace_all(name, seq!['_', 'P', 'T', 'R', 'E', 'E'], seq!['P', 'T', 'R', 'E', 'E']);
    if depth_get(d, c1) is Some {
        c1
    } else if depth_get(d, c2) is Some {
        c2
    } else if depth_get(d, c3) is Some {
        c3
    } else if depth_get(d, c4) is Some {
        c4
    } else {
        Seq::empty()
    }
}

/// The first entry of `list` named like `f` takes over `f`'s children and
/// terminator flag.
pub open spec fn adopt(list: Seq<EntryView>, f: EntryView) -> Seq<EntryView> {
    let i = crate::layout::first_index(list.map_values(|e: EntryView| e.name), f.name);
    if i < 0 {
        list
    } else {
        list.update(i, EntryView { children: f.children, end_terminator: f.end_terminator, ..list[i] })
    }
}

pub open spec fn with_child(e: EntryView, n: EntryView) -> EntryView {
    EntryView { children: e.children.push(n), ..e }
}

/// `n` as the last child of the innermost open scope, or at the top level.
pub open spec fn attach(st: BuildState, n: EntryView) -> BuildState {
    if st.stack.len() == 0 {
        BuildState { output: st.output.push(n), ..st }
    } else {
        BuildState {
            stack: st.stack.update(st.stack.len() - 1, with_child(st.stack.last(), n)),
            ..st
        }
    }
}

/// `n` as the last child of the innermost scope's last child; one level up
/// where that child does not exist.
pub open spec fn attach_to_last_child(st: BuildState, n: EntryView) -> BuildState {
    if st.stack.len() == 0 || st.stack.last().children.len() == 0 {
        attach(st, n)
    } else {
        let top = st.stack.last();
        let lc = top.children.last();
        let top2 = EntryView {
            children: top.children.update(top.children.len() - 1, with_child(lc, n)),
            ..top
        };
        BuildState { stack: st.stack.update(st.stack.len() - 1, top2), ..st }
    }
}

/// Closes the innermost scope; its copy in the enclosing scope, or at the
/// top level where none is open, takes over its contents.
pub open spec fn close_scope(st: BuildState) -> BuildState {
    if st.stack.len() == 0 {
        st
    } else {
        let f = st.stack.last();
        let s2 = st.stack.drop_last();
        if s2.len() > 0 {
            let p = s2.last();
            BuildState {
                stack: s2.update(s2.len() - 1, EntryView { children: adopt(p.children, f), ..p }),
                ..st
            }
        } else {
            BuildState { stack: s2, output: adopt(st.output, f), ..st }
        }
    }
}

/// Closes the innermost scope into the top-level list.
pub open spec fn close_scope_to_output(st: BuildState) -> BuildState {
    if st.stack.len() == 0 {
        st
    } else {
        BuildState {
            stack: st.stack.drop_last(),
            output: adopt(st.output, st.stack.last()),
            ..st
        }
    }
}

/// Closes the innermost scope into the enclosing one (lost where none is
/// open), and forgets the scope's depth record.
pub open spec fn close_scope_implicitly(st: BuildState, key: Seq<char>) -> BuildState {
    if st.stack.len() == 0 {
        st
    } else {
        let f = st.stack.last();
        let s2 = st.stack.drop_last();
        let d2 = depth_remove(st.depth, key);
        if s2.len() > 0 {
            let p = s2.last();
            BuildState {
                stack: s2.update(s2.len() - 1, EntryView { children: adopt(p.children, f), ..p }),
                output: st.output,
                depth: d2,
            }
        } else {
            BuildState { stack: s2, output: st.output, depth: d2 }
        }
    }
}

pub open spec fn open_scope(st: BuildState, n: EntryView) -> BuildState {
    BuildState {
        stack: st.stack.push(n),
        depth: st.depth.push((n.name, st.stack.len() + 1)),
        ..st
    }
}

pub open spec fn mark_top_terminated(st: BuildState) -> BuildState {
    if st.stack.len() == 0 {
        st
    } else {
        BuildState {
            stack: st.stack.update(
                st.stack.len() - 1,
                EntryView { end_terminator: true, ..st.stack.last() },
            ),
            ..st
        }
    }
}

pub open spec fn fresh(name: Seq<char>, vars: Seq<VariableView>, term: bool) -> EntryView {
    EntryView { name, variables: vars, children: Seq::empty(), end_terminator: term }
}

/// One record of the flat stream, of kind `k`, applied to the state.
pub open spec fn step(st: BuildState, r: EntryView, k: RecordKind) -> BuildState {
    let name = r.name;
    let n = fresh(name, r.variables, false);
    if k.begin {
        let base = base_name(depth_max_key(st.depth));
        let st1 = if st.stack.len() > 0 && starts_with(name, base) && k.plain_begin {
            attach_to_last_child(st, n)
        } else {
            attach(st, n)
        };
        open_scope(st1, n)
    } else if k.end {
        let st1 = mark_top_terminated(st);
        let key = end_key(st1.depth, name);
        if st1.depth.len() > 1 {
            if depth_get(st1.depth, key) is Some {
                let st2 = close_scope(st1);
                BuildState { depth: depth_remove(st2.depth, key), ..st2 }
            } else {
                st1
            }
        } else {
            let st2 = close_scope_to_output(st1);
            BuildState { depth: depth_remove(st2.depth, key), ..st2 }
        }
    } else if st.depth.len() == 0 {
        BuildState { output: st.output.push(fresh(name, r.variables, true)), ..st }
    } else {
        let maxk = depth_max_key(st.depth);
        if !starts_with(name, base_name(maxk)) {
            if !is_begin_type(maxk) && !contains(name, seq!['_', 'P', 'T', 'R', 'E', 'E']) {
                attach(close_scope_implicitly(st, maxk), n)
            } else if st.stack.len() > 0 && st.stack.last().children.len() > 0 {
                open_scope(attach_to_last_child(st, n), n)
            } else {
                attach(st, n)
            }
        } else {
            attach(st, n)
        }
    }
}

/// The state after the whole stream, `ts` holding each record's
/// lower-cased type segment.
pub open spec fn run(rs: Seq<EntryView>, ts: Seq<Seq<char>>) -> BuildState
    decreases rs.len(),
{
    if rs.len() == 0 {
        BuildState { stack: Seq::empty(), output: Seq::empty(), depth: Seq::empty() }
    } else {
        step(run(rs.drop_last(), ts.drop_last()), rs.last(), kind_of(rs.last().name, ts.last()))
    }
}

/// The forest that the flat stream `rs` describes, given each record's
/// lower-cased type segment.
pub open spec fn tree_with(rs: Seq<EntryView>, ts: Seq<Seq<char>>) -> Seq<EntryView> {
    run(rs, ts).output
}

/// The lower-cased type segment of each record.
pub open spec fn node_types(rs: Seq<EntryView>) -> Seq<Seq<char>> {
    rs.map_values(|e: EntryView| node_type(e.name))
}

/// The forest that the flat stream `rs` describes.
pub open spec fn tree_of(rs: Seq<EntryView>) -> Seq<EntryView> {
    tree_with(rs, node_types(rs))
}

pub open spec fn depth_view(d: Seq<(Vec<char>, usize)>) -> Seq<(Seq<char>, nat)> {
    d.map_values(|p: (Vec<char>, usize)| (p.0@, p.1 as nat))
}

fn node_type_exec(name: &[char]) -> (r: Vec<char>)
    ensures
        r@ == node_type(name@),
{
    let c = canonical_chars(name);
    proof {
        lemma_last_sep_bounds(c@);
    }
    let n = c.len();
    let seg = match last_sep_index(c.as_slice()) {
        None => c,
        Some(k) => vstd::slice::slice_to_vec(vstd::slice::slice_subrange(c.as_slice(), k + 1, n)),
    };
    assert(seg@ =~= last_segment(canonical(name@)));
    let t = lowercase(string_of(seg.as_slice()).as_str());
    chars_of(t.as_str())
}

fn base_name_exec(k: &[char]) -> (r: Vec<char>)
    ensures
        r@ == base_name(k@),
{
    let list_beg = vec!['_', 'L', 'I', 'S', 'T', '_', 'B', 'E', 'G', '_'];
    let beg = vec!['_', 'B', 'E', 'G', '_'];
    let adj = replace_all_exec(k, list_beg.as_slice(), beg.as_slice());
    if last_sep_index(adj.as_slice()).is_none() {
        return Vec::new();
    }
    let c1 = canonical_chars(adj.as_slice());
    if last_sep_index(c1.as_slice()).is_none() {
        return Vec::new();
    }
    canonical_chars(c1.as_slice())
}

fn is_begin_type_exec(k: &[char]) -> (r: bool)
    ensures
        r == is_begin_type(k@),
{
    let a = vec!['B', 'E', 'G', 'I', 'N'];
    let b = vec!['B', 'E', 'G'];
    let c = vec!['S', 'T', 'A', 'R', 'T'];
    let d = vec!['P', 'T', 'R', 'E', 'E'];
    contains_exec(k, a.as_slice()) || contains_exec(k, b.as_slice()) || contains_exec(
        k,
        c.as_slice(),
    ) || contains_exec(k, d.as_slice())
}

fn depth_get_exec(d: &Vec<(Vec<char>, usize)>, key: &[char]) -> (r: Option<usize>)
    ensures
        r matches Some(v) ==> depth_get(depth_view(d@), key@) == Some(v as nat),
        r is None <==> depth_get(depth_view(d@), key@) is None,
{
    let ghost dv = depth_view(d@);
    let mut i: usize = 0;
    assert(dv.subrange(0, dv.len() as int) =~= dv);
    while i < d.len()
        invariant
            i <= d@.len(),
            dv == depth_view(d@),
            depth_get(dv, key@) == depth_get(dv.subrange(i as int, dv.len() as int), key@),
        decreases d@.len() - i,
    {
        let ghost rest = dv.subrange(i as int, dv.len() as int);
        assert(rest.drop_first() =~= dv.subrange(i + 1, dv.len() as int));
        let same = d[i].0.len() == key.len() && starts_with_exec(d[i].0.as_slice(), key);
        assert(same == (dv[i as int].0 == key@)) by {
            if d@[i as int].0@.len() == key@.len() {
                assert(d@[i as int].0@.subrange(0, key@.len() as int) =~= d@[i as int].0@);
            }
        }
        if same {
            return Some(d[i].1);
        }
        i = i + 1;
    }
    None
}

fn depth_remove_exec(d: &Vec<(Vec<char>, usize)>, key: &[char]) -> (r: Vec<(Vec<char>, usize)>)
    ensures
        depth_view(r@) == depth_remove(depth_view(d@), key@),
{
    let ghost dv = depth_view(d@);
    let mut out: Vec<(Vec<char>, usize)> = Vec::new();
    let mut i: usize = 0;
    while i < d.len()
        invariant
            i <= d@.len(),
            dv == depth_view(d@),
            depth_view(out@) == depth_remove(dv.subrange(0, i as int), key@),
        decreases d@.len() - i,
    {
        let ghost pre = dv.subrange(0, i + 1);
        assert(pre.drop_last() =~= dv.subrange(0, i as int));
        let same = d[i].0.len() == key.len() && starts_with_exec(d[i].0.as_slice(), key);
        assert(same == (dv[i as int].0 == key@)) by {
            if d@[i as int].0@.len() == key@.len() {
                assert(d@[i as int].0@.subrange(0, key@.len() as int) =~= d@[i as int].0@);
            }
        }
        if !same {
            let k = vstd::slice::slice_to_vec(d[i].0.as_slice());
            out.push((k, d[i].1));
            assert(depth_view(out@) =~= depth_remove(pre, key@));
        }
        i = i + 1;
    }
    assert(dv.subrange(0, i as int) =~= dv);
    out
}

fn depth_max_key_exec(d: &Vec<(Vec<char>, usize)>) -> (r: Vec<char>)
    ensures
        r@ == depth_max_key(depth_view(d@)),
{
    let ghost dv = depth_view(d@);
    let mut best: Option<usize> = None;
    let mut i: usize = 0;
    while i < d.len()
        invariant
            i <= d@.len(),
            dv == depth_view(d@),
            best is None <==> depth_max(dv.subrange(0, i as int)) is None,
            best matches Some(b) ==> b < i && depth_max(dv.subrange(0, i as int)) == Some(dv[b as int]),
        decreases d@.len() - i,
    {
        assert(dv.subrange(0, i + 1).drop_last() =~= dv.subrange(0, i as int));
        match best {
            None => {
                best = Some(i);
            },
            Some(b) => {
                if d[i].1 >= d[b].1 {
                    best = Some(i);
                }
            },
        }
        i = i + 1;
    }
    assert(dv.subrange(0, i as int) =~= dv);
    match best {
        None => Vec::new(),
        Some(b) => vstd::slice::slice_to_vec(d[b].0.as_slice()),
    }
}

fn end_key_exec(d: &Vec<(Vec<char>, usize)>, name: &[char]) -> (r: Vec<char>)
    ensures
        r@ == end_key(depth_view(d@), name@),
{
    let end_ = vec!['_', 'E', 'N', 'D', '_'];
    let c1 = replace_all_exec(name, end_.as_slice(), vec!['_', 'B', 'E', 'G', '_'].as_slice());
    if depth_get_exec(d, c1.as_slice()).is_some() {
        return c1;
    }
    let c2 = replace_all_exec(name, end_.as_slice(), vec!['_', 'B', 'E', 'G', 'I', 'N', '_'].as_slice());
    if depth_get_exec(d, c2.as_slice()).is_some() {
        return c2;
    }
    let c3 = replace_all_exec(name, end_.as_slice(), vec!['_', 'S', 'T', 'A', 'R', 'T', '_'].as_slice());
    if depth_get_exec(d, c3.as_slice()).is_some() {
        return c3;
    }
    let c4 = replace_all_exec(
        name,
        vec!['_', 'P', 'T', 'R', 'E', 'E'].as_slice(),
        vec!['P', 'T', 'R', 'E', 'E'].as_slice(),
    );
    if depth_get_exec(d, c4.as_slice()).is_some() {
        return c4;
    }
    Vec::new()
}

pub open spec fn state_of(stack: Seq<Entry>, output: Seq<Entry>, depth: Seq<(Vec<char>, usize)>) -> BuildState {
    BuildState { stack: entries_view(stack), output: entries_view(output), depth: depth_view(depth) }
}

pub proof fn lemma_children_view(e: Entry)
    ensures
        entry_view(e).children == entries_view(e.children@),
{
    assert(entry_view(e).children =~= entries_view(e.children@));
}

fn copy_var(v: &Variable) -> (r: Variable)
    ensures
        r@ == v@,
{
    let value = match &v.value {
        VarValue::String(None) => VarValue::String(None),
        VarValue::String(Some(s)) => VarValue::String(Some(s.clone())),
        VarValue::Int(i) => VarValue::Int(*i),
        VarValue::Float(f) => VarValue::Float(*f),
        VarValue::Unknown(u) => VarValue::Unknown(*u),
    };
    Variable { var_type: v.var_type, value }
}

fn copy_vars(vs: &Vec<Variable>) -> (r: Vec<Variable>)
    ensures
        vars_view(r@) == vars_view(vs@),
{
    let mut out: Vec<Variable> = Vec::new();
    let mut i: usize = 0;
    while i < vs.len()
        invariant
            i <= vs@.len(),
            vars_view(out@) == vars_view(vs@.subrange(0, i as int)),
        decreases vs@.len() - i,
    {
        let ghost before = out@;
        let v = copy_var(&vs[i]);
        out.push(v);
        assert(out@ == before.push(v));
        assert(vars_view(out@) =~= vars_view(before).push(vs@[i as int]@));
        assert(vars_view(vs@.subrange(0, i + 1)) =~= vars_view(vs@.subrange(0, i as int)).push(vs@[i as int]@));
        i = i + 1;
    }
    assert(vs@.subrange(0, i as int) =~= vs@);
    out
}

fn fresh_entry(name: &String, vars: &Vec<Variable>, term: bool) -> (r: Entry)
    ensures
        r@ == fresh(name@, vars_view(vars@), term),
{
    let r = Entry { name: name.clone(), variables: copy_vars(vars), children: Vec::new(), end_terminator: term };
    assert(r@.children =~= Seq::<EntryView>::empty());
    r
}

fn push_child(e: &mut Entry, n: Entry)
    ensures
        final(e)@ == with_child(old(e)@, n@),
{
    proof {
        lemma_children_view(*e);
    }
    e.children.push(n);
    proof {
        lemma_children_view(*e);
        assert(entries_view(e.children@) =~= entries_view(old(e).children@).push(n@));
    }
}

fn adopt_exec(list: &mut Vec<Entry>, f: Entry)
    ensures
        entries_view(final(list)@) == adopt(entries_view(old(list)@), f@),
{
    let ghost names = entries_view(list@).map_values(|e: EntryView| e.name);
    let mut i: usize = 0;
    while i < list.len()
        invariant
            i <= list@.len(),
            list@ == old(list)@,
            names == entries_view(list@).map_values(|e: EntryView| e.name),
            forall|j: int| 0 <= j < i ==> names[j] != f.name@,
        decreases list@.len() - i,
    {
        if list[i].name == f.name {
            proof {
                lemma_first_index_skip(names, f.name@, i as int);
            }
            let mut tmp = Entry { name: String::new(), variables: Vec::new(), children: Vec::new(), end_terminator: false };
            list.set_and_swap(i, &mut tmp);
            let ghost old_e = tmp;
            tmp.children = f.children;
            tmp.end_terminator = f.end_terminator;
            proof {
                lemma_children_view(tmp);
                lemma_children_view(f);
                lemma_children_view(old_e);
                assert(tmp@ == EntryView { children: f@.children, end_terminator: f@.end_terminator, ..old_e@ });
            }
            list.set(i, tmp);
            assert(entries_view(list@) =~= adopt(entries_view(old(list)@), f@));
            return;
        }
        i = i + 1;
    }
    proof {
        lemma_first_index_skip(names, f.name@, i as int);
    }
}

fn attach_exec(stack: &mut Vec<Entry>, output: &mut Vec<Entry>, depth: &Vec<(Vec<char>, usize)>, n: Entry)
    ensures
        state_of(final(stack)@, final(output)@, depth@) == attach(state_of(old(stack)@, old(output)@, depth@), n@),
{
    match stack.pop() {
        None => {
            output.push(n);
            assert(entries_view(output@) =~= entries_view(old(output)@).push(n@));
        },
        Some(mut top) => {
            push_child(&mut top, n);
            stack.push(top);
            assert(entries_view(stack@) =~= entries_view(old(stack)@).update(
                old(stack)@.len() - 1,
                with_child(entries_view(old(stack)@).last(), n@),
            ));
        },
    }
}

fn attach_to_last_child_exec(
    stack: &mut Vec<Entry>,
    output: &mut Vec<Entry>,
    depth: &Vec<(Vec<char>, usize)>,
    n: Entry,
)
    ensures
        state_of(final(stack)@, final(output)@, depth@) == attach_to_last_child(
            state_of(old(stack)@, old(output)@, depth@),
            n@,
        ),
{
    let len = stack.len();
    if len == 0 || stack[len - 1].children.len() == 0 {
        proof {
            if len > 0 {
                lemma_children_view(stack@[len - 1]);
            }
        }
        attach_exec(stack, output, depth, n);
        return;
    }
    let mut top = stack.pop().unwrap();
    let ghost top0 = top;
    proof {
        lemma_children_view(top);
    }
    let mut lc = top.children.pop().unwrap();
    let ghost lc0 = lc;
    push_child(&mut lc, n);
    top.children.push(lc);
    proof {
        lemma_children_view(top);
        assert(entries_view(top.children@) =~= entries_view(top0.children@).update(
            top0.children@.len() - 1,
            with_child(lc0@, n@),
        ));
    }
    stack.push(top);
    assert(entries_view(stack@) =~= attach_to_last_child(state_of(old(stack)@, old(output)@, depth@), n@).stack);
}

fn close_scope_exec(stack: &mut Vec<Entry>, output: &mut Vec<Entry>, depth: &Vec<(Vec<char>, usize)>)
    ensures
        state_of(final(stack)@, final(output)@, depth@) == close_scope(state_of(old(stack)@, old(output)@, depth@)),
{
    match stack.pop() {
        None => {},
        Some(f) => {
            match stack.pop() {
                Some(mut p) => {
                    let ghost p0 = p;
                    proof {
                        lemma_children_view(p);
                    }
                    adopt_exec(&mut p.children, f);
                    proof {
                        lemma_children_view(p);
                        assert(p@ == EntryView { children: adopt(p0@.children, f@), ..p0@ });
                    }
                    stack.push(p);
                    assert(entries_view(stack@) =~= close_scope(state_of(old(stack)@, old(output)@, depth@)).stack);
                },
                None => {
                    adopt_exec(output, f);
                    assert(entries_view(stack@) =~= close_scope(state_of(old(stack)@, old(output)@, depth@)).stack);
                },
            }
        },
    }
}

fn close_scope_to_output_exec(stack: &mut Vec<Entry>, output: &mut Vec<Entry>, depth: &Vec<(Vec<char>, usize)>)
    ensures
        state_of(final(stack)@, final(output)@, depth@) == close_scope_to_output(
            state_of(old(stack)@, old(output)@, depth@),
        ),
{
    match stack.pop() {
        None => {},
        Some(f) => {
            adopt_exec(output, f);
            assert(entries_view(stack@) =~= entries_view(old(stack)@).drop_last());
        },
    }
}

fn close_scope_implicitly_exec(
    stack: &mut Vec<Entry>,
    output: &mut Vec<Entry>,
    depth: &mut Vec<(Vec<char>, usize)>,
    key: &[char],
)
    ensures
        state_of(final(stack)@, final(output)@, final(depth)@) == close_scope_implicitly(
            state_of(old(stack)@, old(output)@, old(depth)@),
            key@,
        ),
{
    match stack.pop() {
        None => {},
        Some(f) => {
            match stack.pop() {
                Some(mut p) => {
                    let ghost p0 = p;
                    proof {
                        lemma_children_view(p);
                    }
                    adopt_exec(&mut p.children, f);
                    proof {
                        lemma_children_view(p);
                        assert(p@ == EntryView { children: adopt(p0@.children, f@), ..p0@ });
                    }
                    stack.push(p);
                },
                None => {},
            }
            *depth = depth_remove_exec(depth, key);
            assert(entries_view(stack@) =~= close_scope_implicitly(
                state_of(old(stack)@, old(output)@, old(depth)@),
                key@,
            ).stack);
        },
    }
}

fn open_scope_exec(stack: &mut Vec<Entry>, output: &Vec<Entry>, depth: &mut Vec<(Vec<char>, usize)>, n: Entry)
    ensures
        state_of(final(stack)@, output@, final(depth)@) == open_scope(state_of(old(stack)@, output@, old(depth)@), n@),
{
    let key = chars_of(n.name.as_str());
    stack.push(n);
    let len = stack.len();
    depth.push((key, len));
    assert(entries_view(stack@) =~= entries_view(old(stack)@).push(n@));
    assert(depth_view(depth@) =~= depth_view(old(depth)@).push((n@.name, (old(stack)@.len() + 1) as nat)));
}

fn mark_top_terminated_exec(stack: &mut Vec<Entry>, output: &Vec<Entry>, depth: &Vec<(Vec<char>, usize)>)
    ensures
        state_of(final(stack)@, output@, depth@) == mark_top_terminated(state_of(old(stack)@, output@, depth@)),
{
    match stack.pop() {
        None => {},
        Some(mut top) => {
            let ghost t0 = top;
            proof {
                lemma_children_view(top);
            }
            top.end_terminator = true;
            proof {
                lemma_children_view(top);
                assert(top@ == EntryView { end_terminator: true, ..t0@ });
            }
            stack.push(top);
            assert(entries_view(stack@) =~= mark_top_terminated(state_of(old(stack)@, output@, depth@)).stack);
        },
    }
}

impl CfgBin {
    /// Rebuilds the tree from the flat record stream (names already carry
    /// their occurrence index), given each record's lower-cased type
    /// segment. Nesting is inferred from the names alone:
    /// begin records open a scope, end records close the matching one, and
    /// a plain record either joins the innermost scope, closes it, or nests
    /// below its last child. Where a rule refers to a scope or a child
    /// that does not exist, the record goes one level up instead; a plain
    /// record that would nest below a missing last child joins the
    /// innermost scope as an ordinary child.
    pub fn build_tree(entries: Vec<Entry>, lowered_types: &Vec<Vec<char>>) -> (r: Vec<Entry>)
        requires
            lowered_types@.len() == entries@.len(),
        ensures
            entries_view(r@) == tree_with(entries_view(entries@), lowered_types@.map_values(|t: Vec<char>| t@)),
    {
        let ghost ev = entries_view(entries@);
        let ghost tv = lowered_types@.map_values(|t: Vec<char>| t@);
        let mut stack: Vec<Entry> = Vec::new();
        let mut output: Vec<Entry> = Vec::new();
        let mut depth: Vec<(Vec<char>, usize)> = Vec::new();
        assert(entries_view(stack@) =~= Seq::<EntryView>::empty());
        assert(entries_view(output@) =~= Seq::<EntryView>::empty());
        assert(depth_view(depth@) =~= Seq::<(Seq<char>, nat)>::empty());
        assert(state_of(stack@, output@, depth@) == run(ev.subrange(0, 0), tv.subrange(0, 0)));
        let mut i: usize = 0;
        while i < entries.len()
            invariant
                i <= entries@.len(),
                ev == entries_view(entries@),
                tv == lowered_types@.map_values(|t: Vec<char>| t@),
                tv.len() == ev.len(),
                state_of(stack@, output@, depth@) == run(ev.subrange(0, i as int), tv.subrange(0, i as int)),
            decreases entries@.len() - i,
        {
            let ghost st0 = state_of(stack@, output@, depth@);
            let ghost r = ev[i as int];
            assert(ev.subrange(0, i + 1).drop_last() =~= ev.subrange(0, i as int));
            assert(tv.subrange(0, i + 1).drop_last() =~= tv.subrange(0, i as int));
            let name = &entries[i].name;
            let variables = &entries[i].variables;
            assert(r.name == name@ && r.variables == vars_view(variables@));
            let name_v = chars_of(name.as_str());
            let has_ptree = contains_exec(name_v.as_slice(), vec!['_', 'P', 'T', 'R', 'E', 'E'].as_slice());
            let kind = record_kind(name_v.as_slice(), lowered_types[i].as_slice());
            let ghost k = kind_of(r.name, tv[i as int]);
            assert(kind == k);
            let is_begin = kind.begin;
            let is_end = kind.end;
            if is_begin {
                let n = fresh_entry(name, variables, false);
                let n2 = fresh_entry(name, variables, false);
                let maxk = depth_max_key_exec(&depth);
                let base = base_name_exec(maxk.as_slice());
                if stack.len() > 0 && starts_with_exec(name_v.as_slice(), base.as_slice()) && kind.plain_begin {
                    attach_to_last_child_exec(&mut stack, &mut output, &depth, n);
                } else {
                    attach_exec(&mut stack, &mut output, &depth, n);
                }
                open_scope_exec(&mut stack, &output, &mut depth, n2);
            } else if is_end {
                mark_top_terminated_exec(&mut stack, &output, &depth);
                let key = end_key_exec(&depth, name_v.as_slice());
                if depth.len() > 1 {
                    if depth_get_exec(&depth, key.as_slice()).is_some() {
                        close_scope_exec(&mut stack, &mut output, &depth);
                        depth = depth_remove_exec(&depth, key.as_slice());
                    }
                } else {
                    close_scope_to_output_exec(&mut stack, &mut output, &depth);
                    depth = depth_remove_exec(&depth, key.as_slice());
                }
            } else if depth.len() == 0 {
                let n = fresh_entry(name, variables, true);
                output.push(n);
                assert(entries_view(output@) =~= st0.output.push(n@));
            } else {
                let maxk = depth_max_key_exec(&depth);
                let base = base_name_exec(maxk.as_slice());
                let n = fresh_entry(name, variables, false);
                if !starts_with_exec(name_v.as_slice(), base.as_slice()) {
                    if !is_begin_type_exec(maxk.as_slice()) && !has_ptree {
                        close_scope_implicitly_exec(&mut stack, &mut output, &mut depth, maxk.as_slice());
                        attach_exec(&mut stack, &mut output, &depth, n);
                    } else if stack.len() > 0 && stack[stack.len() - 1].children.len() > 0 {
                        proof {
                            lemma_children_view(stack@[stack@.len() - 1]);
                        }
                        let n2 = fresh_entry(name, variables, false);
                        attach_to_last_child_exec(&mut stack, &mut output, &depth, n);
                        open_scope_exec(&mut stack, &output, &mut depth, n2);
                    } else {
                        proof {
                            if stack@.len() > 0 {
                                lemma_children_view(stack@[stack@.len() - 1]);
                            }
                        }
                        attach_exec(&mut stack, &mut output, &depth, n);
                    }
                } else {
                    attach_exec(&mut stack, &mut output, &depth, n);
                }
            }
            assert(state_of(stack@, output@, depth@) == step(st0, r, k));
            i = i + 1;
        }
        assert(ev.subrange(0, i as int) =~= ev);
        assert(tv.subrange(0, i as int) =~= tv);
        output
    }

    /// Rebuilds the tree from the flat record stream, reading each
    /// record's type segment lower-cased.
    pub fn process_entries(entries: Vec<Entry>) -> (r: Vec<Entry>)
        ensures
            entries_view(r@) == tree_of(entries_view(entries@)),
    {
        let ghost ev = entries_view(entries@);
        let mut types: Vec<Vec<char>> = Vec::new();
        let mut i: usize = 0;
        while i < entries.len()
            invariant
                i <= entries@.len(),
                ev == entries_view(entries@),
                types@.map_values(|t: Vec<char>| t@) == node_types(ev).subrange(0, i as int),
            decreases entries@.len() - i,
        {
            let name_v = chars_of(entries[i].name.as_str());
            let t = node_type_exec(name_v.as_slice());
            assert(ev[i as int].name == entries@[i as int].name@);
            assert(t@ == node_types(ev)[i as int]);
            let ghost before = types@;
            types.push(t);
            assert(types@.map_values(|t: Vec<char>| t@) =~= before.map_values(|t: Vec<char>| t@).push(node_types(ev)[i as int]));
            i = i + 1;
            assert(types@.map_values(|t: Vec<char>| t@) =~= node_types(ev).subrange(0, i as int));
        }
        assert(node_types(ev).subrange(0, i as int) =~= node_types(ev));
        Self::build_tree(entries, &types)
    }
}

} // verus!
