//! Sequential text correlation: every text field numbered in document
//! order (entries before their children), read out and written back.
use vstd::prelude::*;
use crate::model::{entries_view, entry_view, vars_view, CfgBin, Entry, EntryView, TextEntry, ValueView, VarValue, Variable, VariableView};
use crate::names::canonical;

verus! {

/// An absent text reads as the empty text.
pub open spec fn text_or_empty(o: Option<Seq<char>>) -> Seq<char> {
    match o {
        Some(s) => s,
        None => Seq::empty(),
    }
}

/// The text fields of a parameter list: entry name, parameter position, text.
pub open spec fn var_texts(name: Seq<char>, vs: Seq<VariableView>) -> Seq<(Seq<char>, nat, Seq<char>)>
    decreases vs.len(),
{
    if vs.len() == 0 {
        Seq::empty()
    } else {
        match vs.last().value {
            ValueView::Str(o) => var_texts(name, vs.drop_last()).push(
                (name, (vs.len() - 1) as nat, text_or_empty(o)),
            ),
            _ => var_texts(name, vs.drop_last()),
        }
    }
}

pub open spec fn entry_texts(e: EntryView) -> Seq<(Seq<char>, nat, Seq<char>)>
    decreases e, 1nat,
{
    var_texts(canonical(e.name), e.variables) + list_texts(e.children)
}

pub open spec fn list_texts(es: Seq<EntryView>) -> Seq<(Seq<char>, nat, Seq<char>)>
    decreases es, 0nat,
{
    if es.len() == 0 {
        Seq::empty()
    } else {
        list_texts(es.drop_last()) + entry_texts(es.last())
    }
}

pub open spec fn text_entry_view(t: TextEntry) -> (nat, Seq<char>, nat, Seq<char>) {
    (t.index as nat, t.entry@, t.variable_index as nat, t.value@)
}

/// The text list of `items`, numbered from 0.
pub open spec fn numbered(items: Seq<(Seq<char>, nat, Seq<char>)>) -> Seq<(nat, Seq<char>, nat, Seq<char>)> {
    Seq::new(items.len(), |i: int| (i as nat, items[i].0, items[i].1, items[i].2))
}

/// The value of the first update for index `g`.
pub open spec fn first_text(t: Seq<TextEntry>, g: nat) -> Option<Seq<char>>
    decreases t.len(),
{
    if t.len() == 0 {
        None
    } else if t[0].index as nat == g {
        Some(t[0].value@)
    } else {
        first_text(t.drop_first(), g)
    }
}

/// A text parameter numbered `g` after the updates; an empty update value
/// makes the text absent.
pub open spec fn update_var(v: VariableView, t: Seq<TextEntry>, g: nat) -> VariableView {
    match v.value {
        ValueView::Str(_) => match first_text(t, g) {
            Some(val) => VariableView {
                value: ValueView::Str(
                    if val.len() == 0 {
                        None
                    } else {
                        Some(val)
                    },
                ),
                ..v
            },
            None => v,
        },
        _ => v,
    }
}

pub open spec fn str_count(vs: Seq<VariableView>) -> nat
    decreases vs.len(),
{
    if vs.len() == 0 {
        0
    } else {
        str_count(vs.drop_last()) + if vs.last().value is Str {
            1nat
        } else {
            0nat
        }
    }
}

pub open spec fn entry_str_count(e: EntryView) -> nat
    decreases e, 1nat,
{
    str_count(e.variables) + list_str_count(e.children)
}

pub open spec fn list_str_count(es: Seq<EntryView>) -> nat
    decreases es, 0nat,
{
    if es.len() == 0 {
        0
    } else {
        list_str_count(es.drop_last()) + entry_str_count(es.last())
    }
}

/// Parameters whose first text is numbered `g`, after the updates.
pub open spec fn update_vars(vs: Seq<VariableView>, t: Seq<TextEntry>, g: nat) -> Seq<VariableView>
    decreases vs.len(),
{
    if vs.len() == 0 {
        vs
    } else {
        update_vars(vs.drop_last(), t, g).push(
            update_var(vs.last(), t, g + str_count(vs.drop_last())),
        )
    }
}

pub open spec fn update_entry(e: EntryView, t: Seq<TextEntry>, g: nat) -> EntryView
    decreases e, 1nat,
{
    EntryView {
        variables: update_vars(e.variables, t, g),
        children: update_list(e.children, t, g + str_count(e.variables)),
        ..e
    }
}

pub open spec fn update_list(es: Seq<EntryView>, t: Seq<TextEntry>, g: nat) -> Seq<EntryView>
    decreases es, 0nat,
{
    if es.len() == 0 {
        es
    } else {
        update_list(es.drop_last(), t, g).push(
            update_entry(es.last(), t, g + list_str_count(es.drop_last())),
        )
    }
}

pub open spec fn numbered_from(items: Seq<(Seq<char>, nat, Seq<char>)>, base: nat) -> Seq<
    (nat, Seq<char>, nat, Seq<char>),
> {
    Seq::new(items.len(), |i: int| ((base + i) as nat, items[i].0, items[i].1, items[i].2))
}

pub open spec fn texts_view(v: Seq<TextEntry>) -> Seq<(nat, Seq<char>, nat, Seq<char>)> {
    v.map_values(|t: TextEntry| text_entry_view(t))
}

proof fn lemma_numbered_concat(a: Seq<(Seq<char>, nat, Seq<char>)>, b: Seq<(Seq<char>, nat, Seq<char>)>, base: nat)
    ensures
        numbered_from(a + b, base) == numbered_from(a, base) + numbered_from(b, base + a.len()),
{
    assert(numbered_from(a + b, base) =~= numbered_from(a, base) + numbered_from(b, base + a.len()));
}

impl CfgBin {
    /// Appends the text fields of `entry` and its descendants, numbered on
    /// from the texts already there.
    fn collect_texts_recursive(entry: &Entry, texts: &mut Vec<TextEntry>)
        ensures
            texts_view(final(texts)@) == texts_view(old(texts)@) + numbered_from(
                entry_texts(entry@),
                old(texts)@.len(),
            ),
        decreases entry,
    {
        let ghost e = entry@;
        let entry_name = entry.get_name();
        let mut j: usize = 0;
        while j < entry.variables.len()
            invariant
                e == entry@,
                entry_name@ == canonical(e.name),
                j <= entry.variables@.len(),
                texts_view(texts@) == texts_view(old(texts)@) + numbered_from(
                    var_texts(canonical(e.name), e.variables.subrange(0, j as int)),
                    old(texts)@.len(),
                ),
            decreases entry.variables@.len() - j,
        {
            let ghost sub = e.variables.subrange(0, j + 1);
            assert(sub.drop_last() =~= e.variables.subrange(0, j as int));
            assert(sub.last() == entry.variables@[j as int]@);
            let ghost before = texts_view(texts@);
            let ghost prev = var_texts(canonical(e.name), sub.drop_last());
            match &entry.variables[j].value {
                VarValue::String(opt) => {
                    let value = match opt {
                        Some(s) => s.clone(),
                        None => String::new(),
                    };
                    let idx = texts.len();
                    texts.push(TextEntry { index: idx, entry: entry_name.clone(), variable_index: j, value });
                    proof {
                        lemma_numbered_concat(prev, seq![(canonical(e.name), j as nat, text_or_empty(sub.last().value->Str_0))], old(texts)@.len() as nat);
                        assert(texts_view(texts@) =~= before.push(text_entry_view(texts@.last())));
                    }
                },
                _ => {
                    assert(texts_view(texts@) =~= before);
                },
            }
            j = j + 1;
        }
        assert(e.variables.subrange(0, j as int) =~= e.variables);
        let ghost own = var_texts(canonical(e.name), e.variables);
        let mut c: usize = 0;
        while c < entry.children.len()
            invariant
                e == entry@,
                c <= entry.children@.len(),
                texts_view(texts@) == texts_view(old(texts)@) + numbered_from(
                    own + list_texts(e.children.subrange(0, c as int)),
                    old(texts)@.len(),
                ),
            decreases entry.children@.len() - c,
        {
            let ghost before = texts@;
            Self::collect_texts_recursive(&entry.children[c], texts);
            assert(e.children[c as int] == entry.children@[c as int]@);
            let ghost pre = own + list_texts(e.children.subrange(0, c as int));
            assert(e.children.subrange(0, c + 1).drop_last() =~= e.children.subrange(0, c as int));
            assert(own + list_texts(e.children.subrange(0, c + 1)) =~= pre + entry_texts(e.children[c as int]));
            proof {
                lemma_numbered_concat(pre, entry_texts(e.children[c as int]), old(texts)@.len() as nat);
            }
            c = c + 1;
        }
        assert(e.children.subrange(0, c as int) =~= e.children);
    }

    /// Every text field of the document, numbered in order: entries before
    /// their children. An absent text reads as empty.
    pub fn extract_texts(&self) -> (r: Vec<TextEntry>)
        ensures
            texts_view(r@) == numbered(list_texts(self.entries_view())),
    {
        let ghost es = self.entries_view();
        let mut texts: Vec<TextEntry> = Vec::new();
        let mut i: usize = 0;
        assert(texts_view(texts@) =~= numbered_from(list_texts(es.subrange(0, 0)), 0));
        while i < self.entries.len()
            invariant
                es == self.entries_view(),
                i <= self.entries@.len(),
                texts_view(texts@) == numbered_from(list_texts(es.subrange(0, i as int)), 0),
            decreases self.entries@.len() - i,
        {
            Self::collect_texts_recursive(&self.entries[i], &mut texts);
            assert(es.subrange(0, i + 1).drop_last() =~= es.subrange(0, i as int));
            proof {
                lemma_numbered_concat(list_texts(es.subrange(0, i as int)), entry_texts(es[i as int]), 0);
            }
            i = i + 1;
        }
        assert(es.subrange(0, i as int) =~= es);
        assert(numbered(list_texts(es)) =~= numbered_from(list_texts(es), 0));
        texts
    }
}

/// `gi` stands for the text number `g`; `None` for one past every `usize`.
pub open spec fn index_rep(gi: Option<usize>, g: nat) -> bool {
    match gi {
        Some(x) => x as nat == g,
        None => g > usize::MAX,
    }
}

proof fn lemma_first_text_large(t: Seq<TextEntry>, g: nat)
    requires
        g > usize::MAX,
    ensures
        first_text(t, g) is None,
    decreases t.len(),
{
    if t.len() > 0 {
        lemma_first_text_large(t.drop_first(), g);
    }
}

fn next_index(gi: Option<usize>, Ghost(g): Ghost<nat>) -> (r: Option<usize>)
    requires
        index_rep(gi, g),
    ensures
        index_rep(r, g + 1),
{
    match gi {
        Some(x) => x.checked_add(1),
        None => None,
    }
}

/// The value of the first update numbered `gi`.
fn find_text(texts: &[TextEntry], gi: Option<usize>, Ghost(g): Ghost<nat>) -> (r: Option<String>)
    requires
        index_rep(gi, g),
    ensures
        r matches Some(v) ==> first_text(texts@, g) == Some(v@),
        r is None <==> first_text(texts@, g) is None,
{
    let x = match gi {
        None => {
            proof {
                lemma_first_text_large(texts@, g);
            }
            return None;
        },
        Some(x) => x,
    };
    let mut i: usize = 0;
    assert(texts@.subrange(0, texts@.len() as int) =~= texts@);
    while i < texts.len()
        invariant
            i <= texts@.len(),
            x as nat == g,
            first_text(texts@, g) == first_text(texts@.subrange(i as int, texts@.len() as int), g),
        decreases texts@.len() - i,
    {
        assert(texts@.subrange(i as int, texts@.len() as int).drop_first() =~= texts@.subrange(
            i + 1,
            texts@.len() as int,
        ));
        if texts[i].index == x {
            return Some(texts[i].value.clone());
        }
        i = i + 1;
    }
    None
}

impl CfgBin {
    fn update_texts_recursive(
        entry: &mut Entry,
        texts: &[TextEntry],
        global_index: &mut Option<usize>,
        Ghost(g): Ghost<nat>,
    )
        requires
            index_rep(*old(global_index), g),
        ensures
            final(entry)@ == update_entry(old(entry)@, texts@, g),
            index_rep(*final(global_index), g + entry_str_count(old(entry)@)),
        decreases old(entry)@,
    {
        let ghost e = entry@;
        proof {
            crate::tree::lemma_children_view(*entry);
        }
        let mut j: usize = 0;
        while j < entry.variables.len()
            invariant
                e == old(entry)@,
                entry.name == old(entry).name,
                entry.children == old(entry).children,
                entry.end_terminator == old(entry).end_terminator,
                j <= entry.variables@.len(),
                entry.variables@.len() == e.variables.len(),
                forall|k: int| j <= k < e.variables.len() ==> #[trigger] entry.variables@[k]@ == e.variables[k],
                vars_view(entry.variables@).subrange(0, j as int) == update_vars(e.variables.subrange(0, j as int), texts@, g),
                index_rep(*global_index, g + str_count(e.variables.subrange(0, j as int))),
            decreases entry.variables@.len() - j,
        {
            let ghost sub = e.variables.subrange(0, j + 1);
            assert(sub.drop_last() =~= e.variables.subrange(0, j as int));
            let ghost gj = g + str_count(sub.drop_last());
            let ghost before = vars_view(entry.variables@);
            assert(entry.variables@[j as int]@ == e.variables[j as int]);
            let is_text = match &entry.variables[j].value {
                VarValue::String(_) => true,
                _ => false,
            };
            if is_text {
                match find_text(texts, *global_index, Ghost(gj)) {
                    Some(v) => {
                        let t = entry.variables[j].var_type;
                        let nv = if v.as_str().is_empty() {
                            VarValue::String(None)
                        } else {
                            VarValue::String(Some(v))
                        };
                        entry.variables.set(j, Variable { var_type: t, value: nv });
                    },
                    None => {},
                }
                *global_index = next_index(*global_index, Ghost(gj));
            }
            assert(vars_view(entry.variables@)[j as int] == update_var(e.variables[j as int], texts@, gj));
            assert(vars_view(entry.variables@).subrange(0, j + 1) =~= update_vars(sub, texts@, g));
            j = j + 1;
        }
        assert(e.variables.subrange(0, j as int) =~= e.variables);
        assert(vars_view(entry.variables@).subrange(0, j as int) =~= vars_view(entry.variables@));
        let ghost g2 = g + str_count(e.variables);
        let mut c: usize = 0;
        while c < entry.children.len()
            invariant
                e == old(entry)@,
                entry.name == old(entry).name,
                entry.end_terminator == old(entry).end_terminator,
                vars_view(entry.variables@) == update_vars(e.variables, texts@, g),
                c <= entry.children@.len(),
                entry.children@.len() == e.children.len(),
                forall|k: int| c <= k < e.children.len() ==> #[trigger] entry.children@[k]@ == e.children[k],
                entries_view(entry.children@).subrange(0, c as int) == update_list(e.children.subrange(0, c as int), texts@, g2),
                index_rep(*global_index, g2 + list_str_count(e.children.subrange(0, c as int))),
            decreases entry.children@.len() - c,
        {
            let ghost sub = e.children.subrange(0, c + 1);
            assert(sub.drop_last() =~= e.children.subrange(0, c as int));
            let ghost gc = g2 + list_str_count(sub.drop_last());
            let mut child = Entry { name: String::new(), variables: Vec::new(), children: Vec::new(), end_terminator: false };
            entry.children.set_and_swap(c, &mut child);
            assert(child@ == e.children[c as int]);
            assert(decreases_to!(e => e.children[c as int]));
            Self::update_texts_recursive(&mut child, texts, global_index, Ghost(gc));
            entry.children.set(c, child);
            assert(entries_view(entry.children@).subrange(0, c + 1) =~= update_list(sub, texts@, g2));
            c = c + 1;
        }
        assert(e.children.subrange(0, c as int) =~= e.children);
        assert(entries_view(entry.children@).subrange(0, c as int) =~= entries_view(entry.children@));
        proof {
            crate::tree::lemma_children_view(*entry);
        }
        assert(entry@ == update_entry(e, texts@, g));
    }

    /// Replaces the text fields named by `texts`: the field numbered
    /// `index` in document order takes the first matching update's value,
    /// and an empty value makes it absent.
    pub fn update_texts(&mut self, texts: &[TextEntry])
        ensures
            final(self).entries_view() == update_list(old(self).entries_view(), texts@, 0),
            final(self).encoding == old(self).encoding,
            final(self).footer_encoding == old(self).footer_encoding,
    {
        let ghost es = self.entries_view();
        let mut global_index: Option<usize> = Some(0);
        let mut i: usize = 0;
        while i < self.entries.len()
            invariant
                es == old(self).entries_view(),
                self.encoding == old(self).encoding,
                self.footer_encoding == old(self).footer_encoding,
                i <= self.entries@.len(),
                self.entries@.len() == es.len(),
                forall|k: int| i <= k < es.len() ==> #[trigger] self.entries@[k]@ == es[k],
                entries_view(self.entries@).subrange(0, i as int) == update_list(es.subrange(0, i as int), texts@, 0),
                index_rep(global_index, list_str_count(es.subrange(0, i as int))),
            decreases self.entries@.len() - i,
        {
            let ghost sub = es.subrange(0, i + 1);
            assert(sub.drop_last() =~= es.subrange(0, i as int));
            let mut e = Entry { name: String::new(), variables: Vec::new(), children: Vec::new(), end_terminator: false };
            self.entries.set_and_swap(i, &mut e);
            Self::update_texts_recursive(&mut e, texts, &mut global_index, Ghost(list_str_count(sub.drop_last())));
            self.entries.set(i, e);
            assert(entries_view(self.entries@).subrange(0, i + 1) =~= update_list(sub, texts@, 0));
            i = i + 1;
        }
        assert(es.subrange(0, i as int) =~= es);
        assert(entries_view(self.entries@).subrange(0, i as int) =~= entries_view(self.entries@));
    }
}

} // verus!
