//! RegXML metadictionaries (SMPTE ST 2001-1 Annex A) and collections of them.
use vstd::prelude::*;

use super::assoc::{
    assoc_map, keys_unique, lemma_assoc_absent, lemma_assoc_dom, lemma_assoc_first, lemma_assoc_len,
    lemma_assoc_push, lemma_assoc_update,
};
use super::definition::{def_common, ClassDefinition, Definition, DefinitionView};
use super::error::DictError;
use super::resolver::DefinitionResolver;
use crate::text::str_eq;
use crate::types::Auid;

verus! {

/// A single RegXML metadictionary (SMPTE ST 2001-1 Annex A).
#[derive(Debug)]
pub struct MetaDictionary {
    pub scheme_id: String,
    pub scheme_uri: String,
    definitions: Vec<Definition>,
    symbols: Vec<(String, Auid)>,
    /// class AUID → property AUIDs
    members_of: Vec<(Auid, Vec<Auid>)>,
    /// parent class AUID → child class AUIDs
    subclasses_of: Vec<(Auid, Vec<Auid>)>,
}

/// Definitions keyed by their identification.
pub open spec fn def_entries(s: Seq<Definition>) -> Seq<(Auid, DefinitionView)> {
    s.map_values(|d: Definition| (def_common(d@).id, d@))
}

pub open spec fn symbol_entries(s: Seq<(String, Auid)>) -> Seq<(Seq<char>, Auid)> {
    s.map_values(|p: (String, Auid)| (p.0@, p.1))
}

pub open spec fn list_entries(s: Seq<(Auid, Vec<Auid>)>) -> Seq<(Auid, Seq<Auid>)> {
    s.map_values(|p: (Auid, Vec<Auid>)| (p.0, p.1@))
}

/// The list a multimap holds for `k`, or the empty list.
pub open spec fn list_at(m: Map<Auid, Seq<Auid>>, k: Auid) -> Seq<Auid> {
    if m.contains_key(k) {
        m[k]
    } else {
        Seq::empty()
    }
}

/// What a metadictionary holds, as values: definitions by identification,
/// the identification of each symbol, the member properties of each class
/// and the subclasses of each class.
pub struct DictModel {
    pub defs: Map<Auid, DefinitionView>,
    pub symbols: Map<Seq<char>, Auid>,
    pub members: Map<Auid, Seq<Auid>>,
    pub subclasses: Map<Auid, Seq<Auid>>,
}

pub open spec fn empty_model() -> DictModel {
    DictModel {
        defs: Map::empty(),
        symbols: Map::empty(),
        members: Map::empty(),
        subclasses: Map::empty(),
    }
}

/// The model after [`MetaDictionary::add`] of `d`.
pub open spec fn model_add(m: DictModel, d: DefinitionView) -> DictModel {
    DictModel {
        defs: m.defs.insert(def_common(d).id, d),
        symbols: m.symbols.insert(def_common(d).symbol, def_common(d).id),
        members: match d {
            DefinitionView::Property(p) => m.members.insert(
                p.member_of,
                list_at(m.members, p.member_of).push(p.common.id),
            ),
            _ => m.members,
        },
        subclasses: match d {
            DefinitionView::Class(c) => match c.parent {
                Some(parent) => m.subclasses.insert(
                    parent,
                    list_at(m.subclasses, parent).push(c.common.id),
                ),
                None => m.subclasses,
            },
            _ => m.subclasses,
        },
    }
}

/// After adding a definition, looking up its identification gives it, its
/// symbol names it, and every other identification keeps its definition.
pub proof fn lemma_add_then_lookup(m: DictModel, d: DefinitionView, other: Auid)
    ensures
        model_add(m, d).defs.get(def_common(d).id) == Some(d),
        model_add(m, d).symbols.get(def_common(d).symbol) == Some(def_common(d).id),
        other != def_common(d).id ==> model_add(m, d).defs.get(other) == m.defs.get(other),
{
}

/// The model after adding each of `ds` in order.
pub open spec fn model_add_all(m: DictModel, ds: Seq<DefinitionView>) -> DictModel
    decreases ds.len(),
{
    if ds.len() == 0 {
        m
    } else {
        model_add(model_add_all(m, ds.drop_last()), ds.last())
    }
}

/// The last of `ds` whose identification is `k`.
pub open spec fn last_with_id(ds: Seq<DefinitionView>, k: Auid) -> Option<DefinitionView>
    decreases ds.len(),
{
    if ds.len() == 0 {
        None
    } else if def_common(ds.last()).id == k {
        Some(ds.last())
    } else {
        last_with_id(ds.drop_last(), k)
    }
}

/// The identification of the last of `ds` whose symbol is `s`.
pub open spec fn last_id_with_symbol(ds: Seq<DefinitionView>, s: Seq<char>) -> Option<Auid>
    decreases ds.len(),
{
    if ds.len() == 0 {
        None
    } else if def_common(ds.last()).symbol == s {
        Some(def_common(ds.last()).id)
    } else {
        last_id_with_symbol(ds.drop_last(), s)
    }
}

/// After adding `ds` in order, each identification gives the last
/// definition added with it (else what it gave before), and each symbol the
/// identification of the last definition added with it (else what it gave
/// before).
pub proof fn lemma_adds_then_lookup(m: DictModel, ds: Seq<DefinitionView>, k: Auid, s: Seq<char>)
    ensures
        model_add_all(m, ds).defs.get(k) == match last_with_id(ds, k) {
            Some(d) => Some(d),
            None => m.defs.get(k),
        },
        model_add_all(m, ds).symbols.get(s) == match last_id_with_symbol(ds, s) {
            Some(id) => Some(id),
            None => m.symbols.get(s),
        },
    decreases ds.len(),
{
    if ds.len() > 0 {
        lemma_adds_then_lookup(m, ds.drop_last(), k, s);
    }
}

/// Adding `n` definitions with distinct identifications to an empty
/// dictionary gives `n` definitions, one for each identification.
pub proof fn lemma_adds_count(ds: Seq<DefinitionView>)
    requires
        forall|i: int, j: int| 0 <= i < j < ds.len() ==> def_common(#[trigger] ds[i]).id != def_common(#[trigger] ds[j]).id,
    ensures
        model_add_all(empty_model(), ds).defs.dom().finite(),
        model_add_all(empty_model(), ds).defs.dom().len() == ds.len(),
    decreases ds.len(),
{
    if ds.len() > 0 {
        let front = ds.drop_last();
        assert forall|i: int, j: int| 0 <= i < j < front.len() implies def_common(#[trigger] front[i]).id != def_common(#[trigger] front[j]).id by {
            assert(front[i] == ds[i] && front[j] == ds[j]);
        }
        lemma_adds_count(front);
        let k = def_common(ds.last()).id;
        lemma_adds_then_lookup(empty_model(), front, k, Seq::empty());
        if last_with_id(front, k) is Some {
            lemma_last_with_id_in(front, k);
            let i = choose|i: int| 0 <= i < front.len() && def_common(front[i]).id == k;
            assert(ds[i] == front[i]);
            assert(def_common(ds[i]).id != def_common(ds[ds.len() - 1]).id);
        }
        assert(!model_add_all(empty_model(), front).defs.dom().contains(k));
    }
}

/// The identifications of `ds`.
pub open spec fn def_ids(ds: Seq<DefinitionView>) -> Set<Auid> {
    Set::new(|k: Auid| exists|i: int| 0 <= i < ds.len() && def_common(ds[i]).id == k)
}

/// After adding `ds` in order to an empty dictionary it holds one definition
/// for each distinct identification among them, the last added with it; so
/// it counts as many definitions as `ds` has distinct identifications.
pub proof fn lemma_adds_count_distinct(ds: Seq<DefinitionView>)
    ensures
        model_add_all(empty_model(), ds).defs.dom() == def_ids(ds),
        def_ids(ds).finite(),
        model_add_all(empty_model(), ds).defs.dom().len() == def_ids(ds).len(),
        forall|k: Auid| #[trigger] def_ids(ds).contains(k) ==> (last_with_id(ds, k) matches Some(d)
            && model_add_all(empty_model(), ds).defs[k] == d),
    decreases ds.len(),
{
    if ds.len() > 0 {
        let front = ds.drop_last();
        lemma_adds_count_distinct(front);
        let k = def_common(ds.last()).id;
        assert(def_ids(ds) =~= def_ids(front).insert(k)) by {
            assert forall|x: Auid| def_ids(ds).contains(x) implies def_ids(front).insert(k).contains(x) by {
                let i = choose|i: int| 0 <= i < ds.len() && def_common(ds[i]).id == x;
                if i < front.len() {
                    assert(front[i] == ds[i]);
                }
            }
            assert forall|x: Auid| def_ids(front).insert(k).contains(x) implies def_ids(ds).contains(x) by {
                if x == k {
                    assert(def_common(ds[ds.len() - 1]).id == x);
                } else {
                    let i = choose|i: int| 0 <= i < front.len() && def_common(front[i]).id == x;
                    assert(ds[i] == front[i]);
                }
            }
        }
        assert(model_add_all(empty_model(), ds).defs.dom() =~= def_ids(ds));
    } else {
        assert(def_ids(ds) =~= Set::<Auid>::empty());
        assert(model_add_all(empty_model(), ds).defs.dom() =~= Set::<Auid>::empty());
    }
}

/// The last of `ds` whose symbol is `s`.
pub open spec fn last_with_symbol(ds: Seq<DefinitionView>, s: Seq<char>) -> Option<DefinitionView>
    decreases ds.len(),
{
    if ds.len() == 0 {
        None
    } else if def_common(ds.last()).symbol == s {
        Some(ds.last())
    } else {
        last_with_symbol(ds.drop_last(), s)
    }
}

proof fn lemma_last_with_symbol(ds: Seq<DefinitionView>, s: Seq<char>)
    ensures
        match last_with_symbol(ds, s) {
            Some(d) => last_id_with_symbol(ds, s) == Some(def_common(d).id) && def_common(d).symbol == s
                && exists|i: int| 0 <= i < ds.len() && ds[i] == d,
            None => last_id_with_symbol(ds, s) is None,
        },
    decreases ds.len(),
{
    if ds.len() > 0 {
        lemma_last_with_symbol(ds.drop_last(), s);
        if def_common(ds.last()).symbol == s {
            assert(ds[ds.len() - 1] == ds.last());
        } else if let Some(d) = last_with_symbol(ds.drop_last(), s) {
            let i = choose|i: int| 0 <= i < ds.drop_last().len() && ds.drop_last()[i] == d;
            assert(ds[i] == d);
        }
    }
}

/// Where no two of `ds` share an identification, the last of them with the
/// identification of `ds[i]` is `ds[i]`.
proof fn lemma_last_with_id_unique(ds: Seq<DefinitionView>, i: int)
    requires
        0 <= i < ds.len(),
        forall|a: int, b: int| 0 <= a < b < ds.len() ==> def_common(#[trigger] ds[a]).id != def_common(#[trigger] ds[b]).id,
    ensures
        last_with_id(ds, def_common(ds[i]).id) == Some(ds[i]),
    decreases ds.len(),
{
    if i < ds.len() - 1 {
        let front = ds.drop_last();
        assert(def_common(ds[i]).id != def_common(ds[ds.len() - 1]).id);
        assert forall|a: int, b: int| 0 <= a < b < front.len() implies def_common(#[trigger] front[a]).id
            != def_common(#[trigger] front[b]).id by {
            assert(front[a] == ds[a] && front[b] == ds[b]);
        }
        assert(front[i] == ds[i]);
        lemma_last_with_id_unique(front, i);
    }
}

/// After adding `ds`, no two of which share an identification, to an empty
/// dictionary, a symbol names the last of them with that symbol, and nothing
/// where none has it.
pub proof fn lemma_adds_symbol_lookup(ds: Seq<DefinitionView>, s: Seq<char>)
    requires
        forall|a: int, b: int| 0 <= a < b < ds.len() ==> def_common(#[trigger] ds[a]).id != def_common(#[trigger] ds[b]).id,
    ensures
        match last_with_symbol(ds, s) {
            Some(d) => model_add_all(empty_model(), ds).symbols.get(s) == Some(def_common(d).id)
                && model_add_all(empty_model(), ds).defs.get(def_common(d).id) == Some(d)
                && def_common(d).symbol == s,
            None => model_add_all(empty_model(), ds).symbols.get(s) is None,
        },
{
    lemma_last_with_symbol(ds, s);
    if let Some(d) = last_with_symbol(ds, s) {
        let i = choose|i: int| 0 <= i < ds.len() && ds[i] == d;
        lemma_last_with_id_unique(ds, i);
        lemma_adds_then_lookup(empty_model(), ds, def_common(d).id, s);
    } else {
        lemma_adds_then_lookup(empty_model(), ds, def_common(ds[0]).id, s);
    }
}

proof fn lemma_last_with_id_in(ds: Seq<DefinitionView>, k: Auid)
    requires
        last_with_id(ds, k) is Some,
    ensures
        exists|i: int| 0 <= i < ds.len() && def_common(ds[i]).id == k,
    decreases ds.len(),
{
    if def_common(ds.last()).id == k {
        assert(def_common(ds[ds.len() - 1]).id == k);
    } else {
        lemma_last_with_id_in(ds.drop_last(), k);
        let i = choose|i: int| 0 <= i < ds.drop_last().len() && def_common(ds.drop_last()[i]).id == k;
        assert(ds[i] == ds.drop_last()[i]);
    }
}

/// Index of the first element of `v` whose first component is `k`.
fn find_list(v: &Vec<(Auid, Vec<Auid>)>, k: &Auid) -> (r: Option<usize>)
    ensures
        match r {
            Some(i) => i < v@.len() && v@[i as int].0 == *k && forall|j: int|
                0 <= j < i ==> v@[j].0 != *k,
            None => forall|j: int| 0 <= j < v@.len() ==> v@[j].0 != *k,
        },
{
    let mut i: usize = 0;
    while i < v.len()
        invariant
            i <= v@.len(),
            forall|j: int| 0 <= j < i ==> v@[j].0 != *k,
        decreases v.len() - i,
    {
        if v[i].0.same(k) {
            return Some(i);
        }
        i = i + 1;
    }
    None
}

/// Index of the first entry of `v` for symbol `sym`.
fn find_symbol(v: &Vec<(String, Auid)>, sym: &str) -> (r: Option<usize>)
    ensures
        match r {
            Some(i) => i < v@.len() && v@[i as int].0@ == sym@ && forall|j: int|
                0 <= j < i ==> v@[j].0@ != sym@,
            None => forall|j: int| 0 <= j < v@.len() ==> v@[j].0@ != sym@,
        },
{
    let mut i: usize = 0;
    while i < v.len()
        invariant
            i <= v@.len(),
            forall|j: int| 0 <= j < i ==> v@[j].0@ != sym@,
        decreases v.len() - i,
    {
        if str_eq(v[i].0.as_str(), sym) {
            return Some(i);
        }
        i = i + 1;
    }
    None
}

/// A copy of a list of AUIDs.
pub fn copy_auids(v: &Vec<Auid>) -> (r: Vec<Auid>)
    ensures
        r@ == v@,
{
    let mut out: Vec<Auid> = Vec::new();
    let mut i: usize = 0;
    while i < v.len()
        invariant
            i <= v@.len(),
            out@ == v@.take(i as int),
        decreases v.len() - i,
    {
        out.push(v[i]);
        i = i + 1;
        proof {
            assert(out@ =~= v@.take(i as int));
        }
    }
    proof {
        assert(v@.take(i as int) =~= v@);
    }
    out
}

/// Append `id` to the list of `k` in a multimap.
fn multimap_push(v: &mut Vec<(Auid, Vec<Auid>)>, k: Auid, id: Auid)
    ensures
        assoc_map(list_entries(final(v)@)) == assoc_map(list_entries(old(v)@)).insert(
            k,
            list_at(assoc_map(list_entries(old(v)@)), k).push(id),
        ),
{
    let ghost s = list_entries(v@);
    match find_list(v, &k) {
        Some(i) => {
            let mut ids = copy_auids(&v[i].1);
            ids.push(id);
            let ghost newv = ids@;
            v.set(i, (k, ids));
            proof {
                assert forall|j: int| 0 <= j < i implies s[j].0 != s[i as int].0 by {}
                lemma_assoc_first(s, i as int);
                lemma_assoc_update(s, i as int, newv);
                assert(list_entries(v@) =~= s.update(i as int, (s[i as int].0, newv)));
            }
        },
        None => {
            let mut ids: Vec<Auid> = Vec::new();
            ids.push(id);
            v.push((k, ids));
            proof {
                assert forall|j: int| 0 <= j < s.len() implies s[j].0 != k by {}
                lemma_assoc_absent(s, k);
                lemma_assoc_push(s, k, seq![id]);
                assert(list_entries(v@) =~= s.push((k, seq![id])));
                assert(Seq::<Auid>::empty().push(id) =~= seq![id]);
            }
        },
    }
}

impl MetaDictionary {
    pub closed spec fn scheme_uri_view(&self) -> Seq<char> {
        self.scheme_uri@
    }

    pub closed spec fn scheme_id_view(&self) -> Seq<char> {
        self.scheme_id@
    }

    /// Definitions by identification.
    pub closed spec fn defs(&self) -> Map<Auid, DefinitionView> {
        assoc_map(def_entries(self.definitions@))
    }

    /// The identification that a symbol names (the last definition added with it).
    pub closed spec fn symbol_ids(&self) -> Map<Seq<char>, Auid> {
        assoc_map(symbol_entries(self.symbols@))
    }

    /// Class identification → identifications of the properties added as its members.
    pub closed spec fn members(&self) -> Map<Auid, Seq<Auid>> {
        assoc_map(list_entries(self.members_of@))
    }

    /// Parent class identification → identifications of the classes added as its children.
    pub closed spec fn subclasses(&self) -> Map<Auid, Seq<Auid>> {
        assoc_map(list_entries(self.subclasses_of@))
    }

    /// The stored definitions in the order they were first added.
    pub closed spec fn def_list(&self) -> Seq<DefinitionView> {
        self.definitions@.map_values(|d: Definition| d@)
    }

    /// The scheme ID.
    pub fn scheme_id_str(&self) -> (r: &str)
        ensures
            r@ == self.scheme_id_view(),
    {
        self.scheme_id.as_str()
    }

    /// The scheme URI.
    pub fn scheme_uri_str(&self) -> (r: &str)
        ensures
            r@ == self.scheme_uri_view(),
    {
        self.scheme_uri.as_str()
    }

    /// Everything the dictionary holds but its scheme.
    pub closed spec fn model(&self) -> DictModel {
        DictModel {
            defs: self.defs(),
            symbols: self.symbol_ids(),
            members: self.members(),
            subclasses: self.subclasses(),
        }
    }

    /// No two stored definitions share an identification.
    pub closed spec fn wf(&self) -> bool {
        keys_unique(def_entries(self.definitions@))
    }

    pub fn new(scheme_uri: String, scheme_id: String) -> (d: MetaDictionary)
        ensures
            d.wf(),
            d.scheme_uri_view() == scheme_uri@,
            d.scheme_id_view() == scheme_id@,
            d.defs() == Map::<Auid, DefinitionView>::empty(),
            d.symbol_ids() == Map::<Seq<char>, Auid>::empty(),
            d.members() == Map::<Auid, Seq<Auid>>::empty(),
            d.subclasses() == Map::<Auid, Seq<Auid>>::empty(),
            d.model() == empty_model(),
    {
        let d = MetaDictionary {
            scheme_uri,
            scheme_id,
            definitions: Vec::new(),
            symbols: Vec::new(),
            members_of: Vec::new(),
            subclasses_of: Vec::new(),
        };
        proof {
            assert(def_entries(d.definitions@) =~= Seq::empty());
            assert(symbol_entries(d.symbols@) =~= Seq::empty());
            assert(list_entries(d.members_of@) =~= Seq::empty());
            assert(list_entries(d.subclasses_of@) =~= Seq::empty());
        }
        d
    }

    /// Index of the stored definition with this identification.
    fn find_def(&self, id: &Auid) -> (r: Option<usize>)
        ensures
            match r {
                Some(i) => i < self.definitions@.len() && def_common(self.definitions@[i as int]@).id
                    == *id && forall|j: int|
                    0 <= j < i ==> def_common(self.definitions@[j]@).id != *id,
                None => forall|j: int|
                    0 <= j < self.definitions@.len() ==> def_common(self.definitions@[j]@).id != *id,
            },
    {
        let mut i: usize = 0;
        while i < self.definitions.len()
            invariant
                i <= self.definitions@.len(),
                forall|j: int| 0 <= j < i ==> def_common(self.definitions@[j]@).id != *id,
            decreases self.definitions.len() - i,
        {
            if self.definitions[i].identification().same(id) {
                return Some(i);
            }
            i = i + 1;
        }
        None
    }

    /// Add a definition, replacing any with the same identification, and
    /// record it under its symbol, its class (for a property) and its
    /// parent class (for a class with a parent).
    pub fn add(&mut self, def: Definition) -> (r: Result<(), DictError>)
        requires
            old(self).wf(),
        ensures
            r is Ok,
            final(self).wf(),
            final(self).model() == model_add(old(self).model(), def@),
            final(self).scheme_id_view() == old(self).scheme_id_view(),
            final(self).scheme_uri_view() == old(self).scheme_uri_view(),
            final(self).defs() == old(self).defs().insert(def_common(def@).id, def@),
            final(self).symbol_ids() == old(self).symbol_ids().insert(def_common(def@).symbol, def_common(def@).id),
            final(self).members() == match def@ {
                DefinitionView::Property(p) => old(self).members().insert(
                    p.member_of,
                    list_at(old(self).members(), p.member_of).push(p.common.id),
                ),
                _ => old(self).members(),
            },
            final(self).subclasses() == match def@ {
                DefinitionView::Class(c) => match c.parent {
                    Some(parent) => old(self).subclasses().insert(
                        parent,
                        list_at(old(self).subclasses(), parent).push(c.common.id),
                    ),
                    None => old(self).subclasses(),
                },
                _ => old(self).subclasses(),
            },
    {
        let id = *def.identification();
        let sym = String::from_str(def.symbol());
        match &def {
            Definition::Property(p) => {
                multimap_push(&mut self.members_of, p.member_of, id);
            },
            Definition::Class(c) => {
                if let Some(parent) = c.parent_class {
                    multimap_push(&mut self.subclasses_of, parent, id);
                }
            },
            Definition::Type(_) => {},
        }
        // symbol index
        let ghost ss = symbol_entries(self.symbols@);
        let found = find_symbol(&self.symbols, sym.as_str());
        let ghost sv = sym@;
        match found {
            Some(i) => {
                self.symbols.set(i, (sym, id));
                proof {
                    lemma_assoc_update(ss, i as int, id);
                    assert(symbol_entries(self.symbols@) =~= ss.update(i as int, (ss[i as int].0, id)));
                }
            },
            None => {
                self.symbols.push((sym, id));
                proof {
                    lemma_assoc_push(ss, sv, id);
                    assert(symbol_entries(self.symbols@) =~= ss.push((sv, id)));
                }
            },
        }
        // definitions
        let ghost ds = def_entries(self.definitions@);
        let ghost dv = def@;
        match self.find_def(&id) {
            Some(i) => {
                self.definitions.set(i, def);
                proof {
                    lemma_assoc_update(ds, i as int, dv);
                    assert(def_entries(self.definitions@) =~= ds.update(i as int, (ds[i as int].0, dv)));
                    assert forall|a: int, b: int| 0 <= a < b < def_entries(self.definitions@).len() implies
                        #[trigger] def_entries(self.definitions@)[a].0 != #[trigger] def_entries(self.definitions@)[b].0 by {
                        assert(ds[a].0 != ds[b].0);
                    }
                }
            },
            None => {
                self.definitions.push(def);
                proof {
                    lemma_assoc_push(ds, id, dv);
                    assert(def_entries(self.definitions@) =~= ds.push((id, dv)));
                }
            },
        }
        Ok(())
    }

    pub fn definition_count(&self) -> (r: usize)
        requires
            self.wf(),
        ensures
            self.defs().dom().finite(),
            r == self.defs().dom().len(),
    {
        proof {
            lemma_assoc_len(def_entries(self.definitions@));
        }
        self.definitions.len()
    }

    /// Every definition, once each.
    pub fn all_definitions(&self) -> (r: Vec<&Definition>)
        requires
            self.wf(),
        ensures
            r@.len() == self.def_list().len(),
            forall|i: int| 0 <= i < r@.len() ==> (#[trigger] r@[i])@ == self.def_list()[i],
            r@.len() == self.defs().dom().len(),
            forall|i: int| 0 <= i < r@.len() ==> self.defs().contains_key(def_common(r@[i]@).id)
                && self.defs()[def_common(r@[i]@).id] == (#[trigger] r@[i])@,
            forall|i: int, j: int| 0 <= i < j < r@.len() ==> def_common((#[trigger] r@[i])@).id
                != def_common((#[trigger] r@[j])@).id,
            forall|k: Auid| #[trigger] self.defs().contains_key(k) ==> exists|i: int|
                0 <= i < r@.len() && def_common(r@[i]@).id == k,
    {
        let ghost ds = def_entries(self.definitions@);
        let mut out: Vec<&Definition> = Vec::new();
        let mut i: usize = 0;
        while i < self.definitions.len()
            invariant
                ds == def_entries(self.definitions@),
                keys_unique(ds),
                i <= self.definitions@.len(),
                out@.len() == i,
                forall|j: int| 0 <= j < i ==> out@[j] == &self.definitions@[j],
            decreases self.definitions.len() - i,
        {
            out.push(&self.definitions[i]);
            i = i + 1;
        }
        proof {
            lemma_assoc_len(ds);
            assert forall|j: int| 0 <= j < out@.len() implies self.defs().contains_key(def_common(out@[j]@).id)
                && self.defs()[def_common(out@[j]@).id] == (#[trigger] out@[j])@ by {
                assert forall|m: int| 0 <= m < j implies ds[m].0 != ds[j].0 by {}
                lemma_assoc_first(ds, j);
            }
            assert forall|k: Auid| #[trigger] self.defs().contains_key(k) implies exists|j: int|
                0 <= j < out@.len() && def_common(out@[j]@).id == k by {
                lemma_assoc_dom(ds, k);
                let j = choose|j: int| 0 <= j < ds.len() && #[trigger] ds[j].0 == k;
                assert(def_common(out@[j]@).id == k);
            }
            assert forall|a: int, b: int| 0 <= a < b < out@.len() implies def_common((#[trigger] out@[a])@).id
                != def_common((#[trigger] out@[b])@).id by {
                assert(ds[a].0 != ds[b].0);
            }
        }
        out
    }

    pub fn get_definition_by_symbol(&self, symbol: &str) -> (r: Option<&Definition>)
        ensures
            match self.symbol_ids().get(symbol@) {
                Some(id) => match self.defs().get(id) {
                    Some(v) => (r matches Some(d) && d@ == v),
                    None => r is None,
                },
                None => r is None,
            },
    {
        let ghost ss = symbol_entries(self.symbols@);
        match find_symbol(&self.symbols, symbol) {
            Some(k) => {
                proof {
                    lemma_assoc_first(ss, k as int);
                }
                self.get_definition(&self.symbols[k].1)
            },
            None => {
                proof {
                    lemma_assoc_absent(ss, symbol@);
                }
                None
            },
        }
    }
}

impl DefinitionResolver for MetaDictionary {
    open spec fn spec_definition(&self, id: Auid) -> Option<DefinitionView> {
        self.defs().get(id)
    }

    open spec fn spec_subclasses(&self, class: Auid) -> Seq<Auid> {
        list_at(self.subclasses(), class)
    }

    open spec fn spec_members(&self, class: Auid) -> Seq<Auid> {
        list_at(self.members(), class)
    }

    fn get_definition(&self, id: &Auid) -> (r: Option<&Definition>) {
        let ghost ds = def_entries(self.definitions@);
        match self.find_def(id) {
            Some(i) => {
                proof {
                    lemma_assoc_first(ds, i as int);
                }
                Some(&self.definitions[i])
            },
            None => {
                proof {
                    lemma_assoc_absent(ds, *id);
                }
                None
            },
        }
    }

    fn get_subclasses_of(&self, class: &ClassDefinition) -> (r: Vec<Auid>) {
        let ghost s = list_entries(self.subclasses_of@);
        match find_list(&self.subclasses_of, &class.identification) {
            Some(i) => {
                proof {
                    lemma_assoc_first(s, i as int);
                }
                copy_auids(&self.subclasses_of[i].1)
            },
            None => {
                proof {
                    lemma_assoc_absent(s, class.identification);
                }
                Vec::new()
            },
        }
    }

    fn get_members_of(&self, class: &ClassDefinition) -> (r: Vec<Auid>) {
        let ghost s = list_entries(self.members_of@);
        match find_list(&self.members_of, &class.identification) {
            Some(i) => {
                proof {
                    lemma_assoc_first(s, i as int);
                }
                copy_auids(&self.members_of[i].1)
            },
            None => {
                proof {
                    lemma_assoc_absent(s, class.identification);
                }
                Vec::new()
            },
        }
    }
}

// ── MetaDictionaryCollection ─────────────────────────────────────────────────

/// Aggregates multiple [`MetaDictionary`] instances with a merged lookup:
/// a definition is taken from the first dictionary that holds it.
#[derive(Debug)]
pub struct MetaDictionaryCollection {
    dictionaries: Vec<MetaDictionary>,
}

/// The definition of `id` in the first of `ds` that holds one.
pub open spec fn first_definition(ds: Seq<MetaDictionary>, id: Auid) -> Option<DefinitionView>
    decreases ds.len(),
{
    if ds.len() == 0 {
        None
    } else {
        match first_definition(ds.drop_last(), id) {
            Some(v) => Some(v),
            None => ds.last().defs().get(id),
        }
    }
}

/// The definition that `symbol` names in the first of `ds` where it names one.
pub open spec fn first_by_symbol(ds: Seq<MetaDictionary>, symbol: Seq<char>) -> Option<DefinitionView>
    decreases ds.len(),
{
    if ds.len() == 0 {
        None
    } else {
        match first_by_symbol(ds.drop_last(), symbol) {
            Some(v) => Some(v),
            None => match ds.last().symbol_ids().get(symbol) {
                Some(id) => ds.last().defs().get(id),
                None => None,
            },
        }
    }
}

/// What looking `s` up in `d` gives (see [`MetaDictionary::get_definition_by_symbol`]).
pub open spec fn symbol_lookup(d: MetaDictionary, s: Seq<char>) -> Option<DefinitionView> {
    match d.symbol_ids().get(s) {
        Some(id) => d.defs().get(id),
        None => None,
    }
}

/// A collection answers a symbol from the first of its dictionaries that
/// knows it: the least `k` whose lookup gives a definition; where none
/// does, it gives none.
pub proof fn lemma_collection_first_answer(ds: Seq<MetaDictionary>, s: Seq<char>)
    ensures
        match first_by_symbol(ds, s) {
            Some(v) => exists|k: int| 0 <= k < ds.len() && symbol_lookup(ds[k], s) == Some(v)
                && forall|j: int| 0 <= j < k ==> symbol_lookup(#[trigger] ds[j], s) is None,
            None => forall|k: int| 0 <= k < ds.len() ==> symbol_lookup(#[trigger] ds[k], s) is None,
        },
    decreases ds.len(),
{
    if ds.len() > 0 {
        let front = ds.drop_last();
        lemma_collection_first_answer(front, s);
        match first_by_symbol(front, s) {
            Some(v) => {
                let k = choose|k: int| 0 <= k < front.len() && symbol_lookup(front[k], s) == Some(v)
                    && forall|j: int| 0 <= j < k ==> symbol_lookup(#[trigger] front[j], s) is None;
                assert(ds[k] == front[k]);
                assert forall|j: int| 0 <= j < k implies symbol_lookup(#[trigger] ds[j], s) is None by {
                    assert(ds[j] == front[j]);
                }
            },
            None => {
                assert forall|j: int| 0 <= j < front.len() implies symbol_lookup(#[trigger] ds[j], s) is None by {
                    assert(ds[j] == front[j]);
                }
                assert(ds[ds.len() - 1] == ds.last());
            },
        }
    }
}

/// Looking a symbol up over dictionaries added after one another: the
/// earlier dictionaries' definition of a symbol wins; where they define none,
/// the later ones' counts.
pub proof fn lemma_collection_symbol_after_adds(ds: Seq<MetaDictionary>, es: Seq<MetaDictionary>, symbol: Seq<char>)
    ensures
        first_by_symbol(ds + es, symbol) == match first_by_symbol(ds, symbol) {
            Some(v) => Some(v),
            None => first_by_symbol(es, symbol),
        },
    decreases es.len(),
{
    if es.len() == 0 {
        assert(ds + es =~= ds);
    } else {
        lemma_collection_symbol_after_adds(ds, es.drop_last(), symbol);
        assert((ds + es).drop_last() =~= ds + es.drop_last());
        assert((ds + es).last() == es.last());
    }
}

/// The subclass lists of `class` in all of `ds`, concatenated in order.
pub open spec fn all_subclasses(ds: Seq<MetaDictionary>, class: Auid) -> Seq<Auid>
    decreases ds.len(),
{
    if ds.len() == 0 {
        Seq::empty()
    } else {
        all_subclasses(ds.drop_last(), class) + list_at(ds.last().subclasses(), class)
    }
}

/// The member lists of `class` in all of `ds`, concatenated in order.
pub open spec fn all_members(ds: Seq<MetaDictionary>, class: Auid) -> Seq<Auid>
    decreases ds.len(),
{
    if ds.len() == 0 {
        Seq::empty()
    } else {
        all_members(ds.drop_last(), class) + list_at(ds.last().members(), class)
    }
}

impl MetaDictionaryCollection {
    /// The dictionaries, in the order they were added.
    pub closed spec fn dicts(&self) -> Seq<MetaDictionary> {
        self.dictionaries@
    }

    pub fn new() -> (c: MetaDictionaryCollection)
        ensures
            c.dicts() == Seq::<MetaDictionary>::empty(),
    {
        MetaDictionaryCollection { dictionaries: Vec::new() }
    }

    pub fn add(&mut self, dict: MetaDictionary) -> (r: Result<(), DictError>)
        ensures
            r is Ok,
            final(self).dicts() == old(self).dicts().push(dict),
    {
        self.dictionaries.push(dict);
        Ok(())
    }

    pub fn get_definition_by_symbol(&self, symbol: &str) -> (r: Option<&Definition>)
        ensures
            match first_by_symbol(self.dicts(), symbol@) {
                Some(v) => (r matches Some(d) && d@ == v),
                None => r is None,
            },
    {
        let mut i: usize = 0;
        while i < self.dictionaries.len()
            invariant
                i <= self.dictionaries@.len(),
                first_by_symbol(self.dictionaries@.take(i as int), symbol@) is None,
            decreases self.dictionaries.len() - i,
        {
            proof {
                assert(self.dictionaries@.take(i + 1).drop_last() =~= self.dictionaries@.take(i as int));
            }
            if let Some(d) = self.dictionaries[i].get_definition_by_symbol(symbol) {
                proof {
                    lemma_first_by_symbol_prefix(self.dictionaries@, (i + 1) as int, symbol@);
                }
                return Some(d);
            }
            i = i + 1;
        }
        proof {
            assert(self.dictionaries@.take(i as int) =~= self.dictionaries@);
        }
        None
    }
}

proof fn lemma_first_by_symbol_prefix(ds: Seq<MetaDictionary>, n: int, symbol: Seq<char>)
    requires
        0 <= n <= ds.len(),
        first_by_symbol(ds.take(n), symbol) is Some,
    ensures
        first_by_symbol(ds, symbol) == first_by_symbol(ds.take(n), symbol),
    decreases ds.len() - n,
{
    if n < ds.len() {
        assert(ds.take(n + 1).drop_last() =~= ds.take(n));
        lemma_first_by_symbol_prefix(ds, n + 1, symbol);
    } else {
        assert(ds.take(n) =~= ds);
    }
}

proof fn lemma_first_definition_prefix(ds: Seq<MetaDictionary>, n: int, id: Auid)
    requires
        0 <= n <= ds.len(),
        first_definition(ds.take(n), id) is Some,
    ensures
        first_definition(ds, id) == first_definition(ds.take(n), id),
    decreases ds.len() - n,
{
    if n < ds.len() {
        assert(ds.take(n + 1).drop_last() =~= ds.take(n));
        lemma_first_definition_prefix(ds, n + 1, id);
    } else {
        assert(ds.take(n) =~= ds);
    }
}

impl DefinitionResolver for MetaDictionaryCollection {
    open spec fn spec_definition(&self, id: Auid) -> Option<DefinitionView> {
        first_definition(self.dicts(), id)
    }

    open spec fn spec_subclasses(&self, class: Auid) -> Seq<Auid> {
        all_subclasses(self.dicts(), class)
    }

    open spec fn spec_members(&self, class: Auid) -> Seq<Auid> {
        all_members(self.dicts(), class)
    }

    fn get_definition(&self, id: &Auid) -> (r: Option<&Definition>) {
        let mut i: usize = 0;
        while i < self.dictionaries.len()
            invariant
                i <= self.dictionaries@.len(),
                first_definition(self.dictionaries@.take(i as int), *id) is None,
            decreases self.dictionaries.len() - i,
        {
            proof {
                assert(self.dictionaries@.take(i + 1).drop_last() =~= self.dictionaries@.take(i as int));
            }
            if let Some(d) = self.dictionaries[i].get_definition(id) {
                proof {
                    lemma_first_definition_prefix(self.dictionaries@, (i + 1) as int, *id);
                }
                return Some(d);
            }
            i = i + 1;
        }
        proof {
            assert(self.dictionaries@.take(i as int) =~= self.dictionaries@);
        }
        None
    }

    fn get_subclasses_of(&self, class: &ClassDefinition) -> (r: Vec<Auid>) {
        let mut out: Vec<Auid> = Vec::new();
        let mut i: usize = 0;
        while i < self.dictionaries.len()
            invariant
                i <= self.dictionaries@.len(),
                out@ == all_subclasses(self.dictionaries@.take(i as int), class.identification),
            decreases self.dictionaries.len() - i,
        {
            let mut part = self.dictionaries[i].get_subclasses_of(class);
            out.append(&mut part);
            i = i + 1;
            proof {
                assert(self.dictionaries@.take(i as int).drop_last() =~= self.dictionaries@.take(i - 1));
            }
        }
        proof {
            assert(self.dictionaries@.take(i as int) =~= self.dictionaries@);
        }
        out
    }

    fn get_members_of(&self, class: &ClassDefinition) -> (r: Vec<Auid>) {
        let mut out: Vec<Auid> = Vec::new();
        let mut i: usize = 0;
        while i < self.dictionaries.len()
            invariant
                i <= self.dictionaries@.len(),
                out@ == all_members(self.dictionaries@.take(i as int), class.identification),
            decreases self.dictionaries.len() - i,
        {
            let mut part = self.dictionaries[i].get_members_of(class);
            out.append(&mut part);
            i = i + 1;
            proof {
                assert(self.dictionaries@.take(i as int).drop_last() =~= self.dictionaries@.take(i - 1));
            }
        }
        proof {
            assert(self.dictionaries@.take(i as int) =~= self.dictionaries@);
        }
        out
    }
}

} // verus!
