//! SMPTE LabelsRegister: UL → Symbol lookup, used to resolve
//! ExtendibleEnumeration values.
use vstd::prelude::*;

use super::assoc::{assoc_map, keys_unique, lemma_assoc_absent, lemma_assoc_first, lemma_assoc_len, lemma_assoc_push, lemma_assoc_update};
use super::error::{DictError, DictErrorView};
use crate::text::{str_eq, utf8_error_message, utf8_text};
use crate::types::auid::urn_auid;
use crate::types::Auid;
use crate::xml::tree::{child, child_text, in_range, kids, named, root_element, xml_document, NodeView, XmlDoc};

verus! {

/// Parsed SMPTE LabelsRegister: maps 16-byte UL AUID → Symbol string.
pub struct LabelsRegister {
    map: Vec<(Auid, String)>,
}

pub open spec fn label_entries(s: Seq<(Auid, String)>) -> Seq<(Auid, Seq<char>)> {
    s.map_values(|p: (Auid, String)| (p.0, p.1@))
}

/// The union of two maps, where `a` wins on shared keys.
pub open spec fn union_prefer_left(a: Map<Auid, Seq<char>>, b: Map<Auid, Seq<char>>) -> Map<Auid, Seq<char>> {
    b.union_prefer_right(a)
}

/// Merging keeps every label of the first register and adds those of the
/// second for the AUIDs that the first does not name.
pub proof fn lemma_merge_prefers_first(a: Map<Auid, Seq<char>>, b: Map<Auid, Seq<char>>, k: Auid)
    ensures
        union_prefer_left(a, b).contains_key(k) <==> (a.contains_key(k) || b.contains_key(k)),
        a.contains_key(k) ==> union_prefer_left(a, b)[k] == a[k],
        !a.contains_key(k) && b.contains_key(k) ==> union_prefer_left(a, b)[k] == b[k],
{
}

/// Index of the first entry for `id`.
fn find_label(v: &Vec<(Auid, String)>, id: &Auid) -> (r: Option<usize>)
    ensures
        match r {
            Some(i) => i < v@.len() && v@[i as int].0 == *id && forall|j: int|
                0 <= j < i ==> v@[j].0 != *id,
            None => forall|j: int| 0 <= j < v@.len() ==> v@[j].0 != *id,
        },
{
    let mut i: usize = 0;
    while i < v.len()
        invariant
            i <= v@.len(),
            forall|j: int| 0 <= j < i ==> v@[j].0 != *id,
        decreases v.len() - i,
    {
        if v[i].0.same(id) {
            return Some(i);
        }
        i = i + 1;
    }
    None
}

/// The labels of the `Entry` elements `es`, in order: a leaf entry with a
/// `UL` that reads as an AUID and a `Symbol` maps the AUID to the symbol, a
/// later entry replacing an earlier one; `NODE` entries and others are skipped.
pub open spec fn entries_labels(ns: Seq<NodeView>, es: Seq<usize>) -> Map<Auid, Seq<char>>
    decreases es.len(),
{
    if es.len() == 0 {
        Map::empty()
    } else {
        let m = entries_labels(ns, es.drop_last());
        let k = es.last();
        if child_text(ns, k, "Kind"@) == Some("NODE"@) {
            m
        } else {
            match (child_text(ns, k, "UL"@), child_text(ns, k, "Symbol"@)) {
                (Some(u), Some(sym)) => match urn_auid(u) {
                    Some(a) => m.insert(a, sym),
                    None => m,
                },
                _ => m,
            }
        }
    }
}

/// The labels of a document: none unless its root element is
/// `LabelsRegister`, else those of the `Entry` children of its `Entries`.
pub open spec fn labels_from_nodes(ns: Seq<NodeView>) -> Map<Auid, Seq<char>> {
    match root_element(ns) {
        None => Map::empty(),
        Some(r) => if ns[r as int].2 != "LabelsRegister"@ {
            Map::empty()
        } else {
            match child(ns, r, "Entries"@) {
                None => Map::empty(),
                Some(e) => entries_labels(ns, named(ns, kids(ns, e), "Entry"@)),
            }
        },
    }
}

/// What [`LabelsRegister::from_xml`] reads from `bytes`.
pub open spec fn spec_labels_register(bytes: Seq<u8>) -> Result<Map<Auid, Seq<char>>, DictErrorView> {
    if !vstd::utf8::valid_utf8(bytes) {
        Err(DictErrorView::Xml(utf8_error_message(bytes)))
    } else {
        match xml_document(vstd::utf8::decode_utf8(bytes)) {
            Err(m) => Err(DictErrorView::Xml(m)),
            Ok(ns) => Ok(labels_from_nodes(ns)),
        }
    }
}

impl LabelsRegister {
    /// Parse a LabelsRegister XML byte slice.
    ///
    /// Returns an empty register (no error) if the root element is not
    /// `LabelsRegister`, so callers can pass any register XML without
    /// type-checking it first.
    pub fn from_xml(xml: &[u8]) -> (r: Result<LabelsRegister, DictError>)
        ensures
            match spec_labels_register(xml@) {
                Ok(m) => (r matches Ok(reg) && reg.wf() && reg.labels() == m),
                Err(e) => (r matches Err(x) && x@ == e),
            },
    {
        let text = match utf8_text(xml) {
            Ok(t) => t,
            Err(m) => return Err(DictError::Xml(m)),
        };
        let doc = match XmlDoc::parse(text.as_str()) {
            Ok(d) => d,
            Err(m) => return Err(DictError::Xml(m)),
        };
        let ghost ns = doc.view_nodes();
        let mut reg = LabelsRegister::empty();
        let root = match doc.root_element() {
            Some(r) => r,
            None => return Ok(reg),
        };
        if !str_eq(doc.nodes[root].name.as_str(), "LabelsRegister") {
            return Ok(reg);
        }
        let e = match doc.child(root, "Entries") {
            Some(e) => e,
            None => return Ok(reg),
        };
        let es = doc.children_named(e, "Entry");
        proof {
            assert(es@.take(0) =~= Seq::<usize>::empty());
        }
        let mut i: usize = 0;
        while i < es.len()
            invariant
                doc.wf(),
                ns == doc.view_nodes(),
                in_range(ns, es@),
                i <= es@.len(),
                reg.wf(),
                reg.labels() == entries_labels(ns, es@.take(i as int)),
            decreases es.len() - i,
        {
            let k = es[i];
            proof {
                assert(es@.take(i + 1).drop_last() =~= es@.take(i as int));
            }
            let kind_node = match doc.child_text(k, "Kind") {
                Some(t) => str_eq(t.as_str(), "NODE"),
                None => false,
            };
            if !kind_node {
                match (doc.child_text(k, "UL"), doc.child_text(k, "Symbol")) {
                    (Some(u), Some(sym)) => match Auid::from_urn(u.as_str()) {
                        Ok(a) => reg.insert(a, sym),
                        Err(_) => {},
                    },
                    _ => {},
                }
            }
            i = i + 1;
        }
        proof {
            assert(es@.take(i as int) =~= es@);
        }
        Ok(reg)
    }

    /// The symbol of each UL.
    pub closed spec fn labels(&self) -> Map<Auid, Seq<char>> {
        assoc_map(label_entries(self.map@))
    }

    /// No UL occurs twice.
    pub closed spec fn wf(&self) -> bool {
        keys_unique(label_entries(self.map@))
    }

    /// Construct an empty register.
    pub fn empty() -> (r: LabelsRegister)
        ensures
            r.wf(),
            r.labels() == Map::<Auid, Seq<char>>::empty(),
    {
        let r = LabelsRegister { map: Vec::new() };
        proof {
            assert(label_entries(r.map@) =~= Seq::empty());
        }
        r
    }

    /// Record `symbol` for `id`, replacing an earlier one.
    pub fn insert(&mut self, id: Auid, symbol: String)
        requires
            old(self).wf(),
        ensures
            final(self).wf(),
            final(self).labels() == old(self).labels().insert(id, symbol@),
    {
        let ghost s = label_entries(self.map@);
        let ghost sv = symbol@;
        match find_label(&self.map, &id) {
            Some(i) => {
                self.map.set(i, (id, symbol));
                proof {
                    lemma_assoc_update(s, i as int, sv);
                    assert(label_entries(self.map@) =~= s.update(i as int, (s[i as int].0, sv)));
                    assert forall|a: int, b: int| 0 <= a < b < label_entries(self.map@).len() implies
                        #[trigger] label_entries(self.map@)[a].0 != #[trigger] label_entries(self.map@)[b].0 by {
                        assert(s[a].0 != s[b].0);
                    }
                }
            },
            None => {
                self.map.push((id, symbol));
                proof {
                    lemma_assoc_push(s, id, sv);
                    assert(label_entries(self.map@) =~= s.push((id, sv)));
                }
            },
        }
    }

    /// Look up the symbol for a UL.
    pub fn get(&self, id: &Auid) -> (r: Option<&str>)
        ensures
            match self.labels().get(*id) {
                Some(s) => (r matches Some(x) && x@ == s),
                None => r is None,
            },
    {
        let ghost s = label_entries(self.map@);
        match find_label(&self.map, id) {
            Some(i) => {
                proof {
                    lemma_assoc_first(s, i as int);
                }
                Some(self.map[i].1.as_str())
            },
            None => {
                proof {
                    lemma_assoc_absent(s, *id);
                }
                None
            },
        }
    }

    /// Merge `other` into `self`, returning `self`: entries of `self` win.
    pub fn merge(self, other: LabelsRegister) -> (r: LabelsRegister)
        requires
            self.wf(),
        ensures
            r.wf(),
            r.labels() == union_prefer_left(self.labels(), other.labels()),
    {
        let mut out = self;
        let ghost a = out.labels();
        let ghost o = label_entries(other.map@);
        let mut i: usize = 0;
        while i < other.map.len()
            invariant
                out.wf(),
                o == label_entries(other.map@),
                i <= other.map@.len(),
                out.labels() == union_prefer_left(a, assoc_map(o.take(i as int))),
            decreases other.map.len() - i,
        {
            let ghost before = out.labels();
            if find_label(&out.map, &other.map[i].0).is_none() {
                let k = other.map[i].0;
                let sym = other.map[i].1.clone();
                proof {
                    lemma_assoc_absent(label_entries(out.map@), k);
                }
                out.insert(k, sym);
            } else {
                proof {
                    let j = choose|j: int| 0 <= j < out.map@.len() && out.map@[j].0 == other.map@[i as int].0;
                    assert(label_entries(out.map@)[j].0 == o[i as int].0);
                    lemma_assoc_dom_witness(label_entries(out.map@), j);
                }
            }
            i = i + 1;
            proof {
                assert(o.take(i as int).drop_last() =~= o.take(i - 1));
                assert(out.labels() =~= union_prefer_left(a, assoc_map(o.take(i as int))));
            }
        }
        proof {
            assert(o.take(i as int) =~= o);
        }
        out
    }

    /// Number of entries in the register.
    pub fn len(&self) -> (r: usize)
        requires
            self.wf(),
        ensures
            self.labels().dom().finite(),
            r == self.labels().dom().len(),
    {
        proof {
            lemma_assoc_len(label_entries(self.map@));
        }
        self.map.len()
    }

    /// Returns `true` if the register contains no entries.
    pub fn is_empty(&self) -> (r: bool)
        requires
            self.wf(),
        ensures
            r == (self.labels().dom().len() == 0),
    {
        self.len() == 0
    }
}

proof fn lemma_assoc_dom_witness(s: Seq<(Auid, Seq<char>)>, j: int)
    requires
        0 <= j < s.len(),
    ensures
        assoc_map(s).contains_key(s[j].0),
{
    super::assoc::lemma_assoc_dom(s, s[j].0);
}

} // verus!
