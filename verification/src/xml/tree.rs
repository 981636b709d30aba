//! A parsed XML document held as plain values: its nodes in document order,
//! each with its parent, its tag name and its text, plus the children of
//! each node.
use vstd::prelude::*;

verus! {

/// One node of a parsed XML document.
pub struct XmlNode {
    /// Position of the parent node; only the document node has none.
    pub parent: Option<usize>,
    pub is_element: bool,
    /// Local tag name; empty for nodes that are not elements.
    pub name: String,
    /// The node's text: an element's leading text child, or the content of a
    /// text or comment node.
    pub text: Option<String>,
}

/// A node as plain values: parent, element flag, tag name, text.
pub type NodeView = (Option<usize>, bool, Seq<char>, Option<Seq<char>>);

pub open spec fn node_view(n: XmlNode) -> NodeView {
    (
        n.parent,
        n.is_element,
        n.name@,
        match n.text {
            Some(t) => Some(t@),
            None => None,
        },
    )
}

pub open spec fn nodes_view(s: Seq<XmlNode>) -> Seq<NodeView> {
    s.map_values(|n: XmlNode| node_view(n))
}

/// The nodes that `roxmltree::Document::parse` reads from a text, in
/// document order (the document node first), or the message of its error.
pub uninterp spec fn xml_document(text: Seq<char>) -> Result<Seq<NodeView>, Seq<char>>;

/// `roxmltree::Document::parse`: the document's nodes, in document order, as
/// plain values, or the parser's error message.
#[verifier::external_body]
fn parse_nodes(text: &str) -> (r: Result<Vec<XmlNode>, String>)
    ensures
        match r {
            Ok(v) => xml_document(text@) == Ok::<Seq<NodeView>, Seq<char>>(nodes_view(v@)),
            Err(m) => xml_document(text@) == Err::<Seq<NodeView>, Seq<char>>(m@),
        },
{
    match roxmltree::Document::parse(text) {
        Ok(doc) => Ok(doc.descendants().map(|n| XmlNode {
            parent: n.parent().map(|p| p.id().get_usize()),
            is_element: n.is_element(),
            name: n.tag_name().name().to_string(),
            text: n.text().map(|t| t.to_string()),
        }).collect()),
        Err(e) => Err(e.to_string()),
    }
}

/// The children of node `p` among the first `n` nodes, in document order.
pub open spec fn kids_upto(nodes: Seq<NodeView>, p: usize, n: int) -> Seq<usize>
    decreases n,
{
    if n <= 0 {
        Seq::empty()
    } else {
        let prev = kids_upto(nodes, p, n - 1);
        if nodes[n - 1].0 == Some(p) {
            prev.push((n - 1) as usize)
        } else {
            prev
        }
    }
}

/// The children of node `p`, in document order.
pub open spec fn kids(nodes: Seq<NodeView>, p: usize) -> Seq<usize> {
    kids_upto(nodes, p, nodes.len() as int)
}

/// The nodes of `ks` whose tag name is `name`, in order.
pub open spec fn named(nodes: Seq<NodeView>, ks: Seq<usize>, name: Seq<char>) -> Seq<usize>
    decreases ks.len(),
{
    if ks.len() == 0 {
        Seq::empty()
    } else {
        let rest = named(nodes, ks.drop_last(), name);
        if nodes[ks.last() as int].2 == name {
            rest.push(ks.last())
        } else {
            rest
        }
    }
}

/// The element nodes of `ks`, in order.
pub open spec fn elements_of(nodes: Seq<NodeView>, ks: Seq<usize>) -> Seq<usize>
    decreases ks.len(),
{
    if ks.len() == 0 {
        Seq::empty()
    } else {
        let rest = elements_of(nodes, ks.drop_last());
        if nodes[ks.last() as int].1 {
            rest.push(ks.last())
        } else {
            rest
        }
    }
}

/// The text of each node of `ks`, or the empty text where it has none.
pub open spec fn texts(nodes: Seq<NodeView>, ks: Seq<usize>) -> Seq<Seq<char>> {
    ks.map_values(|j: usize| text_or_empty(nodes[j as int].3))
}

pub open spec fn text_or_empty(t: Option<Seq<char>>) -> Seq<char> {
    match t {
        Some(s) => s,
        None => Seq::empty(),
    }
}

pub open spec fn first_of(ks: Seq<usize>) -> Option<usize> {
    if ks.len() > 0 {
        Some(ks[0])
    } else {
        None
    }
}

/// The first child of `p` named `name`.
pub open spec fn child(nodes: Seq<NodeView>, p: usize, name: Seq<char>) -> Option<usize> {
    first_of(named(nodes, kids(nodes, p), name))
}

/// The text of the first child of `p` named `name`.
pub open spec fn child_text(nodes: Seq<NodeView>, p: usize, name: Seq<char>) -> Option<Seq<char>> {
    match child(nodes, p, name) {
        Some(j) => nodes[j as int].3,
        None => None,
    }
}

/// The document's root element: the first element child of the document node.
pub open spec fn root_element(nodes: Seq<NodeView>) -> Option<usize> {
    if nodes.len() > 0 {
        first_of(elements_of(nodes, kids(nodes, 0)))
    } else {
        None
    }
}

/// Every node of `ks` is a position in `nodes`.
pub open spec fn in_range(nodes: Seq<NodeView>, ks: Seq<usize>) -> bool {
    forall|i: int| 0 <= i < ks.len() ==> ks[i] < nodes.len()
}

pub proof fn lemma_named_in_range(nodes: Seq<NodeView>, ks: Seq<usize>, name: Seq<char>)
    requires
        in_range(nodes, ks),
    ensures
        in_range(nodes, named(nodes, ks, name)),
    decreases ks.len(),
{
    if ks.len() > 0 {
        lemma_named_in_range(nodes, ks.drop_last(), name);
    }
}

pub proof fn lemma_elements_in_range(nodes: Seq<NodeView>, ks: Seq<usize>)
    requires
        in_range(nodes, ks),
    ensures
        in_range(nodes, elements_of(nodes, ks)),
    decreases ks.len(),
{
    if ks.len() > 0 {
        lemma_elements_in_range(nodes, ks.drop_last());
    }
}

pub proof fn lemma_kids_in_range(nodes: Seq<NodeView>, p: usize, n: int)
    requires
        n <= usize::MAX,
    ensures
        forall|i: int| 0 <= i < kids_upto(nodes, p, n).len() ==> kids_upto(nodes, p, n)[i] < n,
    decreases n,
{
    if n > 0 {
        lemma_kids_in_range(nodes, p, n - 1);
        let prev = kids_upto(nodes, p, n - 1);
        if nodes[n - 1].0 == Some(p) {
            assert(prev.push((n - 1) as usize).last() == n - 1);
        }
    }
}

/// A parsed document with the children of every node.
pub struct XmlDoc {
    pub nodes: Vec<XmlNode>,
    pub kids: Vec<Vec<usize>>,
}

impl XmlDoc {
    pub open spec fn view_nodes(&self) -> Seq<NodeView> {
        nodes_view(self.nodes@)
    }

    /// `kids[p]` lists the children of `p`.
    pub open spec fn wf(&self) -> bool {
        &&& self.kids@.len() == self.nodes@.len()
        &&& forall|p: int| 0 <= p < self.kids@.len() ==> #[trigger] self.kids@[p]@ == kids(self.view_nodes(), p as usize)
    }

    /// Parse `text`, or return the parser's error message.
    pub fn parse(text: &str) -> (r: Result<XmlDoc, String>)
        ensures
            match xml_document(text@) {
                Ok(ns) => (r matches Ok(d) && d.wf() && d.view_nodes() == ns),
                Err(m) => (r matches Err(e) && e@ == m),
            },
    {
        match parse_nodes(text) {
            Ok(nodes) => {
                let kids = build_kids(&nodes);
                Ok(XmlDoc { nodes, kids })
            },
            Err(m) => Err(m),
        }
    }

    /// The first child of `p` named `name`.
    pub fn child(&self, p: usize, name: &str) -> (r: Option<usize>)
        requires
            self.wf(),
            p < self.nodes@.len(),
        ensures
            r == child(self.view_nodes(), p, name@),
            r matches Some(j) ==> j < self.nodes@.len(),
    {
        let ks = &self.kids[p];
        let ghost nv = self.view_nodes();
        let total = self.nodes.len();
        proof {
            assert(nv.len() == total);
            lemma_kids_in_range(nv, p, nv.len() as int);
        }
        let mut i: usize = 0;
        while i < ks.len()
            invariant
                self.wf(),
                nv == self.view_nodes(),
                ks@ == kids(nv, p),
                in_range(nv, ks@),
                i <= ks@.len(),
                named(nv, ks@.take(i as int), name@).len() == 0,
            decreases ks.len() - i,
        {
            let k = ks[i];
            proof {
                assert(ks@.take(i + 1).drop_last() =~= ks@.take(i as int));
            }
            if crate::text::str_eq(self.nodes[k].name.as_str(), name) {
                proof {
                    lemma_named_prefix(nv, ks@, name@, i as int + 1);
                }
                return Some(k);
            }
            i = i + 1;
        }
        proof {
            assert(ks@.take(i as int) =~= ks@);
        }
        None
    }

    /// The text of the first child of `p` named `name`.
    pub fn child_text(&self, p: usize, name: &str) -> (r: Option<String>)
        requires
            self.wf(),
            p < self.nodes@.len(),
        ensures
            match child_text(self.view_nodes(), p, name@) {
                Some(t) => (r matches Some(s) && s@ == t),
                None => r is None,
            },
    {
        match self.child(p, name) {
            Some(j) => match &self.nodes[j].text {
                Some(t) => Some(t.clone()),
                None => None,
            },
            None => None,
        }
    }

    /// The children of `p` named `name`, in document order.
    pub fn children_named(&self, p: usize, name: &str) -> (r: Vec<usize>)
        requires
            self.wf(),
            p < self.nodes@.len(),
        ensures
            r@ == named(self.view_nodes(), kids(self.view_nodes(), p), name@),
            in_range(self.view_nodes(), r@),
    {
        let ks = &self.kids[p];
        let ghost nv = self.view_nodes();
        let total = self.nodes.len();
        proof {
            assert(nv.len() == total);
            lemma_kids_in_range(nv, p, nv.len() as int);
        }
        let mut out: Vec<usize> = Vec::new();
        let mut i: usize = 0;
        while i < ks.len()
            invariant
                self.wf(),
                nv == self.view_nodes(),
                ks@ == kids(nv, p),
                in_range(nv, ks@),
                i <= ks@.len(),
                out@ == named(nv, ks@.take(i as int), name@),
            decreases ks.len() - i,
        {
            let k = ks[i];
            proof {
                assert(ks@.take(i + 1).drop_last() =~= ks@.take(i as int));
            }
            if crate::text::str_eq(self.nodes[k].name.as_str(), name) {
                out.push(k);
            }
            i = i + 1;
        }
        proof {
            assert(ks@.take(i as int) =~= ks@);
            lemma_named_in_range(nv, ks@, name@);
        }
        out
    }

    /// The nodes of `ks` named `name`, in order.
    pub fn filter_named(&self, ks: &Vec<usize>, name: &str) -> (r: Vec<usize>)
        requires
            in_range(self.view_nodes(), ks@),
        ensures
            r@ == named(self.view_nodes(), ks@, name@),
            in_range(self.view_nodes(), r@),
    {
        let ghost nv = self.view_nodes();
        let mut out: Vec<usize> = Vec::new();
        let mut i: usize = 0;
        while i < ks.len()
            invariant
                nv == self.view_nodes(),
                in_range(nv, ks@),
                i <= ks@.len(),
                out@ == named(nv, ks@.take(i as int), name@),
            decreases ks.len() - i,
        {
            let k = ks[i];
            proof {
                assert(ks@.take(i + 1).drop_last() =~= ks@.take(i as int));
            }
            if crate::text::str_eq(self.nodes[k].name.as_str(), name) {
                out.push(k);
            }
            i = i + 1;
        }
        proof {
            assert(ks@.take(i as int) =~= ks@);
            lemma_named_in_range(nv, ks@, name@);
        }
        out
    }

    /// The text of each node of `ks`, or the empty text.
    pub fn texts(&self, ks: &Vec<usize>) -> (r: Vec<String>)
        requires
            in_range(self.view_nodes(), ks@),
        ensures
            r@.len() == ks@.len(),
            forall|i: int| 0 <= i < ks@.len() ==> (#[trigger] r@[i])@ == texts(self.view_nodes(), ks@)[i],
    {
        let mut out: Vec<String> = Vec::new();
        let mut i: usize = 0;
        while i < ks.len()
            invariant
                in_range(self.view_nodes(), ks@),
                i <= ks@.len(),
                out@.len() == i,
                forall|j: int| 0 <= j < i ==> (#[trigger] out@[j])@ == texts(self.view_nodes(), ks@)[j],
            decreases ks.len() - i,
        {
            let t = match &self.nodes[ks[i]].text {
                Some(t) => t.clone(),
                None => String::new(),
            };
            out.push(t);
            i = i + 1;
        }
        out
    }

    /// The element children of `p`, in document order.
    pub fn element_children(&self, p: usize) -> (r: Vec<usize>)
        requires
            self.wf(),
            p < self.nodes@.len(),
        ensures
            r@ == elements_of(self.view_nodes(), kids(self.view_nodes(), p)),
            in_range(self.view_nodes(), r@),
    {
        let ks = &self.kids[p];
        let ghost nv = self.view_nodes();
        let total = self.nodes.len();
        proof {
            assert(nv.len() == total);
            lemma_kids_in_range(nv, p, nv.len() as int);
        }
        let mut out: Vec<usize> = Vec::new();
        let mut i: usize = 0;
        while i < ks.len()
            invariant
                self.wf(),
                nv == self.view_nodes(),
                ks@ == kids(nv, p),
                in_range(nv, ks@),
                i <= ks@.len(),
                out@ == elements_of(nv, ks@.take(i as int)),
            decreases ks.len() - i,
        {
            let k = ks[i];
            proof {
                assert(ks@.take(i + 1).drop_last() =~= ks@.take(i as int));
            }
            if self.nodes[k].is_element {
                out.push(k);
            }
            i = i + 1;
        }
        proof {
            assert(ks@.take(i as int) =~= ks@);
            lemma_elements_in_range(nv, ks@);
        }
        out
    }

    /// The root element.
    pub fn root_element(&self) -> (r: Option<usize>)
        requires
            self.wf(),
        ensures
            r == root_element(self.view_nodes()),
            r matches Some(j) ==> j < self.nodes@.len(),
    {
        if self.nodes.len() == 0 {
            return None;
        }
        let es = self.element_children(0);
        if es.len() > 0 {
            Some(es[0])
        } else {
            None
        }
    }
}

/// `named` of a prefix that holds no match extends to the first match.
proof fn lemma_named_prefix(nodes: Seq<NodeView>, ks: Seq<usize>, name: Seq<char>, n: int)
    requires
        0 < n <= ks.len(),
        named(nodes, ks.take(n - 1), name).len() == 0,
        nodes[ks[n - 1] as int].2 == name,
    ensures
        first_of(named(nodes, ks.take(n), name)) == Some(ks[n - 1]),
        first_of(named(nodes, ks, name)) == Some(ks[n - 1]),
    decreases ks.len() - n,
{
    assert(ks.take(n).drop_last() =~= ks.take(n - 1));
    assert(named(nodes, ks.take(n), name) =~= seq![ks[n - 1]]);
    lemma_named_first_stable(nodes, ks, name, n);
}

/// Once a prefix has a match, longer prefixes keep it first.
proof fn lemma_named_first_stable(nodes: Seq<NodeView>, ks: Seq<usize>, name: Seq<char>, n: int)
    requires
        0 < n <= ks.len(),
        named(nodes, ks.take(n), name).len() > 0,
    ensures
        named(nodes, ks, name).len() > 0,
        named(nodes, ks, name)[0] == named(nodes, ks.take(n), name)[0],
    decreases ks.len() - n,
{
    if n == ks.len() {
        assert(ks.take(n) =~= ks);
    } else {
        assert(ks.take(n + 1).drop_last() =~= ks.take(n));
        lemma_named_first_stable(nodes, ks, name, n + 1);
    }
}

/// The children index of a node list.
fn build_kids(nodes: &Vec<XmlNode>) -> (r: Vec<Vec<usize>>)
    ensures
        r@.len() == nodes@.len(),
        forall|p: int| 0 <= p < r@.len() ==> #[trigger] r@[p]@ == kids(nodes_view(nodes@), p as usize),
{
    let ghost nv = nodes_view(nodes@);
    let n = nodes.len();
    let mut out: Vec<Vec<usize>> = Vec::new();
    let mut k: usize = 0;
    while k < n
        invariant
            n == nodes@.len(),
            k <= n,
            out@.len() == k,
            forall|p: int| 0 <= p < k ==> #[trigger] out@[p]@ == Seq::<usize>::empty(),
        decreases n - k,
    {
        out.push(Vec::new());
        k = k + 1;
    }
    let mut i: usize = 0;
    while i < n
        invariant
            n == nodes@.len(),
            nv == nodes_view(nodes@),
            i <= n,
            out@.len() == n,
            forall|p: int| 0 <= p < n ==> #[trigger] out@[p]@ == kids_upto(nv, p as usize, i as int),
        decreases n - i,
    {
        let ghost before = out@;
        match nodes[i].parent {
            Some(p) => {
                if p < n {
                    let mut v: Vec<usize> = Vec::new();
                    std::mem::swap(&mut v, &mut out[p]);
                    v.push(i);
                    std::mem::swap(&mut v, &mut out[p]);
                }
            },
            None => {},
        }
        proof {
            assert forall|q: int| 0 <= q < n implies #[trigger] out@[q]@ == kids_upto(nv, q as usize, i + 1) by {
                assert(nv[i as int].0 == nodes@[i as int].parent);
            }
        }
        i = i + 1;
    }
    out
}

} // verus!
