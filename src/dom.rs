//! The tree model: element and text nodes, attribute storage, the `id` and
//! `class` accessors, and the JSON-shaped serializer.

use vstd::prelude::*;
use vstd::string::*;
use crate::chars::{push_str, push_trimmed, chars_of, string_of, trim};

verus! {

/// The mathematical value of a node: an element with its tag, its
/// attributes as a map and its children, or a run of text with the
/// children that the node holds (none, in any well-formed tree).
pub enum Tree {
    Element { tag: Seq<char>, attrs: Map<Seq<char>, Seq<char>>, children: Seq<Tree> },
    Text { data: Seq<char>, children: Seq<Tree> },
}

/// The map that a list of name/value pairs stands for; a later pair for a
/// name replaces an earlier one.
pub open spec fn map_of(ps: Seq<(Seq<char>, Seq<char>)>) -> Map<Seq<char>, Seq<char>>
    decreases ps.len(),
{
    if ps.len() == 0 {
        Map::empty()
    } else {
        map_of(ps.drop_last()).insert(ps.last().0, ps.last().1)
    }
}

/// The character sequences of a list of string pairs.
pub open spec fn pairs_of(v: Seq<(String, String)>) -> Seq<(Seq<char>, Seq<char>)> {
    v.map_values(|e: (String, String)| (e.0@, e.1@))
}

/// `ps` with the value of each pair named `n` replaced by `v`.
pub open spec fn rename(ps: Seq<(Seq<char>, Seq<char>)>, n: Seq<char>, v: Seq<char>) -> Seq<
    (Seq<char>, Seq<char>),
> {
    ps.map_values(|p: (Seq<char>, Seq<char>)| if p.0 == n { (n, v) } else { p })
}

/// No name occurs twice in a list of pairs.
pub open spec fn names_unique(ps: Seq<(Seq<char>, Seq<char>)>) -> bool {
    forall|i: int, j: int| 0 <= i < j < ps.len() ==> ps[i].0 != ps[j].0
}

/// The attributes of an element: a mapping from name to value. Names are
/// kept unique; the pairs are kept in the order in which names first came.
#[derive(Debug)]
pub struct AttrMap {
    entries: Vec<(String, String)>,
}

impl AttrMap {
    /// The stored pairs, in order.
    pub closed spec fn pairs(&self) -> Seq<(Seq<char>, Seq<char>)> {
        pairs_of(self.entries@)
    }

    pub open spec fn view(&self) -> Map<Seq<char>, Seq<char>> {
        map_of(self.pairs())
    }

    /// No name is stored twice.
    #[verifier::type_invariant]
    closed spec fn names_are_unique(self) -> bool {
        names_unique(self.pairs())
    }

    /// An empty mapping.
    pub fn new() -> (r: AttrMap)
        ensures
            r.pairs() == Seq::<(Seq<char>, Seq<char>)>::empty(),
            r@ == Map::<Seq<char>, Seq<char>>::empty(),
            lists_map(r.pairs(), r@),
    {
        let r = AttrMap { entries: Vec::new() };
        assert(r.pairs() =~= Seq::<(Seq<char>, Seq<char>)>::empty());
        assert(r@ =~= Map::<Seq<char>, Seq<char>>::empty());
        r
    }

    /// The number of names bound.
    pub fn len(&self) -> (r: usize)
        ensures
            r == self.pairs().len(),
    {
        self.entries.len()
    }

    /// The value bound to `name`, if any.
    pub fn get(&self, name: &String) -> (r: Option<&String>)
        ensures
            r is Some <==> self@.contains_key(name@),
            r is Some ==> r.unwrap()@ == self@[name@],
    {
        let mut i: usize = self.entries.len();
        while i > 0
            invariant
                i <= self.entries@.len(),
                forall|j: int| i <= j < self.pairs().len() ==> self.pairs()[j].0 != name@,
            decreases i,
        {
            if self.entries[i - 1].0 == *name {
                proof {
                    lemma_map_of_last(self.pairs(), i - 1);
                }
                return Some(&self.entries[i - 1].1);
            }
            i -= 1;
        }
        proof {
            lemma_map_of_absent(self.pairs(), name@);
        }
        None
    }

    /// Binds `name` to `value`, replacing any earlier value of `name`.
    pub fn insert(&mut self, name: String, value: String)
        ensures
            final(self)@ == old(self)@.insert(name@, value@),
            lists_map(final(self).pairs(), final(self)@),
    {
        proof {
            use_type_invariant(&*self);
        }
        let ghost ps = self.pairs();
        let ghost nv = name@;
        let ghost vv = value@;
        let mut entries: Vec<(String, String)> = Vec::new();
        let mut found = false;
        let mut i: usize = 0;
        while i < self.entries.len()
            invariant
                i <= self.entries@.len(),
                ps == self.pairs(),
                names_unique(ps),
                name@ == nv,
                value@ == vv,
                pairs_of(entries@) == rename(ps.subrange(0, i as int), nv, vv),
                found <==> exists|j: int| 0 <= j < i && ps[j].0 == nv,
            decreases self.entries@.len() - i,
        {
            let ghost before = entries@;
            if self.entries[i].0 == name {
                entries.push((name.clone(), value.clone()));
                found = true;
            } else {
                entries.push((self.entries[i].0.clone(), self.entries[i].1.clone()));
            }
            proof {
                assert(pairs_of(entries@) =~= pairs_of(before).push(
                    if ps[i as int].0 == nv { (nv, vv) } else { ps[i as int] },
                ));
                assert(rename(ps.subrange(0, i + 1), nv, vv) =~= rename(ps.subrange(0, i as int), nv, vv).push(
                    if ps[i as int].0 == nv { (nv, vv) } else { ps[i as int] },
                ));
            }
            i += 1;
        }
        assert(ps.subrange(0, ps.len() as int) =~= ps);
        if !found {
            let ghost before = entries@;
            entries.push((name, value));
            proof {
                assert(rename(ps, nv, vv) =~= ps);
                assert(pairs_of(entries@) =~= ps.push((nv, vv)));
                assert(ps.push((nv, vv)).drop_last() =~= ps);
                lemma_map_of_absent(ps, nv);
                assert(names_unique(ps.push((nv, vv))));
            }
        } else {
            proof {
                let k = choose|j: int| 0 <= j < ps.len() && ps[j].0 == nv;
                assert(rename(ps, nv, vv) =~= ps.update(k, (nv, vv)));
                lemma_map_of_update(ps, k, vv);
                assert(names_unique(ps.update(k, (nv, vv))));
            }
        }
        *self = AttrMap { entries };
        proof {
            use_type_invariant(&*self);
            lemma_lists_map(self.pairs());
        }
    }
}

/// The pairs of `ps` are exactly the entries of `m`, each once.
pub open spec fn lists_map(ps: Seq<(Seq<char>, Seq<char>)>, m: Map<Seq<char>, Seq<char>>) -> bool {
    &&& names_unique(ps)
    &&& forall|i: int| 0 <= i < ps.len() ==> m.contains_key(#[trigger] ps[i].0) && m[ps[i].0] == ps[i].1
    &&& forall|k: Seq<char>| #[trigger] m.contains_key(k) ==> exists|i: int| 0 <= i < ps.len() && ps[i].0 == k
}

/// A list of pairs with unique names lists the entries of its map.
pub proof fn lemma_lists_map(ps: Seq<(Seq<char>, Seq<char>)>)
    requires
        names_unique(ps),
    ensures
        lists_map(ps, map_of(ps)),
{
    assert forall|i: int| 0 <= i < ps.len() implies map_of(ps).contains_key(#[trigger] ps[i].0)
        && map_of(ps)[ps[i].0] == ps[i].1 by {
        lemma_map_of_last(ps, i);
    }
    assert forall|k: Seq<char>| #[trigger] map_of(ps).contains_key(k) implies exists|i: int|
        0 <= i < ps.len() && ps[i].0 == k by {
        if !(exists|i: int| 0 <= i < ps.len() && ps[i].0 == k) {
            lemma_map_of_absent(ps, k);
        }
    }
}

/// A name that no pair carries is unbound.
pub proof fn lemma_map_of_absent(ps: Seq<(Seq<char>, Seq<char>)>, n: Seq<char>)
    requires
        forall|j: int| 0 <= j < ps.len() ==> ps[j].0 != n,
    ensures
        !map_of(ps).contains_key(n),
    decreases ps.len(),
{
    if ps.len() > 0 {
        lemma_map_of_absent(ps.drop_last(), n);
    }
}

/// The last pair that carries a name gives its value.
pub proof fn lemma_map_of_last(ps: Seq<(Seq<char>, Seq<char>)>, k: int)
    requires
        0 <= k < ps.len(),
        forall|j: int| k < j < ps.len() ==> ps[j].0 != ps[k].0,
    ensures
        map_of(ps).contains_key(ps[k].0),
        map_of(ps)[ps[k].0] == ps[k].1,
    decreases ps.len(),
{
    if k < ps.len() - 1 {
        lemma_map_of_last(ps.drop_last(), k);
    }
}

/// Replacing the value in the last pair that carries a name rebinds the name.
pub proof fn lemma_map_of_update(ps: Seq<(Seq<char>, Seq<char>)>, k: int, v: Seq<char>)
    requires
        0 <= k < ps.len(),
        forall|j: int| k < j < ps.len() ==> ps[j].0 != ps[k].0,
    ensures
        map_of(ps.update(k, (ps[k].0, v))) == map_of(ps).insert(ps[k].0, v),
    decreases ps.len(),
{
    let n = ps[k].0;
    let qs = ps.update(k, (n, v));
    if k == ps.len() - 1 {
        assert(qs.drop_last() =~= ps.drop_last());
        assert(map_of(qs) =~= map_of(ps).insert(n, v));
    } else {
        assert(qs.drop_last() =~= ps.drop_last().update(k, (n, v)));
        lemma_map_of_update(ps.drop_last(), k, v);
        assert(map_of(qs) =~= map_of(ps).insert(n, v));
    }
}


/// A node of the tree: its children, in order, and what kind of node it is.
#[derive(Debug)]
pub struct Node {
    pub children: Vec<Node>,
    pub node_type: NodeType,
}

/// What a node is: an element, or a run of text.
#[derive(Debug)]
pub enum NodeType {
    Element(ElementData),
    Text(String),
}

/// The tag name and attributes of an element.
#[derive(Debug)]
pub struct ElementData {
    pub tag_name: String,
    pub attributes: AttrMap,
}

impl View for Node {
    type V = Tree;

    open spec fn view(&self) -> Tree
        decreases self,
    {
        match self.node_type {
            NodeType::Element(e) => Tree::Element {
                tag: e.tag_name@,
                attrs: e.attributes@,
                children: views(self.children@),
            },
            NodeType::Text(d) => Tree::Text { data: d@, children: views(self.children@) },
        }
    }
}

/// The values of a sequence of nodes.
pub open spec fn views(s: Seq<Node>) -> Seq<Tree>
    decreases s,
{
    if s.len() == 0 {
        Seq::empty()
    } else {
        views(s.drop_last()).push(s.last()@)
    }
}


/// A sequence of nodes and its values have the same length.
pub proof fn lemma_views_len(s: Seq<Node>)
    ensures
        views(s).len() == s.len(),
    decreases s.len(),
{
    if s.len() > 0 {
        lemma_views_len(s.drop_last());
        assert(views(s) == views(s.drop_last()).push(s.last()@));
    } else {
        assert(views(s) == Seq::<Tree>::empty());
    }
}

/// The rendering of one attribute: `"name": "value"`.
pub open spec fn attr_json(p: (Seq<char>, Seq<char>)) -> Seq<char> {
    "\""@ + p.0 + "\": \""@ + p.1 + "\""@
}

/// The renderings of a list of attributes, separated by commas.
pub open spec fn attrs_json(ps: Seq<(Seq<char>, Seq<char>)>) -> Seq<char>
    decreases ps.len(),
{
    if ps.len() == 0 {
        Seq::empty()
    } else if ps.len() == 1 {
        attr_json(ps[0])
    } else {
        attrs_json(ps.drop_last()) + ","@ + attr_json(ps.last())
    }
}

/// The JSON-shaped rendering of a node and its subtree.
pub open spec fn json_of(n: Node) -> Seq<char>
    decreases n,
{
    match n.node_type {
        NodeType::Element(e) => "{\"node_type\": \"element\", \"tag_name\": \""@ + e.tag_name@
            + "\", \"attributes\": {"@ + attrs_json(e.attributes.pairs()) + "}, \"children\": ["@
            + json_list(n.children@) + "]}"@,
        NodeType::Text(d) => "{\"node_type\": \"text\", \"data\": \""@ + trim(d@) + "\"}"@,
    }
}

/// The renderings of a sequence of nodes, separated by commas.
pub open spec fn json_list(s: Seq<Node>) -> Seq<char>
    decreases s,
{
    if s.len() == 0 {
        Seq::empty()
    } else if s.len() == 1 {
        json_of(s[0])
    } else {
        json_list(s.drop_last()) + ","@ + json_of(s.last())
    }
}

impl Node {
    /// Renders the node and its subtree as a JSON-shaped string.
    pub fn tojson(&self) -> (r: String)
        ensures
            r@ == json_of(*self),
            attrs_listed(*self),
    {
        let mut out: Vec<char> = Vec::new();
        self.write_json(&mut out);
        assert(out@ =~= json_of(*self));
        string_of(&out)
    }

    fn write_json(&self, out: &mut Vec<char>)
        ensures
            final(out)@ == old(out)@ + json_of(*self),
            attrs_listed(*self),
        decreases self, 1int,
    {
        match &self.node_type {
            NodeType::Element(e) => {
                push_str(out, "{\"node_type\": \"element\", \"tag_name\": \"");
                push_str(out, e.tag_name.as_str());
                push_str(out, "\", \"attributes\": {");
                self.get_attributes_string(&e.attributes, out);
                push_str(out, "}, \"children\": [");
                self.get_children_nodes(out);
                push_str(out, "]}");
            },
            NodeType::Text(d) => {
                push_str(out, "{\"node_type\": \"text\", \"data\": \"");
                let v = chars_of(d.as_str());
                push_trimmed(out, &v);
                push_str(out, "\"}");
            },
        }
        assert(final(out)@ =~= old(out)@ + json_of(*self));
    }

    fn get_attributes_string(&self, attrmap: &AttrMap, out: &mut Vec<char>)
        ensures
            final(out)@ == old(out)@ + attrs_json(attrmap.pairs()),
            lists_map(attrmap.pairs(), attrmap@),
    {
        proof {
            use_type_invariant(attrmap);
            lemma_lists_map(attrmap.pairs());
        }
        let ghost ps = attrmap.pairs();
        let mut i: usize = 0;
        while i < attrmap.entries.len()
            invariant
                i <= ps.len() == attrmap.entries@.len(),
                ps == attrmap.pairs(),
                out@ == old(out)@ + attrs_json(ps.subrange(0, i as int)),
            decreases ps.len() - i,
        {
            let ghost before = out@;
            if i > 0 {
                push_str(out, ",");
            }
            push_str(out, "\"");
            push_str(out, attrmap.entries[i].0.as_str());
            push_str(out, "\": \"");
            push_str(out, attrmap.entries[i].1.as_str());
            push_str(out, "\"");
            proof {
                let sub = ps.subrange(0, i + 1);
                assert(sub.drop_last() =~= ps.subrange(0, i as int));
                assert(sub.last() == ps[i as int]);
                if i == 0 {
                    assert(out@ =~= before + attrs_json(sub));
                } else {
                    assert(out@ =~= before + ","@ + attr_json(sub.last()));
                }
            }
            i += 1;
        }
        assert(ps.subrange(0, ps.len() as int) =~= ps);
    }

    fn get_children_nodes(&self, out: &mut Vec<char>)
        ensures
            final(out)@ == old(out)@ + json_list(self.children@),
            listed_all(self.children@),
        decreases self, 0int,
    {
        let ghost cs = self.children@;
        let mut i: usize = 0;
        while i < self.children.len()
            invariant
                i <= cs.len() == self.children@.len(),
                cs == self.children@,
                forall|j: int| 0 <= j < i ==> attrs_listed(#[trigger] cs[j]),
                out@ == old(out)@ + json_list(cs.subrange(0, i as int)),
            decreases cs.len() - i,
        {
            let ghost before = out@;
            if i > 0 {
                push_str(out, ",");
            }
            self.children[i].write_json(out);
            proof {
                let sub = cs.subrange(0, i + 1);
                assert(sub.drop_last() =~= cs.subrange(0, i as int));
                if i == 0 {
                    assert(out@ =~= before + json_list(sub));
                } else {
                    assert(out@ =~= before + ","@ + json_of(sub.last()));
                }
            }
            i += 1;
        }
        assert(cs.subrange(0, cs.len() as int) =~= cs);
        proof {
            lemma_listed_all(cs);
        }
    }
}

/// Every element of the subtree of `n` that is rendered stores its
/// attributes as a list that holds each entry of its map exactly once.
pub open spec fn attrs_listed(n: Node) -> bool
    decreases n,
{
    match n.node_type {
        NodeType::Element(e) => lists_map(e.attributes.pairs(), e.attributes@) && listed_all(
            n.children@,
        ),
        NodeType::Text(_) => true,
    }
}

/// `attrs_listed` holds of every node of `s`.
pub open spec fn listed_all(s: Seq<Node>) -> bool
    decreases s,
{
    if s.len() == 0 {
        true
    } else {
        attrs_listed(s[0]) && listed_all(s.drop_first())
    }
}

proof fn lemma_listed_all(s: Seq<Node>)
    requires
        forall|j: int| 0 <= j < s.len() ==> attrs_listed(#[trigger] s[j]),
    ensures
        listed_all(s),
    decreases s.len(),
{
    if s.len() > 0 {
        assert forall|j: int| 0 <= j < s.drop_first().len() implies attrs_listed(
            #[trigger] s.drop_first()[j],
        ) by {
            assert(s.drop_first()[j] == s[j + 1]);
        }
        lemma_listed_all(s.drop_first());
    }
}

/// A text node holding `data` as it is.
pub fn text(data: String) -> (r: Node)
    ensures
        r.children@.len() == 0,
        r.node_type == NodeType::Text(data),
        r@ == (Tree::Text { data: data@, children: Seq::empty() }),
{
    Node { children: vec![], node_type: NodeType::Text(data) }
}

/// An element node with the given tag name, attributes and children.
pub fn elem(name: String, attrs: AttrMap, children: Vec<Node>) -> (r: Node)
    ensures
        r.children == children,
        r.node_type == NodeType::Element(ElementData { tag_name: name, attributes: attrs }),
        r@ == (Tree::Element { tag: name@, attrs: attrs@, children: views(children@) }),
{
    Node { children: children, node_type: NodeType::Element(ElementData { tag_name: name, attributes: attrs }) }
}


/// The pieces of `s` between single spaces, in order; `s` with no space is
/// one piece, and two spaces in a row give an empty piece between them.
pub open spec fn split_space(s: Seq<char>) -> Seq<Seq<char>>
    decreases s.len(),
{
    if s.len() == 0 {
        seq![Seq::empty()]
    } else {
        let prev = split_space(s.drop_last());
        if s.last() == ' ' {
            prev.push(Seq::empty())
        } else {
            prev.update(prev.len() - 1, prev.last().push(s.last()))
        }
    }
}

/// The character sequences of a sequence of strings.
pub open spec fn texts(r: Seq<String>) -> Seq<Seq<char>> {
    r.map_values(|t: String| t@)
}

/// The class tokens that an element with the given attributes has.
pub open spec fn class_set(attrs: Map<Seq<char>, Seq<char>>) -> Set<Seq<char>> {
    if attrs.contains_key("class"@) {
        split_space(attrs["class"@]).to_set()
    } else {
        Set::empty()
    }
}

impl ElementData {
    /// The value of the `id` attribute, if the element has one.
    pub fn id(&self) -> (r: Option<&String>)
        ensures
            r is Some <==> self.attributes@.contains_key("id"@),
            r is Some ==> r.unwrap()@ == self.attributes@["id"@],
    {
        let key = String::from_str("id");
        self.attributes.get(&key)
    }

    /// The tokens of the `class` attribute split on single spaces, each
    /// once; none when the element has no `class` attribute.
    pub fn classes(&self) -> (r: Vec<String>)
        ensures
            texts(r@).to_set() == class_set(self.attributes@),
            texts(r@).no_duplicates(),
    {
        let key = String::from_str("class");
        let mut r: Vec<String> = Vec::new();
        match self.attributes.get(&key) {
            None => {
                assert(texts(r@) =~= Seq::<Seq<char>>::empty());
                assert(texts(r@).to_set() =~= Set::<Seq<char>>::empty());
                r
            },
            Some(list) => {
                let v = chars_of(list.as_str());
                let ghost s = v@;
                let mut cur: Vec<char> = Vec::new();
                let ghost mut done: Seq<Seq<char>> = Seq::empty();
                let mut i: usize = 0;
                assert(s.subrange(0, 0) =~= Seq::<char>::empty());
                assert(done.push(cur@) =~= split_space(s.subrange(0, 0)));
                while i < v.len()
                    invariant
                        i <= s.len() == v@.len(),
                        s == v@,
                        split_space(s.subrange(0, i as int)) == done.push(cur@),
                        texts(r@).to_set() == done.to_set(),
                        texts(r@).no_duplicates(),
                    decreases s.len() - i,
                {
                    let ghost pre = s.subrange(0, i as int);
                    assert(s.subrange(0, i + 1).drop_last() =~= pre);
                    if v[i] == ' ' {
                        let piece = string_of(&cur);
                        add_distinct(&mut r, piece);
                        proof {
                            done.lemma_push_to_set_commute(cur@);
                            done = done.push(cur@);
                        }
                        cur = Vec::new();
                        assert(split_space(s.subrange(0, i + 1)) =~= done.push(cur@));
                    } else {
                        cur.push(v[i]);
                        assert(split_space(s.subrange(0, i + 1)) =~= done.push(cur@));
                    }
                    i += 1;
                }
                assert(s.subrange(0, s.len() as int) =~= s);
                let piece = string_of(&cur);
                add_distinct(&mut r, piece);
                proof {
                    done.lemma_push_to_set_commute(cur@);
                }
                r
            },
        }
    }
}

/// Appends `t` to `r` unless a string with the same characters is there.
fn add_distinct(r: &mut Vec<String>, t: String)
    requires
        texts(old(r)@).no_duplicates(),
    ensures
        texts(final(r)@).to_set() == texts(old(r)@).to_set().insert(t@),
        texts(final(r)@).no_duplicates(),
{
    let ghost rv = texts(r@);
    let mut i: usize = 0;
    while i < r.len()
        invariant
            i <= r@.len(),
            rv == texts(r@),
            r@ == old(r)@,
            rv.no_duplicates(),
            forall|j: int| 0 <= j < i ==> rv[j] != t@,
        decreases r@.len() - i,
    {
        if r[i] == t {
            assert(rv[i as int] == t@);
            assert(rv.to_set().insert(t@) =~= rv.to_set());
            assert(texts(r@) == rv);
            return;
        }
        i += 1;
    }
    let ghost tv = t@;
    r.push(t);
    assert(texts(r@) =~= rv.push(tv));
    proof {
        rv.lemma_push_to_set_commute(tv);
        assert(forall|j: int| 0 <= j < rv.len() ==> rv[j] != tv);
    }
}

} // verus!
