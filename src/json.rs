//! A reader for JSON texts built from objects, arrays and strings, and the
//! law that the serializer's output is such a text, and reads back as the
//! tree's value, whenever every string it emits is a valid JSON string body.

use vstd::prelude::*;
use crate::chars::{escape, escape_char, trim};
use crate::dom::{Node, NodeType, attr_json, attrs_json, json_list, json_of};

verus! {

/// JSON insignificant whitespace.
pub open spec fn is_json_ws(c: char) -> bool {
    c == ' ' || c == '\t' || c == '\n' || c == '\r'
}

/// The characters that may follow a backslash inside a JSON string.
pub open spec fn is_json_escape(c: char) -> bool {
    c == '"' || c == '\\' || c == '/' || c == 'b' || c == 'f' || c == 'n' || c == 'r' || c == 't'
}

/// `s` without its leading JSON whitespace.
pub open spec fn skip_ws(s: Seq<char>) -> Seq<char>
    decreases s.len(),
{
    if s.len() > 0 && is_json_ws(s[0]) {
        skip_ws(s.drop_first())
    } else {
        s
    }
}

/// A JSON value made of strings, objects and arrays.
pub enum JVal {
    Str(Seq<char>),
    Obj(Seq<(Seq<char>, JVal)>),
    Arr(Seq<JVal>),
}

/// The character that a backslash escape stands for.
pub open spec fn decode_escape(c: char) -> char {
    if c == 'b' {
        '\u{8}'
    } else if c == 'f' {
        '\u{c}'
    } else if c == 'n' {
        '\n'
    } else if c == 'r' {
        '\r'
    } else if c == 't' {
        '\t'
    } else {
        c
    }
}

/// The characters that a JSON string body stands for, escapes decoded.
pub open spec fn unescape(t: Seq<char>) -> Seq<char>
    decreases t.len(),
{
    if t.len() == 0 {
        Seq::empty()
    } else if t[0] == '\\' && t.len() > 1 {
        seq![decode_escape(t[1])] + unescape(t.skip(2))
    } else {
        seq![t[0]] + unescape(t.drop_first())
    }
}

/// Reads the rest of a string whose opening quote is already read: the
/// characters it stands for, and what follows the closing quote.
pub open spec fn read_str_body(s: Seq<char>) -> Option<(Seq<char>, Seq<char>)>
    decreases s.len(),
{
    if s.len() == 0 {
        None
    } else if s[0] == '"' {
        Some((Seq::empty(), s.drop_first()))
    } else if s[0] == '\\' {
        if s.len() > 1 && is_json_escape(s[1]) {
            match read_str_body(s.skip(2)) {
                Some((b, r)) => Some((seq![decode_escape(s[1])] + b, r)),
                None => None,
            }
        } else {
            None
        }
    } else if (s[0] as u32) < 0x20 {
        None
    } else {
        match read_str_body(s.drop_first()) {
            Some((b, r)) => Some((seq![s[0]] + b, r)),
            None => None,
        }
    }
}

/// Reads one value at the very start of `s`: the value, and what follows it.
pub open spec fn read_value(s: Seq<char>) -> Option<(JVal, Seq<char>)>
    decreases s.len(), 0int,
{
    if s.len() == 0 {
        None
    } else if s[0] == '"' {
        match read_str_body(s.drop_first()) {
            Some((b, r)) => Some((JVal::Str(b), r)),
            None => None,
        }
    } else if s[0] == '{' {
        match read_object(s.drop_first()) {
            Some((ms, r)) => Some((JVal::Obj(ms), r)),
            None => None,
        }
    } else if s[0] == '[' {
        match read_array(s.drop_first()) {
            Some((vs, r)) => Some((JVal::Arr(vs), r)),
            None => None,
        }
    } else {
        None
    }
}

/// Reads the rest of an object whose `{` is already read: its members.
pub open spec fn read_object(s: Seq<char>) -> Option<(Seq<(Seq<char>, JVal)>, Seq<char>)>
    decreases s.len(), 2int,
    via read_object_decreases
{
    let t = skip_ws(s);
    if t.len() > 0 && t[0] == '}' {
        Some((Seq::empty(), t.drop_first()))
    } else {
        read_members(t)
    }
}

#[via_fn]
proof fn read_object_decreases(s: Seq<char>) {
    lemma_skip_ws_len(s);
}

/// Reads `"key": value` pairs separated by commas, then the closing `}`.
pub open spec fn read_members(s: Seq<char>) -> Option<(Seq<(Seq<char>, JVal)>, Seq<char>)>
    decreases s.len(), 1int,
    via read_members_decreases
{
    if !(s.len() > 0 && s[0] == '"') {
        None
    } else {
        match read_str_body(s.drop_first()) {
            None => None,
            Some((k, a)) => {
                let b = skip_ws(a);
                if !(b.len() > 0 && b[0] == ':') {
                    None
                } else {
                    match read_value(skip_ws(b.drop_first())) {
                        None => None,
                        Some((v, d)) => if d.len() >= s.len() {
                            None
                        } else {
                            let e = skip_ws(d);
                            if e.len() > 0 && e[0] == ',' {
                                match read_members(skip_ws(e.drop_first())) {
                                    Some((ms, r)) => Some((seq![(k, v)] + ms, r)),
                                    None => None,
                                }
                            } else if e.len() > 0 && e[0] == '}' {
                                Some((seq![(k, v)], e.drop_first()))
                            } else {
                                None
                            }
                        },
                    }
                }
            },
        }
    }
}

#[via_fn]
proof fn read_members_decreases(s: Seq<char>) {
    lemma_skip_ws_len_all();
    lemma_str_body_len_all();
}

/// Reads the rest of an array whose `[` is already read: its elements.
pub open spec fn read_array(s: Seq<char>) -> Option<(Seq<JVal>, Seq<char>)>
    decreases s.len(), 2int,
    via read_array_decreases
{
    let t = skip_ws(s);
    if t.len() > 0 && t[0] == ']' {
        Some((Seq::empty(), t.drop_first()))
    } else {
        read_elements(t)
    }
}

#[via_fn]
proof fn read_array_decreases(s: Seq<char>) {
    lemma_skip_ws_len(s);
}

/// Reads values separated by commas, then the closing `]`.
pub open spec fn read_elements(s: Seq<char>) -> Option<(Seq<JVal>, Seq<char>)>
    decreases s.len(), 1int,
    via read_elements_decreases
{
    match read_value(s) {
        None => None,
        Some((v, d)) => if d.len() >= s.len() {
            None
        } else {
            let e = skip_ws(d);
            if e.len() > 0 && e[0] == ',' {
                match read_elements(skip_ws(e.drop_first())) {
                    Some((vs, r)) => Some((seq![v] + vs, r)),
                    None => None,
                }
            } else if e.len() > 0 && e[0] == ']' {
                Some((seq![v], e.drop_first()))
            } else {
                None
            }
        },
    }
}

#[via_fn]
proof fn read_elements_decreases(s: Seq<char>) {
    lemma_skip_ws_len_all();
}

/// The value of `s` as a whole JSON text: one value with optional
/// whitespace around it.
pub open spec fn read_json(s: Seq<char>) -> Option<JVal> {
    match read_value(skip_ws(s)) {
        Some((v, r)) => if skip_ws(r).len() == 0 {
            Some(v)
        } else {
            None
        },
        None => None,
    }
}

proof fn lemma_skip_ws_len(s: Seq<char>)
    ensures
        skip_ws(s).len() <= s.len(),
    decreases s.len(),
{
    if s.len() > 0 && is_json_ws(s[0]) {
        lemma_skip_ws_len(s.drop_first());
    }
}

proof fn lemma_skip_ws_len_all()
    ensures
        forall|s: Seq<char>| #[trigger] skip_ws(s).len() <= s.len(),
{
    assert forall|s: Seq<char>| #[trigger] skip_ws(s).len() <= s.len() by {
        lemma_skip_ws_len(s);
    }
}

proof fn lemma_str_body_len_all()
    ensures
        forall|s: Seq<char>| #[trigger] read_str_body(s) matches Some((b, r)) ==> r.len() < s.len(),
{
    assert forall|s: Seq<char>| #[trigger] read_str_body(s) matches Some((b, r)) ==> r.len() < s.len() by {
        lemma_str_body_len(s);
    }
}

proof fn lemma_str_body_len(s: Seq<char>)
    ensures
        read_str_body(s) matches Some((b, r)) ==> r.len() < s.len(),
    decreases s.len(),
{
    if s.len() > 0 && s[0] != '"' {
        if s[0] == '\\' {
            if s.len() > 1 {
                lemma_str_body_len(s.skip(2));
            }
        } else {
            lemma_str_body_len(s.drop_first());
        }
    }
}


/// `t` is a valid JSON string body: no bare quote or control character,
/// and each backslash starts a one-character escape.
pub open spec fn str_ok(t: Seq<char>) -> bool
    decreases t.len(),
{
    if t.len() == 0 {
        true
    } else if t[0] == '"' || (t[0] as u32) < 0x20 {
        false
    } else if t[0] == '\\' {
        t.len() > 1 && is_json_escape(t[1]) && str_ok(t.skip(2))
    } else {
        str_ok(t.drop_first())
    }
}

/// Every string that the serializer emits for `n` is a valid JSON string
/// body: tag names, attribute names and values, and trimmed text.
pub open spec fn json_safe(n: Node) -> bool
    decreases n,
{
    match n.node_type {
        NodeType::Element(e) => str_ok(e.tag_name@) && attrs_safe(e.attributes.pairs()) && list_safe(
            n.children@,
        ),
        NodeType::Text(d) => str_ok(trim(d@)),
    }
}

/// Each node of `s` is `json_safe`.
pub open spec fn list_safe(s: Seq<Node>) -> bool
    decreases s,
{
    if s.len() == 0 {
        true
    } else {
        json_safe(s[0]) && list_safe(s.drop_first())
    }
}

/// Each name and value of `ps` is a valid JSON string body.
pub open spec fn attrs_safe(ps: Seq<(Seq<char>, Seq<char>)>) -> bool {
    forall|i: int| 0 <= i < ps.len() ==> str_ok(#[trigger] ps[i].0) && str_ok(ps[i].1)
}

/// A quoted string: `"t"`.
pub open spec fn quoted(t: Seq<char>) -> Seq<char> {
    seq!['"'] + t + seq!['"']
}

proof fn lemma_str(t: Seq<char>, r: Seq<char>)
    requires
        str_ok(t),
    ensures
        read_str_body(t + seq!['"'] + r) == Some((unescape(t), r)),
    decreases t.len(),
{
    let s = t + seq!['"'] + r;
    if t.len() == 0 {
        assert(s.drop_first() =~= r);
    } else if t[0] == '\\' {
        assert(s.skip(2) =~= t.skip(2) + seq!['"'] + r);
        lemma_str(t.skip(2), r);
    } else {
        assert(s.drop_first() =~= t.drop_first() + seq!['"'] + r);
        lemma_str(t.drop_first(), r);
    }
}

proof fn lemma_read_quoted(t: Seq<char>, r: Seq<char>)
    requires
        str_ok(t),
    ensures
        read_value(quoted(t) + r) == Some((JVal::Str(unescape(t)), r)),
{
    let s = quoted(t) + r;
    assert(s.drop_first() =~= t + seq!['"'] + r);
    lemma_str(t, r);
}

proof fn lemma_skip_ws_none(s: Seq<char>)
    requires
        s.len() > 0,
        !is_json_ws(s[0]),
    ensures
        skip_ws(s) == s,
{
}

proof fn lemma_skip_space(s: Seq<char>)
    ensures
        skip_ws(seq![' '] + s) == skip_ws(s),
{
    assert((seq![' '] + s).drop_first() =~= s);
}

/// `m` put in front of the members of a `read_members` result.
pub open spec fn prepend(m: (Seq<char>, JVal), o: Option<(Seq<(Seq<char>, JVal)>, Seq<char>)>) -> Option<
    (Seq<(Seq<char>, JVal)>, Seq<char>),
> {
    match o {
        Some((ms, r)) => Some((seq![m] + ms, r)),
        None => None,
    }
}

/// A member whose value reads cleanly, followed by a comma, an optional
/// space and more members.
proof fn lemma_member_more(key: Seq<char>, v: Seq<char>, val: JVal, gap: Seq<char>, more: Seq<char>)
    requires
        str_ok(key),
        v.len() > 0,
        !is_json_ws(v[0]),
        read_value(v + (seq![','] + gap + more)) == Some((val, seq![','] + gap + more)),
        gap == Seq::<char>::empty() || gap == seq![' '],
        more.len() > 0,
        !is_json_ws(more[0]),
    ensures
        read_members(quoted(key) + seq![':', ' '] + v + seq![','] + gap + more) == prepend(
            (unescape(key), val),
            read_members(more),
        ),
{
    let tail = seq![','] + gap + more;
    let s = quoted(key) + seq![':', ' '] + v + seq![','] + gap + more;
    let a = seq![':', ' '] + v + tail;
    assert(s.drop_first() =~= key + seq!['"'] + a);
    lemma_str(key, a);
    lemma_skip_ws_none(a);
    assert(a.drop_first() =~= seq![' '] + (v + tail));
    lemma_skip_space(v + tail);
    lemma_skip_ws_none(v + tail);
    lemma_skip_ws_none(tail);
    assert(tail.drop_first() =~= gap + more);
    if gap.len() > 0 {
        assert(gap + more =~= seq![' '] + more);
        lemma_skip_space(more);
    } else {
        assert(gap + more =~= more);
    }
    lemma_skip_ws_none(more);
}

/// A last member whose value reads cleanly, followed by the closing `}`.
proof fn lemma_member_last(key: Seq<char>, v: Seq<char>, val: JVal, rest: Seq<char>)
    requires
        str_ok(key),
        v.len() > 0,
        !is_json_ws(v[0]),
        read_value(v + (seq!['}'] + rest)) == Some((val, seq!['}'] + rest)),
    ensures
        read_members(quoted(key) + seq![':', ' '] + v + seq!['}'] + rest) == Some(
            (seq![(unescape(key), val)], rest),
        ),
{
    let tail = seq!['}'] + rest;
    let s = quoted(key) + seq![':', ' '] + v + seq!['}'] + rest;
    let a = seq![':', ' '] + v + tail;
    assert(s.drop_first() =~= key + seq!['"'] + a);
    lemma_str(key, a);
    lemma_skip_ws_none(a);
    assert(a.drop_first() =~= seq![' '] + (v + tail));
    lemma_skip_space(v + tail);
    lemma_skip_ws_none(v + tail);
    lemma_skip_ws_none(tail);
    assert(tail.drop_first() =~= rest);
}

proof fn lemma_keys_ok()
    ensures
        str_ok("node_type"@),
        str_ok("element"@),
        str_ok("tag_name"@),
        str_ok("attributes"@),
        str_ok("children"@),
        str_ok("text"@),
        str_ok("data"@),
        unescape("node_type"@) == "node_type"@,
        unescape("element"@) == "element"@,
        unescape("tag_name"@) == "tag_name"@,
        unescape("attributes"@) == "attributes"@,
        unescape("children"@) == "children"@,
        unescape("text"@) == "text"@,
        unescape("data"@) == "data"@,
{
    reveal_strlit("node_type");
    reveal_strlit("element");
    reveal_strlit("tag_name");
    reveal_strlit("attributes");
    reveal_strlit("children");
    reveal_strlit("text");
    reveal_strlit("data");
    reveal_with_fuel(str_ok, 11);
    reveal_with_fuel(unescape, 11);
    assert(unescape("node_type"@) =~= "node_type"@);
    assert(unescape("element"@) =~= "element"@);
    assert(unescape("tag_name"@) =~= "tag_name"@);
    assert(unescape("attributes"@) =~= "attributes"@);
    assert(unescape("children"@) =~= "children"@);
    assert(unescape("text"@) =~= "text"@);
    assert(unescape("data"@) =~= "data"@);
}


proof fn lemma_attr_json_shape(p: (Seq<char>, Seq<char>))
    ensures
        attr_json(p) == quoted(p.0) + seq![':', ' '] + quoted(p.1),
{
    reveal_strlit("\"");
    reveal_strlit("\": \"");
    assert(attr_json(p) =~= quoted(p.0) + seq![':', ' '] + quoted(p.1));
}

proof fn lemma_attrs_json_front(ps: Seq<(Seq<char>, Seq<char>)>)
    requires
        ps.len() >= 2,
    ensures
        attrs_json(ps) == attr_json(ps[0]) + seq![','] + attrs_json(ps.drop_first()),
    decreases ps.len(),
{
    reveal_strlit(",");
    if ps.len() == 2 {
        assert(ps.drop_last() =~= seq![ps[0]]);
        assert(ps.drop_first() =~= seq![ps[1]]);
        assert(attrs_json(ps) =~= attr_json(ps[0]) + seq![','] + attrs_json(ps.drop_first()));
    } else {
        lemma_attrs_json_front(ps.drop_last());
        assert(ps.drop_last().drop_first() =~= ps.drop_first().drop_last());
        assert(ps.drop_last()[0] == ps[0]);
        assert(ps.drop_first().last() == ps.last());
        assert(","@ =~= seq![',']);
        assert(attrs_json(ps.drop_first()) == attrs_json(ps.drop_first().drop_last()) + ","@ + attr_json(
            ps.drop_first().last(),
        ));
        assert(attrs_json(ps) == attrs_json(ps.drop_last()) + ","@ + attr_json(ps.last()));
        assert(attrs_json(ps) =~= attr_json(ps[0]) + seq![','] + attrs_json(ps.drop_first()));
    }
}

proof fn lemma_json_list_front(cs: Seq<Node>)
    requires
        cs.len() >= 2,
    ensures
        json_list(cs) == json_of(cs[0]) + seq![','] + json_list(cs.drop_first()),
    decreases cs.len(),
{
    reveal_strlit(",");
    if cs.len() == 2 {
        assert(cs.drop_last() =~= seq![cs[0]]);
        assert(cs.drop_first() =~= seq![cs[1]]);
        assert(json_list(cs) =~= json_of(cs[0]) + seq![','] + json_list(cs.drop_first()));
    } else {
        lemma_json_list_front(cs.drop_last());
        assert(cs.drop_last().drop_first() =~= cs.drop_first().drop_last());
        assert(cs.drop_last()[0] == cs[0]);
        assert(cs.drop_first().last() == cs.last());
        assert(","@ =~= seq![',']);
        assert(json_list(cs.drop_first()) == json_list(cs.drop_first().drop_last()) + ","@ + json_of(
            cs.drop_first().last(),
        ));
        assert(json_list(cs) == json_list(cs.drop_last()) + ","@ + json_of(cs.last()));
        assert(json_list(cs) =~= json_of(cs[0]) + seq![','] + json_list(cs.drop_first()));
    }
}

/// The shape of an element's rendering, piece by piece.
pub open spec fn element_shape(tag: Seq<char>, a: Seq<char>, c: Seq<char>) -> Seq<char> {
    seq!['{'] + quoted("node_type"@) + seq![':', ' '] + quoted("element"@) + seq![',', ' '] + quoted(
        "tag_name"@,
    ) + seq![':', ' '] + quoted(tag) + seq![',', ' '] + quoted("attributes"@) + seq![':', ' ']
        + (seq!['{'] + a + seq!['}']) + seq![',', ' '] + quoted("children"@) + seq![':', ' '] + (
    seq!['['] + c + seq![']']) + seq!['}']
}

/// The shape of a text node's rendering, piece by piece.
pub open spec fn text_shape(d: Seq<char>) -> Seq<char> {
    seq!['{'] + quoted("node_type"@) + seq![':', ' '] + quoted("text"@) + seq![',', ' '] + quoted(
        "data"@,
    ) + seq![':', ' '] + quoted(d) + seq!['}']
}

proof fn lemma_json_of_shape(n: Node)
    ensures
        n.node_type matches NodeType::Element(e) ==> json_of(n) == element_shape(
            e.tag_name@,
            attrs_json(e.attributes.pairs()),
            json_list(n.children@),
        ),
        n.node_type matches NodeType::Text(d) ==> json_of(n) == text_shape(trim(d@)),
{
    reveal_strlit("{\"node_type\": \"element\", \"tag_name\": \"");
    reveal_strlit("\", \"attributes\": {");
    reveal_strlit("}, \"children\": [");
    reveal_strlit("]}");
    reveal_strlit("{\"node_type\": \"text\", \"data\": \"");
    reveal_strlit("\"}");
    reveal_strlit("node_type");
    reveal_strlit("element");
    reveal_strlit("tag_name");
    reveal_strlit("attributes");
    reveal_strlit("children");
    reveal_strlit("text");
    reveal_strlit("data");
    match n.node_type {
        NodeType::Element(e) => {
            assert(json_of(n) =~= element_shape(
                e.tag_name@,
                attrs_json(e.attributes.pairs()),
                json_list(n.children@),
            ));
        },
        NodeType::Text(d) => {
            assert(json_of(n) =~= text_shape(trim(d@)));
        },
    }
}


proof fn lemma_attrs_first(ps: Seq<(Seq<char>, Seq<char>)>)
    requires
        ps.len() >= 1,
    ensures
        attrs_json(ps).len() > 0,
        attrs_json(ps)[0] == '"',
{
    lemma_attr_json_shape(ps[0]);
    if ps.len() >= 2 {
        lemma_attrs_json_front(ps);
    }
}

/// The members that the attributes of an element read back as.
pub open spec fn attr_vals(ps: Seq<(Seq<char>, Seq<char>)>) -> Seq<(Seq<char>, JVal)> {
    ps.map_values(|p: (Seq<char>, Seq<char>)| (unescape(p.0), JVal::Str(unescape(p.1))))
}

/// The value that the rendering of `n` reads back as: its strings with
/// their escapes decoded, text trimmed, children in order.
pub open spec fn jval_of(n: Node) -> JVal
    decreases n,
{
    match n.node_type {
        NodeType::Element(e) => JVal::Obj(
            seq![
                ("node_type"@, JVal::Str("element"@)),
                ("tag_name"@, JVal::Str(unescape(e.tag_name@))),
                ("attributes"@, JVal::Obj(attr_vals(e.attributes.pairs()))),
                ("children"@, JVal::Arr(jvals(n.children@))),
            ],
        ),
        NodeType::Text(d) => JVal::Obj(
            seq![("node_type"@, JVal::Str("text"@)), ("data"@, JVal::Str(unescape(trim(d@))))],
        ),
    }
}

/// The values of a sequence of nodes.
pub open spec fn jvals(cs: Seq<Node>) -> Seq<JVal>
    decreases cs,
{
    if cs.len() == 0 {
        Seq::empty()
    } else {
        seq![jval_of(cs[0])] + jvals(cs.drop_first())
    }
}

proof fn lemma_read_members_of_attrs(ps: Seq<(Seq<char>, Seq<char>)>, x: Seq<char>)
    requires
        ps.len() >= 1,
        attrs_safe(ps),
    ensures
        read_members(attrs_json(ps) + seq!['}'] + x) == Some((attr_vals(ps), x)),
    decreases ps.len(),
{
    let k = ps[0].0;
    let v = ps[0].1;
    let first = (unescape(k), JVal::Str(unescape(v)));
    assert(str_ok(ps[0].0) && str_ok(ps[0].1));
    lemma_attr_json_shape(ps[0]);
    if ps.len() == 1 {
        lemma_read_quoted(v, seq!['}'] + x);
        lemma_member_last(k, quoted(v), JVal::Str(unescape(v)), x);
        assert(attrs_json(ps) + seq!['}'] + x =~= quoted(k) + seq![':', ' '] + quoted(v) + seq!['}'] + x);
        assert(attr_vals(ps) =~= seq![first]);
    } else {
        lemma_attrs_json_front(ps);
        let tail = ps.drop_first();
        assert(attrs_safe(tail)) by {
            assert forall|i: int| 0 <= i < tail.len() implies str_ok(#[trigger] tail[i].0) && str_ok(
                tail[i].1,
            ) by {
                assert(tail[i] == ps[i + 1]);
            }
        }
        let more = attrs_json(tail) + seq!['}'] + x;
        lemma_attrs_first(tail);
        lemma_read_quoted(v, seq![','] + Seq::<char>::empty() + more);
        lemma_member_more(k, quoted(v), JVal::Str(unescape(v)), Seq::<char>::empty(), more);
        assert(attrs_json(ps) + seq!['}'] + x =~= quoted(k) + seq![':', ' '] + quoted(v) + seq![',']
            + Seq::<char>::empty() + more);
        lemma_read_members_of_attrs(tail, x);
        assert(attr_vals(ps) =~= seq![first] + attr_vals(tail));
    }
}

proof fn lemma_read_attrs_object(ps: Seq<(Seq<char>, Seq<char>)>, x: Seq<char>)
    requires
        attrs_safe(ps),
    ensures
        read_value(seq!['{'] + attrs_json(ps) + seq!['}'] + x) == Some((JVal::Obj(attr_vals(ps)), x)),
{
    let s = seq!['{'] + attrs_json(ps) + seq!['}'] + x;
    assert(s.drop_first() =~= attrs_json(ps) + seq!['}'] + x);
    if ps.len() == 0 {
        assert(attrs_json(ps) + seq!['}'] + x =~= seq!['}'] + x);
        assert((seq!['}'] + x).drop_first() =~= x);
        assert(attr_vals(ps) =~= Seq::<(Seq<char>, JVal)>::empty());
    } else {
        lemma_attrs_first(ps);
        lemma_skip_ws_none(attrs_json(ps) + seq!['}'] + x);
        lemma_read_members_of_attrs(ps, x);
    }
}

proof fn lemma_json_of_first(n: Node)
    ensures
        json_of(n).len() > 0,
        json_of(n)[0] == '{',
{
    lemma_json_of_shape(n);
}

proof fn lemma_list_first(cs: Seq<Node>)
    requires
        cs.len() >= 1,
    ensures
        json_list(cs).len() > 0,
        json_list(cs)[0] == '{',
{
    lemma_json_of_first(cs[0]);
    if cs.len() >= 2 {
        lemma_json_list_front(cs);
    }
}

proof fn lemma_read_elements(cs: Seq<Node>, x: Seq<char>)
    requires
        cs.len() >= 1,
        list_safe(cs),
    ensures
        read_elements(json_list(cs) + seq![']'] + x) == Some((jvals(cs), x)),
    decreases cs, 0int,
{
    let c = cs[0];
    assert(jvals(cs) == seq![jval_of(c)] + jvals(cs.drop_first()));
    if cs.len() == 1 {
        lemma_read_value(c, seq![']'] + x);
        assert(json_list(cs) + seq![']'] + x =~= json_of(c) + (seq![']'] + x));
        assert((seq![']'] + x).drop_first() =~= x);
        assert(jvals(cs.drop_first()) =~= Seq::<JVal>::empty());
        assert(jvals(cs) =~= seq![jval_of(c)]);
    } else {
        lemma_json_list_front(cs);
        let tail = cs.drop_first();
        let more = json_list(tail) + seq![']'] + x;
        lemma_read_value(c, seq![','] + more);
        assert(json_list(cs) + seq![']'] + x =~= json_of(c) + (seq![','] + more));
        lemma_json_of_first(c);
        assert((seq![','] + more).drop_first() =~= more);
        lemma_list_first(tail);
        lemma_skip_ws_none(more);
        lemma_read_elements(tail, x);
    }
}

proof fn lemma_read_children_array(cs: Seq<Node>, x: Seq<char>)
    requires
        list_safe(cs),
    ensures
        read_value(seq!['['] + json_list(cs) + seq![']'] + x) == Some((JVal::Arr(jvals(cs)), x)),
    decreases cs, 1int,
{
    let s = seq!['['] + json_list(cs) + seq![']'] + x;
    assert(s.drop_first() =~= json_list(cs) + seq![']'] + x);
    if cs.len() == 0 {
        assert(json_list(cs) + seq![']'] + x =~= seq![']'] + x);
        assert((seq![']'] + x).drop_first() =~= x);
        assert(jvals(cs) =~= Seq::<JVal>::empty());
    } else {
        lemma_list_first(cs);
        lemma_skip_ws_none(json_list(cs) + seq![']'] + x);
        lemma_read_elements(cs, x);
    }
}

#[verifier::rlimit(80)]
proof fn lemma_read_element(tag: Seq<char>, ps: Seq<(Seq<char>, Seq<char>)>, cs: Seq<Node>, x: Seq<char>)
    requires
        str_ok(tag),
        attrs_safe(ps),
        list_safe(cs),
    ensures
        read_value(element_shape(tag, attrs_json(ps), json_list(cs)) + x) == Some(
            (
                JVal::Obj(
                    seq![
                        ("node_type"@, JVal::Str("element"@)),
                        ("tag_name"@, JVal::Str(unescape(tag))),
                        ("attributes"@, JVal::Obj(attr_vals(ps))),
                        ("children"@, JVal::Arr(jvals(cs))),
                    ],
                ),
                x,
            ),
        ),
    decreases cs, 2int,
{
    lemma_keys_ok();
    let a = attrs_json(ps);
    let c = json_list(cs);
    let obj = seq!['{'] + a + seq!['}'];
    let arr = seq!['['] + c + seq![']'];
    let more3 = quoted("children"@) + seq![':', ' '] + arr + seq!['}'] + x;
    let more2 = quoted("attributes"@) + seq![':', ' '] + obj + seq![',', ' '] + more3;
    let more1 = quoted("tag_name"@) + seq![':', ' '] + quoted(tag) + seq![',', ' '] + more2;
    let m = quoted("node_type"@) + seq![':', ' '] + quoted("element"@) + seq![',', ' '] + more1;
    let s = element_shape(tag, a, c) + x;
    assert(s.drop_first() =~= m);
    lemma_skip_ws_none(m);
    lemma_read_children_array(cs, seq!['}'] + x);
    assert(arr + (seq!['}'] + x) =~= seq!['['] + c + seq![']'] + (seq!['}'] + x));
    lemma_member_last("children"@, arr, JVal::Arr(jvals(cs)), x);
    lemma_read_attrs_object(ps, seq![','] + seq![' '] + more3);
    assert(obj + (seq![','] + seq![' '] + more3) =~= seq!['{'] + a + seq!['}'] + (seq![',']
        + seq![' '] + more3));
    lemma_member_more("attributes"@, obj, JVal::Obj(attr_vals(ps)), seq![' '], more3);
    assert(more2 =~= quoted("attributes"@) + seq![':', ' '] + obj + seq![','] + seq![' '] + more3);
    lemma_read_quoted(tag, seq![','] + seq![' '] + more2);
    lemma_member_more("tag_name"@, quoted(tag), JVal::Str(unescape(tag)), seq![' '], more2);
    assert(more1 =~= quoted("tag_name"@) + seq![':', ' '] + quoted(tag) + seq![','] + seq![' ']
        + more2);
    lemma_read_quoted("element"@, seq![','] + seq![' '] + more1);
    lemma_member_more("node_type"@, quoted("element"@), JVal::Str("element"@), seq![' '], more1);
    assert(m =~= quoted("node_type"@) + seq![':', ' '] + quoted("element"@) + seq![','] + seq![' ']
        + more1);
    assert(seq![("node_type"@, JVal::Str("element"@))] + (seq![("tag_name"@, JVal::Str(unescape(tag)))]
        + (seq![("attributes"@, JVal::Obj(attr_vals(ps)))] + seq![("children"@, JVal::Arr(jvals(cs)))]))
        =~= seq![
        ("node_type"@, JVal::Str("element"@)),
        ("tag_name"@, JVal::Str(unescape(tag))),
        ("attributes"@, JVal::Obj(attr_vals(ps))),
        ("children"@, JVal::Arr(jvals(cs))),
    ]);
}

proof fn lemma_read_text(t: Seq<char>, x: Seq<char>)
    requires
        str_ok(t),
    ensures
        read_value(text_shape(t) + x) == Some(
            (
                JVal::Obj(seq![("node_type"@, JVal::Str("text"@)), ("data"@, JVal::Str(unescape(t)))]),
                x,
            ),
        ),
{
    lemma_keys_ok();
    let more1 = quoted("data"@) + seq![':', ' '] + quoted(t) + seq!['}'] + x;
    let m = quoted("node_type"@) + seq![':', ' '] + quoted("text"@) + seq![',', ' '] + more1;
    let s = text_shape(t) + x;
    assert(s.drop_first() =~= m);
    lemma_skip_ws_none(m);
    lemma_read_quoted(t, seq!['}'] + x);
    lemma_member_last("data"@, quoted(t), JVal::Str(unescape(t)), x);
    lemma_read_quoted("text"@, seq![','] + seq![' '] + more1);
    lemma_member_more("node_type"@, quoted("text"@), JVal::Str("text"@), seq![' '], more1);
    assert(m =~= quoted("node_type"@) + seq![':', ' '] + quoted("text"@) + seq![','] + seq![' ']
        + more1);
    assert(seq![("node_type"@, JVal::Str("text"@))] + seq![("data"@, JVal::Str(unescape(t)))] =~= seq![
        ("node_type"@, JVal::Str("text"@)),
        ("data"@, JVal::Str(unescape(t))),
    ]);
}

/// A reader reads the rendering of a `json_safe` node as its value,
/// whatever follows it.
pub proof fn lemma_read_value(n: Node, x: Seq<char>)
    requires
        json_safe(n),
    ensures
        read_value(json_of(n) + x) == Some((jval_of(n), x)),
    decreases n, 0int,
{
    lemma_json_of_shape(n);
    match n.node_type {
        NodeType::Element(e) => {
            lemma_read_element(e.tag_name@, e.attributes.pairs(), n.children@, x);
        },
        NodeType::Text(d) => {
            lemma_read_text(trim(d@), x);
        },
    }
}

/// The serializer's output for a node whose emitted strings are all valid
/// JSON string bodies is a JSON text, and it reads back as the node's value.
pub proof fn lemma_json_of_reads_back(n: Node)
    requires
        json_safe(n),
    ensures
        read_json(json_of(n)) == Some(jval_of(n)),
{
    lemma_json_of_first(n);
    lemma_skip_ws_none(json_of(n));
    lemma_read_value(n, Seq::empty());
    assert(json_of(n) + Seq::<char>::empty() =~= json_of(n));
}

proof fn lemma_str_ok_concat(a: Seq<char>, b: Seq<char>)
    requires
        str_ok(a),
        str_ok(b),
    ensures
        str_ok(a + b),
    decreases a.len(),
{
    if a.len() == 0 {
        assert(a + b =~= b);
    } else if a[0] == '\\' {
        assert((a + b).skip(2) =~= a.skip(2) + b);
        lemma_str_ok_concat(a.skip(2), b);
    } else {
        assert((a + b).drop_first() =~= a.drop_first() + b);
        lemma_str_ok_concat(a.drop_first(), b);
    }
}

/// Scanned text is a valid JSON string body when the source run holds no
/// backslash and no control character other than tab and newline: the
/// scanner escapes quotes, tabs and newlines.
pub proof fn lemma_escape_is_json_string(t: Seq<char>)
    requires
        forall|i: int|
            0 <= i < t.len() ==> #[trigger] t[i] != '\\' && ((t[i] as u32) >= 0x20 || t[i] == '\t'
                || t[i] == '\n'),
    ensures
        str_ok(escape(t)),
    decreases t.len(),
{
    if t.len() > 0 {
        let c = t.last();
        assert(t[t.len() - 1] == c);
        lemma_escape_is_json_string(t.drop_last());
        let e = escape_char(c);
        assert(str_ok(e.skip(2)) || e.len() != 2) by {
            if e.len() == 2 {
                assert(e.skip(2) =~= Seq::<char>::empty());
            }
        }
        assert(str_ok(e.drop_first()) || e.len() != 1) by {
            if e.len() == 1 {
                assert(e.drop_first() =~= Seq::<char>::empty());
            }
        }
        assert(str_ok(e));
        lemma_str_ok_concat(escape(t.drop_last()), e);
    }
}

} // verus!
