//! The parser: a cursor over the characters of the source text and a
//! recursive descent that builds the tree.
//!
//! Grammar, with literal delimiters matched exactly:
//!
//! ```text
//! document  := node*
//! node      := element | text
//! element   := '<' name attribute* '>' body?
//! body      := node* '<' '/' name '>'          (absent for void tags)
//! attribute := name '=' quoted
//! quoted    := '"' chars '"' | "'" chars "'"
//! text      := comment? chars-up-to-next-'<'
//! comment   := '/*' ... '*/' | '<!--' ... '-->'
//! ```

use vstd::prelude::*;
use crate::chars::{escape, is_white, is_white_char, chars_of, push_escaped, string_of};
use crate::dom::{AttrMap, Node, Tree, elem, text, views};

verus! {

/// The characters that a scan accepts.
#[derive(Clone, Copy)]
pub enum CharClass {
    /// Letters, digits and hyphens: tag and attribute names.
    NameChar,
    /// Unicode whitespace.
    White,
    /// Every character but the one given.
    Not(char),
}

/// Letters, digits and hyphens.
pub open spec fn is_name_char(c: char) -> bool {
    ('a' <= c && c <= 'z') || ('A' <= c && c <= 'Z') || ('0' <= c && c <= '9') || c == '-'
}

/// `p` accepts `c`.
pub open spec fn accepts(p: CharClass, c: char) -> bool {
    match p {
        CharClass::NameChar => is_name_char(c),
        CharClass::White => is_white(c),
        CharClass::Not(d) => c != d,
    }
}

/// Where a scan that starts at `i` stops: the first position from `i` on
/// whose character `p` does not accept, or the end of `s`.
pub open spec fn scan_end(s: Seq<char>, i: int, p: CharClass) -> int
    decreases s.len() - i,
{
    if 0 <= i < s.len() && accepts(p, s[i]) {
        scan_end(s, i + 1, p)
    } else {
        i
    }
}

/// What a scan that starts at `i` captures, escaped.
pub open spec fn scanned(s: Seq<char>, i: int, p: CharClass) -> Seq<char> {
    escape(s.subrange(i, scan_end(s, i, p)))
}

/// Position `i` of `s` holds `c`.
pub open spec fn at(s: Seq<char>, i: int, c: char) -> bool {
    0 <= i < s.len() && s[i] == c
}

/// `s` holds `pat` from position `i` on.
pub open spec fn starts(s: Seq<char>, i: int, pat: Seq<char>) -> bool {
    0 <= i && i + pat.len() <= s.len() && s.subrange(i, i + pat.len()) == pat
}

/// The first position from `i` on where `s` holds `pat`.
pub open spec fn find(s: Seq<char>, i: int, pat: Seq<char>) -> Option<int>
    decreases s.len() + 1 - i,
{
    if i < 0 || i + pat.len() > s.len() {
        None
    } else if s.subrange(i, i + pat.len()) == pat {
        Some(i)
    } else {
        find(s, i + 1, pat)
    }
}

/// Where text starts once a comment at `j`, if any, is passed over; `None`
/// when a comment opens at `j` and never closes.
pub open spec fn after_comment(s: Seq<char>, j: int) -> Option<int> {
    if starts(s, j, "/*"@) {
        match find(s, j, "*/"@) {
            Some(q) => Some(q + 2),
            None => None,
        }
    } else if starts(s, j, "<!--"@) {
        match find(s, j, "-->"@) {
            Some(q) => Some(q + 3),
            None => None,
        }
    } else {
        Some(j)
    }
}

/// Tags that never have children nor a closing tag.
pub open spec fn is_void(name: Seq<char>) -> bool {
    name == "link"@ || name == "meta"@ || name == "img"@ || name == "hr"@ || name == "input"@
}

/// The text of a run at `j` that does not open with a comment: its
/// characters up to the next `<`, escaped, with the first `/*` comment that
/// opens inside the run left out; and the position after it.
pub open spec fn run_at(s: Seq<char>, j: int) -> Option<(Seq<char>, int)> {
    let e = scan_end(s, j, CharClass::Not('<'));
    match find(s, j, "/*"@) {
        Some(q) => if q < e {
            match after_comment(s, q) {
                Some(k) => Some(
                    (
                        escape(s.subrange(j, q)) + scanned(s, k, CharClass::Not('<')),
                        scan_end(s, k, CharClass::Not('<')),
                    ),
                ),
                None => None,
            }
        } else {
            Some((escape(s.subrange(j, e)), e))
        },
        None => Some((escape(s.subrange(j, e)), e)),
    }
}

/// A text node at `j` and the position after it. One comment is left out:
/// the one that opens at `j`, else the first `/*` comment inside the run.
pub open spec fn text_at(s: Seq<char>, j: int) -> Option<(Tree, int)> {
    match after_comment(s, j) {
        Some(c) => if c == j {
            match run_at(s, j) {
                Some((d, e)) => Some((Tree::Text { data: d, children: Seq::empty() }, e)),
                None => None,
            }
        } else {
            Some(
                (
                    Tree::Text { data: scanned(s, c, CharClass::Not('<')), children: Seq::empty() },
                    scan_end(s, c, CharClass::Not('<')),
                ),
            )
        },
        None => None,
    }
}

/// A quoted attribute value at `i`: its escaped characters between a
/// matching pair of `"` or `'`, and the position after the closing quote.
pub open spec fn value_at(s: Seq<char>, i: int) -> Option<(Seq<char>, int)> {
    if !(at(s, i, '"') || at(s, i, '\'')) {
        None
    } else {
        let q = s[i];
        let v = scan_end(s, i + 1, CharClass::Not(q));
        if !at(s, v, q) {
            None
        } else {
            Some((escape(s.subrange(i + 1, v)), v + 1))
        }
    }
}

/// An attribute `name=value` at `j`, and the position after it.
pub open spec fn attr_at(s: Seq<char>, j: int) -> Option<(Seq<char>, Seq<char>, int)> {
    let n = scan_end(s, j, CharClass::NameChar);
    if !at(s, n, '=') {
        None
    } else {
        match value_at(s, n + 1) {
            Some((v, e)) => Some((escape(s.subrange(j, n)), v, e)),
            None => None,
        }
    }
}

/// An `attr_at` result lies beyond `j`.
pub proof fn lemma_attr_at_bounds(s: Seq<char>, j: int)
    requires
        0 <= j <= s.len(),
    ensures
        attr_at(s, j) matches Some((a, b, k)) ==> j < k <= s.len(),
{
    lemma_scan_end_bounds(s, CharClass::NameChar);
    let n = scan_end(s, j, CharClass::NameChar);
    if at(s, n + 1, '"') || at(s, n + 1, '\'') {
        lemma_scan_end_bounds(s, CharClass::Not(s[n + 1]));
    }
}

/// The attributes from `i` up to the `>` that ends an opening tag, added to
/// `acc` (a later value for a name replaces an earlier one), and the
/// position of that `>`.
pub open spec fn attrs_from(s: Seq<char>, i: int, acc: Map<Seq<char>, Seq<char>>) -> Option<
    (Map<Seq<char>, Seq<char>>, int),
>
    decreases s.len() - i,
    via attrs_from_decreases
{
    let j = scan_end(s, i, CharClass::White);
    if !(0 <= i <= s.len()) || j >= s.len() {
        None
    } else if s[j] == '>' {
        Some((acc, j))
    } else {
        match attr_at(s, j) {
            None => None,
            Some((name, value, k)) => attrs_from(s, k, acc.insert(name, value)),
        }
    }
}

#[via_fn]
proof fn attrs_from_decreases(s: Seq<char>, i: int, acc: Map<Seq<char>, Seq<char>>) {
    lemma_scan_end_bounds(s, CharClass::White);
    if 0 <= i <= s.len() {
        lemma_attr_at_bounds(s, scan_end(s, i, CharClass::White));
    }
}

/// A scan stays within `s` and does not go back.
pub proof fn lemma_scan_end_bounds(s: Seq<char>, p: CharClass)
    ensures
        forall|i: int| 0 <= i <= s.len() ==> i <= #[trigger] scan_end(s, i, p) <= s.len(),
{
    assert forall|i: int| 0 <= i <= s.len() implies i <= #[trigger] scan_end(s, i, p) <= s.len() by {
        lemma_scan_end_from(s, i, p);
    }
}

proof fn lemma_scan_end_from(s: Seq<char>, i: int, p: CharClass)
    requires
        0 <= i <= s.len(),
    ensures
        i <= scan_end(s, i, p) <= s.len(),
    decreases s.len() - i,
{
    if i < s.len() && accepts(p, s[i]) {
        lemma_scan_end_from(s, i + 1, p);
    }
}


/// An `attrs_from` result lies after `i` and ends on a `>`.
pub proof fn lemma_attrs_from_bounds(s: Seq<char>, i: int, acc: Map<Seq<char>, Seq<char>>)
    ensures
        attrs_from(s, i, acc) matches Some((m, k)) ==> i <= k < s.len() && s[k] == '>',
    decreases s.len() - i,
{
    lemma_scan_end_bounds(s, CharClass::White);
    let j = scan_end(s, i, CharClass::White);
    if 0 <= i <= s.len() && j < s.len() && s[j] != '>' {
        lemma_attr_at_bounds(s, j);
        if let Some((name, value, k)) = attr_at(s, j) {
            lemma_attrs_from_bounds(s, k, acc.insert(name, value));
        }
    }
}

/// The sequence of sibling nodes from `i` on, up to the end of `s` or to a
/// `</` that closes their parent, and the position where it stops; leading
/// whitespace before each node is passed over.
pub open spec fn nodes_from(s: Seq<char>, i: int) -> Option<(Seq<Tree>, int)>
    decreases s.len() - i, 2int,
    via nodes_from_decreases
{
    if !(0 <= i <= s.len()) {
        None
    } else {
        let j = scan_end(s, i, CharClass::White);
        if j >= s.len() || starts(s, j, "</"@) {
            Some((Seq::empty(), j))
        } else {
            match node_at(s, j) {
                None => None,
                Some((n, k)) => if k <= j || k > s.len() {
                    None
                } else {
                    match nodes_from(s, k) {
                        None => None,
                        Some((ns, e)) => Some((seq![n] + ns, e)),
                    }
                },
            }
        }
    }
}

#[via_fn]
proof fn nodes_from_decreases(s: Seq<char>, i: int) {
    lemma_scan_end_bounds(s, CharClass::White);
}

/// One node at `j`: a text node where `<!` or anything but `<` stands
/// there, else an element.
pub open spec fn node_at(s: Seq<char>, j: int) -> Option<(Tree, int)>
    decreases s.len() - j, 1int,
{
    if at(s, j, '<') && !at(s, j + 1, '!') {
        element_at(s, j)
    } else {
        text_at(s, j)
    }
}

/// An element at `j`: its opening tag, and for a tag that is not void its
/// children and a closing tag of the same name; with the position after it.
pub open spec fn element_at(s: Seq<char>, j: int) -> Option<(Tree, int)>
    decreases s.len() - j, 0int,
    via element_at_decreases
{
    if !at(s, j, '<') {
        None
    } else {
        let n1 = scan_end(s, j + 1, CharClass::NameChar);
        let name = escape(s.subrange(j + 1, n1));
        if name.len() == 0 {
            None
        } else {
            match attrs_from(s, n1, Map::empty()) {
                None => None,
                Some((attrs, n2)) => if is_void(name) {
                    Some((Tree::Element { tag: name, attrs, children: Seq::empty() }, n2 + 1))
                } else {
                    match nodes_from(s, n2 + 1) {
                        None => None,
                        Some((kids, n4)) => {
                            let n5 = scan_end(s, n4 + 2, CharClass::NameChar);
                            if at(s, n4, '<') && at(s, n4 + 1, '/') && escape(
                                s.subrange(n4 + 2, n5),
                            ) == name && at(s, n5, '>') {
                                Some((Tree::Element { tag: name, attrs, children: kids }, n5 + 1))
                            } else {
                                None
                            }
                        },
                    }
                },
            }
        }
    }
}

#[via_fn]
proof fn element_at_decreases(s: Seq<char>, j: int) {
    lemma_scan_end_bounds(s, CharClass::NameChar);
    if at(s, j, '<') {
        lemma_attrs_from_bounds(s, scan_end(s, j + 1, CharClass::NameChar), Map::empty());
    }
}

/// The tree of a whole document: a root element tagged `html`, without
/// attributes, over the top-level nodes; `None` where the markup is
/// malformed.
pub open spec fn parse_tree(s: Seq<char>) -> Option<Tree> {
    match nodes_from(s, 0) {
        Some((ns, _)) => Some(Tree::Element { tag: "html"@, attrs: Map::empty(), children: ns }),
        None => None,
    }
}


/// Why a document could not be parsed.
#[derive(Clone, Copy, Debug, PartialEq, Eq)]
pub enum ParseError {
    /// A closing tag, `=`, quote or `>` is missing or wrong, a comment or a
    /// quoted value does not end, the input ends inside a tag, or text makes
    /// no progress.
    MalformedMarkup,
}

/// Void tags: their elements end with the opening tag.
#[derive(Clone, Copy, Debug, PartialEq, Eq)]
pub enum SingleTag {
    Link,
    Meta,
    Img,
    Hr,
    Input,
}

fn accepts_char(p: CharClass, c: char) -> (r: bool)
    ensures
        r == accepts(p, c),
{
    match p {
        CharClass::NameChar => ('a' <= c && c <= 'z') || ('A' <= c && c <= 'Z') || ('0' <= c && c
            <= '9') || c == '-',
        CharClass::White => is_white_char(c),
        CharClass::Not(d) => c != d,
    }
}

fn same_chars(a: &Vec<char>, b: &Vec<char>) -> (r: bool)
    ensures
        r == (a@ == b@),
{
    if a.len() != b.len() {
        return false;
    }
    let mut i: usize = 0;
    while i < a.len()
        invariant
            i <= a@.len() == b@.len(),
            forall|k: int| 0 <= k < i ==> a@[k] == b@[k],
        decreases a@.len() - i,
    {
        if a[i] != b[i] {
            return false;
        }
        i += 1;
    }
    assert(a@ =~= b@);
    true
}

/// The void tag that `name` names, if any.
fn single_tag(name: &Vec<char>) -> (r: Option<SingleTag>)
    ensures
        r is Some <==> is_void(name@),
{
    if same_chars(name, &chars_of("link")) {
        Some(SingleTag::Link)
    } else if same_chars(name, &chars_of("meta")) {
        Some(SingleTag::Meta)
    } else if same_chars(name, &chars_of("img")) {
        Some(SingleTag::Img)
    } else if same_chars(name, &chars_of("hr")) {
        Some(SingleTag::Hr)
    } else if same_chars(name, &chars_of("input")) {
        Some(SingleTag::Input)
    } else {
        None
    }
}

/// The scanner's state: the source characters and a cursor into them.
struct Parser {
    pos: usize,
    input: Vec<char>,
}

impl Parser {
    /// The cursor is past the last character.
    fn eof(&self) -> (r: bool)
        ensures
            r == (self.pos >= self.input@.len()),
    {
        self.pos >= self.input.len()
    }

    /// The character under the cursor.
    fn next_char(&self) -> (r: char)
        requires
            self.pos < self.input@.len(),
        ensures
            r == self.input@[self.pos as int],
    {
        self.input[self.pos]
    }

    /// The source holds `pat` from position `i` on.
    fn holds_at(&self, i: usize, pat: &Vec<char>) -> (r: bool)
        ensures
            r == starts(self.input@, i as int, pat@),
    {
        if pat.len() > self.input.len() || i > self.input.len() - pat.len() {
            return false;
        }
        let n = self.input.len();
        let mut k: usize = 0;
        while k < pat.len()
            invariant
                n == self.input@.len(),
                k <= pat@.len(),
                i + pat@.len() <= self.input@.len(),
                forall|m: int| 0 <= m < k ==> self.input@[i + m] == pat@[m],
            decreases pat@.len() - k,
        {
            if self.input[i + k] != pat[k] {
                assert(self.input@.subrange(i as int, i + pat@.len())[k as int] != pat@[k as int]);
                return false;
            }
            k += 1;
        }
        assert(self.input@.subrange(i as int, i + pat@.len()) =~= pat@);
        true
    }

    /// The source holds `s` at the cursor.
    fn starts_with(&self, s: &str) -> (r: bool)
        ensures
            r == starts(self.input@, self.pos as int, s@),
    {
        let pat = chars_of(s);
        self.holds_at(self.pos, &pat)
    }

    /// The first position from `from` on where the source holds `pat`.
    fn find_from(&self, from: usize, pat: &Vec<char>) -> (r: Option<usize>)
        requires
            from <= self.input@.len(),
        ensures
            r matches Some(q) ==> find(self.input@, from as int, pat@) == Some(q as int),
            r is None ==> find(self.input@, from as int, pat@) is None,
    {
        let mut q: usize = from;
        while q <= self.input.len()
            invariant
                from <= q,
                find(self.input@, from as int, pat@) == find(self.input@, q as int, pat@),
            decreases self.input@.len() + 1 - q,
        {
            if self.holds_at(q, pat) {
                return Some(q);
            }
            if pat.len() > self.input.len() - q {
                return None;
            }
            assert(pat@.len() == 0 ==> self.input@.subrange(q as int, q as int) =~= pat@);
            q += 1;
        }
        None
    }

    /// Takes the character under the cursor; at the end of the input the
    /// cursor stays and a space comes back.
    fn consume_char(&mut self) -> (r: char)
        ensures
            final(self).input == old(self).input,
            old(self).pos < old(self).input@.len() ==> r == old(self).input@[old(self).pos as int]
                && final(self).pos == old(self).pos + 1,
            old(self).pos >= old(self).input@.len() ==> r == ' ' && final(self).pos == old(self).pos,
    {
        if self.pos < self.input.len() {
            let c = self.input[self.pos];
            self.pos += 1;
            c
        } else {
            ' '
        }
    }

    /// Takes characters while `p` accepts them, and returns them escaped.
    fn consume_while(&mut self, p: CharClass) -> (r: Vec<char>)
        requires
            old(self).pos <= old(self).input@.len(),
        ensures
            final(self).input == old(self).input,
            final(self).pos == scan_end(old(self).input@, old(self).pos as int, p),
            r@ == scanned(old(self).input@, old(self).pos as int, p),
    {
        let ghost s = self.input@;
        let ghost start = self.pos as int;
        let mut result: Vec<char> = Vec::new();
        assert(s.subrange(start, start) =~= Seq::<char>::empty());
        while !self.eof() && accepts_char(p, self.next_char())
            invariant
                self.input@ == s,
                self.input == old(self).input,
                start == old(self).pos,
                start <= self.pos <= s.len(),
                scan_end(s, start, p) == scan_end(s, self.pos as int, p),
                result@ == escape(s.subrange(start, self.pos as int)),
            decreases s.len() - self.pos,
        {
            let c = self.consume_char();
            push_escaped(&mut result, c);
            assert(s.subrange(start, self.pos as int).drop_last() =~= s.subrange(start, self.pos - 1));
            assert(result@ =~= escape(s.subrange(start, self.pos as int)));
        }
        result
    }

    /// The source characters from `from` up to `to`, as they stand.
    fn slice_chars(&self, from: usize, to: usize) -> (r: Vec<char>)
        requires
            from <= to <= self.input@.len(),
        ensures
            r@ == self.input@.subrange(from as int, to as int),
    {
        let mut r: Vec<char> = Vec::new();
        let mut k: usize = from;
        while k < to
            invariant
                from <= k <= to <= self.input@.len(),
                r@ == self.input@.subrange(from as int, k as int),
            decreases to - k,
        {
            r.push(self.input[k]);
            k += 1;
            assert(r@ =~= self.input@.subrange(from as int, k as int));
        }
        r
    }

    /// Takes the characters up to position `end`, and returns them escaped.
    fn consume_until(&mut self, end: usize) -> (r: Vec<char>)
        requires
            old(self).pos <= end <= old(self).input@.len(),
        ensures
            final(self).input == old(self).input,
            final(self).pos == end,
            r@ == escape(old(self).input@.subrange(old(self).pos as int, end as int)),
    {
        let ghost s = self.input@;
        let ghost start = self.pos as int;
        let mut result: Vec<char> = Vec::new();
        assert(s.subrange(start, start) =~= Seq::<char>::empty());
        while self.pos < end
            invariant
                self.input@ == s,
                self.input == old(self).input,
                start == old(self).pos,
                start <= self.pos <= end <= s.len(),
                result@ == escape(s.subrange(start, self.pos as int)),
            decreases end - self.pos,
        {
            let c = self.consume_char();
            push_escaped(&mut result, c);
            assert(s.subrange(start, self.pos as int).drop_last() =~= s.subrange(start, self.pos - 1));
        }
        result
    }

    /// Passes over whitespace.
    fn consume_whitespace(&mut self)
        requires
            old(self).pos <= old(self).input@.len(),
        ensures
            final(self).input == old(self).input,
            final(self).pos == scan_end(old(self).input@, old(self).pos as int, CharClass::White),
    {
        self.consume_while(CharClass::White);
    }

    /// A tag or attribute name.
    fn parse_tag_name(&mut self) -> (r: Vec<char>)
        requires
            old(self).pos <= old(self).input@.len(),
        ensures
            final(self).input == old(self).input,
            final(self).pos == scan_end(old(self).input@, old(self).pos as int, CharClass::NameChar),
            r@ == scanned(old(self).input@, old(self).pos as int, CharClass::NameChar),
    {
        self.consume_while(CharClass::NameChar)
    }

    fn if_single_tag(&self, tag_name: &Vec<char>) -> (r: bool)
        ensures
            r == is_void(tag_name@),
    {
        single_tag(tag_name).is_some()
    }
    /// A value in matching quotes, `"` or `'`.
    fn parse_attr_value(&mut self) -> (r: Result<Vec<char>, ParseError>)
        requires
            old(self).pos <= old(self).input@.len(),
        ensures
            final(self).input == old(self).input,
            final(self).pos <= final(self).input@.len(),
            match value_at(old(self).input@, old(self).pos as int) {
                Some((v, e)) => r matches Ok(x) && x@ == v && final(self).pos == e,
                None => r is Err,
            },
    {
        let open_quote = self.consume_char();
        if !(open_quote == '"' || open_quote == '\'') {
            return Err(ParseError::MalformedMarkup);
        }
        let value = self.consume_while(CharClass::Not(open_quote));
        proof {
            lemma_scan_end_bounds(self.input@, CharClass::Not(open_quote));
        }
        if self.consume_char() != open_quote {
            return Err(ParseError::MalformedMarkup);
        }
        Ok(value)
    }

    /// One `name=value` pair.
    fn parse_attr(&mut self) -> (r: Result<(Vec<char>, Vec<char>), ParseError>)
        requires
            old(self).pos <= old(self).input@.len(),
        ensures
            final(self).input == old(self).input,
            final(self).pos <= final(self).input@.len(),
            match attr_at(old(self).input@, old(self).pos as int) {
                Some((n, v, e)) => r matches Ok(x) && x.0@ == n && x.1@ == v && final(self).pos == e,
                None => r is Err,
            },
    {
        let name = self.parse_tag_name();
        proof {
            lemma_scan_end_bounds(self.input@, CharClass::NameChar);
        }
        if self.consume_char() != '=' {
            return Err(ParseError::MalformedMarkup);
        }
        let value = self.parse_attr_value()?;
        Ok((name, value))
    }

    /// The attributes of an opening tag, up to (not past) its `>`.
    fn parse_attributes(&mut self) -> (r: Result<AttrMap, ParseError>)
        requires
            old(self).pos <= old(self).input@.len(),
        ensures
            final(self).input == old(self).input,
            final(self).pos <= final(self).input@.len(),
            match attrs_from(old(self).input@, old(self).pos as int, Map::empty()) {
                Some((m, k)) => r matches Ok(x) && x@ == m && final(self).pos == k,
                None => r is Err,
            },
    {
        let ghost s = self.input@;
        let mut attributes = AttrMap::new();
        loop
            invariant
                self.input == old(self).input,
                self.input@ == s,
                self.pos <= s.len(),
                attrs_from(s, old(self).pos as int, Map::empty()) == attrs_from(
                    s,
                    self.pos as int,
                    attributes@,
                ),
            ensures
                self.input == old(self).input,
                self.pos <= s.len(),
                attrs_from(s, old(self).pos as int, Map::empty()) == Some(
                    (attributes@, self.pos as int),
                ),
            decreases s.len() - self.pos,
        {
            let ghost p0 = self.pos as int;
            self.consume_whitespace();
            proof {
                lemma_scan_end_bounds(s, CharClass::White);
            }
            if self.eof() {
                assert(attrs_from(s, p0, attributes@) is None);
                return Err(ParseError::MalformedMarkup);
            }
            if self.next_char() == '>' {
                assert(attrs_from(s, p0, attributes@) == Some((attributes@, self.pos as int)));
                break;
            }
            proof {
                lemma_attr_at_bounds(s, self.pos as int);
            }
            let (name, value) = self.parse_attr()?;
            attributes.insert(string_of(&name), string_of(&value));
            assert(self.pos > p0);
        }
        Ok(attributes)
    }

    /// Passes over a comment at the cursor, if one opens there, and returns
    /// its characters, delimiters included (none where no comment opens).
    fn parse_comments(&mut self) -> (r: Result<Vec<char>, ParseError>)
        requires
            old(self).pos <= old(self).input@.len(),
        ensures
            final(self).input == old(self).input,
            final(self).pos <= final(self).input@.len(),
            match after_comment(old(self).input@, old(self).pos as int) {
                Some(c) => r matches Ok(x) && x@ == old(self).input@.subrange(old(self).pos as int, c)
                    && final(self).pos == c,
                None => r is Err,
            },
    {
        let (close, width): (Vec<char>, usize) = if self.starts_with("/*") {
            proof {
                reveal_strlit("*/");
            }
            (chars_of("*/"), 2)
        } else if self.starts_with("<!--") {
            proof {
                reveal_strlit("-->");
            }
            (chars_of("-->"), 3)
        } else {
            assert(self.input@.subrange(self.pos as int, self.pos as int) =~= Seq::<char>::empty());
            return Ok(Vec::new());
        };
        assert(close@.len() == width);
        let n = self.input.len();
        match self.find_from(self.pos, &close) {
            Some(q) => {
                proof {
                    lemma_find_bounds(self.input@, self.pos as int, close@);
                    assert(find(self.input@, self.pos as int, close@) == Some(q as int));
                    assert(q + close@.len() <= self.input@.len());
                }
                let comment = self.slice_chars(self.pos, q + width);
                self.pos = q + width;
                Ok(comment)
            },
            None => Err(ParseError::MalformedMarkup),
        }
    }

    /// A text node: a comment at the cursor is passed over, then the
    /// characters up to the next `<` are taken.
    fn parse_text(&mut self) -> (r: Result<Node, ParseError>)
        requires
            old(self).pos <= old(self).input@.len(),
        ensures
            final(self).input == old(self).input,
            final(self).pos <= final(self).input@.len(),
            match text_at(old(self).input@, old(self).pos as int) {
                Some((t, k)) => r matches Ok(n) && n@ == t && final(self).pos == k,
                None => r is Err,
            },
    {
        let start = self.pos;
        self.parse_comments()?;
        proof {
            lemma_scan_end_bounds(self.input@, CharClass::Not('<'));
        }
        if self.pos != start {
            let data = self.consume_while(CharClass::Not('<'));
            return Ok(text(string_of(&data)));
        }
        let data = self.consume_while(CharClass::Not('<'));
        let e = self.pos;
        let open = chars_of("/*");
        match self.find_from(start, &open) {
            Some(q) => {
                proof {
                    lemma_find_bounds(self.input@, start as int, open@);
                }
                if q < e {
                    self.pos = start;
                    let mut before = self.consume_until(q);
                    self.parse_comments()?;
                    let after = self.consume_while(CharClass::Not('<'));
                    let ghost b0 = before@;
                    let mut i: usize = 0;
                    while i < after.len()
                        invariant
                            i <= after@.len(),
                            before@ == b0 + after@.subrange(0, i as int),
                        decreases after@.len() - i,
                    {
                        before.push(after[i]);
                        i += 1;
                        assert(after@.subrange(0, i as int) =~= after@.subrange(0, i - 1) + seq![
                            after@[i - 1],
                        ]);
                    }
                    assert(after@.subrange(0, after@.len() as int) =~= after@);
                    Ok(text(string_of(&before)))
                } else {
                    Ok(text(string_of(&data)))
                }
            },
            None => Ok(text(string_of(&data))),
        }
    }

    /// Sibling nodes up to the end of the input or to a `</`.
    fn parse_nodes(&mut self) -> (r: Result<Vec<Node>, ParseError>)
        requires
            old(self).pos <= old(self).input@.len(),
        ensures
            final(self).input == old(self).input,
            final(self).pos <= final(self).input@.len(),
            match nodes_from(old(self).input@, old(self).pos as int) {
                Some((ns, k)) => r matches Ok(v) && views(v@) == ns && final(self).pos == k,
                None => r is Err,
            },
        decreases old(self).input@.len() - old(self).pos, 2int,
    {
        let ghost s = self.input@;
        let mut nodes: Vec<Node> = Vec::new();
        loop
            invariant_except_break
                nodes_from(s, old(self).pos as int) == prefixed(views(nodes@), nodes_from(s, self.pos as int)),
            invariant
                self.input == old(self).input,
                self.input@ == s,
                old(self).pos <= self.pos <= s.len(),
            ensures
                self.input == old(self).input,
                self.pos <= s.len(),
                nodes_from(s, old(self).pos as int) == Some((views(nodes@), self.pos as int)),
            decreases s.len() - self.pos,
        {
            self.consume_whitespace();
            proof {
                lemma_scan_end_bounds(s, CharClass::White);
                reveal_strlit("</");
            }
            if self.eof() || self.starts_with("</") {
                assert(views(nodes@) + Seq::<Tree>::empty() =~= views(nodes@));
                break;
            }
            let before = self.pos;
            let node = self.parse_node()?;
            if self.pos <= before {
                return Err(ParseError::MalformedMarkup);
            }
            let ghost t = node@;
            let ghost vs = views(nodes@);
            let ghost prev = nodes@;
            nodes.push(node);
            proof {
                assert(nodes@.drop_last() =~= prev);
                assert(views(nodes@) == vs.push(t));
                match nodes_from(s, self.pos as int) {
                    Some((ns, e)) => {
                        assert(vs + (seq![t] + ns) =~= vs.push(t) + ns);
                    },
                    None => {},
                }
            }
        }
        Ok(nodes)
    }

    /// One node at the cursor.
    fn parse_node(&mut self) -> (r: Result<Node, ParseError>)
        requires
            old(self).pos < old(self).input@.len(),
        ensures
            final(self).input == old(self).input,
            final(self).pos <= final(self).input@.len(),
            match node_at(old(self).input@, old(self).pos as int) {
                Some((t, k)) => r matches Ok(n) && n@ == t && final(self).pos == k,
                None => r is Err,
            },
        decreases old(self).input@.len() - old(self).pos, 1int,
    {
        let n = self.input.len();
        if self.next_char() == '<' {
            if self.pos + 1 < n && self.input[self.pos + 1] == '!' {
                self.parse_text()
            } else {
                self.parse_element()
            }
        } else {
            self.parse_text()
        }
    }

    /// An element: its opening tag, and unless the tag is void its children
    /// and a closing tag of the same name.
    fn parse_element(&mut self) -> (r: Result<Node, ParseError>)
        requires
            old(self).pos <= old(self).input@.len(),
        ensures
            final(self).input == old(self).input,
            final(self).pos <= final(self).input@.len(),
            match element_at(old(self).input@, old(self).pos as int) {
                Some((t, k)) => r matches Ok(n) && n@ == t && final(self).pos == k,
                None => r is Err,
            },
        decreases old(self).input@.len() - old(self).pos, 0int,
    {
        let ghost s = self.input@;
        proof {
            lemma_scan_end_bounds(s, CharClass::NameChar);
        }
        if self.consume_char() != '<' {
            return Err(ParseError::MalformedMarkup);
        }
        let tag_name = self.parse_tag_name();
        if tag_name.len() == 0 {
            return Err(ParseError::MalformedMarkup);
        }
        proof {
            lemma_attrs_from_bounds(s, self.pos as int, Map::empty());
        }
        let attrs = self.parse_attributes()?;
        if self.consume_char() != '>' {
            return Err(ParseError::MalformedMarkup);
        }
        if self.if_single_tag(&tag_name) {
            return Ok(elem(string_of(&tag_name), attrs, Vec::new()));
        }
        let children = self.parse_nodes()?;
        if self.consume_char() != '<' {
            return Err(ParseError::MalformedMarkup);
        }
        if self.consume_char() != '/' {
            return Err(ParseError::MalformedMarkup);
        }
        let closing = self.parse_tag_name();
        if !same_chars(&closing, &tag_name) {
            return Err(ParseError::MalformedMarkup);
        }
        if self.consume_char() != '>' {
            return Err(ParseError::MalformedMarkup);
        }
        Ok(elem(string_of(&tag_name), attrs, children))
    }
}

/// `pre` put in front of the nodes of a `nodes_from` result.
pub open spec fn prefixed(pre: Seq<Tree>, r: Option<(Seq<Tree>, int)>) -> Option<(Seq<Tree>, int)> {
    match r {
        Some((ns, e)) => Some((pre + ns, e)),
        None => None,
    }
}

/// Parses a whole document into a root element tagged `html`, without
/// attributes, whose children are the top-level nodes of `source`.
pub fn parse(source: String) -> (r: Result<Node, ParseError>)
    ensures
        match parse_tree(source@) {
            Some(t) => r matches Ok(n) && n@ == t,
            None => r is Err,
        },
{
    let input = chars_of(source.as_str());
    let mut parser = Parser { pos: 0, input };
    let nodes = parser.parse_nodes()?;
    let name = string_of(&chars_of("html"));
    Ok(elem(name, AttrMap::new(), nodes))
}


/// A match that `find` reports lies within `s`.
pub proof fn lemma_find_bounds(s: Seq<char>, i: int, pat: Seq<char>)
    ensures
        find(s, i, pat) matches Some(q) ==> i <= q && q + pat.len() <= s.len(),
    decreases s.len() + 1 - i,
{
    if !(i < 0 || i + pat.len() > s.len()) && s.subrange(i, i + pat.len()) != pat {
        lemma_find_bounds(s, i + 1, pat);
    }
}


proof fn lemma_scan_through(s: Seq<char>, i: int, e: int, p: CharClass)
    requires
        0 <= i <= e <= s.len(),
        forall|k: int| i <= k < e ==> accepts(p, #[trigger] s[k]),
    ensures
        scan_end(s, i, p) == scan_end(s, e, p),
    decreases e - i,
{
    if i < e {
        lemma_scan_through(s, i + 1, e, p);
    }
}

/// Whitespace between siblings yields no node: the nodes read from `i` are
/// those read from the end of a whitespace run that starts at `i`.
pub proof fn lemma_whitespace_yields_no_node(s: Seq<char>, i: int, e: int)
    requires
        0 <= i <= e <= s.len(),
        forall|k: int| i <= k < e ==> is_white(#[trigger] s[k]),
    ensures
        nodes_from(s, i) == nodes_from(s, e),
{
    assert forall|k: int| i <= k < e implies accepts(CharClass::White, #[trigger] s[k]) by {
        assert(is_white(s[k]));
    }
    lemma_scan_through(s, i, e, CharClass::White);
}

/// A quoted value that holds no quote of either kind reads the same
/// between double quotes as between single quotes.
pub proof fn lemma_quote_flexibility(t: Seq<char>, r: Seq<char>)
    requires
        forall|k: int| 0 <= k < t.len() ==> t[k] != '"' && t[k] != '\'',
    ensures
        value_at(seq!['"'] + t + seq!['"'] + r, 0) == Some((escape(t), t.len() + 2int)),
        value_at(seq!['\''] + t + seq!['\''] + r, 0) == Some((escape(t), t.len() + 2int)),
{
    let d = seq!['"'] + t + seq!['"'] + r;
    let q = seq!['\''] + t + seq!['\''] + r;
    let n = t.len() as int;
    assert forall|k: int| 1 <= k < n + 1 implies accepts(CharClass::Not('"'), #[trigger] d[k]) by {
        assert(d[k] == t[k - 1]);
    }
    assert forall|k: int| 1 <= k < n + 1 implies accepts(CharClass::Not('\''), #[trigger] q[k]) by {
        assert(q[k] == t[k - 1]);
    }
    lemma_scan_through(d, 1, n + 1, CharClass::Not('"'));
    lemma_scan_through(q, 1, n + 1, CharClass::Not('\''));
    assert(d[n + 1] == '"');
    assert(q[n + 1] == '\'');
    assert(d.subrange(1, n + 1) =~= t);
    assert(q.subrange(1, n + 1) =~= t);
}

} // verus!
