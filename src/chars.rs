//! Character-level helpers shared by the tree model and the parser:
//! Unicode whitespace, the escaping applied while scanning, trimming, and
//! conversions between `String` and `Vec<char>`.

use vstd::prelude::*;

verus! {

/// Unicode `White_Space` property, the set that `char::is_whitespace` tests.
pub open spec fn is_white(c: char) -> bool {
    let u = c as u32;
    (9 <= u && u <= 13) || u == 32 || u == 0x85 || u == 0xA0 || u == 0x1680 || (0x2000 <= u
        && u <= 0x200A) || u == 0x2028 || u == 0x2029 || u == 0x202F || u == 0x205F || u == 0x3000
}

/// Executable test of `is_white`.
pub fn is_white_char(c: char) -> (r: bool)
    ensures
        r == is_white(c),
{
    let u = c as u32;
    (9 <= u && u <= 13) || u == 32 || u == 0x85 || u == 0xA0 || u == 0x1680 || (0x2000 <= u
        && u <= 0x200A) || u == 0x2028 || u == 0x2029 || u == 0x202F || u == 0x205F || u == 0x3000
}

/// What one scanned character becomes in captured text: a double quote, a
/// tab and a newline turn into a backslash escape, every other character
/// stays as it is.
pub open spec fn escape_char(c: char) -> Seq<char> {
    if c == '"' {
        seq!['\\', '"']
    } else if c == '\t' {
        seq!['\\', 't']
    } else if c == '\n' {
        seq!['\\', 'n']
    } else {
        seq![c]
    }
}

/// The escaping of a whole run of scanned characters.
pub open spec fn escape(s: Seq<char>) -> Seq<char>
    decreases s.len(),
{
    if s.len() == 0 {
        Seq::empty()
    } else {
        escape(s.drop_last()) + escape_char(s.last())
    }
}

/// `s` without its leading whitespace.
pub open spec fn trim_start(s: Seq<char>) -> Seq<char>
    decreases s.len(),
{
    if s.len() > 0 && is_white(s[0]) {
        trim_start(s.drop_first())
    } else {
        s
    }
}

/// `s` without its trailing whitespace.
pub open spec fn trim_end(s: Seq<char>) -> Seq<char>
    decreases s.len(),
{
    if s.len() > 0 && is_white(s.last()) {
        trim_end(s.drop_last())
    } else {
        s
    }
}

/// `s` without leading and trailing whitespace, as `str::trim` gives it.
pub open spec fn trim(s: Seq<char>) -> Seq<char> {
    trim_end(trim_start(s))
}

/// Relies on `str::chars`, collected into a vector: the characters of `s` in order.
#[verifier::external_body]
pub(crate) fn chars_of(s: &str) -> (r: Vec<char>)
    ensures
        r@ == s@,
{
    s.chars().collect()
}

/// Relies on collecting characters into a `String` (`FromIterator<char>`):
/// the string holds exactly the characters of `v`, in order.
#[verifier::external_body]
pub(crate) fn string_of(v: &Vec<char>) -> (r: String)
    ensures
        r@ == v@,
{
    v.iter().collect()
}

/// Appends the escaping of `c` to `out`.
pub fn push_escaped(out: &mut Vec<char>, c: char)
    ensures
        final(out)@ == old(out)@ + escape_char(c),
{
    if c == '"' {
        out.push('\\');
        out.push('"');
    } else if c == '\t' {
        out.push('\\');
        out.push('t');
    } else if c == '\n' {
        out.push('\\');
        out.push('n');
    } else {
        out.push(c);
    }
    assert(final(out)@ =~= old(out)@ + escape_char(c));
}

/// Appends the characters of `s` to `out`.
pub fn push_str(out: &mut Vec<char>, s: &str)
    ensures
        final(out)@ == old(out)@ + s@,
{
    let v = chars_of(s);
    let mut i: usize = 0;
    while i < v.len()
        invariant
            i <= v@.len(),
            v@ == s@,
            out@ == old(out)@ + v@.subrange(0, i as int),
        decreases v@.len() - i,
    {
        out.push(v[i]);
        i += 1;
        assert(v@.subrange(0, i as int) =~= v@.subrange(0, i - 1) + seq![v@[i - 1]]);
    }
    assert(v@.subrange(0, v@.len() as int) =~= v@);
}

/// Appends the characters of `v` with leading and trailing whitespace removed.
pub fn push_trimmed(out: &mut Vec<char>, v: &Vec<char>)
    ensures
        final(out)@ == old(out)@ + trim(v@),
{
    let n = v.len();
    let mut i: usize = 0;
    assert(v@.subrange(0, n as int) =~= v@);
    while i < n && is_white_char(v[i])
        invariant
            i <= n == v@.len(),
            trim_start(v@) == trim_start(v@.subrange(i as int, n as int)),
        decreases n - i,
    {
        assert(v@.subrange(i + 1, n as int) =~= v@.subrange(i as int, n as int).drop_first());
        i += 1;
    }
    assert(trim_start(v@) == v@.subrange(i as int, n as int));
    let mut j: usize = n;
    while j > i && is_white_char(v[j - 1])
        invariant
            i <= j <= n == v@.len(),
            trim(v@) == trim_end(v@.subrange(i as int, j as int)),
        decreases j,
    {
        assert(v@.subrange(i as int, j - 1) =~= v@.subrange(i as int, j as int).drop_last());
        j -= 1;
    }
    assert(trim(v@) == v@.subrange(i as int, j as int));
    let mut k: usize = i;
    while k < j
        invariant
            i <= k <= j <= n == v@.len(),
            out@ == old(out)@ + v@.subrange(i as int, k as int),
        decreases j - k,
    {
        out.push(v[k]);
        k += 1;
        assert(v@.subrange(i as int, k as int) =~= v@.subrange(i as int, k - 1) + seq![v@[k - 1]]);
    }
}

} // verus!
