//! Character-level text primitives used by the rule engine, the taint
//! tracker and the report renderer.
//!
//! Every function here works on the characters of a string (`Seq<char>` in
//! specifications, `&[char]` / `Vec<char>` in executable code) and is proved
//! against a short specification of what the matching `str` method does.
use vstd::prelude::*;

verus! {

// ------------------------------------------------------------------------
// Specifications
// ------------------------------------------------------------------------

/// `needle` occurs in `hay` as a contiguous run of characters.
pub open spec fn has_sub(hay: Seq<char>, needle: Seq<char>) -> bool {
    exists|i: int|
        0 <= i && i + needle.len() <= hay.len() && #[trigger] hay.subrange(i, i + needle.len())
            == needle
}

/// `s` begins with `p`.
pub open spec fn has_prefix(s: Seq<char>, p: Seq<char>) -> bool {
    p.len() <= s.len() && s.subrange(0, p.len() as int) == p
}

/// `s` ends with `p`.
pub open spec fn has_suffix(s: Seq<char>, p: Seq<char>) -> bool {
    p.len() <= s.len() && s.subrange(s.len() - p.len(), s.len() as int) == p
}

/// ASCII lower-casing of one character: `A`..=`Z` map to `a`..=`z`, every
/// other character is kept.
pub open spec fn lower_char(c: char) -> char {
    if 'A' <= c && c <= 'Z' {
        ((c as u32) + 32) as char
    } else {
        c
    }
}

/// ASCII lower-casing of a whole text.
pub open spec fn ascii_lower(s: Seq<char>) -> Seq<char> {
    s.map_values(|c: char| lower_char(c))
}

/// ASCII upper-casing of one character: `a`..=`z` map to `A`..=`Z`, every
/// other character is kept.
pub open spec fn upper_char(c: char) -> char {
    if 'a' <= c && c <= 'z' {
        ((c as u32) - 32) as char
    } else {
        c
    }
}

/// ASCII upper-casing of a whole text.
pub open spec fn ascii_upper(s: Seq<char>) -> Seq<char> {
    s.map_values(|c: char| upper_char(c))
}

/// `c` is one of `0`..=`9`.
pub open spec fn is_digit(c: char) -> bool {
    '0' <= c && c <= '9'
}

/// The Unicode `White_Space` property, which `char::is_whitespace` tests.
pub open spec fn is_ws(c: char) -> bool {
    let u = c as u32;
    ||| 0x09 <= u && u <= 0x0d
    ||| u == 0x20
    ||| u == 0x85
    ||| u == 0xa0
    ||| u == 0x1680
    ||| 0x2000 <= u && u <= 0x200a
    ||| u == 0x2028
    ||| u == 0x2029
    ||| u == 0x202f
    ||| u == 0x205f
    ||| u == 0x3000
}

/// What separates the pieces of a text.
#[derive(Clone, Copy, PartialEq, Eq, Structural)]
pub enum Sep {
    /// One given character.
    Char(char),
    /// Any white-space character.
    Space,
}

pub open spec fn is_sep(sep: Sep, c: char) -> bool {
    match sep {
        Sep::Char(x) => c == x,
        Sep::Space => is_ws(c),
    }
}

/// The pieces of `s` between separators, as `str::split` yields them: a
/// text with `k` separators has `k + 1` pieces, some of which may be empty.
pub open spec fn pieces(s: Seq<char>, sep: Sep) -> Seq<Seq<char>>
    decreases s.len(),
{
    if s.len() == 0 {
        seq![Seq::<char>::empty()]
    } else {
        let prev = pieces(s.drop_last(), sep);
        if is_sep(sep, s.last()) {
            prev.push(Seq::<char>::empty())
        } else {
            prev.update(prev.len() - 1, prev.last().push(s.last()))
        }
    }
}

/// The non-empty texts among `ps`, in order.
pub open spec fn nonempty_only(ps: Seq<Seq<char>>) -> Seq<Seq<char>>
    decreases ps.len(),
{
    if ps.len() == 0 {
        ps
    } else {
        let prev = nonempty_only(ps.drop_last());
        if ps.last().len() > 0 {
            prev.push(ps.last())
        } else {
            prev
        }
    }
}

/// The white-space separated words of `s`, as `str::split_whitespace`
/// yields them: the non-empty pieces between white-space characters.
pub open spec fn words(s: Seq<char>) -> Seq<Seq<char>> {
    nonempty_only(pieces(s, Sep::Space))
}

/// `s` without its leading white space.
pub open spec fn trim_start(s: Seq<char>) -> Seq<char>
    decreases s.len(),
{
    if s.len() > 0 && is_ws(s[0]) {
        trim_start(s.drop_first())
    } else {
        s
    }
}

/// `s` without its trailing white space.
pub open spec fn trim_end(s: Seq<char>) -> Seq<char>
    decreases s.len(),
{
    if s.len() > 0 && is_ws(s.last()) {
        trim_end(s.drop_last())
    } else {
        s
    }
}

/// `s` without leading and trailing white space, as `str::trim` gives it.
pub open spec fn trimmed(s: Seq<char>) -> Seq<char> {
    trim_end(trim_start(s))
}

/// The decimal digit for `d < 10`.
pub open spec fn digit(d: nat) -> char {
    ((d + 48) as u32) as char
}

/// The decimal representation of `n`, without leading zeros.
pub open spec fn decimal(n: nat) -> Seq<char>
    decreases n,
{
    if n < 10 {
        seq![digit(n)]
    } else {
        decimal(n / 10).push(digit(n % 10))
    }
}

/// `s` joined by `sep`: `s[0] + sep + s[1] + ... + s[n - 1]`.
pub open spec fn joined(s: Seq<Seq<char>>, sep: Seq<char>) -> Seq<char>
    decreases s.len(),
{
    if s.len() == 0 {
        Seq::<char>::empty()
    } else if s.len() == 1 {
        s[0]
    } else {
        joined(s.drop_last(), sep) + sep + s.last()
    }
}

// ------------------------------------------------------------------------
// Conversions between strings and characters
// ------------------------------------------------------------------------

/// The characters of `s`, in order.
pub fn chars_of(s: &str) -> (out: Vec<char>)
    ensures
        out@ == s@,
{
    let mut out: Vec<char> = Vec::new();
    for c in it: s.chars()
        invariant
            out@ == it.seq().take(it.index() as int),
    {
        out.push(c);
    }
    out
}

/// A `String` holding exactly the characters `v`.
///
/// Calls `FromIterator<&char> for String` (`collect`), which appends the
/// characters in the order the iterator yields them; the contract says that
/// the result's characters are `v`.
#[verifier::external_body]
pub(crate) fn string_of(v: &[char]) -> (s: String)
    ensures
        s@ == v@,
{
    v.iter().collect()
}

/// Appends the characters of `s` to `buf`.
pub fn push_str(buf: &mut Vec<char>, s: &str)
    ensures
        final(buf)@ == old(buf)@ + s@,
{
    let mut cs = chars_of(s);
    buf.append(&mut cs);
}

/// Appends the characters `s` to `buf`.
pub fn push_chars(buf: &mut Vec<char>, s: &[char])
    ensures
        final(buf)@ == old(buf)@ + s@,
{
    let mut i: usize = 0;
    while i < s.len()
        invariant
            i <= s.len(),
            buf@ == old(buf)@ + s@.take(i as int),
        decreases s.len() - i,
    {
        buf.push(s[i]);
        i = i + 1;
        assert(s@.take(i as int) == s@.take(i - 1) .push(s@[i - 1]));
    }
    assert(s@.take(s.len() as int) == s@);
}

// ------------------------------------------------------------------------
// Searching
// ------------------------------------------------------------------------

/// Does `hay` hold `needle` at position `at`?
fn matches_at(hay: &[char], needle: &[char], at: usize) -> (r: bool)
    requires
        at + needle@.len() <= hay@.len(),
    ensures
        r == (hay@.subrange(at as int, at + needle@.len()) == needle@),
{
    let hlen = hay.len();
    let mut j: usize = 0;
    while j < needle.len()
        invariant
            hlen == hay@.len(),
            at + needle@.len() <= hay@.len(),
            j <= needle@.len(),
            forall|k: int| 0 <= k < j ==> hay@[at + k] == needle@[k],
        decreases needle.len() - j,
    {
        if hay[at + j] != needle[j] {
            assert(hay@.subrange(at as int, at + needle@.len())[j as int] != needle@[j as int]);
            return false;
        }
        j = j + 1;
    }
    assert(hay@.subrange(at as int, at + needle@.len()) =~= needle@);
    true
}

/// `str::contains` with a string pattern, on characters.
pub fn contains(hay: &[char], needle: &str) -> (r: bool)
    ensures
        r == has_sub(hay@, needle@),
{
    let n = chars_of(needle);
    if n.len() > hay.len() {
        return false;
    }
    let last = hay.len() - n.len();
    let mut i: usize = 0;
    loop
        invariant
            i <= last,
            last + n@.len() == hay@.len(),
            n@ == needle@,
            forall|k: int| 0 <= k < i ==> #[trigger] hay@.subrange(k, k + n@.len()) != n@,
        decreases last - i,
    {
        if matches_at(hay, n.as_slice(), i) {
            return true;
        }
        if i == last {
            return false;
        }
        i = i + 1;
    }
}

/// `str::starts_with` with a string pattern, on characters.
pub fn starts_with(s: &[char], p: &str) -> (r: bool)
    ensures
        r == has_prefix(s@, p@),
{
    let pc = chars_of(p);
    if pc.len() > s.len() {
        return false;
    }
    matches_at(s, pc.as_slice(), 0)
}

/// `str::ends_with` with a string pattern, on characters.
pub fn ends_with(s: &[char], p: &str) -> (r: bool)
    ensures
        r == has_suffix(s@, p@),
{
    let pc = chars_of(p);
    if pc.len() > s.len() {
        return false;
    }
    matches_at(s, pc.as_slice(), s.len() - pc.len())
}

/// `==` between a text and a string.
pub fn same_text(s: &[char], p: &str) -> (r: bool)
    ensures
        r == (s@ == p@),
{
    let pc = chars_of(p);
    if pc.len() != s.len() {
        return false;
    }
    assert(s@.subrange(0, s@.len() as int) =~= s@);
    matches_at(s, pc.as_slice(), 0)
}

/// `==` between two texts.
pub fn eq_chars(a: &[char], b: &[char]) -> (r: bool)
    ensures
        r == (a@ == b@),
{
    if a.len() != b.len() {
        return false;
    }
    assert(a@.subrange(0, a@.len() as int) =~= a@);
    matches_at(a, b, 0)
}

/// `str::contains` with a `char` pattern.
pub fn has_char(s: &[char], c: char) -> (r: bool)
    ensures
        r == s@.contains(c),
{
    let mut i: usize = 0;
    while i < s.len()
        invariant
            i <= s@.len(),
            forall|k: int| 0 <= k < i ==> s@[k] != c,
        decreases s.len() - i,
    {
        if s[i] == c {
            assert(s@[i as int] == c);
            return true;
        }
        i = i + 1;
    }
    false
}

// ------------------------------------------------------------------------
// Character classes and case
// ------------------------------------------------------------------------

/// `char::is_whitespace`.
pub fn is_whitespace(c: char) -> (r: bool)
    ensures
        r == is_ws(c),
{
    let u = c as u32;
    (0x09 <= u && u <= 0x0d) || u == 0x20 || u == 0x85 || u == 0xa0 || u == 0x1680 || (0x2000
        <= u && u <= 0x200a) || u == 0x2028 || u == 0x2029 || u == 0x202f || u == 0x205f || u
        == 0x3000
}

/// `str::to_ascii_lowercase`, on characters.
pub fn to_lower(s: &[char]) -> (out: Vec<char>)
    ensures
        out@ == ascii_lower(s@),
{
    let mut out: Vec<char> = Vec::new();
    let mut i: usize = 0;
    while i < s.len()
        invariant
            i <= s@.len(),
            out@ == ascii_lower(s@.take(i as int)),
        decreases s.len() - i,
    {
        let c = s[i];
        let l = if 'A' <= c && c <= 'Z' {
            ((c as u8) + 32u8) as char
        } else {
            c
        };
        assert(l == lower_char(c));
        out.push(l);
        i = i + 1;
        assert(ascii_lower(s@.take(i as int)) =~= ascii_lower(s@.take(i - 1)).push(lower_char(c)));
    }
    assert(s@.take(s.len() as int) == s@);
    out
}

// ------------------------------------------------------------------------
// Splitting and trimming
// ------------------------------------------------------------------------

/// `is_sep` for executable code.
pub fn separates(sep: Sep, c: char) -> (r: bool)
    ensures
        r == is_sep(sep, c),
{
    match sep {
        Sep::Char(x) => c == x,
        Sep::Space => is_whitespace(c),
    }
}

/// Every piece of a text has at least one element.
pub proof fn lemma_pieces_nonempty(s: Seq<char>, sep: Sep)
    ensures
        pieces(s, sep).len() >= 1,
    decreases s.len(),
{
    if s.len() > 0 {
        lemma_pieces_nonempty(s.drop_last(), sep);
    }
}

/// `str::split`: the pieces of `s` between separators.
pub fn split(s: &[char], sep: Sep) -> (out: Vec<Vec<char>>)
    ensures
        out.deep_view() == pieces(s@, sep),
{
    let mut out: Vec<Vec<char>> = Vec::new();
    let mut cur: Vec<char> = Vec::new();
    let mut i: usize = 0;
    while i < s.len()
        invariant
            i <= s@.len(),
            pieces(s@.take(i as int), sep) == out.deep_view().push(cur@),
        decreases s.len() - i,
    {
        let c = s[i];
        proof {
            assert(s@.take(i + 1).drop_last() =~= s@.take(i as int));
            assert(s@.take(i + 1).last() == c);
        }
        let ghost old_out = out.deep_view();
        let ghost old_cur = cur@;
        if separates(sep, c) {
            let done = cur;
            cur = Vec::new();
            assert(done.deep_view() =~= old_cur);
            out.push(done);
            assert(out.deep_view() =~= old_out.push(old_cur));
            assert(pieces(s@.take(i + 1), sep) =~= out.deep_view().push(cur@));
        } else {
            cur.push(c);
            assert(cur@ =~= old_cur.push(c));
            assert(pieces(s@.take(i + 1), sep) =~= out.deep_view().push(cur@));
        }
        i = i + 1;
    }
    assert(s@.take(s.len() as int) == s@);
    let ghost old_out = out.deep_view();
    let ghost last_piece = cur@;
    assert(cur.deep_view() =~= last_piece);
    out.push(cur);
    assert(out.deep_view() =~= old_out.push(last_piece));
    out
}

/// The index of the first character of `s` that is not white space, or
/// `s.len()` when there is none.
fn skip_ws_forward(s: &[char]) -> (a: usize)
    ensures
        a <= s@.len(),
        trim_start(s@) == s@.subrange(a as int, s@.len() as int),
{
    let mut a: usize = 0;
    assert(s@.subrange(0, s@.len() as int) =~= s@);
    while a < s.len() && is_whitespace(s[a])
        invariant
            a <= s@.len(),
            trim_start(s@) == trim_start(s@.subrange(a as int, s@.len() as int)),
        decreases s.len() - a,
    {
        assert(s@.subrange(a as int, s@.len() as int).drop_first() =~= s@.subrange(
            a + 1,
            s@.len() as int,
        ));
        a = a + 1;
    }
    a
}

/// `str::trim`, on characters.
pub fn trim(s: &[char]) -> (out: Vec<char>)
    ensures
        out@ == trimmed(s@),
{
    let a = skip_ws_forward(s);
    let mut b: usize = s.len();
    while b > a && is_whitespace(s[b - 1])
        invariant
            a <= b <= s@.len(),
            trim_end(s@.subrange(a as int, s@.len() as int)) == trim_end(
                s@.subrange(a as int, b as int),
            ),
        decreases b - a,
    {
        assert(s@.subrange(a as int, b as int).drop_last() =~= s@.subrange(a as int, b - 1));
        b = b - 1;
    }
    let mut out: Vec<char> = Vec::new();
    let mut i: usize = a;
    while i < b
        invariant
            a <= i <= b <= s@.len(),
            out@ == s@.subrange(a as int, i as int),
        decreases b - i,
    {
        out.push(s[i]);
        i = i + 1;
        assert(out@ =~= s@.subrange(a as int, i as int));
    }
    out
}

// ------------------------------------------------------------------------
// Numbers
// ------------------------------------------------------------------------

/// The decimal digit character of `d < 10`.
fn digit_char(d: u64) -> (c: char)
    requires
        d < 10,
    ensures
        c == digit(d as nat),
{
    let b: u8 = 48u8 + (d as u8);
    b as char
}

/// Decimal characters of `n`, as `n.to_string()` gives them.
pub fn decimal_chars(n: u64) -> (out: Vec<char>)
    ensures
        out@ == decimal(n as nat),
{
    let mut m: u64 = n;
    let mut acc: Vec<char> = Vec::new();
    while m >= 10
        invariant
            decimal(n as nat) == decimal(m as nat) + acc@,
        decreases m,
    {
        let d = digit_char(m % 10);
        let ghost before = acc@;
        acc.insert(0, d);
        assert(acc@ == seq![d] + before);
        assert(decimal(m as nat) == decimal((m / 10) as nat).push(digit((m % 10) as nat)));
        assert(decimal((m / 10) as nat).push(d) + before =~= decimal((m / 10) as nat) + acc@);
        m = m / 10;
    }
    let d = digit_char(m);
    let ghost before = acc@;
    acc.insert(0, d);
    assert(acc@ =~= seq![d] + before);
    acc
}

} // verus!
