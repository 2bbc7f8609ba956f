//! Character-level text handling shared by the scanners and writers: the
//! Unicode whitespace set, trimming, splitting into pieces and tokens, line
//! splitting, ASCII case folding and decimal rendering of integers.
use vstd::prelude::*;
use vstd::string::StringExecFns;

verus! {

/// The Unicode `White_Space` set (the set `char::is_whitespace` tests).
pub open spec fn is_ws(c: char) -> bool {
    let u = c as u32;
    ||| (0x09 <= u && u <= 0x0D)
    ||| u == 0x20
    ||| u == 0x85
    ||| u == 0xA0
    ||| u == 0x1680
    ||| (0x2000 <= u && u <= 0x200A)
    ||| u == 0x2028
    ||| u == 0x2029
    ||| u == 0x202F
    ||| u == 0x205F
    ||| u == 0x3000
}

/// Whether `c` is Unicode whitespace.
pub fn is_whitespace(c: char) -> (b: bool)
    ensures
        b == is_ws(c),
{
    let u = c as u32;
    (0x09 <= u && u <= 0x0D) || u == 0x20 || u == 0x85 || u == 0xA0 || u == 0x1680 || (0x2000
        <= u && u <= 0x200A) || u == 0x2028 || u == 0x2029 || u == 0x202F || u == 0x205F || u
        == 0x3000
}

/// The separators a text is split on.
#[derive(Clone, Copy, PartialEq, Eq, Debug, Structural)]
pub enum Sep {
    /// Unicode whitespace.
    Whitespace,
    /// The line feed `'\n'`.
    LineFeed,
    /// A comma, a semicolon or Unicode whitespace (measurement columns).
    Field,
}

pub open spec fn is_sep(sep: Sep, c: char) -> bool {
    match sep {
        Sep::Whitespace => is_ws(c),
        Sep::LineFeed => c == '\n',
        Sep::Field => c == ',' || c == ';' || is_ws(c),
    }
}

pub fn sep_matches(sep: Sep, c: char) -> (b: bool)
    ensures
        b == is_sep(sep, c),
{
    match sep {
        Sep::Whitespace => is_whitespace(c),
        Sep::LineFeed => c == '\n',
        Sep::Field => c == ',' || c == ';' || is_whitespace(c),
    }
}

/// The pieces between separators, empty pieces included (what `str::split`
/// yields): a text with `k` separators has `k + 1` pieces.
pub open spec fn pieces(s: Seq<char>, sep: Sep) -> Seq<Seq<char>>
    decreases s.len(),
{
    if s.len() == 0 {
        seq![Seq::<char>::empty()]
    } else {
        let r = pieces(s.drop_last(), sep);
        if is_sep(sep, s.last()) {
            r.push(Seq::<char>::empty())
        } else {
            r.update(r.len() - 1, r.last().push(s.last()))
        }
    }
}

/// The non-empty members of `ps`, in order.
pub open spec fn nonempty(ps: Seq<Seq<char>>) -> Seq<Seq<char>>
    decreases ps.len(),
{
    if ps.len() == 0 {
        ps
    } else if ps.last().len() > 0 {
        nonempty(ps.drop_last()).push(ps.last())
    } else {
        nonempty(ps.drop_last())
    }
}

/// The non-empty pieces between separators (`split(..).filter(non-empty)`;
/// for `Sep::Whitespace` this is `str::split_whitespace`).
pub open spec fn tokens(s: Seq<char>, sep: Sep) -> Seq<Seq<char>> {
    nonempty(pieces(s, sep))
}

/// `s` without leading whitespace.
pub open spec fn trim_start(s: Seq<char>) -> Seq<char>
    decreases s.len(),
{
    if s.len() > 0 && is_ws(s[0]) {
        trim_start(s.drop_first())
    } else {
        s
    }
}

/// `s` without trailing whitespace.
pub open spec fn trim_end(s: Seq<char>) -> Seq<char>
    decreases s.len(),
{
    if s.len() > 0 && is_ws(s.last()) {
        trim_end(s.drop_last())
    } else {
        s
    }
}

/// `s` without leading and trailing whitespace (`str::trim`).
pub open spec fn trim(s: Seq<char>) -> Seq<char> {
    trim_end(trim_start(s))
}

/// A line without the carriage return that ends it, if any.
pub open spec fn strip_cr(l: Seq<char>) -> Seq<char> {
    if l.len() > 0 && l.last() == '\r' {
        l.drop_last()
    } else {
        l
    }
}

/// The lines of `s` as `str::lines` yields them: split on `'\n'`, no final
/// empty line after a closing line feed, and one `'\r'` just before each line
/// feed removed (a `'\r'` that ends the text without a line feed stays).
pub open spec fn lines(s: Seq<char>) -> Seq<Seq<char>> {
    let p = pieces(s, Sep::LineFeed);
    let q = if s.len() == 0 || s.last() == '\n' {
        p.drop_last()
    } else {
        p
    };
    Seq::new(q.len(), |i: int| if i + 1 < p.len() { strip_cr(q[i]) } else { q[i] })
}

/// The members of `ts` joined with the single character `c` between them.
pub open spec fn join(ts: Seq<Seq<char>>, c: char) -> Seq<char>
    decreases ts.len(),
{
    if ts.len() == 0 {
        Seq::<char>::empty()
    } else if ts.len() == 1 {
        ts[0]
    } else {
        join(ts.drop_last(), c).push(c) + ts.last()
    }
}

/// `s` with the suffix `m` removed if `s` ends with it.
pub open spec fn strip_suffix_if(s: Seq<char>, m: Seq<char>) -> Seq<char> {
    if m.is_suffix_of(s) {
        s.subrange(0, s.len() - m.len())
    } else {
        s
    }
}

/// `s` with every trailing `c` removed (`str::trim_end_matches` of a char).
pub open spec fn trim_end_char(s: Seq<char>, c: char) -> Seq<char>
    decreases s.len(),
{
    if s.len() > 0 && s.last() == c {
        trim_end_char(s.drop_last(), c)
    } else {
        s
    }
}

/// ASCII upper case of one character; other characters are unchanged.
pub open spec fn upper_ascii(c: char) -> char {
    if 'a' <= c && c <= 'z' {
        ((c as u32) - 32) as char
    } else {
        c
    }
}

/// ASCII lower case of one character; other characters are unchanged.
pub open spec fn lower_ascii(c: char) -> char {
    if 'A' <= c && c <= 'Z' {
        ((c as u32) + 32) as char
    } else {
        c
    }
}

/// `str::to_ascii_uppercase`.
pub open spec fn ascii_upper(s: Seq<char>) -> Seq<char> {
    s.map_values(|c: char| upper_ascii(c))
}

/// `str::to_ascii_lowercase`.
pub open spec fn ascii_lower(s: Seq<char>) -> Seq<char> {
    s.map_values(|c: char| lower_ascii(c))
}

/// `str::eq_ignore_ascii_case`.
pub open spec fn eq_ignore_ascii_case(a: Seq<char>, b: Seq<char>) -> bool {
    ascii_upper(a) == ascii_upper(b)
}

/// The character of a decimal digit.
pub open spec fn digit(d: int) -> char {
    if d == 0 {
        '0'
    } else if d == 1 {
        '1'
    } else if d == 2 {
        '2'
    } else if d == 3 {
        '3'
    } else if d == 4 {
        '4'
    } else if d == 5 {
        '5'
    } else if d == 6 {
        '6'
    } else if d == 7 {
        '7'
    } else if d == 8 {
        '8'
    } else {
        '9'
    }
}

/// The decimal numeral of `n`, without leading zeros (`format!("{}", n)`).
pub open spec fn decimal(n: nat) -> Seq<char>
    decreases n,
{
    if n < 10 {
        seq![digit(n as int)]
    } else {
        decimal(n / 10).push(digit((n % 10) as int))
    }
}

/// The decimal numeral of a signed integer, with a `'-'` before a negative one.
pub open spec fn signed_decimal(n: int) -> Seq<char> {
    if n < 0 {
        seq!['-'] + decimal((-n) as nat)
    } else {
        decimal(n as nat)
    }
}

/// The character views of a sequence of character vectors.
pub open spec fn char_views(v: Seq<Vec<char>>) -> Seq<Seq<char>> {
    v.map_values(|x: Vec<char>| x@)
}

/// The character views of a sequence of strings.
pub open spec fn str_views(v: Seq<String>) -> Seq<Seq<char>> {
    v.map_values(|x: String| x@)
}

// ---------------------------------------------------------------------------
// Lemmas
// ---------------------------------------------------------------------------

pub proof fn lemma_pieces_nonempty(s: Seq<char>, sep: Sep)
    ensures
        pieces(s, sep).len() >= 1,
    decreases s.len(),
{
    if s.len() > 0 {
        lemma_pieces_nonempty(s.drop_last(), sep);
    }
}

pub proof fn lemma_char_views_push(v: Seq<Vec<char>>, x: Vec<char>)
    ensures
        char_views(v.push(x)) == char_views(v).push(x@),
{
    assert(char_views(v.push(x)) =~= char_views(v).push(x@));
}

pub proof fn lemma_str_views_push(v: Seq<String>, x: String)
    ensures
        str_views(v.push(x)) == str_views(v).push(x@),
{
    assert(str_views(v.push(x)) =~= str_views(v).push(x@));
}

pub proof fn lemma_trim_start_skip(s: Seq<char>, i: int)
    requires
        0 <= i <= s.len(),
        forall|k: int| 0 <= k < i ==> is_ws(#[trigger] s[k]),
    ensures
        trim_start(s) == trim_start(s.subrange(i, s.len() as int)),
    decreases i,
{
    if i > 0 {
        assert(s.drop_first().subrange(i - 1, s.drop_first().len() as int) =~= s.subrange(
            i,
            s.len() as int,
        ));
        lemma_trim_start_skip(s.drop_first(), i - 1);
    } else {
        assert(s.subrange(0, s.len() as int) =~= s);
    }
}

pub proof fn lemma_trim_end_take(s: Seq<char>, j: int)
    requires
        0 <= j <= s.len(),
        forall|k: int| j <= k < s.len() ==> is_ws(#[trigger] s[k]),
    ensures
        trim_end(s) == trim_end(s.subrange(0, j)),
    decreases s.len() - j,
{
    if j < s.len() {
        assert(s.drop_last().subrange(0, j) =~= s.subrange(0, j));
        lemma_trim_end_take(s.drop_last(), j);
    } else {
        assert(s.subrange(0, j) =~= s);
    }
}

// ---------------------------------------------------------------------------
// Executable helpers
// ---------------------------------------------------------------------------

/// The characters of `s`, in order.
pub fn chars_of(s: &str) -> (v: Vec<char>)
    ensures
        v@ == s@,
{
    broadcast use vstd::string::group_string_axioms;

    let mut v: Vec<char> = Vec::new();
    for c in it: s.chars()
        invariant
            v@ == it.seq().take(it.index() as int),
    {
        v.push(c);
    }
    assert(v@ == s@);
    v
}

/// Appends one character to a string: `String::push`.
#[verifier::external_body]
pub(crate) fn push_char(s: &mut String, c: char)
    ensures
        final(s)@ == old(s)@.push(c),
{
    s.push(c);
}

/// Appends a text to a string.
pub fn push_str(s: &mut String, t: &str)
    ensures
        final(s)@ == old(s)@ + t@,
{
    s.append(t);
}

/// The string whose characters are `v`.
pub fn string_of(v: &[char]) -> (s: String)
    ensures
        s@ == v@,
{
    let mut s = String::new();
    for i in 0..v.len()
        invariant
            s@ == v@.take(i as int),
    {
        push_char(&mut s, v[i]);
        assert(v@.take(i + 1) =~= v@.take(i as int).push(v@[i as int]));
    }
    assert(v@.take(v.len() as int) =~= v@);
    s
}

/// Appends characters to a string.
pub fn push_chars(s: &mut String, v: &[char])
    ensures
        final(s)@ == old(s)@ + v@,
{
    for i in 0..v.len()
        invariant
            s@ == old(s)@ + v@.take(i as int),
    {
        push_char(s, v[i]);
        assert(v@.take(i + 1) =~= v@.take(i as int).push(v@[i as int]));
    }
    assert(v@.take(v.len() as int) =~= v@);
}

/// The strings whose characters are the members of `vs`.
pub fn strings_of(vs: &Vec<Vec<char>>) -> (r: Vec<String>)
    ensures
        str_views(r@) == char_views(vs@),
{
    let mut r: Vec<String> = Vec::new();
    for i in 0..vs.len()
        invariant
            str_views(r@) == char_views(vs@.take(i as int)),
    {
        let s = string_of(vs[i].as_slice());
        proof {
            lemma_str_views_push(r@, s);
            lemma_char_views_push(vs@.take(i as int), vs@[i as int]);
            assert(vs@.take(i + 1) =~= vs@.take(i as int).push(vs@[i as int]));
        }
        r.push(s);
    }
    assert(vs@.take(vs.len() as int) =~= vs@);
    r
}

/// The characters `v[from..to]`.
pub fn sub_chars(v: &[char], from: usize, to: usize) -> (r: Vec<char>)
    requires
        from <= to <= v.len(),
    ensures
        r@ == v@.subrange(from as int, to as int),
{
    let mut r: Vec<char> = Vec::new();
    let mut i = from;
    while i < to
        invariant
            from <= i <= to <= v.len(),
            r@ == v@.subrange(from as int, i as int),
        decreases to - i,
    {
        r.push(v[i]);
        assert(v@.subrange(from as int, i + 1) =~= v@.subrange(from as int, i as int).push(
            v@[i as int],
        ));
        i = i + 1;
    }
    r
}

/// Whether two character sequences are equal.
pub fn chars_eq(a: &[char], b: &[char]) -> (r: bool)
    ensures
        r == (a@ == b@),
{
    if a.len() != b.len() {
        return false;
    }
    for i in 0..a.len()
        invariant
            a.len() == b.len(),
            forall|k: int| 0 <= k < i ==> a@[k] == b@[k],
    {
        if a[i] != b[i] {
            return false;
        }
    }
    assert(a@ =~= b@);
    true
}

/// Whether `v` starts with `p`.
pub fn starts_with(v: &[char], p: &[char]) -> (r: bool)
    ensures
        r == p@.is_prefix_of(v@),
{
    if p.len() > v.len() {
        return false;
    }
    for i in 0..p.len()
        invariant
            p.len() <= v.len(),
            forall|k: int| 0 <= k < i ==> p@[k] == v@[k],
    {
        if p[i] != v[i] {
            return false;
        }
    }
    true
}

/// Whether `v` ends with `m`.
pub fn ends_with(v: &[char], m: &[char]) -> (r: bool)
    ensures
        r == m@.is_suffix_of(v@),
{
    if m.len() > v.len() {
        return false;
    }
    let off = v.len() - m.len();
    for i in 0..m.len()
        invariant
            m.len() <= v.len(),
            off == v.len() - m.len(),
            forall|k: int| 0 <= k < i ==> m@[k] == v@[off + k],
    {
        if m[i] != v[off + i] {
            return false;
        }
    }
    true
}

/// `v` with the suffix `m` removed if `v` ends with it.
pub fn strip_suffix(v: &[char], m: &[char]) -> (r: Vec<char>)
    ensures
        r@ == strip_suffix_if(v@, m@),
{
    if ends_with(v, m) {
        sub_chars(v, 0, v.len() - m.len())
    } else {
        sub_chars(v, 0, v.len())
    }
}

/// `v` without leading and trailing whitespace.
pub fn trim_chars(v: &[char]) -> (r: Vec<char>)
    ensures
        r@ == trim(v@),
{
    let mut i: usize = 0;
    while i < v.len() && is_whitespace(v[i])
        invariant
            i <= v.len(),
            forall|k: int| 0 <= k < i ==> is_ws(#[trigger] v@[k]),
        decreases v.len() - i,
    {
        i = i + 1;
    }
    let ghost rest = v@.subrange(i as int, v.len() as int);
    proof {
        lemma_trim_start_skip(v@, i as int);
        if rest.len() > 0 {
            assert(!is_ws(rest[0]));
        }
    }
    assert(trim_start(v@) == rest);
    let mut j: usize = v.len();
    while j > i && is_whitespace(v[j - 1])
        invariant
            i <= j <= v.len(),
            rest == v@.subrange(i as int, v.len() as int),
            forall|k: int| j <= k < v.len() ==> is_ws(#[trigger] v@[k]),
        decreases j,
    {
        j = j - 1;
    }
    proof {
        assert forall|k: int| j - i <= k < rest.len() implies is_ws(#[trigger] rest[k]) by {
            assert(rest[k] == v@[i + k]);
        }
        lemma_trim_end_take(rest, j - i);
        let t = rest.subrange(0, j - i);
        assert(t =~= v@.subrange(i as int, j as int));
        if t.len() > 0 {
            assert(t.last() == v@[j - 1]);
        }
    }
    sub_chars(v, i, j)
}

/// The pieces of `v` between separators, empty ones included.
pub fn split_pieces(v: &[char], sep: Sep) -> (r: Vec<Vec<char>>)
    ensures
        char_views(r@) == pieces(v@, sep),
{
    let mut done: Vec<Vec<char>> = Vec::new();
    let mut cur: Vec<char> = Vec::new();
    for i in 0..v.len()
        invariant
            pieces(v@.take(i as int), sep) == char_views(done@).push(cur@),
    {
        let c = v[i];
        proof {
            assert(v@.take(i + 1).drop_last() =~= v@.take(i as int));
            assert(v@.take(i + 1).last() == c);
        }
        if sep_matches(sep, c) {
            proof {
                lemma_char_views_push(done@, cur);
            }
            done.push(cur);
            cur = Vec::new();
            assert(cur@ =~= Seq::<char>::empty());
        } else {
            cur.push(c);
            proof {
                let r = pieces(v@.take(i as int), sep);
                assert(r.update(r.len() - 1, r.last().push(c)) =~= char_views(done@).push(cur@));
            }
        }
    }
    assert(v@.take(v.len() as int) =~= v@);
    proof {
        lemma_char_views_push(done@, cur);
    }
    done.push(cur);
    done
}

/// The non-empty members of `ps`, in order.
pub fn keep_nonempty(ps: Vec<Vec<char>>) -> (r: Vec<Vec<char>>)
    ensures
        char_views(r@) == nonempty(char_views(ps@)),
{
    let mut r: Vec<Vec<char>> = Vec::new();
    let mut ps = ps;
    let ghost orig = ps@;
    let mut k: usize = 0;
    let n = ps.len();
    // Walk by index; each member is moved out by swapping in an empty vector.
    while k < n
        invariant
            n == orig.len(),
            ps@.len() == n,
            k <= n,
            forall|t: int| k <= t < n ==> ps@[t] == orig[t],
            char_views(r@) == nonempty(char_views(orig.take(k as int))),
        decreases n - k,
    {
        let mut x: Vec<char> = Vec::new();
        std::mem::swap(&mut x, &mut ps[k]);
        assert(x == orig[k as int]);
        proof {
            let pre = char_views(orig.take(k + 1));
            assert(pre.drop_last() =~= char_views(orig.take(k as int)));
            assert(pre.last() == x@);
        }
        if x.len() > 0 {
            proof {
                lemma_char_views_push(r@, x);
            }
            r.push(x);
        }
        k = k + 1;
    }
    assert(orig.take(n as int) =~= orig);
    r
}

/// The non-empty pieces of `v` between separators.
pub fn split_tokens(v: &[char], sep: Sep) -> (r: Vec<Vec<char>>)
    ensures
        char_views(r@) == tokens(v@, sep),
{
    keep_nonempty(split_pieces(v, sep))
}

} // verus!

verus! {

/// ASCII upper case of one character.
pub fn upper_char(c: char) -> (r: char)
    ensures
        r == upper_ascii(c),
{
    if 'a' <= c && c <= 'z' {
        let u = c as u32;
        let b = u as u8;
        (b - 32) as char
    } else {
        c
    }
}

/// ASCII upper case of a character sequence.
pub fn ascii_upper_chars(v: &[char]) -> (r: Vec<char>)
    ensures
        r@ == ascii_upper(v@),
{
    let mut r: Vec<char> = Vec::new();
    for i in 0..v.len()
        invariant
            r@ == ascii_upper(v@.take(i as int)),
    {
        let u = upper_char(v[i]);
        r.push(u);
        assert(ascii_upper(v@.take(i + 1)) =~= ascii_upper(v@.take(i as int)).push(u));
    }
    assert(v@.take(v.len() as int) =~= v@);
    r
}

/// Whether two character sequences are equal up to ASCII case.
pub fn eq_ignore_case(a: &[char], b: &[char]) -> (r: bool)
    ensures
        r == eq_ignore_ascii_case(a@, b@),
{
    let ua = ascii_upper_chars(a);
    let ub = ascii_upper_chars(b);
    chars_eq(ua.as_slice(), ub.as_slice())
}

/// The character of the decimal digit `d`.
pub fn digit_char(d: u64) -> (c: char)
    requires
        d < 10,
    ensures
        c == digit(d as int),
{
    match d {
        0 => '0',
        1 => '1',
        2 => '2',
        3 => '3',
        4 => '4',
        5 => '5',
        6 => '6',
        7 => '7',
        8 => '8',
        _ => '9',
    }
}

/// Appends the decimal numeral of `n`.
pub fn push_decimal(s: &mut String, n: u64)
    ensures
        final(s)@ == old(s)@ + decimal(n as nat),
    decreases n,
{
    if n < 10 {
        push_char(s, digit_char(n));
        assert(old(s)@.push(digit(n as int)) =~= old(s)@ + seq![digit(n as int)]);
    } else {
        push_decimal(s, n / 10);
        push_char(s, digit_char(n % 10));
        assert(old(s)@ + decimal((n / 10) as nat).push(digit((n % 10) as int)) =~= (old(s)@
            + decimal((n / 10) as nat)).push(digit((n % 10) as int)));
    }
}

/// Appends the decimal numeral of a signed integer.
pub fn push_signed_decimal(s: &mut String, n: i64)
    ensures
        final(s)@ == old(s)@ + signed_decimal(n as int),
{
    if n < 0 {
        push_char(s, '-');
        let m: i128 = 0i128 - (n as i128);
        push_decimal(s, m as u64);
        assert(old(s)@.push('-') + decimal((m as u64) as nat) =~= old(s)@ + (seq!['-']
            + decimal((-n) as nat)));
    } else {
        push_decimal(s, n as u64);
    }
}

/// `v` with every trailing `c` removed.
pub fn trim_end_matching(v: &[char], c: char) -> (r: Vec<char>)
    ensures
        r@ == trim_end_char(v@, c),
{
    let mut j = v.len();
    assert(v@.subrange(0, j as int) =~= v@);
    while j > 0 && v[j - 1] == c
        invariant
            j <= v.len(),
            trim_end_char(v@, c) == trim_end_char(v@.subrange(0, j as int), c),
        decreases j,
    {
        assert(v@.subrange(0, j as int).drop_last() =~= v@.subrange(0, j - 1));
        j = j - 1;
    }
    proof {
        if j == v.len() {
            assert(v@.subrange(0, j as int) =~= v@);
        }
    }
    sub_chars(v, 0, j)
}

/// The lines of `v`, as `lines` states them.
pub fn split_lines(v: &[char]) -> (r: Vec<Vec<char>>)
    ensures
        char_views(r@) == lines(v@),
{
    let mut p = split_pieces(v, Sep::LineFeed);
    proof {
        lemma_pieces_nonempty(v@, Sep::LineFeed);
    }
    let ghost p0 = char_views(p@);
    let np = p.len();
    if v.len() == 0 || v[v.len() - 1] == '\n' {
        p.pop();
        assert(char_views(p@) =~= p0.drop_last());
    }
    let ghost q = char_views(p@);
    let ghost ls = lines(v@);
    let mut r: Vec<Vec<char>> = Vec::new();
    let n = p.len();
    let mut k: usize = 0;
    while k < n
        invariant
            n == p@.len(),
            k <= n,
            np == p0.len(),
            q == char_views(p@),
            ls == Seq::new(q.len(), |i: int| if i + 1 < p0.len() { strip_cr(q[i]) } else { q[i] }),
            char_views(r@) == ls.take(k as int),
        decreases n - k,
    {
        let l = &p[k];
        let line = if k + 1 < np && l.len() > 0 && l[l.len() - 1] == '\r' {
            sub_chars(l.as_slice(), 0, l.len() - 1)
        } else {
            sub_chars(l.as_slice(), 0, l.len())
        };
        assert(line@ == ls[k as int]);
        proof {
            lemma_char_views_push(r@, line);
            assert(ls.take(k + 1) =~= ls.take(k as int).push(ls[k as int]));
        }
        r.push(line);
        k = k + 1;
    }
    assert(ls.take(n as int) =~= ls);
    r
}

/// The members of `ts` joined with `c` between them.
pub fn join_chars(ts: &Vec<Vec<char>>, c: char) -> (r: Vec<char>)
    ensures
        r@ == join(char_views(ts@), c),
{
    let mut r: Vec<char> = Vec::new();
    let ghost views = char_views(ts@);
    for i in 0..ts.len()
        invariant
            views == char_views(ts@),
            r@ == join(views.take(i as int), c),
    {
        let ghost before = r@;
        if i > 0 {
            r.push(c);
        }
        let t = &ts[i];
        for k in 0..t.len()
            invariant
                r@ == (if i > 0 { before.push(c) } else { before }) + t@.take(k as int),
        {
            r.push(t[k]);
            assert(t@.take(k + 1) =~= t@.take(k as int).push(t@[k as int]));
        }
        proof {
            assert(t@.take(t.len() as int) =~= t@);
            let pre = views.take(i + 1);
            assert(pre.drop_last() =~= views.take(i as int));
            assert(pre.last() == t@);
            if i == 0 {
                assert(r@ =~= t@);
            }
        }
    }
    assert(views.take(ts.len() as int) =~= views);
    r
}

/// How many times `c` occurs in `s`.
pub open spec fn count_char(s: Seq<char>, c: char) -> nat
    decreases s.len(),
{
    if s.len() == 0 {
        0
    } else {
        count_char(s.drop_last(), c) + if s.last() == c {
            1nat
        } else {
            0nat
        }
    }
}

pub proof fn lemma_count_char_add(a: Seq<char>, b: Seq<char>, c: char)
    ensures
        count_char(a + b, c) == count_char(a, c) + count_char(b, c),
    decreases b.len(),
{
    if b.len() == 0 {
        assert(a + b =~= a);
    } else {
        lemma_count_char_add(a, b.drop_last(), c);
        assert((a + b).drop_last() =~= a + b.drop_last());
    }
}

pub proof fn lemma_count_char_absent(s: Seq<char>, c: char)
    requires
        forall|i: int| 0 <= i < s.len() ==> s[i] != c,
    ensures
        count_char(s, c) == 0,
    decreases s.len(),
{
    if s.len() > 0 {
        lemma_count_char_absent(s.drop_last(), c);
    }
}

pub open spec fn is_digit_char(c: char) -> bool {
    c == '0' || c == '1' || c == '2' || c == '3' || c == '4' || c == '5' || c == '6' || c == '7'
        || c == '8' || c == '9'
}

pub proof fn lemma_decimal_digits(n: nat)
    ensures
        forall|i: int| 0 <= i < decimal(n).len() ==> is_digit_char(#[trigger] decimal(n)[i]),
    decreases n,
{
    if n >= 10 {
        lemma_decimal_digits(n / 10);
        let d = decimal(n);
        assert forall|i: int| 0 <= i < d.len() implies is_digit_char(#[trigger] d[i]) by {
            if i < d.len() - 1 {
                assert(d[i] == decimal(n / 10)[i]);
            }
        }
    }
}

pub proof fn lemma_signed_decimal_no(n: int, c: char)
    requires
        c != '-',
        !is_digit_char(c),
    ensures
        count_char(signed_decimal(n), c) == 0,
{
    let s = signed_decimal(n);
    if n < 0 {
        lemma_decimal_digits((-n) as nat);
        assert forall|i: int| 0 <= i < s.len() implies s[i] != c by {
            if i > 0 {
                assert(s[i] == decimal((-n) as nat)[i - 1]);
            }
        }
    } else {
        lemma_decimal_digits(n as nat);
        assert forall|i: int| 0 <= i < s.len() implies s[i] != c by {
            assert(s[i] == decimal(n as nat)[i]);
        }
    }
    lemma_count_char_absent(s, c);
}

// ---------------------------------------------------------------------------
// Order of texts
// ---------------------------------------------------------------------------

/// Lexicographic order of texts by code point (the order of `String`: byte
/// order of UTF-8, which follows code points).
pub open spec fn lex_le(a: Seq<char>, b: Seq<char>) -> bool
    decreases a.len(),
{
    if a.len() == 0 {
        true
    } else if b.len() == 0 {
        false
    } else if a[0] < b[0] {
        true
    } else if a[0] > b[0] {
        false
    } else {
        lex_le(a.drop_first(), b.drop_first())
    }
}

pub proof fn lemma_lex_le_skip(a: Seq<char>, b: Seq<char>, i: int)
    requires
        0 <= i <= a.len(),
        i <= b.len(),
        forall|j: int| 0 <= j < i ==> #[trigger] a[j] == b[j],
    ensures
        lex_le(a, b) == lex_le(a.skip(i), b.skip(i)),
    decreases i,
{
    if i > 0 {
        assert(a.drop_first().skip(i - 1) =~= a.skip(i));
        assert(b.drop_first().skip(i - 1) =~= b.skip(i));
        assert(a[0] == b[0]);
        lemma_lex_le_skip(a.drop_first(), b.drop_first(), i - 1);
    } else {
        assert(a.skip(0) =~= a);
        assert(b.skip(0) =~= b);
    }
}

pub proof fn lemma_lex_le_reflexive(a: Seq<char>)
    ensures
        lex_le(a, a),
    decreases a.len(),
{
    if a.len() > 0 {
        lemma_lex_le_reflexive(a.drop_first());
    }
}

pub proof fn lemma_lex_le_total(a: Seq<char>, b: Seq<char>)
    ensures
        lex_le(a, b) || lex_le(b, a),
    decreases a.len(),
{
    if a.len() > 0 && b.len() > 0 && a[0] == b[0] {
        lemma_lex_le_total(a.drop_first(), b.drop_first());
    }
}

pub proof fn lemma_lex_le_transitive(a: Seq<char>, b: Seq<char>, c: Seq<char>)
    requires
        lex_le(a, b),
        lex_le(b, c),
    ensures
        lex_le(a, c),
    decreases a.len(),
{
    if a.len() > 0 && b.len() > 0 && c.len() > 0 && a[0] == b[0] && b[0] == c[0] {
        lemma_lex_le_transitive(a.drop_first(), b.drop_first(), c.drop_first());
    }
}

pub proof fn lemma_lex_le_antisymmetric(a: Seq<char>, b: Seq<char>)
    requires
        lex_le(a, b),
        lex_le(b, a),
    ensures
        a == b,
    decreases a.len(),
{
    if a.len() > 0 && b.len() > 0 {
        lemma_lex_le_antisymmetric(a.drop_first(), b.drop_first());
        assert(a =~= seq![a[0]] + a.drop_first());
        assert(b =~= seq![b[0]] + b.drop_first());
    }
}

/// Whether `i` is the first position where `a` and `b` differ and `a` has
/// the smaller character there.
pub open spec fn first_diff_less(a: Seq<char>, b: Seq<char>, i: int) -> bool {
    &&& 0 <= i < a.len()
    &&& i < b.len()
    &&& a.subrange(0, i) == b.subrange(0, i)
    &&& a[i] < b[i]
}

/// Texts are ordered as `String`s are: `a` comes before or equals `b` exactly
/// when `a` is a prefix of `b` (so a text comes before all its extensions), or
/// `a` has the smaller character at the first position where the two differ.
pub proof fn law_lex_le_is_string_order(a: Seq<char>, b: Seq<char>)
    ensures
        lex_le(a, b) <==> (a.is_prefix_of(b) || exists|i: int| #[trigger]
            first_diff_less(a, b, i)),
        lex_le(a, a + b),
    decreases a.len(),
{
    if a.len() == 0 {
        assert(a =~= b.subrange(0, 0));
        assert((a + b).subrange(0, 0) =~= a);
    } else if b.len() == 0 {
        assert(!(exists|i: int| first_diff_less(a, b, i)));
        law_lex_le_is_string_order(a.drop_first(), a.drop_first() + b);
        assert((a + b).drop_first() =~= a.drop_first() + b);
    } else {
        let a1 = a.drop_first();
        let b1 = b.drop_first();
        law_lex_le_is_string_order(a1, b1);
        law_lex_le_is_string_order(a1, b);
        assert((a + b).drop_first() =~= a1 + b);
        assert((a + b)[0] == a[0]);
        if a[0] < b[0] {
            assert(a.subrange(0, 0) =~= b.subrange(0, 0));
            assert(first_diff_less(a, b, 0));
        } else if a[0] > b[0] {
            assert(!a.is_prefix_of(b)) by {
                if a.is_prefix_of(b) {
                    assert(a[0] == b.subrange(0, a.len() as int)[0]);
                }
            }
            assert forall|i: int| !first_diff_less(a, b, i) by {
                if first_diff_less(a, b, i) && i > 0 {
                    assert(a.subrange(0, i)[0] == b.subrange(0, i)[0]);
                }
            }
        } else {
            assert(a.is_prefix_of(b) <==> a1.is_prefix_of(b1)) by {
                if a.is_prefix_of(b) {
                    assert(a1 =~= b1.subrange(0, a1.len() as int));
                }
                if a1.is_prefix_of(b1) {
                    assert(a =~= b.subrange(0, a.len() as int)) by {
                        assert forall|k: int| 0 <= k < a.len() implies a[k] == b.subrange(
                            0,
                            a.len() as int,
                        )[k] by {
                            if k > 0 {
                                assert(a1[k - 1] == b1.subrange(0, a1.len() as int)[k - 1]);
                            }
                        }
                    }
                }
            }
            if exists|i: int| first_diff_less(a, b, i) {
                let i = choose|i: int| first_diff_less(a, b, i);
                if i == 0 {
                    assert(false);
                }
                assert(a1.subrange(0, i - 1) =~= a.subrange(0, i).drop_first());
                assert(b1.subrange(0, i - 1) =~= b.subrange(0, i).drop_first());
                assert(first_diff_less(a1, b1, i - 1));
            }
            if exists|j: int| first_diff_less(a1, b1, j) {
                let j = choose|j: int| first_diff_less(a1, b1, j);
                assert(a.subrange(0, j + 1) =~= seq![a[0]] + a1.subrange(0, j));
                assert(b.subrange(0, j + 1) =~= seq![b[0]] + b1.subrange(0, j));
                assert(first_diff_less(a, b, j + 1));
            }
        }
    }
}

/// Whether `a` comes before `b` or equals it, by code point.
pub fn chars_le(a: &[char], b: &[char]) -> (r: bool)
    ensures
        r == lex_le(a@, b@),
{
    let mut i: usize = 0;
    while i < a.len() && i < b.len()
        invariant
            i <= a.len(),
            i <= b.len(),
            forall|j: int| 0 <= j < i ==> #[trigger] a@[j] == b@[j],
        decreases a.len() - i,
    {
        if a[i] != b[i] {
            proof {
                lemma_lex_le_skip(a@, b@, i as int);
                assert(a@.skip(i as int)[0] == a@[i as int]);
                assert(b@.skip(i as int)[0] == b@[i as int]);
            }
            return a[i] < b[i];
        }
        i = i + 1;
    }
    proof {
        lemma_lex_le_skip(a@, b@, i as int);
    }
    a.len() <= b.len()
}

// ---------------------------------------------------------------------------
// Single-spaced texts
// ---------------------------------------------------------------------------

/// Whether `s` neither starts nor ends with whitespace and its only
/// whitespace are single spaces between non-whitespace characters.
pub open spec fn single_spaced(s: Seq<char>) -> bool {
    forall|i: int|
        0 <= i < s.len() && is_ws(#[trigger] s[i]) ==> s[i] == ' ' && 0 < i < s.len() - 1 && !is_ws(
            s[i - 1],
        ) && !is_ws(s[i + 1])
}

/// Whether no member of `ts` holds whitespace.
pub open spec fn no_ws_members(ts: Seq<Seq<char>>) -> bool {
    forall|k: int, i: int| 0 <= k < ts.len() && 0 <= i < ts[k].len() ==> !is_ws(#[trigger] ts[k][i])
}

pub proof fn lemma_pieces_no_ws(s: Seq<char>)
    ensures
        no_ws_members(pieces(s, Sep::Whitespace)),
    decreases s.len(),
{
    if s.len() > 0 {
        lemma_pieces_no_ws(s.drop_last());
        lemma_pieces_nonempty(s.drop_last(), Sep::Whitespace);
        let r = pieces(s.drop_last(), Sep::Whitespace);
        let p = pieces(s, Sep::Whitespace);
        assert forall|k: int, i: int| 0 <= k < p.len() && 0 <= i < p[k].len() implies !is_ws(
            #[trigger] p[k][i],
        ) by {
            if is_ws(s.last()) {
                if k < r.len() {
                    assert(p[k] == r[k]);
                }
            } else if k < r.len() - 1 {
                assert(p[k] == r[k]);
            } else {
                assert(p[k] == r.last().push(s.last()));
                if i < r.last().len() {
                    assert(p[k][i] == r[r.len() - 1][i]);
                }
            }
        }
    }
}

pub proof fn lemma_nonempty_no_ws(ps: Seq<Seq<char>>)
    requires
        no_ws_members(ps),
    ensures
        no_ws_members(nonempty(ps)),
        forall|k: int| 0 <= k < nonempty(ps).len() ==> #[trigger] nonempty(ps)[k].len() > 0,
    decreases ps.len(),
{
    if ps.len() > 0 {
        assert(no_ws_members(ps.drop_last())) by {
            assert forall|k: int, i: int|
                0 <= k < ps.drop_last().len() && 0 <= i < ps.drop_last()[k].len() implies !is_ws(
                #[trigger] ps.drop_last()[k][i],
            ) by {
                assert(ps.drop_last()[k] == ps[k]);
            }
        }
        lemma_nonempty_no_ws(ps.drop_last());
        let q = nonempty(ps.drop_last());
        if ps.last().len() > 0 {
            let n = nonempty(ps);
            assert(n == q.push(ps.last()));
            assert forall|k: int, i: int| 0 <= k < n.len() && 0 <= i < n[k].len() implies !is_ws(
                #[trigger] n[k][i],
            ) by {
                if k < q.len() {
                    assert(n[k] == q[k]);
                } else {
                    assert(n[k] == ps[ps.len() - 1]);
                }
            }
            assert forall|k: int| 0 <= k < n.len() implies #[trigger] n[k].len() > 0 by {
                if k < q.len() {
                    assert(n[k] == q[k]);
                }
            }
        }
    }
}

pub proof fn lemma_join_single_spaced(ts: Seq<Seq<char>>)
    requires
        no_ws_members(ts),
        forall|k: int| 0 <= k < ts.len() ==> #[trigger] ts[k].len() > 0,
    ensures
        single_spaced(join(ts, ' ')),
        ts.len() > 0 ==> join(ts, ' ').len() > 0,
    decreases ts.len(),
{
    if ts.len() == 1 {
        assert(join(ts, ' ') == ts[0]);
        assert forall|i: int| 0 <= i < ts[0].len() implies !is_ws(#[trigger] ts[0][i]) by {}
    } else if ts.len() > 1 {
        let d = ts.drop_last();
        assert(no_ws_members(d)) by {
            assert forall|k: int, i: int| 0 <= k < d.len() && 0 <= i < d[k].len() implies !is_ws(
                #[trigger] d[k][i],
            ) by {
                assert(d[k] == ts[k]);
            }
        }
        assert forall|k: int| 0 <= k < d.len() implies #[trigger] d[k].len() > 0 by {
            assert(d[k] == ts[k]);
        }
        lemma_join_single_spaced(d);
        let a = join(d, ' ');
        let t = ts.last();
        let r = a.push(' ') + t;
        assert(join(ts, ' ') == r);
        assert(t == ts[ts.len() - 1]);
        assert forall|i: int| 0 <= i < t.len() implies !is_ws(#[trigger] t[i]) by {
            assert(ts[ts.len() - 1][i] == t[i]);
        }
        assert(!is_ws(a[a.len() - 1])) by {
            if is_ws(a[a.len() - 1]) {
                assert(a.len() - 1 < a.len() - 1);
            }
        }
        assert forall|i: int| 0 <= i < r.len() && is_ws(#[trigger] r[i]) implies r[i] == ' ' && 0 < i
            < r.len() - 1 && !is_ws(r[i - 1]) && !is_ws(r[i + 1]) by {
            if i < a.len() {
                assert(r[i] == a[i]);
                assert(is_ws(a[i]));
                assert(r[i + 1] == a[i + 1]);
                assert(r[i - 1] == a[i - 1]);
            } else if i == a.len() {
                assert(r[i - 1] == a[a.len() - 1]);
                assert(r[i + 1] == t[0]);
            } else {
                assert(r[i] == t[i - a.len() - 1]);
            }
        }
    }
}

pub proof fn lemma_trim_single_spaced(s: Seq<char>)
    requires
        single_spaced(s),
    ensures
        trim(s) == s,
{
    if s.len() > 0 {
        assert(!is_ws(s[0]));
        assert(!is_ws(s[s.len() - 1]));
    }
    assert(trim_start(s) == s);
}

/// Splitting a text on whitespace and joining the pieces with single spaces
/// gives a single-spaced text, which trimming leaves unchanged.
pub proof fn law_collapse_whitespace(s: Seq<char>)
    ensures
        single_spaced(join(tokens(s, Sep::Whitespace), ' ')),
        trim(join(tokens(s, Sep::Whitespace), ' ')) == join(tokens(s, Sep::Whitespace), ' '),
{
    lemma_pieces_no_ws(s);
    lemma_nonempty_no_ws(pieces(s, Sep::Whitespace));
    lemma_join_single_spaced(tokens(s, Sep::Whitespace));
    lemma_trim_single_spaced(join(tokens(s, Sep::Whitespace), ' '));
}

} // verus!
