//! ParametricEQ text (AutoEq `Preamp:` and `Filter N: ON PK Fc .. Gain .. Q ..`
//! lines) and the GraphicEQ interchange texts.
use vstd::prelude::*;
use vstd::string::StringExecFns;
use crate::biquad::FilterType;
use crate::text::{
    ascii_lower, ascii_upper, ascii_upper_chars, count_char, lemma_count_char_absent, lemma_count_char_add,
    lemma_signed_decimal_no, char_views, chars_eq, chars_of, eq_ignore_ascii_case,
    eq_ignore_case, lines, push_chars, push_signed_decimal, push_str, signed_decimal,
    split_lines, split_tokens, str_views, string_of, strings_of, sub_chars, tokens, trim,
    trim_chars, Sep,
};

verus! {

// ---------------------------------------------------------------------------
// Filter-type tokens
// ---------------------------------------------------------------------------

/// The filter kind named by an upper-case token (AutoEq / REW names).
pub open spec fn token_filter_type(u: Seq<char>) -> Option<FilterType> {
    if u == "PK"@ || u == "PEQ"@ || u == "PEAKING"@ || u == "MODAL"@ || u == "BELL"@ {
        Some(FilterType::Peaking)
    } else if u == "LS"@ || u == "LSC"@ || u == "LSQ"@ || u == "LOWSHELF"@ {
        Some(FilterType::LowShelf)
    } else if u == "HS"@ || u == "HSC"@ || u == "HSQ"@ || u == "HIGHSHELF"@ {
        Some(FilterType::HighShelf)
    } else if u == "LP"@ || u == "LPQ"@ || u == "LOWPASS"@ {
        Some(FilterType::LowPass)
    } else if u == "HP"@ || u == "HPQ"@ || u == "HIGHPASS"@ {
        Some(FilterType::HighPass)
    } else if u == "NO"@ || u == "NOTCH"@ {
        Some(FilterType::Notch)
    } else {
        None
    }
}

fn is_word(u: &[char], w: &str) -> (b: bool)
    ensures
        b == (u@ == w@),
{
    let wv = chars_of(w);
    chars_eq(u, wv.as_slice())
}

/// Map a filter-type token (AutoEq / REW style) to a `FilterType`; the token
/// is matched in any ASCII case.
pub fn filter_type_from_token(t: &str) -> (r: Option<FilterType>)
    ensures
        r == token_filter_type(ascii_upper(t@)),
{
    let tv = chars_of(t);
    let u = ascii_upper_chars(tv.as_slice());
    let u = u.as_slice();
    if is_word(u, "PK") || is_word(u, "PEQ") || is_word(u, "PEAKING") || is_word(u, "MODAL")
        || is_word(u, "BELL") {
        Some(FilterType::Peaking)
    } else if is_word(u, "LS") || is_word(u, "LSC") || is_word(u, "LSQ") || is_word(
        u,
        "LOWSHELF",
    ) {
        Some(FilterType::LowShelf)
    } else if is_word(u, "HS") || is_word(u, "HSC") || is_word(u, "HSQ") || is_word(
        u,
        "HIGHSHELF",
    ) {
        Some(FilterType::HighShelf)
    } else if is_word(u, "LP") || is_word(u, "LPQ") || is_word(u, "LOWPASS") {
        Some(FilterType::LowPass)
    } else if is_word(u, "HP") || is_word(u, "HPQ") || is_word(u, "HIGHPASS") {
        Some(FilterType::HighPass)
    } else if is_word(u, "NO") || is_word(u, "NOTCH") {
        Some(FilterType::Notch)
    } else {
        None
    }
}

// ---------------------------------------------------------------------------
// ParametricEQ text
// ---------------------------------------------------------------------------

/// One band line of a ParametricEQ text, with its numeric fields still as text.
pub struct PeqBandText {
    pub ftype: FilterType,
    /// The token after `Fc`, if any.
    pub fc: Option<String>,
    /// The token after `Gain`, if any.
    pub gain: Option<String>,
    /// The token after `Q`, if any.
    pub q: Option<String>,
}

/// The lines of a ParametricEQ text that carry values, with the values still
/// as text.
pub struct ParametricEqText {
    /// For each `Preamp` line, in order, the whitespace-separated tokens after
    /// `Preamp:` (or after `Preamp`).
    pub preamps: Vec<Vec<String>>,
    /// The active filter lines of a known type, in order.
    pub bands: Vec<PeqBandText>,
}

pub open spec fn opt_view(o: Option<String>) -> Option<Seq<char>> {
    match o {
        Some(s) => Some(s@),
        None => None,
    }
}

/// A band line as plain values.
pub type BandView = (FilterType, Option<Seq<char>>, Option<Seq<char>>, Option<Seq<char>>);

pub open spec fn band_view(b: PeqBandText) -> BandView {
    (b.ftype, opt_view(b.fc), opt_view(b.gain), opt_view(b.q))
}

pub open spec fn band_views(v: Seq<PeqBandText>) -> Seq<BandView> {
    v.map_values(|b: PeqBandText| band_view(b))
}

pub open spec fn preamp_views(v: Seq<Vec<String>>) -> Seq<Seq<Seq<char>>> {
    v.map_values(|p: Vec<String>| str_views(p@))
}

/// The index of the first token equal to `key` up to ASCII case, or the
/// number of tokens when there is none.
pub open spec fn find_ci(toks: Seq<Seq<char>>, key: Seq<char>) -> int
    decreases toks.len(),
{
    if toks.len() == 0 {
        0
    } else if eq_ignore_ascii_case(toks[0], key) {
        0
    } else {
        1 + find_ci(toks.drop_first(), key)
    }
}

/// The token right after the first token equal to `key` up to ASCII case.
pub open spec fn value_after(toks: Seq<Seq<char>>, key: Seq<char>) -> Option<Seq<char>> {
    let i = find_ci(toks, key);
    if i + 1 < toks.len() {
        Some(toks[i + 1])
    } else {
        None
    }
}

/// The text after the `Preamp:` or `Preamp` that starts a trimmed line.
pub open spec fn preamp_rest(l: Seq<char>) -> Option<Seq<char>> {
    if "Preamp:"@.is_prefix_of(l) {
        Some(l.skip("Preamp:"@.len() as int))
    } else if "Preamp"@.is_prefix_of(l) {
        Some(l.skip("Preamp"@.len() as int))
    } else {
        None
    }
}

/// Whether a trimmed line is read at all: it is not blank and not a `#` comment.
pub open spec fn peq_content(l: Seq<char>) -> bool {
    l.len() > 0 && l[0] != '#'
}

/// The preamp tokens of a line, when it is a `Preamp` line.
pub open spec fn line_preamp(line: Seq<char>) -> Option<Seq<Seq<char>>> {
    let l = trim(line);
    if peq_content(l) && preamp_rest(l) is Some {
        Some(tokens(preamp_rest(l)->0, Sep::Whitespace))
    } else {
        None
    }
}

/// The band of a line, when it is a `Filter` line without an `OFF` token whose
/// token after the first `ON` names a filter kind.
pub open spec fn line_band(line: Seq<char>) -> Option<BandView> {
    let l = trim(line);
    let toks = tokens(l, Sep::Whitespace);
    let on = find_ci(toks, "ON"@);
    if !peq_content(l) || preamp_rest(l) is Some || !"Filter"@.is_prefix_of(l) {
        None
    } else if find_ci(toks, "OFF"@) < toks.len() {
        None
    } else if on + 1 >= toks.len() {
        None
    } else {
        match token_filter_type(ascii_upper(toks[on + 1])) {
            Some(t) => Some(
                (t, value_after(toks, "Fc"@), value_after(toks, "Gain"@), value_after(toks, "Q"@)),
            ),
            None => None,
        }
    }
}

pub open spec fn preamps_of_lines(ls: Seq<Seq<char>>) -> Seq<Seq<Seq<char>>>
    decreases ls.len(),
{
    if ls.len() == 0 {
        Seq::empty()
    } else {
        match line_preamp(ls.last()) {
            Some(p) => preamps_of_lines(ls.drop_last()).push(p),
            None => preamps_of_lines(ls.drop_last()),
        }
    }
}

pub open spec fn bands_of_lines(ls: Seq<Seq<char>>) -> Seq<BandView>
    decreases ls.len(),
{
    if ls.len() == 0 {
        Seq::empty()
    } else {
        match line_band(ls.last()) {
            Some(b) => bands_of_lines(ls.drop_last()).push(b),
            None => bands_of_lines(ls.drop_last()),
        }
    }
}

pub proof fn lemma_find_ci_skip(toks: Seq<Seq<char>>, key: Seq<char>, i: int)
    requires
        0 <= i <= toks.len(),
        forall|j: int| 0 <= j < i ==> !eq_ignore_ascii_case(#[trigger] toks[j], key),
    ensures
        find_ci(toks, key) == i + find_ci(toks.skip(i), key),
    decreases i,
{
    if i > 0 {
        assert(toks.drop_first().skip(i - 1) =~= toks.skip(i));
        lemma_find_ci_skip(toks.drop_first(), key, i - 1);
    } else {
        assert(toks.skip(0) =~= toks);
    }
}

/// The index of the first token equal to `key` up to ASCII case.
fn find_token(toks: &Vec<Vec<char>>, key: &str) -> (r: usize)
    ensures
        r as int == find_ci(char_views(toks@), key@),
{
    let kv = chars_of(key);
    let ghost tv = char_views(toks@);
    let mut i: usize = 0;
    let mut go = true;
    while go && i < toks.len()
        invariant
            i <= toks@.len(),
            tv == char_views(toks@),
            kv@ == key@,
            forall|j: int| 0 <= j < i ==> !eq_ignore_ascii_case(#[trigger] tv[j], key@),
            !go ==> i < tv.len() && eq_ignore_ascii_case(tv[i as int], key@),
        decreases toks@.len() - i, if go { 1int } else { 0int },
    {
        assert(tv[i as int] == toks@[i as int]@);
        if eq_ignore_case(toks[i].as_slice(), kv.as_slice()) {
            go = false;
        } else {
            i = i + 1;
        }
    }
    proof {
        lemma_find_ci_skip(tv, key@, i as int);
        if i < tv.len() {
            assert(tv.skip(i as int)[0] == tv[i as int]);
        } else {
            assert(tv.skip(i as int).len() == 0);
        }
    }
    i
}

/// The token right after the first token equal to `key` up to ASCII case.
fn token_after(toks: &Vec<Vec<char>>, key: &str) -> (r: Option<String>)
    ensures
        opt_view(r) == value_after(char_views(toks@), key@),
{
    let i = find_token(toks, key);
    if i < toks.len() && i + 1 < toks.len() {
        let s = string_of(toks[i + 1].as_slice());
        assert(char_views(toks@)[i + 1] == toks@[i + 1]@);
        Some(s)
    } else {
        None
    }
}

/// The text after a leading `Preamp:` or `Preamp`.
fn preamp_rest_of(l: &Vec<char>) -> (r: Option<Vec<char>>)
    ensures
        match r {
            Some(v) => preamp_rest(l@) == Some(v@),
            None => preamp_rest(l@) is None,
        },
{
    let p1 = chars_of("Preamp:");
    let p2 = chars_of("Preamp");
    if crate::text::starts_with(l.as_slice(), p1.as_slice()) {
        let v = sub_chars(l.as_slice(), p1.len(), l.len());
        assert(v@ =~= l@.skip("Preamp:"@.len() as int));
        Some(v)
    } else if crate::text::starts_with(l.as_slice(), p2.as_slice()) {
        let v = sub_chars(l.as_slice(), p2.len(), l.len());
        assert(v@ =~= l@.skip("Preamp"@.len() as int));
        Some(v)
    } else {
        None
    }
}

/// The band of one line, if it is an active filter line of a known kind.
fn band_of_line(line: &Vec<char>) -> (r: Option<PeqBandText>)
    ensures
        match r {
            Some(b) => line_band(line@) == Some(band_view(b)),
            None => line_band(line@) is None,
        },
{
    let l = trim_chars(line.as_slice());
    if l.len() == 0 || l[0] == '#' {
        return None;
    }
    if preamp_rest_of(&l).is_some() {
        return None;
    }
    let fw = chars_of("Filter");
    if !crate::text::starts_with(l.as_slice(), fw.as_slice()) {
        return None;
    }
    let toks = split_tokens(l.as_slice(), Sep::Whitespace);
    let ghost tv = char_views(toks@);
    let off = find_token(&toks, "OFF");
    if off < toks.len() {
        return None;
    }
    let on = find_token(&toks, "ON");
    if on >= toks.len() || on + 1 >= toks.len() {
        return None;
    }
    let name = string_of(toks[on + 1].as_slice());
    assert(tv[on + 1] == toks@[on + 1]@);
    match filter_type_from_token(name.as_str()) {
        Some(t) => {
            let fc = token_after(&toks, "Fc");
            let gain = token_after(&toks, "Gain");
            let q = token_after(&toks, "Q");
            Some(PeqBandText { ftype: t, fc, gain, q })
        },
        None => None,
    }
}

/// The preamp tokens of one line, if it is a `Preamp` line.
fn preamp_of_line(line: &Vec<char>) -> (r: Option<Vec<String>>)
    ensures
        match r {
            Some(v) => line_preamp(line@) == Some(str_views(v@)),
            None => line_preamp(line@) is None,
        },
{
    let l = trim_chars(line.as_slice());
    if l.len() == 0 || l[0] == '#' {
        return None;
    }
    match preamp_rest_of(&l) {
        Some(rest) => {
            let toks = split_tokens(rest.as_slice(), Sep::Whitespace);
            Some(strings_of(&toks))
        },
        None => None,
    }
}

/// Scan ParametricEQ text. Recognizes `Preamp: <db> dB` and
/// `Filter N: ON <TYPE> Fc <hz> Hz Gain <db> dB Q <q>` lines; blank and `#`
/// lines, `OFF` filters, filters of an unknown type and other lines are
/// skipped. The numeric tokens are returned as text.
pub fn scan_parametric_eq(text: &str) -> (r: ParametricEqText)
    ensures
        preamp_views(r.preamps@) == preamps_of_lines(lines(text@)),
        band_views(r.bands@) == bands_of_lines(lines(text@)),
{
    let v = chars_of(text);
    let ls = split_lines(v.as_slice());
    let ghost lv = char_views(ls@);
    let mut preamps: Vec<Vec<String>> = Vec::new();
    let mut bands: Vec<PeqBandText> = Vec::new();
    for i in 0..ls.len()
        invariant
            lv == char_views(ls@),
            lv == lines(text@),
            preamp_views(preamps@) == preamps_of_lines(lv.take(i as int)),
            band_views(bands@) == bands_of_lines(lv.take(i as int)),
    {
        proof {
            let t = lv.take(i + 1);
            assert(t.drop_last() =~= lv.take(i as int));
            assert(t.last() == ls@[i as int]@);
        }
        match preamp_of_line(&ls[i]) {
            Some(p) => {
                let ghost before = preamps@;
                preamps.push(p);
                assert(preamp_views(preamps@) =~= preamp_views(before).push(str_views(p@)));
            },
            None => {},
        }
        match band_of_line(&ls[i]) {
            Some(b) => {
                let ghost before = bands@;
                bands.push(b);
                assert(band_views(bands@) =~= band_views(before).push(band_view(b)));
            },
            None => {},
        }
    }
    assert(lv.take(ls.len() as int) =~= lv);
    ParametricEqText { preamps, bands }
}

// ---------------------------------------------------------------------------
// GraphicEQ texts
// ---------------------------------------------------------------------------

/// A point as plain values: rounded frequency in Hz and the text of its gain.
pub open spec fn point_views(v: Seq<(i64, String)>) -> Seq<(int, Seq<char>)> {
    v.map_values(|p: (i64, String)| (p.0 as int, p.1@))
}

/// The text of one point: the frequency in decimal, a space, the gain text.
pub open spec fn point_text(p: (int, Seq<char>)) -> Seq<char> {
    signed_decimal(p.0) + seq![' '] + p.1
}

/// The texts of the first `k` points, separated by `"; "`.
pub open spec fn joined_points(ps: Seq<(int, Seq<char>)>, k: int) -> Seq<char>
    decreases k,
{
    if k <= 0 {
        Seq::<char>::empty()
    } else if k == 1 {
        point_text(ps[0])
    } else {
        joined_points(ps, k - 1) + seq![';', ' '] + point_text(ps[k - 1])
    }
}

/// The single-line form: `GraphicEQ: ` and the points separated by `"; "`.
pub open spec fn graphiceq_line_text(ps: Seq<(int, Seq<char>)>) -> Seq<char> {
    "GraphicEQ: "@ + joined_points(ps, ps.len() as int)
}

/// The texts of the first `k` points, each followed by a line feed.
pub open spec fn point_lines(ps: Seq<(int, Seq<char>)>, k: int) -> Seq<char>
    decreases k,
{
    if k <= 0 {
        Seq::<char>::empty()
    } else {
        point_lines(ps, k - 1) + point_text(ps[k - 1]) + seq!['\n']
    }
}

fn push_point(s: &mut String, p: &(i64, String))
    ensures
        final(s)@ == old(s)@ + point_text((p.0 as int, p.1@)),
{
    push_signed_decimal(s, p.0);
    crate::text::push_char(s, ' ');
    push_str(s, p.1.as_str());
    assert(final(s)@ =~= old(s)@ + point_text((p.0 as int, p.1@)));
}

/// The single-line `GraphicEQ: f g; f g; ...` interchange text of points
/// given as a rounded frequency and the text of the gain.
pub fn graphiceq_line(points: &[(i64, String)]) -> (r: String)
    ensures
        r@ == graphiceq_line_text(point_views(points@)),
{
    let ghost pv = point_views(points@);
    let mut s = String::from_str("GraphicEQ: ");
    for i in 0..points.len()
        invariant
            pv == point_views(points@),
            s@ == "GraphicEQ: "@ + joined_points(pv, i as int),
    {
        let ghost before = s@;
        if i > 0 {
            crate::text::push_char(&mut s, ';');
            crate::text::push_char(&mut s, ' ');
        }
        push_point(&mut s, &points[i]);
        assert(pv[i as int] == (points@[i as int].0 as int, points@[i as int].1@));
        assert(s@ =~= "GraphicEQ: "@ + joined_points(pv, i + 1));
    }
    s
}

/// Plain `freq gain` lines, one per point.
pub fn graphiceq_pairs(points: &[(i64, String)]) -> (r: String)
    ensures
        r@ == point_lines(point_views(points@), points@.len() as int),
{
    let ghost pv = point_views(points@);
    let mut s = String::new();
    for i in 0..points.len()
        invariant
            pv == point_views(points@),
            s@ == point_lines(pv, i as int),
    {
        push_point(&mut s, &points[i]);
        crate::text::push_char(&mut s, '\n');
        assert(pv[i as int] == (points@[i as int].0 as int, points@[i as int].1@));
        assert(s@ =~= point_lines(pv, i + 1));
    }
    s
}

/// A filter-type token is recognised whatever its ASCII case: the lower-case
/// spelling of a token names the same kind as the token itself.
pub proof fn law_token_case_insensitive(t: Seq<char>)
    ensures
        token_filter_type(ascii_upper(ascii_lower(t))) == token_filter_type(ascii_upper(t)),
{
    assert(ascii_upper(ascii_lower(t)) =~= ascii_upper(t)) by {
        assert forall|i: int| 0 <= i < t.len() implies #[trigger] ascii_upper(ascii_lower(t))[i]
            == ascii_upper(t)[i] by {
            let c = t[i];
            assert(ascii_lower(t)[i] == crate::text::lower_ascii(c));
        }
    }
}

/// Upper-case ASCII letters are left as they are by `ascii_upper`.
proof fn lemma_upper_word(w: Seq<char>)
    requires
        forall|i: int| 0 <= i < w.len() ==> 'A' <= #[trigger] w[i] <= 'Z',
    ensures
        ascii_upper(w) == w,
{
    assert(ascii_upper(w) =~= w);
}

/// A word of the table, in upper case, names its kind in every ASCII
/// spelling.
proof fn lemma_token_word(w: Seq<char>, k: FilterType)
    requires
        token_filter_type(w) == Some(k),
        forall|i: int| 0 <= i < w.len() ==> 'A' <= #[trigger] w[i] <= 'Z',
    ensures
        ascii_upper(w) == w,
        forall|t: Seq<char>| eq_ignore_ascii_case(t, w) ==> token_filter_type(ascii_upper(t)) == Some(k),
{
    lemma_upper_word(w);
}

/// The token table, in any ASCII case: PK, PEQ, PEAKING, MODAL and BELL name
/// a peaking band; LS, LSC, LSQ and LOWSHELF a low shelf; HS, HSC, HSQ and
/// HIGHSHELF a high shelf; LP, LPQ and LOWPASS a low-pass; HP, HPQ and
/// HIGHPASS a high-pass; NO and NOTCH a notch; no other token names a kind.
pub proof fn law_token_table(t: Seq<char>)
    ensures
        (
            eq_ignore_ascii_case(t, "PK"@)
            || eq_ignore_ascii_case(t, "PEQ"@)
            || eq_ignore_ascii_case(t, "PEAKING"@)
            || eq_ignore_ascii_case(t, "MODAL"@)
            || eq_ignore_ascii_case(t, "BELL"@)
        )
            ==> token_filter_type(ascii_upper(t)) == Some(FilterType::Peaking),
        (
            eq_ignore_ascii_case(t, "LS"@)
            || eq_ignore_ascii_case(t, "LSC"@)
            || eq_ignore_ascii_case(t, "LSQ"@)
            || eq_ignore_ascii_case(t, "LOWSHELF"@)
        )
            ==> token_filter_type(ascii_upper(t)) == Some(FilterType::LowShelf),
        (
            eq_ignore_ascii_case(t, "HS"@)
            || eq_ignore_ascii_case(t, "HSC"@)
            || eq_ignore_ascii_case(t, "HSQ"@)
            || eq_ignore_ascii_case(t, "HIGHSHELF"@)
        )
            ==> token_filter_type(ascii_upper(t)) == Some(FilterType::HighShelf),
        (
            eq_ignore_ascii_case(t, "LP"@)
            || eq_ignore_ascii_case(t, "LPQ"@)
            || eq_ignore_ascii_case(t, "LOWPASS"@)
        )
            ==> token_filter_type(ascii_upper(t)) == Some(FilterType::LowPass),
        (
            eq_ignore_ascii_case(t, "HP"@)
            || eq_ignore_ascii_case(t, "HPQ"@)
            || eq_ignore_ascii_case(t, "HIGHPASS"@)
        )
            ==> token_filter_type(ascii_upper(t)) == Some(FilterType::HighPass),
        (eq_ignore_ascii_case(t, "NO"@) || eq_ignore_ascii_case(t, "NOTCH"@))
            ==> token_filter_type(ascii_upper(t)) == Some(FilterType::Notch),
        token_filter_type(ascii_upper(t)) is Some ==> (
            eq_ignore_ascii_case(t, "PK"@)
            || eq_ignore_ascii_case(t, "PEQ"@)
            || eq_ignore_ascii_case(t, "PEAKING"@)
            || eq_ignore_ascii_case(t, "MODAL"@)
            || eq_ignore_ascii_case(t, "BELL"@)
            || eq_ignore_ascii_case(t, "LS"@)
            || eq_ignore_ascii_case(t, "LSC"@)
            || eq_ignore_ascii_case(t, "LSQ"@)
            || eq_ignore_ascii_case(t, "LOWSHELF"@)
            || eq_ignore_ascii_case(t, "HS"@)
            || eq_ignore_ascii_case(t, "HSC"@)
            || eq_ignore_ascii_case(t, "HSQ"@)
            || eq_ignore_ascii_case(t, "HIGHSHELF"@)
            || eq_ignore_ascii_case(t, "LP"@)
            || eq_ignore_ascii_case(t, "LPQ"@)
            || eq_ignore_ascii_case(t, "LOWPASS"@)
            || eq_ignore_ascii_case(t, "HP"@)
            || eq_ignore_ascii_case(t, "HPQ"@)
            || eq_ignore_ascii_case(t, "HIGHPASS"@)
            || eq_ignore_ascii_case(t, "NO"@)
            || eq_ignore_ascii_case(t, "NOTCH"@)
        ),
{
    // The lengths and the first two letters tell the words apart.
    reveal_strlit("PK");
    assert("PK"@[0] == 'P' && "PK"@[1] == 'K');
    reveal_strlit("PEQ");
    assert("PEQ"@[0] == 'P' && "PEQ"@[1] == 'E');
    reveal_strlit("PEAKING");
    assert("PEAKING"@[0] == 'P' && "PEAKING"@[1] == 'E');
    reveal_strlit("MODAL");
    assert("MODAL"@[0] == 'M' && "MODAL"@[1] == 'O');
    reveal_strlit("BELL");
    assert("BELL"@[0] == 'B' && "BELL"@[1] == 'E');
    reveal_strlit("LS");
    assert("LS"@[0] == 'L' && "LS"@[1] == 'S');
    reveal_strlit("LSC");
    assert("LSC"@[0] == 'L' && "LSC"@[1] == 'S');
    reveal_strlit("LSQ");
    assert("LSQ"@[0] == 'L' && "LSQ"@[1] == 'S');
    reveal_strlit("LOWSHELF");
    assert("LOWSHELF"@[0] == 'L' && "LOWSHELF"@[1] == 'O');
    reveal_strlit("HS");
    assert("HS"@[0] == 'H' && "HS"@[1] == 'S');
    reveal_strlit("HSC");
    assert("HSC"@[0] == 'H' && "HSC"@[1] == 'S');
    reveal_strlit("HSQ");
    assert("HSQ"@[0] == 'H' && "HSQ"@[1] == 'S');
    reveal_strlit("HIGHSHELF");
    assert("HIGHSHELF"@[0] == 'H' && "HIGHSHELF"@[1] == 'I');
    reveal_strlit("LP");
    assert("LP"@[0] == 'L' && "LP"@[1] == 'P');
    reveal_strlit("LPQ");
    assert("LPQ"@[0] == 'L' && "LPQ"@[1] == 'P');
    reveal_strlit("LOWPASS");
    assert("LOWPASS"@[0] == 'L' && "LOWPASS"@[1] == 'O');
    reveal_strlit("HP");
    assert("HP"@[0] == 'H' && "HP"@[1] == 'P');
    reveal_strlit("HPQ");
    assert("HPQ"@[0] == 'H' && "HPQ"@[1] == 'P');
    reveal_strlit("HIGHPASS");
    assert("HIGHPASS"@[0] == 'H' && "HIGHPASS"@[1] == 'I');
    reveal_strlit("NO");
    assert("NO"@[0] == 'N' && "NO"@[1] == 'O');
    reveal_strlit("NOTCH");
    assert("NOTCH"@[0] == 'N' && "NOTCH"@[1] == 'O');
    lemma_token_word("PK"@, FilterType::Peaking);
    lemma_token_word("PEQ"@, FilterType::Peaking);
    lemma_token_word("PEAKING"@, FilterType::Peaking);
    lemma_token_word("MODAL"@, FilterType::Peaking);
    lemma_token_word("BELL"@, FilterType::Peaking);
    lemma_token_word("LS"@, FilterType::LowShelf);
    lemma_token_word("LSC"@, FilterType::LowShelf);
    lemma_token_word("LSQ"@, FilterType::LowShelf);
    lemma_token_word("LOWSHELF"@, FilterType::LowShelf);
    lemma_token_word("HS"@, FilterType::HighShelf);
    lemma_token_word("HSC"@, FilterType::HighShelf);
    lemma_token_word("HSQ"@, FilterType::HighShelf);
    lemma_token_word("HIGHSHELF"@, FilterType::HighShelf);
    lemma_token_word("LP"@, FilterType::LowPass);
    lemma_token_word("LPQ"@, FilterType::LowPass);
    lemma_token_word("LOWPASS"@, FilterType::LowPass);
    lemma_token_word("HP"@, FilterType::HighPass);
    lemma_token_word("HPQ"@, FilterType::HighPass);
    lemma_token_word("HIGHPASS"@, FilterType::HighPass);
    lemma_token_word("NO"@, FilterType::Notch);
    lemma_token_word("NOTCH"@, FilterType::Notch);
}

/// Every active band of a known kind, shelves and passes as well as peaking
/// bands, takes as its frequency, gain and Q the token right after its first
/// `Fc`, `Gain` and `Q` token (in any ASCII case) respectively.
pub proof fn law_band_fields_of_any_kind(line: Seq<char>, key: Seq<char>, i: int)
    requires
        line_band(line) is Some,
        key == "Fc"@ || key == "Gain"@ || key == "Q"@,
        0 <= i,
        i + 1 < tokens(trim(line), Sep::Whitespace).len(),
        eq_ignore_ascii_case(tokens(trim(line), Sep::Whitespace)[i], key),
        forall|j: int|
            0 <= j < i ==> !eq_ignore_ascii_case(
                #[trigger] tokens(trim(line), Sep::Whitespace)[j],
                key,
            ),
    ensures
        key == "Fc"@ ==> line_band(line).unwrap().1 == Some(tokens(trim(line), Sep::Whitespace)[i + 1]),
        key == "Gain"@ ==> line_band(line).unwrap().2 == Some(tokens(trim(line), Sep::Whitespace)[i + 1]),
        key == "Q"@ ==> line_band(line).unwrap().3 == Some(tokens(trim(line), Sep::Whitespace)[i + 1]),
{
    let toks = tokens(trim(line), Sep::Whitespace);
    lemma_find_ci_skip(toks, key, i);
    assert(toks.skip(i)[0] == toks[i]);
}

proof fn lemma_point_text_count(p: (int, Seq<char>), c: char)
    requires
        c == ';' || c == '\n',
    ensures
        count_char(point_text(p), c) == count_char(p.1, c),
{
    lemma_signed_decimal_no(p.0, c);
    lemma_count_char_absent(seq![' '], c);
    lemma_count_char_add(signed_decimal(p.0), seq![' '], c);
    lemma_count_char_add(signed_decimal(p.0) + seq![' '], p.1, c);
}

/// A GraphicEQ line of `n >= 1` points whose gain texts hold no `;` holds
/// exactly `n - 1` semicolons: one separator between each two points.
pub proof fn law_graphiceq_separators(ps: Seq<(int, Seq<char>)>)
    requires
        ps.len() >= 1,
        forall|i: int| 0 <= i < ps.len() ==> count_char(#[trigger] ps[i].1, ';') == 0,
    ensures
        count_char(graphiceq_line_text(ps), ';') == ps.len() - 1,
{
    reveal_strlit("GraphicEQ: ");
    lemma_joined_count(ps, ps.len() as int);
    lemma_count_char_add("GraphicEQ: "@, joined_points(ps, ps.len() as int), ';');
    lemma_count_char_absent("GraphicEQ: "@, ';');
}

proof fn lemma_joined_count(ps: Seq<(int, Seq<char>)>, k: int)
    requires
        1 <= k <= ps.len(),
        forall|i: int| 0 <= i < ps.len() ==> count_char(#[trigger] ps[i].1, ';') == 0,
    ensures
        count_char(joined_points(ps, k), ';') == k - 1,
    decreases k,
{
    lemma_point_text_count(ps[k - 1], ';');
    if k > 1 {
        lemma_joined_count(ps, k - 1);
        let a = joined_points(ps, k - 1);
        lemma_count_char_add(a, seq![';', ' '], ';');
        lemma_count_char_add(a + seq![';', ' '], point_text(ps[k - 1]), ';');
        assert(count_char(seq![';', ' '], ';') == 1) by {
            assert(seq![';'].drop_last() =~= Seq::<char>::empty());
            assert(count_char(seq![';'], ';') == 1) by {
                reveal_with_fuel(count_char, 2);
            }
            assert(seq![';', ' '].drop_last() =~= seq![';']);
        }
    }
}

/// The `freq gain` text of `n` points whose gain texts hold no line feed has
/// exactly `n` line feeds: one line per point.
pub proof fn law_pairs_one_line_per_point(ps: Seq<(int, Seq<char>)>)
    requires
        forall|i: int| 0 <= i < ps.len() ==> count_char(#[trigger] ps[i].1, '\n') == 0,
    ensures
        count_char(point_lines(ps, ps.len() as int), '\n') == ps.len(),
{
    lemma_lines_count(ps, ps.len() as int);
}

proof fn lemma_lines_count(ps: Seq<(int, Seq<char>)>, k: int)
    requires
        0 <= k <= ps.len(),
        forall|i: int| 0 <= i < ps.len() ==> count_char(#[trigger] ps[i].1, '\n') == 0,
    ensures
        count_char(point_lines(ps, k), '\n') == k,
    decreases k,
{
    if k > 0 {
        lemma_lines_count(ps, k - 1);
        lemma_point_text_count(ps[k - 1], '\n');
        let a = point_lines(ps, k - 1);
        lemma_count_char_add(a, point_text(ps[k - 1]), '\n');
        lemma_count_char_add(a + point_text(ps[k - 1]), seq!['\n'], '\n');
        assert(seq!['\n'].drop_last() =~= Seq::<char>::empty());
        assert(count_char(seq!['\n'], '\n') == 1) by {
            reveal_with_fuel(count_char, 2);
        }
    }
}

} // verus!
