//! The curve converter's text logic: scanning raw measurement files into
//! frequency/level fields, channel detection of `[1]`/`[2]` pairs, curve-name
//! standardisation and the compact number text of converted files.
use vstd::prelude::*;
use vstd::string::StringExecFns;
use crate::manifest::{last_dot, strip_extension, without_extension};
use crate::text::{
    char_views, chars_of, eq_ignore_ascii_case, eq_ignore_case, join, join_chars,
    lines, split_lines, split_tokens, string_of, strip_suffix,
    strip_suffix_if, sub_chars, tokens, trim, trim_chars, trim_end_char, trim_end_matching,
    Sep, single_spaced, lex_le, chars_le, lemma_lex_le_total, lemma_lex_le_transitive,
    lemma_lex_le_antisymmetric, lemma_lex_le_reflexive, str_views,
};

verus! {

/// The Unicode upper case of a text, as `str::to_uppercase` computes it from
/// the Unicode case tables.
pub uninterp spec fn unicode_uppercase(s: Seq<char>) -> Seq<char>;

/// `str::to_uppercase`: the Unicode upper case of `s`. Its result depends on
/// `s` alone; the case tables themselves are not restated here.
#[verifier::external_body]
fn to_uppercase(s: &str) -> (r: String)
    ensures
        r@ == unicode_uppercase(s@),
{
    s.to_uppercase()
}

// ---------------------------------------------------------------------------
// Channel pairs and names
// ---------------------------------------------------------------------------

/// The base name and channel of a file stem: `" [1]"` and `" [2]"` suffixes
/// mark the left and right channel of a pair.
pub open spec fn channel_spec(stem: Seq<char>) -> (Seq<char>, Option<char>) {
    if " [1]"@.is_suffix_of(stem) {
        (stem.subrange(0, stem.len() - " [1]"@.len()), Some('1'))
    } else if " [2]"@.is_suffix_of(stem) {
        (stem.subrange(0, stem.len() - " [2]"@.len()), Some('2'))
    } else {
        (stem, None)
    }
}

fn channel_chars(v: &[char]) -> (r: (Vec<char>, Option<char>))
    ensures
        (r.0@, r.1) == channel_spec(v@),
{
    let m1 = chars_of(" [1]");
    let m2 = chars_of(" [2]");
    if crate::text::ends_with(v, m1.as_slice()) {
        (sub_chars(v, 0, v.len() - m1.len()), Some('1'))
    } else if crate::text::ends_with(v, m2.as_slice()) {
        (sub_chars(v, 0, v.len() - m2.len()), Some('2'))
    } else {
        (sub_chars(v, 0, v.len()), None)
    }
}

/// Detect the channel-pair base name and channel of a file stem, if any.
/// Returns (base, channel) where channel is Some('1'|'2') for [1]/[2] variants.
pub fn channel_of(stem: &str) -> (r: (String, Option<char>))
    ensures
        (r.0@, r.1) == channel_spec(stem@),
{
    let v = chars_of(stem);
    let (base, chan) = channel_chars(v.as_slice());
    (string_of(base.as_slice()), chan)
}

/// `s` with the channel markers removed from its end, each checked once, in
/// this order: `" [1]"`, `" [2]"`, `" L"`, `" R"`, `"_L"`, `"_R"`, `" (L)"`,
/// `" (R)"`, `" Left"`, `" Right"`.
pub open spec fn strip_channel_markers(s: Seq<char>) -> Seq<char> {
    let s = strip_suffix_if(s, " [1]"@);
    let s = strip_suffix_if(s, " [2]"@);
    let s = strip_suffix_if(s, " L"@);
    let s = strip_suffix_if(s, " R"@);
    let s = strip_suffix_if(s, "_L"@);
    let s = strip_suffix_if(s, "_R"@);
    let s = strip_suffix_if(s, " (L)"@);
    let s = strip_suffix_if(s, " (R)"@);
    let s = strip_suffix_if(s, " Left"@);
    strip_suffix_if(s, " Right"@)
}

/// Whether `s` ends with one of the channel markers.
pub open spec fn has_channel_marker(s: Seq<char>) -> bool {
    ||| " [1]"@.is_suffix_of(s)
    ||| " [2]"@.is_suffix_of(s)
    ||| " L"@.is_suffix_of(s)
    ||| " R"@.is_suffix_of(s)
    ||| "_L"@.is_suffix_of(s)
    ||| "_R"@.is_suffix_of(s)
    ||| " (L)"@.is_suffix_of(s)
    ||| " (R)"@.is_suffix_of(s)
    ||| " Left"@.is_suffix_of(s)
    ||| " Right"@.is_suffix_of(s)
}

/// A name before case folding: the extension removed (as `without_extension`
/// gives it), then the channel markers, whitespace runs collapsed to single
/// spaces, ends trimmed.
pub open spec fn collapsed_name(raw: Seq<char>) -> Seq<char> {
    trim(join(tokens(strip_channel_markers(without_extension(raw)), Sep::Whitespace), ' '))
}

fn strip_marker(v: Vec<char>, m: &str) -> (r: Vec<char>)
    ensures
        r@ == strip_suffix_if(v@, m@),
{
    let mv = chars_of(m);
    strip_suffix(v.as_slice(), mv.as_slice())
}

/// Standardize a display/file name: strip the extension and the channel
/// markers, collapse whitespace, uppercase (matching the shipped library
/// style). `"Moondrop Aria.txt"` and `"moondrop aria [1]"` both give
/// `"MOONDROP ARIA"`.
pub fn standardize_name(raw: &str) -> (r: String)
    ensures
        r@ == unicode_uppercase(collapsed_name(raw@)),
{
    let full = chars_of(raw);
    let mut name = strip_extension(full.as_slice());
    name = strip_marker(name, " [1]");
    name = strip_marker(name, " [2]");
    name = strip_marker(name, " L");
    name = strip_marker(name, " R");
    name = strip_marker(name, "_L");
    name = strip_marker(name, "_R");
    name = strip_marker(name, " (L)");
    name = strip_marker(name, " (R)");
    name = strip_marker(name, " Left");
    name = strip_marker(name, " Right");
    let toks = split_tokens(name.as_slice(), Sep::Whitespace);
    let collapsed = join_chars(&toks, ' ');
    let trimmed = trim_chars(collapsed.as_slice());
    let s = string_of(trimmed.as_slice());
    to_uppercase(s.as_str())
}

// ---------------------------------------------------------------------------
// Raw measurement text
// ---------------------------------------------------------------------------

/// Whether a trimmed line carries data: it is not blank and does not start
/// with `#`, `*` or `/`.
pub open spec fn is_data_line(l: Seq<char>) -> bool {
    l.len() > 0 && l[0] != '#' && l[0] != '*' && l[0] != '/'
}

/// The first two fields of a line (split on commas, semicolons and
/// whitespace, empty fields dropped), when it is a data line that has two.
pub open spec fn line_fields(line: Seq<char>) -> Option<(Seq<char>, Seq<char>)> {
    let l = trim(line);
    let t = tokens(l, Sep::Field);
    if is_data_line(l) && t.len() >= 2 {
        Some((t[0], t[1]))
    } else {
        None
    }
}

/// The field pairs of the data lines among `ls`, in order.
pub open spec fn fields_of_lines(ls: Seq<Seq<char>>) -> Seq<(Seq<char>, Seq<char>)>
    decreases ls.len(),
{
    if ls.len() == 0 {
        Seq::empty()
    } else {
        match line_fields(ls.last()) {
            Some(p) => fields_of_lines(ls.drop_last()).push(p),
            None => fields_of_lines(ls.drop_last()),
        }
    }
}

pub open spec fn pair_views(v: Seq<(String, String)>) -> Seq<(Seq<char>, Seq<char>)> {
    v.map_values(|p: (String, String)| (p.0@, p.1@))
}

/// The frequency and level fields of a raw measurement file body, one pair
/// per data line, in order: lines are trimmed; blank lines and lines
/// starting with `#`, `*` or `/` are skipped; a line's fields are separated by
/// spaces, tabs, commas or semicolons; lines with fewer than two fields are
/// skipped. Turning the two fields into numbers is left to the caller.
pub fn measurement_fields(body: &str) -> (r: Vec<(String, String)>)
    ensures
        pair_views(r@) == fields_of_lines(lines(body@)),
{
    let v = chars_of(body);
    let ls = split_lines(v.as_slice());
    let ghost lv = char_views(ls@);
    let mut out: Vec<(String, String)> = Vec::new();
    for i in 0..ls.len()
        invariant
            lv == char_views(ls@),
            lv == lines(body@),
            pair_views(out@) == fields_of_lines(lv.take(i as int)),
    {
        let l = trim_chars(ls[i].as_slice());
        let toks = split_tokens(l.as_slice(), Sep::Field);
        proof {
            let t = lv.take(i + 1);
            assert(t.drop_last() =~= lv.take(i as int));
            assert(t.last() == ls@[i as int]@);
        }
        if l.len() > 0 && l[0] != '#' && l[0] != '*' && l[0] != '/' && toks.len() >= 2 {
            let a = string_of(toks[0].as_slice());
            let b = string_of(toks[1].as_slice());
            proof {
                assert(char_views(toks@)[0] == toks@[0]@);
                assert(char_views(toks@)[1] == toks@[1]@);
            }
            let ghost before = out@;
            out.push((a, b));
            assert(pair_views(out@) =~= pair_views(before).push((a@, b@)));
        }
    }
    assert(lv.take(ls.len() as int) =~= lv);
    out
}

/// Whether a file extension marks a raw measurement file: `txt` or `csv` in
/// any ASCII case.
pub fn is_raw_measurement_extension(ext: &str) -> (b: bool)
    ensures
        b == (eq_ignore_ascii_case(ext@, "txt"@) || eq_ignore_ascii_case(ext@, "csv"@)),
{
    let e = chars_of(ext);
    let txt = chars_of("txt");
    let csv = chars_of("csv");
    eq_ignore_case(e.as_slice(), txt.as_slice()) || eq_ignore_case(e.as_slice(), csv.as_slice())
}

/// The compact text of a number already written with a fixed number of
/// decimals: trailing zeros removed, then trailing dots (`"1.5000"` becomes
/// `"1.5"`, `"20.0000"` becomes `"20"`).
pub fn trim_number_text(s: &str) -> (r: String)
    ensures
        r@ == trim_end_char(trim_end_char(s@, '0'), '.'),
{
    let v = chars_of(s);
    let a = trim_end_matching(v.as_slice(), '0');
    let b = trim_end_matching(a.as_slice(), '.');
    string_of(b.as_slice())
}

/// Marking a base name as the left or right channel and detecting the channel
/// again gives back the base and the channel.
pub proof fn law_channel_roundtrip(base: Seq<char>)
    ensures
        channel_spec(base + " [1]"@) == (base, Some('1')),
        channel_spec(base + " [2]"@) == (base, Some('2')),
{
    reveal_strlit(" [1]");
    reveal_strlit(" [2]");
    let s1 = base + " [1]"@;
    assert(" [1]"@.is_suffix_of(s1)) by {
        assert(s1.subrange(s1.len() - " [1]"@.len(), s1.len() as int) =~= " [1]"@);
    }
    assert(s1.subrange(0, s1.len() - " [1]"@.len()) =~= base);
    let s2 = base + " [2]"@;
    assert(" [2]"@.is_suffix_of(s2)) by {
        assert(s2.subrange(s2.len() - " [2]"@.len(), s2.len() as int) =~= " [2]"@);
    }
    assert(s2.subrange(0, s2.len() - " [2]"@.len()) =~= base);
    assert(!" [1]"@.is_suffix_of(s2)) by {
        assert(s2[s2.len() - 2] == '2');
    }
}

// ---------------------------------------------------------------------------
// Grouping channel pairs
// ---------------------------------------------------------------------------

/// The curves that share one base name.
pub struct CurveGroup {
    /// The base name (the stem without its channel marker).
    pub base: String,
    /// Indices into the stem list: the unmarked curves, then the `[1]`
    /// curves, then the `[2]` curves, each part in list order.
    pub members: Vec<usize>,
}

/// The base and channel of each stem.
pub open spec fn stem_keys(stems: Seq<Seq<char>>) -> Seq<(Seq<char>, Option<char>)> {
    stems.map_values(|s: Seq<char>| channel_spec(s))
}

/// The indices below `n` of the stems with base `b` and channel `c`, ascending.
pub open spec fn indices_with(
    keys: Seq<(Seq<char>, Option<char>)>,
    b: Seq<char>,
    c: Option<char>,
    n: int,
) -> Seq<usize>
    decreases n,
{
    if n <= 0 {
        Seq::empty()
    } else if keys[n - 1] == (b, c) {
        indices_with(keys, b, c, n - 1).push((n - 1) as usize)
    } else {
        indices_with(keys, b, c, n - 1)
    }
}

/// The members of the group of base `b`, ordered by channel (none, `[1]`,
/// `[2]`) and, within a channel, by position in the list.
pub open spec fn group_members(keys: Seq<(Seq<char>, Option<char>)>, b: Seq<char>) -> Seq<usize> {
    let n = keys.len() as int;
    indices_with(keys, b, None, n) + indices_with(keys, b, Some('1'), n) + indices_with(
        keys,
        b,
        Some('2'),
        n,
    )
}

/// `a` comes strictly before `b`.
pub open spec fn lex_lt(a: Seq<char>, b: Seq<char>) -> bool {
    lex_le(a, b) && a != b
}

pub open spec fn group_view(g: CurveGroup) -> (Seq<char>, Seq<usize>) {
    (g.base@, g.members@)
}

/// What the groups of a stem list are: one group per base name, in strictly
/// increasing order of base; every stem's base has a group; each group's
/// members are those of its base in channel order.
pub open spec fn groups_of(stems: Seq<Seq<char>>, gs: Seq<(Seq<char>, Seq<usize>)>) -> bool {
    groups_of_keys(stem_keys(stems), gs)
}

/// Whether some group of `gs` has base `b`.
pub open spec fn has_group(gs: Seq<(Seq<char>, Seq<usize>)>, b: Seq<char>) -> bool {
    exists|g: int| 0 <= g < gs.len() && #[trigger] gs[g].0 == b
}

/// Whether one of the first `n` stems has base `b`.
pub open spec fn has_stem(keys: Seq<(Seq<char>, Option<char>)>, n: int, b: Seq<char>) -> bool {
    exists|t: int| 0 <= t < n && #[trigger] keys[t].0 == b
}

/// The same, over the base and channel of each stem.
pub open spec fn groups_of_keys(keys: Seq<(Seq<char>, Option<char>)>, gs: Seq<(Seq<char>, Seq<usize>)>) -> bool {
    &&& forall|g: int, h: int| 0 <= g < h < gs.len() ==> lex_lt(#[trigger] gs[g].0, #[trigger] gs[h].0)
    &&& forall|t: int| 0 <= t < keys.len() ==> has_group(gs, #[trigger] keys[t].0)
    &&& forall|g: int| 0 <= g < gs.len() ==> (#[trigger] gs[g]).1 == group_members(keys, gs[g].0)
    &&& forall|g: int| 0 <= g < gs.len() ==> has_stem(keys, keys.len() as int, #[trigger] gs[g].0)
}

/// A group under construction: base and the members of each channel.
type Building = (Vec<char>, Vec<usize>, Vec<usize>, Vec<usize>);

type BuildView = (Seq<char>, Seq<usize>, Seq<usize>, Seq<usize>);

pub open spec fn building_view(b: (Vec<char>, Vec<usize>, Vec<usize>, Vec<usize>)) -> BuildView {
    (b.0@, b.1@, b.2@, b.3@)
}

pub open spec fn has_building(gs: Seq<BuildView>, b: Seq<char>) -> bool {
    exists|g: int| 0 <= g < gs.len() && #[trigger] gs[g].0 == b
}

#[verifier::opaque]
pub open spec fn bases_increasing(gs: Seq<BuildView>) -> bool {
    forall|g: int, h: int| 0 <= g < h < gs.len() ==> lex_lt(#[trigger] gs[g].0, #[trigger] gs[h].0)
}

#[verifier::opaque]
pub open spec fn bases_cover(keys: Seq<(Seq<char>, Option<char>)>, gs: Seq<BuildView>, n: int) -> bool {
    forall|t: int| 0 <= t < n ==> has_building(gs, #[trigger] keys[t].0)
}

#[verifier::opaque]
pub open spec fn buckets_exact(keys: Seq<(Seq<char>, Option<char>)>, gs: Seq<BuildView>, n: int) -> bool {
    forall|g: int| 0 <= g < gs.len() ==> {
        &&& (#[trigger] gs[g]).1 == indices_with(keys, gs[g].0, None, n)
        &&& gs[g].2 == indices_with(keys, gs[g].0, Some('1'), n)
        &&& gs[g].3 == indices_with(keys, gs[g].0, Some('2'), n)
    }
}

#[verifier::opaque]
pub open spec fn bases_witnessed(keys: Seq<(Seq<char>, Option<char>)>, gs: Seq<BuildView>, n: int) -> bool {
    forall|g: int| 0 <= g < gs.len() ==> has_stem(keys, n, #[trigger] gs[g].0)
}

pub open spec fn building_ok(keys: Seq<(Seq<char>, Option<char>)>, gs: Seq<BuildView>, n: int) -> bool {
    &&& bases_increasing(gs)
    &&& bases_cover(keys, gs, n)
    &&& buckets_exact(keys, gs, n)
    &&& bases_witnessed(keys, gs, n)
}

pub proof fn lemma_indices_with_absent(keys: Seq<(Seq<char>, Option<char>)>, b: Seq<char>, c: Option<char>, n: int)
    requires
        forall|t: int| 0 <= t < n ==> keys[t].0 != b,
    ensures
        indices_with(keys, b, c, n) == Seq::<usize>::empty(),
    decreases n,
{
    if n > 0 {
        lemma_indices_with_absent(keys, b, c, n - 1);
    }
}

/// Group the stems of the measurement files by base name (the stem without a
/// `" [1]"` / `" [2]"` channel marker). Groups come in order of base name; the
/// members of a group are ordered by channel (unmarked, `[1]`, `[2]`) and,
/// within a channel, by position in `stems`.
pub fn group_channels(stems: &Vec<String>) -> (r: Vec<CurveGroup>)
    ensures
        groups_of(str_views(stems@), r@.map_values(|g: CurveGroup| group_view(g))),
{
    let ghost keys = stem_keys(str_views(stems@));
    let mut gs: Vec<Building> = Vec::new();
    let n = stems.len();
    proof {
        reveal(bases_increasing);
        reveal(bases_cover);
        reveal(buckets_exact);
        reveal(bases_witnessed);
    }
    for j in 0..n
        invariant
            n == stems@.len(),
            keys == stem_keys(str_views(stems@)),
            keys.len() == n,
            building_ok(keys, gs@.map_values(|b: Building| building_view(b)), j as int),
    {
        let ghost gv = gs@.map_values(|b: Building| building_view(b));
        let sv = chars_of(stems[j].as_str());
        let (base, chan) = channel_chars(sv.as_slice());
        assert(keys[j as int] == (base@, chan)) by {
            assert(str_views(stems@)[j as int] == stems@[j as int]@);
        }
        // the first group whose base is not before `base`
        let mut p: usize = 0;
        let mut go = true;
        while go && p < gs.len()
            invariant
                p <= gs@.len(),
                gv == gs@.map_values(|b: Building| building_view(b)),
                forall|g: int| 0 <= g < p ==> !lex_le(base@, #[trigger] gv[g].0),
                !go ==> p < gv.len() && lex_le(base@, gv[p as int].0),
            decreases gs@.len() - p, if go { 1int } else { 0int },
        {
            assert(gv[p as int].0 == gs@[p as int].0@);
            if chars_le(base.as_slice(), gs[p].0.as_slice()) {
                go = false;
            } else {
                p = p + 1;
            }
        }
        let found = p < gs.len() && crate::text::chars_eq(gs[p].0.as_slice(), base.as_slice());
        assert(chan is None || chan == Some('1') || chan == Some('2'));
        if found {
            assert(gv[p as int].0 == base@);
            let ghost old_gs = gs@;
            let mut entry: Building = (Vec::new(), Vec::new(), Vec::new(), Vec::new());
            std::mem::swap(&mut entry, &mut gs[p]);
            if chan.is_none() {
                entry.1.push(j);
            } else if chan == Some('1') {
                entry.2.push(j);
            } else {
                entry.3.push(j);
            }
            std::mem::swap(&mut entry, &mut gs[p]);
            proof {
                let nv = gs@.map_values(|b: Building| building_view(b));
                assert forall|g: int| 0 <= g < nv.len() && g != p implies #[trigger] nv[g] == gv[g] by {
                    assert(gs@[g] == old_gs[g]);
                }
                lemma_building_step_found(keys, gv, nv, j as int, p as int, base@, chan);
            }
        } else {
            let mut b0: Vec<usize> = Vec::new();
            let mut b1: Vec<usize> = Vec::new();
            let mut b2: Vec<usize> = Vec::new();
            if chan.is_none() {
                b0.push(j);
            } else if chan == Some('1') {
                b1.push(j);
            } else {
                b2.push(j);
            }
            let ghost nb = (base@, b0@, b1@, b2@);
            gs.insert(p, (base, b0, b1, b2));
            proof {
                let nv = gs@.map_values(|b: Building| building_view(b));
                assert(nv =~= gv.insert(p as int, nb));
                lemma_building_step_new(keys, gv, j as int, p as int, nb, chan);
            }
        }
    }
    // assemble the members of each group
    let ghost gv = gs@.map_values(|b: Building| building_view(b));
    let mut out: Vec<CurveGroup> = Vec::new();
    for g in 0..gs.len()
        invariant
            gv == gs@.map_values(|b: Building| building_view(b)),
            buckets_exact(keys, gv, n as int),
            keys.len() == n,
            out@.len() == g,
            forall|k: int| 0 <= k < g ==> (#[trigger] out@[k]).base@ == gv[k].0 && out@[k].members@ == group_members(keys, gv[k].0),
    {
        let e = &gs[g];
        let mut m: Vec<usize> = Vec::new();
        for k in 0..e.1.len()
            invariant
                m@ == e.1@.take(k as int),
        {
            m.push(e.1[k]);
            assert(e.1@.take(k + 1) =~= e.1@.take(k as int).push(e.1@[k as int]));
        }
        for k in 0..e.2.len()
            invariant
                m@ == e.1@ + e.2@.take(k as int),
        {
            m.push(e.2[k]);
            assert(e.2@.take(k + 1) =~= e.2@.take(k as int).push(e.2@[k as int]));
        }
        for k in 0..e.3.len()
            invariant
                m@ == e.1@ + e.2@ + e.3@.take(k as int),
        {
            m.push(e.3[k]);
            assert(e.3@.take(k + 1) =~= e.3@.take(k as int).push(e.3@[k as int]));
        }
        assert(e.1@.take(e.1@.len() as int) =~= e.1@);
        assert(e.2@.take(e.2@.len() as int) =~= e.2@);
        assert(e.3@.take(e.3@.len() as int) =~= e.3@);
        assert(gv[g as int] == building_view(*e));
        proof {
            reveal(buckets_exact);
            assert(gv[g as int].1 == indices_with(keys, gv[g as int].0, None, n as int));
        }
        let cg = CurveGroup { base: string_of(e.0.as_slice()), members: m };
        out.push(cg);
    }
    proof {
        lemma_groups_final(keys, gv, out@.map_values(|g: CurveGroup| group_view(g)));
    }
    out
}

proof fn lemma_groups_final(
    keys: Seq<(Seq<char>, Option<char>)>,
    gv: Seq<BuildView>,
    ov: Seq<(Seq<char>, Seq<usize>)>,
)
    requires
        building_ok(keys, gv, keys.len() as int),
        ov.len() == gv.len(),
        forall|k: int| 0 <= k < ov.len() ==> (#[trigger] ov[k]).0 == gv[k].0 && ov[k].1 == group_members(keys, gv[k].0),
    ensures
        groups_of_keys(keys, ov),
{
    lemma_final_increasing(gv, ov);
    lemma_final_cover(keys, gv, ov);
    lemma_final_witnessed(keys, gv, ov);
}

proof fn lemma_final_increasing(gv: Seq<BuildView>, ov: Seq<(Seq<char>, Seq<usize>)>)
    requires
        bases_increasing(gv),
        ov.len() == gv.len(),
        forall|k: int| 0 <= k < ov.len() ==> (#[trigger] ov[k]).0 == gv[k].0,
    ensures
        forall|g: int, h: int| 0 <= g < h < ov.len() ==> lex_lt(#[trigger] ov[g].0, #[trigger] ov[h].0),
{
    reveal(bases_increasing);
    assert forall|g: int, h: int| 0 <= g < h < ov.len() implies lex_lt(#[trigger] ov[g].0, #[trigger] ov[h].0) by {
        assert(ov[g].0 == gv[g].0 && ov[h].0 == gv[h].0);
    }
}

proof fn lemma_final_cover(keys: Seq<(Seq<char>, Option<char>)>, gv: Seq<BuildView>, ov: Seq<(Seq<char>, Seq<usize>)>)
    requires
        bases_cover(keys, gv, keys.len() as int),
        ov.len() == gv.len(),
        forall|k: int| 0 <= k < ov.len() ==> (#[trigger] ov[k]).0 == gv[k].0,
    ensures
        forall|t: int| 0 <= t < keys.len() ==> has_group(ov, #[trigger] keys[t].0),
{
    reveal(bases_cover);
    assert forall|t: int| 0 <= t < keys.len() implies has_group(ov, #[trigger] keys[t].0) by {
        assert(has_building(gv, keys[t].0));
        let g = choose|g: int| 0 <= g < gv.len() && #[trigger] gv[g].0 == keys[t].0;
        assert(ov[g].0 == gv[g].0);
    }
}

proof fn lemma_final_witnessed(keys: Seq<(Seq<char>, Option<char>)>, gv: Seq<BuildView>, ov: Seq<(Seq<char>, Seq<usize>)>)
    requires
        bases_witnessed(keys, gv, keys.len() as int),
        ov.len() == gv.len(),
        forall|k: int| 0 <= k < ov.len() ==> (#[trigger] ov[k]).0 == gv[k].0,
    ensures
        forall|g: int| 0 <= g < ov.len() ==> has_stem(keys, keys.len() as int, #[trigger] ov[g].0),
{
    reveal(bases_witnessed);
    assert forall|g: int| 0 <= g < ov.len() implies has_stem(keys, keys.len() as int, #[trigger] ov[g].0) by {
        assert(ov[g].0 == gv[g].0);
        assert(has_stem(keys, keys.len() as int, gv[g].0));
    }
}

proof fn lemma_building_step_found(
    keys: Seq<(Seq<char>, Option<char>)>,
    gv: Seq<BuildView>,
    nv: Seq<BuildView>,
    j: int,
    p: int,
    base: Seq<char>,
    chan: Option<char>,
)
    requires
        0 <= j < keys.len(),
        0 <= p < gv.len(),
        building_ok(keys, gv, j),
        keys[j] == (base, chan),
        gv[p].0 == base,
        chan is None || chan == Some('1') || chan == Some('2'),
        nv.len() == gv.len(),
        forall|g: int| 0 <= g < nv.len() && g != p ==> #[trigger] nv[g] == gv[g],
        nv[p].0 == base,
        chan is None ==> nv[p].1 == gv[p].1.push(j as usize) && nv[p].2 == gv[p].2 && nv[p].3 == gv[p].3,
        chan == Some('1') ==> nv[p].1 == gv[p].1 && nv[p].2 == gv[p].2.push(j as usize) && nv[p].3 == gv[p].3,
        chan == Some('2') ==> nv[p].1 == gv[p].1 && nv[p].2 == gv[p].2 && nv[p].3 == gv[p].3.push(j as usize),
    ensures
        building_ok(keys, nv, j + 1),
{
    reveal(bases_increasing);
    assert forall|g: int, h: int| 0 <= g < h < nv.len() implies lex_lt(#[trigger] nv[g].0, #[trigger] nv[h].0) by {
        assert(nv[g].0 == gv[g].0 && nv[h].0 == gv[h].0);
    }
    assert(bases_cover(keys, nv, j + 1)) by {
        reveal(bases_cover);
        assert forall|t: int| 0 <= t < j + 1 implies has_building(nv, #[trigger] keys[t].0) by {
            if t == j {
                assert(nv[p].0 == keys[t].0);
            } else {
                assert(has_building(gv, keys[t].0));
                let g = choose|g: int| 0 <= g < gv.len() && #[trigger] gv[g].0 == keys[t].0;
                assert(nv[g].0 == gv[g].0);
            }
        }
    }
    assert(buckets_exact(keys, nv, j + 1)) by {
        reveal(buckets_exact);
        assert forall|g: int| 0 <= g < nv.len() implies {
            &&& (#[trigger] nv[g]).1 == indices_with(keys, nv[g].0, None, j + 1)
            &&& nv[g].2 == indices_with(keys, nv[g].0, Some('1'), j + 1)
            &&& nv[g].3 == indices_with(keys, nv[g].0, Some('2'), j + 1)
        } by {
            assert(gv[g].1 == indices_with(keys, gv[g].0, None, j));
            if g != p {
                assert(nv[g] == gv[g]);
                assert(gv[g].0 != base) by {
                    if g < p {
                        assert(lex_lt(gv[g].0, gv[p].0));
                    } else {
                        assert(lex_lt(gv[p].0, gv[g].0));
                    }
                }
            }
        }
    }
    assert(bases_witnessed(keys, nv, j + 1)) by {
        reveal(bases_witnessed);
        assert forall|g: int| 0 <= g < nv.len() implies has_stem(keys, j + 1, #[trigger] nv[g].0) by {
            if g == p {
                assert(keys[j].0 == nv[g].0);
            } else {
                assert(nv[g] == gv[g]);
                assert(has_stem(keys, j, gv[g].0));
                let t = choose|t: int| 0 <= t < j && #[trigger] keys[t].0 == gv[g].0;
                assert(keys[t].0 == nv[g].0);
            }
        }
    }
}

proof fn lemma_building_step_new(
    keys: Seq<(Seq<char>, Option<char>)>,
    gv: Seq<BuildView>,
    j: int,
    p: int,
    nb: BuildView,
    chan: Option<char>,
)
    requires
        0 <= j < keys.len(),
        0 <= p <= gv.len(),
        building_ok(keys, gv, j),
        keys[j] == (nb.0, chan),
        chan is None || chan == Some('1') || chan == Some('2'),
        forall|g: int| 0 <= g < p ==> !lex_le(nb.0, #[trigger] gv[g].0),
        p < gv.len() ==> lex_le(nb.0, gv[p].0) && gv[p].0 != nb.0,
        chan is None ==> nb.1 == seq![j as usize] && nb.2 == Seq::<usize>::empty() && nb.3 == Seq::<usize>::empty(),
        chan == Some('1') ==> nb.1 == Seq::<usize>::empty() && nb.2 == seq![j as usize] && nb.3 == Seq::<usize>::empty(),
        chan == Some('2') ==> nb.1 == Seq::<usize>::empty() && nb.2 == Seq::<usize>::empty() && nb.3 == seq![j as usize],
    ensures
        building_ok(keys, gv.insert(p, nb), j + 1),
{
    let nv = gv.insert(p, nb);
    let b = nb.0;
    assert(nv.len() == gv.len() + 1);
    assert forall|g: int| 0 <= g < gv.len() implies #[trigger] gv[g].0 != b by {
        reveal(bases_increasing);
        if g < p {
            lemma_lex_le_reflexive(b);
        } else if g > p {
            if gv[g].0 == b {
                assert(lex_lt(gv[p].0, gv[g].0));
                lemma_lex_le_antisymmetric(b, gv[p].0);
            }
        }
    }
    assert forall|t: int| 0 <= t < j implies #[trigger] keys[t].0 != b by {
        reveal(bases_cover);
        assert(has_building(gv, keys[t].0));
        let g = choose|g: int| 0 <= g < gv.len() && #[trigger] gv[g].0 == keys[t].0;
        assert(gv[g].0 != b);
    }
    assert(bases_increasing(nv)) by {
        reveal(bases_increasing);
        assert forall|g: int, h: int| 0 <= g < h < nv.len() implies lex_lt(#[trigger] nv[g].0, #[trigger] nv[h].0) by {
            if g < p && h < p {
                assert(nv[g] == gv[g] && nv[h] == gv[h]);
            } else if g < p && h == p {
                assert(nv[g] == gv[g] && nv[h] == nb);
                lemma_lex_le_total(b, gv[g].0);
            } else if g < p {
                assert(nv[g] == gv[g] && nv[h] == gv[h - 1]);
            } else if g == p {
                assert(nv[g] == nb && nv[h] == gv[h - 1]);
                if h - 1 > p {
                    assert(lex_lt(gv[p].0, gv[h - 1].0));
                    lemma_lex_le_transitive(b, gv[p].0, gv[h - 1].0);
                }
            } else {
                assert(nv[g] == gv[g - 1] && nv[h] == gv[h - 1]);
            }
        }
    }
    assert(bases_cover(keys, nv, j + 1)) by {
        reveal(bases_cover);
        assert forall|t: int| 0 <= t < j + 1 implies has_building(nv, #[trigger] keys[t].0) by {
            if t == j {
                assert(nv[p] == nb);
                assert(nv[p].0 == keys[t].0);
            } else {
                assert(has_building(gv, keys[t].0));
                let g = choose|g: int| 0 <= g < gv.len() && #[trigger] gv[g].0 == keys[t].0;
                if g < p {
                    assert(nv[g] == gv[g]);
                } else {
                    assert(nv[g + 1] == gv[g]);
                }
            }
        }
    }
    assert(buckets_exact(keys, nv, j + 1)) by {
        reveal(buckets_exact);
        lemma_indices_with_absent(keys, b, None, j);
        lemma_indices_with_absent(keys, b, Some('1'), j);
        lemma_indices_with_absent(keys, b, Some('2'), j);
        assert forall|g: int| 0 <= g < nv.len() implies {
            &&& (#[trigger] nv[g]).1 == indices_with(keys, nv[g].0, None, j + 1)
            &&& nv[g].2 == indices_with(keys, nv[g].0, Some('1'), j + 1)
            &&& nv[g].3 == indices_with(keys, nv[g].0, Some('2'), j + 1)
        } by {
            if g == p {
                assert(nv[g] == nb);
                assert(Seq::<usize>::empty().push(j as usize) =~= seq![j as usize]);
            } else {
                let k = if g < p { g } else { g - 1 };
                assert(nv[g] == gv[k]);
                assert(gv[k].0 != b);
                assert(gv[k].1 == indices_with(keys, gv[k].0, None, j));
            }
        }
    }
    assert(bases_witnessed(keys, nv, j + 1)) by {
        reveal(bases_witnessed);
        assert forall|g: int| 0 <= g < nv.len() implies has_stem(keys, j + 1, #[trigger] nv[g].0) by {
            if g == p {
                assert(nv[g] == nb);
                assert(keys[j].0 == nv[g].0);
            } else {
                let k = if g < p { g } else { g - 1 };
                assert(nv[g] == gv[k]);
                assert(has_stem(keys, j, gv[k].0));
                let t = choose|t: int| 0 <= t < j && #[trigger] keys[t].0 == gv[k].0;
                assert(keys[t].0 == nv[g].0);
            }
        }
    }
}

/// A standardized name, before upper-casing, is single-spaced: no leading or
/// trailing whitespace and no whitespace but single spaces between words.
pub proof fn law_collapsed_name_single_spaced(raw: Seq<char>)
    ensures
        single_spaced(collapsed_name(raw)),
{
    crate::text::law_collapse_whitespace(strip_channel_markers(without_extension(raw)));
}

proof fn lemma_last_dot_bound(s: Seq<char>)
    ensures
        -1 <= last_dot(s) < s.len(),
    decreases s.len(),
{
    if s.len() > 0 {
        lemma_last_dot_bound(s.drop_last());
    }
}

proof fn lemma_last_dot_append(b: Seq<char>, m: Seq<char>)
    requires
        forall|k: int| 0 <= k < m.len() ==> m[k] != '.',
    ensures
        last_dot(b + m) == last_dot(b),
    decreases m.len(),
{
    if m.len() > 0 {
        assert((b + m).drop_last() =~= b + m.drop_last());
        lemma_last_dot_append(b, m.drop_last());
    } else {
        assert(b + m =~= b);
    }
}

/// The right-channel marker is removed just as the left one: a name marked
/// ` [2]` standardizes like the same name marked ` [1]`. (A name without an
/// extension that already ends in ` [2]` keeps that inner marker when it is
/// marked ` [2]` again, since each marker is removed once.)
pub proof fn law_right_marker_like_left(b: Seq<char>)
    requires
        !" [2]"@.is_suffix_of(b) || last_dot(b) > 0,
    ensures
        collapsed_name(b + " [2]"@) == collapsed_name(b + " [1]"@),
{
    reveal_strlit(" [1]");
    reveal_strlit(" [2]");
    let l = b + " [1]"@;
    let r = b + " [2]"@;
    lemma_last_dot_append(b, " [1]"@);
    lemma_last_dot_append(b, " [2]"@);
    assert(l != seq!['.', '.']) by {
        assert(l[l.len() - 1] == ']');
    }
    assert(r != seq!['.', '.']) by {
        assert(r[r.len() - 1] == ']');
    }
    lemma_last_dot_bound(b);
    if last_dot(b) > 0 {
        assert(l.subrange(0, last_dot(b)) =~= r.subrange(0, last_dot(b)));
    } else {
        assert(without_extension(l) == l);
        assert(without_extension(r) == r);
        assert(l.subrange(l.len() - 4, l.len() as int) =~= " [1]"@);
        assert(l.subrange(0, l.len() - 4) =~= b);
        assert(r.subrange(r.len() - 4, r.len() as int) =~= " [2]"@);
        assert(r.subrange(0, r.len() - 4) =~= b);
        assert(!" [1]"@.is_suffix_of(r)) by {
            assert(r.subrange(r.len() - 4, r.len() as int)[2] == '2');
        }
        assert(strip_suffix_if(l, " [1]"@) == b);
        assert(strip_suffix_if(r, " [1]"@) == r);
        assert(strip_suffix_if(r, " [2]"@) == b);
        assert(strip_suffix_if(b, " [2]"@) == b);
    }
}

/// Appending `m` to `b` and removing the suffix `m` again gives `b`; with no
/// dot in `m`, the last dot of the text is that of `b`.
proof fn lemma_marker_once(b: Seq<char>, m: Seq<char>)
    requires
        m.len() >= 2,
        forall|k: int| 0 <= k < m.len() ==> m[k] != '.',
    ensures
        m.is_suffix_of(b + m),
        strip_suffix_if(b + m, m) == b,
        (b + m)[(b + m).len() - 1] == m[m.len() - 1],
        (b + m)[(b + m).len() - 2] == m[m.len() - 2],
        last_dot(b + m) == last_dot(b),
        b + m != seq!['.', '.'],
{
    assert((b + m).subrange(b.len() as int, (b + m).len() as int) =~= m);
    assert((b + m).subrange(0, b.len() as int) =~= b);
    lemma_last_dot_append(b, m);
    lemma_last_dot_bound(b);
    assert((b + m)[(b + m).len() - 1] != '.');
}

/// `n` is no suffix of `s` when their last two characters differ.
proof fn lemma_not_suffix_by_tail(n: Seq<char>, s: Seq<char>)
    requires
        n.len() >= 2,
        s.len() >= 2,
        n[n.len() - 1] != s[s.len() - 1] || n[n.len() - 2] != s[s.len() - 2],
    ensures
        !n.is_suffix_of(s),
{
    if n.is_suffix_of(s) {
        let t = s.subrange(s.len() - n.len(), s.len() as int);
        assert(t[n.len() - 1] == s[s.len() - 1]);
        assert(t[n.len() - 2] == s[s.len() - 2]);
    }
}

/// A channel marker is removed from a name: a name without a marker and
/// without an extension, followed by any one of the markers, standardizes
/// like the name itself.
pub proof fn law_marker_removed(b: Seq<char>)
    requires
        last_dot(b) <= 0,
        !has_channel_marker(b),
    ensures
        collapsed_name(b + " [1]"@) == collapsed_name(b),
        collapsed_name(b + " [2]"@) == collapsed_name(b),
        collapsed_name(b + " L"@) == collapsed_name(b),
        collapsed_name(b + " R"@) == collapsed_name(b),
        collapsed_name(b + "_L"@) == collapsed_name(b),
        collapsed_name(b + "_R"@) == collapsed_name(b),
        collapsed_name(b + " (L)"@) == collapsed_name(b),
        collapsed_name(b + " (R)"@) == collapsed_name(b),
        collapsed_name(b + " Left"@) == collapsed_name(b),
        collapsed_name(b + " Right"@) == collapsed_name(b),
{
    reveal_strlit(" [1]");
    reveal_strlit(" [2]");
    reveal_strlit(" L");
    reveal_strlit(" R");
    reveal_strlit("_L");
    reveal_strlit("_R");
    reveal_strlit(" (L)");
    reveal_strlit(" (R)");
    reveal_strlit(" Left");
    reveal_strlit(" Right");
    lemma_last_dot_bound(b);
    assert(b != seq!['.', '.']) by {
        if b == seq!['.', '.'] {
            assert(last_dot(b) == 1);
        }
    }
    assert(strip_channel_markers(b) == b);
    lemma_marker_once(b, " [1]"@);
    assert(strip_channel_markers(b + " [1]"@) == b);
    lemma_marker_once(b, " [2]"@);
    lemma_not_suffix_by_tail(" [1]"@, b + " [2]"@);
    assert(strip_channel_markers(b + " [2]"@) == b);
    lemma_marker_once(b, " L"@);
    lemma_not_suffix_by_tail(" [1]"@, b + " L"@);
    lemma_not_suffix_by_tail(" [2]"@, b + " L"@);
    assert(strip_channel_markers(b + " L"@) == b);
    lemma_marker_once(b, " R"@);
    lemma_not_suffix_by_tail(" [1]"@, b + " R"@);
    lemma_not_suffix_by_tail(" [2]"@, b + " R"@);
    lemma_not_suffix_by_tail(" L"@, b + " R"@);
    assert(strip_channel_markers(b + " R"@) == b);
    lemma_marker_once(b, "_L"@);
    lemma_not_suffix_by_tail(" [1]"@, b + "_L"@);
    lemma_not_suffix_by_tail(" [2]"@, b + "_L"@);
    lemma_not_suffix_by_tail(" L"@, b + "_L"@);
    lemma_not_suffix_by_tail(" R"@, b + "_L"@);
    assert(strip_channel_markers(b + "_L"@) == b);
    lemma_marker_once(b, "_R"@);
    lemma_not_suffix_by_tail(" [1]"@, b + "_R"@);
    lemma_not_suffix_by_tail(" [2]"@, b + "_R"@);
    lemma_not_suffix_by_tail(" L"@, b + "_R"@);
    lemma_not_suffix_by_tail(" R"@, b + "_R"@);
    lemma_not_suffix_by_tail("_L"@, b + "_R"@);
    assert(strip_channel_markers(b + "_R"@) == b);
    lemma_marker_once(b, " (L)"@);
    lemma_not_suffix_by_tail(" [1]"@, b + " (L)"@);
    lemma_not_suffix_by_tail(" [2]"@, b + " (L)"@);
    lemma_not_suffix_by_tail(" L"@, b + " (L)"@);
    lemma_not_suffix_by_tail(" R"@, b + " (L)"@);
    lemma_not_suffix_by_tail("_L"@, b + " (L)"@);
    lemma_not_suffix_by_tail("_R"@, b + " (L)"@);
    assert(strip_channel_markers(b + " (L)"@) == b);
    lemma_marker_once(b, " (R)"@);
    lemma_not_suffix_by_tail(" [1]"@, b + " (R)"@);
    lemma_not_suffix_by_tail(" [2]"@, b + " (R)"@);
    lemma_not_suffix_by_tail(" L"@, b + " (R)"@);
    lemma_not_suffix_by_tail(" R"@, b + " (R)"@);
    lemma_not_suffix_by_tail("_L"@, b + " (R)"@);
    lemma_not_suffix_by_tail("_R"@, b + " (R)"@);
    lemma_not_suffix_by_tail(" (L)"@, b + " (R)"@);
    assert(strip_channel_markers(b + " (R)"@) == b);
    lemma_marker_once(b, " Left"@);
    lemma_not_suffix_by_tail(" [1]"@, b + " Left"@);
    lemma_not_suffix_by_tail(" [2]"@, b + " Left"@);
    lemma_not_suffix_by_tail(" L"@, b + " Left"@);
    lemma_not_suffix_by_tail(" R"@, b + " Left"@);
    lemma_not_suffix_by_tail("_L"@, b + " Left"@);
    lemma_not_suffix_by_tail("_R"@, b + " Left"@);
    lemma_not_suffix_by_tail(" (L)"@, b + " Left"@);
    lemma_not_suffix_by_tail(" (R)"@, b + " Left"@);
    assert(strip_channel_markers(b + " Left"@) == b);
    lemma_marker_once(b, " Right"@);
    lemma_not_suffix_by_tail(" [1]"@, b + " Right"@);
    lemma_not_suffix_by_tail(" [2]"@, b + " Right"@);
    lemma_not_suffix_by_tail(" L"@, b + " Right"@);
    lemma_not_suffix_by_tail(" R"@, b + " Right"@);
    lemma_not_suffix_by_tail("_L"@, b + " Right"@);
    lemma_not_suffix_by_tail("_R"@, b + " Right"@);
    lemma_not_suffix_by_tail(" (L)"@, b + " Right"@);
    lemma_not_suffix_by_tail(" (R)"@, b + " Right"@);
    lemma_not_suffix_by_tail(" Left"@, b + " Right"@);
    assert(strip_channel_markers(b + " Right"@) == b);
}

proof fn lemma_indices_with_contains(
    keys: Seq<(Seq<char>, Option<char>)>,
    b: Seq<char>,
    c: Option<char>,
    n: int,
    x: usize,
)
    requires
        0 <= n <= keys.len(),
        n <= usize::MAX,
    ensures
        indices_with(keys, b, c, n).contains(x) <==> (x < n && keys[x as int] == (b, c)),
    decreases n,
{
    if n > 0 {
        lemma_indices_with_contains(keys, b, c, n - 1, x);
        let r = indices_with(keys, b, c, n - 1);
        if keys[n - 1] == (b, c) {
            let q = r.push((n - 1) as usize);
            assert(indices_with(keys, b, c, n) == q);
            if q.contains(x) {
                let i = choose|i: int| 0 <= i < q.len() && q[i] == x;
                if i < r.len() {
                    assert(r[i] == x);
                }
            }
            if x < n - 1 && keys[x as int] == (b, c) {
                let i = choose|i: int| 0 <= i < r.len() && r[i] == x;
                assert(q[i] == x);
            }
            if x == n - 1 {
                assert(q[r.len() as int] == x);
            }
        } else {
            assert(indices_with(keys, b, c, n) == r);
            if x == n - 1 {
                assert(!(keys[x as int] == (b, c)));
            }
        }
    }
}

proof fn lemma_channel_values(stem: Seq<char>)
    ensures
        channel_spec(stem).1 is None || channel_spec(stem).1 == Some('1') || channel_spec(stem).1
            == Some('2'),
{
}

/// The groups partition the stems: stem `t` is a member of group `g` exactly
/// when the group's base is the stem's base, so every stem is in one group.
pub proof fn law_groups_partition(stems: Seq<Seq<char>>, gs: Seq<(Seq<char>, Seq<usize>)>)
    requires
        stems.len() <= usize::MAX,
        groups_of(stems, gs),
    ensures
        forall|t: usize, g: int|
            t < stems.len() && 0 <= g < gs.len() ==> (#[trigger] gs[g].1.contains(t) <==> gs[g].0
                == stem_keys(stems)[t as int].0),
{
    let keys = stem_keys(stems);
    assert forall|t: usize, g: int| t < stems.len() && 0 <= g < gs.len() implies (
    #[trigger] gs[g].1.contains(t) <==> gs[g].0 == keys[t as int].0) by {
        let b = gs[g].0;
        let n = keys.len() as int;
        let l0 = indices_with(keys, b, None, n);
        let l1 = indices_with(keys, b, Some('1'), n);
        let l2 = indices_with(keys, b, Some('2'), n);
        assert(gs[g].1 == l0 + l1 + l2);
        lemma_indices_with_contains(keys, b, None, n, t);
        lemma_indices_with_contains(keys, b, Some('1'), n, t);
        lemma_indices_with_contains(keys, b, Some('2'), n, t);
        lemma_channel_values(stems[t as int]);
        assert(keys[t as int] == channel_spec(stems[t as int]));
        let m = l0 + l1 + l2;
        if m.contains(t) {
            let i = choose|i: int| 0 <= i < m.len() && m[i] == t;
            if i < l0.len() {
                assert(l0[i] == t);
            } else if i < l0.len() + l1.len() {
                assert(l1[i - l0.len()] == t);
            } else {
                assert(l2[i - l0.len() - l1.len()] == t);
            }
        }
        if b == keys[t as int].0 {
            if keys[t as int].1 is None {
                let i = choose|i: int| 0 <= i < l0.len() && l0[i] == t;
                assert(m[i] == t);
            } else if keys[t as int].1 == Some('1') {
                let i = choose|i: int| 0 <= i < l1.len() && l1[i] == t;
                assert(m[l0.len() + i] == t);
            } else {
                let i = choose|i: int| 0 <= i < l2.len() && l2[i] == t;
                assert(m[l0.len() + l1.len() + i] == t);
            }
        }
    }
}

/// Scanning a measurement text yields at most one field pair per line.
pub proof fn law_at_most_one_pair_per_line(ls: Seq<Seq<char>>)
    ensures
        fields_of_lines(ls).len() <= ls.len(),
    decreases ls.len(),
{
    if ls.len() > 0 {
        law_at_most_one_pair_per_line(ls.drop_last());
    }
}

} // verus!
