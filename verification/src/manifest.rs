//! The curve-library manifest: the entries found under `data/`, their order,
//! and the exact JSON text the app ships and reads.
use vstd::prelude::*;
use vstd::string::StringExecFns;
use crate::text::{
    char_views, chars_of, decimal, eq_ignore_ascii_case, eq_ignore_case, join, join_chars,
    lemma_char_views_push, push_char, count_char, lemma_count_char_absent, lemma_count_char_add, push_decimal, push_str, str_views, string_of,
    sub_chars, trim_end_char, trim_end_matching, lex_le, chars_le, lemma_lex_le_total,
    lemma_lex_le_transitive,
};

verus! {

/// One curve file of the library.
#[derive(Clone)]
pub struct ManifestEntry {
    /// Forward-slash path relative to the app-files root, e.g. `data/ADEN/X.txt`.
    pub file: String,
    /// Size in bytes.
    pub size: u64,
}

/// The JSON escape of one character: `"`, `\`, line feed, carriage return and
/// tab get a backslash form, every other character stands for itself.
pub open spec fn json_escape(c: char) -> Seq<char> {
    if c == '"' {
        seq!['\\', '"']
    } else if c == '\\' {
        seq!['\\', '\\']
    } else if c == '\n' {
        seq!['\\', 'n']
    } else if c == '\r' {
        seq!['\\', 'r']
    } else if c == '\t' {
        seq!['\\', 't']
    } else {
        seq![c]
    }
}

/// The escapes of the characters of `s`, concatenated.
pub open spec fn json_escaped(s: Seq<char>) -> Seq<char>
    decreases s.len(),
{
    if s.len() == 0 {
        Seq::<char>::empty()
    } else {
        json_escaped(s.drop_last()) + json_escape(s.last())
    }
}

/// A JSON string literal holding `s`.
pub open spec fn json_quoted(s: Seq<char>) -> Seq<char> {
    seq!['"'] + json_escaped(s) + seq!['"']
}

/// The block of one entry; the last entry's block closes without a comma.
pub open spec fn entry_json(e: ManifestEntry, last: bool) -> Seq<char> {
    "  {\n"@ + "    \"file\": "@ + json_quoted(e.file@) + ",\n"@ + "    \"size\": "@ + decimal(
        e.size as nat,
    ) + "\n"@ + (if last {
        "  }\n"@
    } else {
        "  },\n"@
    })
}

/// The blocks of the first `k` entries of `es`.
pub open spec fn entries_json(es: Seq<ManifestEntry>, k: int) -> Seq<char>
    decreases k,
{
    if k <= 0 {
        Seq::<char>::empty()
    } else {
        entries_json(es, k - 1) + entry_json(es[k - 1], k == es.len())
    }
}

/// The manifest text: `[]` for no entries, otherwise one block per entry
/// between `[` and `]`, two-space indented.
pub open spec fn manifest_json(es: Seq<ManifestEntry>) -> Seq<char> {
    if es.len() == 0 {
        "[]"@
    } else {
        "[\n"@ + entries_json(es, es.len() as int) + "]"@
    }
}

/// Appends the JSON escape of one character.
fn push_json_escape(s: &mut String, c: char)
    ensures
        final(s)@ == old(s)@ + json_escape(c),
{
    if c == '"' {
        push_char(s, '\\');
        push_char(s, '"');
    } else if c == '\\' {
        push_char(s, '\\');
        push_char(s, '\\');
    } else if c == '\n' {
        push_char(s, '\\');
        push_char(s, 'n');
    } else if c == '\r' {
        push_char(s, '\\');
        push_char(s, 'r');
    } else if c == '\t' {
        push_char(s, '\\');
        push_char(s, 't');
    } else {
        push_char(s, c);
    }
    assert(final(s)@ =~= old(s)@ + json_escape(c));
}

/// A JSON string literal for `s`, escaping the characters that occur in paths.
pub fn json_string(s: &str) -> (r: String)
    ensures
        r@ == json_quoted(s@),
{
    let v = chars_of(s);
    let mut r = String::new();
    push_char(&mut r, '"');
    for i in 0..v.len()
        invariant
            v@ == s@,
            r@ == seq!['"'] + json_escaped(v@.take(i as int)),
    {
        push_json_escape(&mut r, v[i]);
        proof {
            let t = v@.take(i + 1);
            assert(t.drop_last() =~= v@.take(i as int));
            assert(r@ =~= seq!['"'] + json_escaped(t));
        }
    }
    assert(v@.take(v.len() as int) =~= v@);
    push_char(&mut r, '"');
    assert(r@ =~= json_quoted(s@));
    r
}

/// Serialize manifest entries to the exact JSON layout the app ships.
pub fn manifest_to_json(entries: &[ManifestEntry]) -> (r: String)
    ensures
        r@ == manifest_json(entries@),
{
    if entries.len() == 0 {
        return String::from_str("[]");
    }
    let mut s = String::from_str("[\n");
    let n = entries.len();
    for i in 0..n
        invariant
            n == entries@.len(),
            s@ == "[\n"@ + entries_json(entries@, i as int),
    {
        let e = &entries[i];
        let ghost before = s@;
        push_str(&mut s, "  {\n");
        push_str(&mut s, "    \"file\": ");
        let q = json_string(e.file.as_str());
        push_str(&mut s, q.as_str());
        push_str(&mut s, ",\n");
        push_str(&mut s, "    \"size\": ");
        push_decimal(&mut s, e.size);
        push_str(&mut s, "\n");
        if i + 1 < n {
            push_str(&mut s, "  },\n");
        } else {
            push_str(&mut s, "  }\n");
        }
        assert(s@ =~= before + entry_json(entries@[i as int], i + 1 == n));
    }
    push_str(&mut s, "]");
    s
}

// ---------------------------------------------------------------------------
// Building the entry list from a directory scan
// ---------------------------------------------------------------------------

/// A regular file found under the data folder.
pub struct ScannedFile {
    /// The components of its path relative to the data folder,
    /// e.g. `["BRAND A", "ALPHA.txt"]`.
    pub components: Vec<String>,
    /// Its size in bytes.
    pub size: u64,
}

/// A scanned file as plain values: path components and size.
pub open spec fn scanned_view(f: ScannedFile) -> (Seq<Seq<char>>, u64) {
    (str_views(f.components@), f.size)
}

pub open spec fn scanned_views(fs: Seq<ScannedFile>) -> Seq<(Seq<Seq<char>>, u64)> {
    fs.map_values(|f: ScannedFile| scanned_view(f))
}

/// An entry as plain values: path and size.
pub open spec fn entry_view(e: ManifestEntry) -> (Seq<char>, u64) {
    (e.file@, e.size)
}

pub open spec fn entry_views(es: Seq<ManifestEntry>) -> Seq<(Seq<char>, u64)> {
    es.map_values(|e: ManifestEntry| entry_view(e))
}

/// The index of the last `'.'` in `s`, or -1 when there is none.
pub open spec fn last_dot(s: Seq<char>) -> int
    decreases s.len(),
{
    if s.len() == 0 {
        -1
    } else if s.last() == '.' {
        s.len() - 1
    } else {
        last_dot(s.drop_last())
    }
}

/// The extension of a file name as `Path::extension` gives it: the text after
/// the last dot, unless there is no dot, the only dot starts the name, or the
/// name is `..`.
pub open spec fn path_extension(name: Seq<char>) -> Option<Seq<char>> {
    let i = last_dot(name);
    if name == seq!['.', '.'] || i <= 0 {
        None
    } else {
        Some(name.subrange(i + 1, name.len() as int))
    }
}

/// Whether a file (given by its path components) is a curve file: its name has
/// the extension `txt` in any ASCII case.
pub open spec fn is_curve_file(comps: Seq<Seq<char>>) -> bool {
    &&& comps.len() > 0
    &&& path_extension(comps.last()) matches Some(e)
    &&& eq_ignore_ascii_case(e, "txt"@)
}

/// The library path of a file: its components joined by `/`, after the prefix
/// (with its trailing slashes removed) and a `/` when the prefix is non-empty.
pub open spec fn library_path(comps: Seq<Seq<char>>, prefix: Seq<char>) -> Seq<char> {
    if prefix.len() == 0 {
        join(comps, '/')
    } else {
        trim_end_char(prefix, '/').push('/') + join(comps, '/')
    }
}

/// The entries of the curve files among `fs`, in scan order.
pub open spec fn curve_entries(fs: Seq<(Seq<Seq<char>>, u64)>, prefix: Seq<char>) -> Seq<
    (Seq<char>, u64),
>
    decreases fs.len(),
{
    if fs.len() == 0 {
        Seq::empty()
    } else if is_curve_file(fs.last().0) {
        curve_entries(fs.drop_last(), prefix).push(
            (library_path(fs.last().0, prefix), fs.last().1),
        )
    } else {
        curve_entries(fs.drop_last(), prefix)
    }
}

/// The position before the first entry of `s` whose path comes strictly after `k`.
pub open spec fn insert_pos(s: Seq<(Seq<char>, u64)>, k: Seq<char>) -> int
    decreases s.len(),
{
    if s.len() == 0 {
        0
    } else if !lex_le(s[0].0, k) {
        0
    } else {
        1 + insert_pos(s.drop_first(), k)
    }
}

/// `s` with `x` inserted after every entry whose path is not after `x`'s.
pub open spec fn sorted_insert(s: Seq<(Seq<char>, u64)>, x: (Seq<char>, u64)) -> Seq<
    (Seq<char>, u64),
> {
    s.insert(insert_pos(s, x.0), x)
}

/// `s` in stable order of path: each entry is placed after all earlier ones
/// whose path is not after its own.
pub open spec fn sort_by_path(s: Seq<(Seq<char>, u64)>) -> Seq<(Seq<char>, u64)>
    decreases s.len(),
{
    if s.len() == 0 {
        s
    } else {
        sorted_insert(sort_by_path(s.drop_last()), s.last())
    }
}

/// The entries of a scan: the curve files, with their library paths, sorted
/// by path.
pub open spec fn manifest_of(fs: Seq<(Seq<Seq<char>>, u64)>, prefix: Seq<char>) -> Seq<
    (Seq<char>, u64),
> {
    sort_by_path(curve_entries(fs, prefix))
}

pub proof fn lemma_insert_pos_bound(s: Seq<(Seq<char>, u64)>, k: Seq<char>)
    ensures
        0 <= insert_pos(s, k) <= s.len(),
    decreases s.len(),
{
    if s.len() > 0 {
        lemma_insert_pos_bound(s.drop_first(), k);
    }
}

pub proof fn lemma_insert_pos_skip(s: Seq<(Seq<char>, u64)>, k: Seq<char>, i: int)
    requires
        0 <= i <= s.len(),
        forall|j: int| 0 <= j < i ==> lex_le(#[trigger] s[j].0, k),
    ensures
        insert_pos(s, k) == i + insert_pos(s.skip(i), k),
    decreases i,
{
    if i > 0 {
        assert(s.drop_first().skip(i - 1) =~= s.skip(i));
        lemma_insert_pos_skip(s.drop_first(), k, i - 1);
    } else {
        assert(s.skip(0) =~= s);
    }
}

pub proof fn lemma_insert_pos_props(s: Seq<(Seq<char>, u64)>, k: Seq<char>)
    ensures
        0 <= insert_pos(s, k) <= s.len(),
        forall|j: int| 0 <= j < insert_pos(s, k) ==> lex_le(#[trigger] s[j].0, k),
        insert_pos(s, k) < s.len() ==> !lex_le(s[insert_pos(s, k)].0, k),
    decreases s.len(),
{
    if s.len() > 0 && lex_le(s[0].0, k) {
        let t = s.drop_first();
        lemma_insert_pos_props(t, k);
        assert forall|j: int| 0 <= j < insert_pos(s, k) implies lex_le(#[trigger] s[j].0, k) by {
            if j > 0 {
                assert(s[j] == t[j - 1]);
            }
        }
    }
}

/// Whether the entries of `s` are in non-decreasing order of path.
pub open spec fn sorted_by_path(s: Seq<(Seq<char>, u64)>) -> bool {
    forall|i: int, j: int| 0 <= i < j < s.len() ==> lex_le(#[trigger] s[i].0, #[trigger] s[j].0)
}

pub proof fn lemma_sorted_insert_sorted(s: Seq<(Seq<char>, u64)>, x: (Seq<char>, u64))
    requires
        sorted_by_path(s),
    ensures
        sorted_by_path(sorted_insert(s, x)),
        sorted_insert(s, x).to_multiset() == s.to_multiset().insert(x),
{
    let p = insert_pos(s, x.0);
    lemma_insert_pos_props(s, x.0);
    let r = sorted_insert(s, x);
    assert(r.len() == s.len() + 1);
    assert forall|i: int, j: int| 0 <= i < j < r.len() implies lex_le(
        #[trigger] r[i].0,
        #[trigger] r[j].0,
    ) by {
        if j < p {
            assert(r[i] == s[i] && r[j] == s[j]);
        } else if j == p {
            assert(r[j] == x);
            assert(r[i] == s[i]);
        } else if i == p {
            assert(r[i] == x);
            assert(r[j] == s[j - 1]);
            lemma_lex_le_total(s[p].0, x.0);
            if j - 1 > p {
                lemma_lex_le_transitive(x.0, s[p].0, s[j - 1].0);
            }
        } else if i < p {
            assert(r[i] == s[i]);
            assert(r[j] == s[j - 1]);
        } else {
            assert(r[i] == s[i - 1]);
            assert(r[j] == s[j - 1]);
        }
    }
    vstd::seq_lib::to_multiset_insert(s, p, x);
}

/// Sorting by path yields a sequence in non-decreasing path order that holds
/// exactly the entries it was given, each as often.
pub proof fn lemma_sort_by_path(s: Seq<(Seq<char>, u64)>)
    ensures
        sorted_by_path(sort_by_path(s)),
        sort_by_path(s).to_multiset() == s.to_multiset(),
        sort_by_path(s).len() == s.len(),
    decreases s.len(),
{
    broadcast use vstd::seq_lib::group_to_multiset_ensures;

    if s.len() > 0 {
        lemma_sort_by_path(s.drop_last());
        lemma_sorted_insert_sorted(sort_by_path(s.drop_last()), s.last());
        assert(s.drop_last().push(s.last()) =~= s);
    }
    assert(sort_by_path(s).len() == sort_by_path(s).to_multiset().len());
}

pub open spec fn key_views(v: Seq<(Vec<char>, u64)>) -> Seq<(Seq<char>, u64)> {
    v.map_values(|p: (Vec<char>, u64)| (p.0@, p.1))
}

/// The position just after the last `'.'` of `name`, or 0 when it has none.
fn after_last_dot(name: &[char]) -> (j: usize)
    ensures
        j <= name.len(),
        j as int == last_dot(name@) + 1,
{
    let mut j = name.len();
    assert(name@.subrange(0, j as int) =~= name@);
    while j > 0 && name[j - 1] != '.'
        invariant
            j <= name.len(),
            last_dot(name@) == last_dot(name@.subrange(0, j as int)),
        decreases j,
    {
        assert(name@.subrange(0, j as int).drop_last() =~= name@.subrange(0, j - 1));
        j = j - 1;
    }
    proof {
        if j > 0 {
            assert(name@.subrange(0, j as int).last() == '.');
        }
    }
    j
}

/// Whether a file name has the extension `txt` in any ASCII case.
fn curve_name(name: &[char]) -> (b: bool)
    ensures
        b == (path_extension(name@) matches Some(e) && eq_ignore_ascii_case(e, "txt"@)),
{
    if chars_eq_dotdot(name) {
        return false;
    }
    let j = after_last_dot(name);
    if j <= 1 {
        return false;
    }
    let ext = sub_chars(name, j, name.len());
    let txt = chars_of("txt");
    eq_ignore_case(ext.as_slice(), txt.as_slice())
}

/// A file name without its extension (the dot and the text after it), when
/// it has one by the rules of `path_extension`; otherwise the name itself.
pub open spec fn without_extension(name: Seq<char>) -> Seq<char> {
    if path_extension(name) is Some {
        name.subrange(0, last_dot(name))
    } else {
        name
    }
}

/// `name` without its extension, as `without_extension` states.
pub fn strip_extension(name: &[char]) -> (r: Vec<char>)
    ensures
        r@ == without_extension(name@),
{
    let j = after_last_dot(name);
    if chars_eq_dotdot(name) || j <= 1 {
        sub_chars(name, 0, name.len())
    } else {
        sub_chars(name, 0, j - 1)
    }
}

/// Whether a file name has the extension `txt` in any ASCII case (the files
/// the library index lists).
pub fn is_curve_file_name(name: &str) -> (b: bool)
    ensures
        b == (path_extension(name@) matches Some(e) && eq_ignore_ascii_case(e, "txt"@)),
{
    let v = chars_of(name);
    curve_name(v.as_slice())
}

fn chars_eq_dotdot(name: &[char]) -> (b: bool)
    ensures
        b == (name@ == seq!['.', '.']),
{
    if name.len() == 2 && name[0] == '.' && name[1] == '.' {
        assert(name@ =~= seq!['.', '.']);
        true
    } else {
        false
    }
}

/// The characters of each string.
fn chars_of_all(v: &Vec<String>) -> (r: Vec<Vec<char>>)
    ensures
        char_views(r@) == str_views(v@),
{
    let mut r: Vec<Vec<char>> = Vec::new();
    for i in 0..v.len()
        invariant
            char_views(r@) == str_views(v@.take(i as int)),
    {
        let c = chars_of(v[i].as_str());
        proof {
            lemma_char_views_push(r@, c);
            assert(str_views(v@.take(i + 1)) =~= str_views(v@.take(i as int)).push(v@[i as int]@));
        }
        r.push(c);
    }
    assert(v@.take(v.len() as int) =~= v@);
    r
}

/// Build the manifest entries from the regular files found under the data
/// folder: keep the `.txt` files (extension in any ASCII case), give each its
/// path relative to the app root (`rel_prefix`, then the components joined by
/// `/`), and sort by path.
pub fn manifest_entries(files: &Vec<ScannedFile>, rel_prefix: &str) -> (r: Vec<ManifestEntry>)
    ensures
        entry_views(r@) == manifest_of(scanned_views(files@), rel_prefix@),
{
    let prefix = chars_of(rel_prefix);
    let trimmed = trim_end_matching(prefix.as_slice(), '/');
    let ghost fv = scanned_views(files@);
    // 1. curve files with their library paths, in scan order
    let mut found: Vec<(Vec<char>, u64)> = Vec::new();
    for i in 0..files.len()
        invariant
            fv == scanned_views(files@),
            prefix@ == rel_prefix@,
            trimmed@ == trim_end_char(prefix@, '/'),
            key_views(found@) == curve_entries(fv.take(i as int), rel_prefix@),
    {
        let f = &files[i];
        let comps = chars_of_all(&f.components);
        assert(fv[i as int].0 == char_views(comps@));
        proof {
            if comps@.len() > 0 {
                assert(char_views(comps@).last() == comps@[comps@.len() - 1]@);
            }
            let t = fv.take(i + 1);
            assert(t.drop_last() =~= fv.take(i as int));
            assert(t.last() == fv[i as int]);
        }
        if comps.len() > 0 && curve_name(comps[comps.len() - 1].as_slice()) {
            let joined = join_chars(&comps, '/');
            let path = if prefix.len() == 0 {
                joined
            } else {
                let mut p = sub_chars(trimmed.as_slice(), 0, trimmed.len());
                p.push('/');
                let ghost head = p@;
                for k in 0..joined.len()
                    invariant
                        p@ == head + joined@.take(k as int),
                {
                    p.push(joined[k]);
                    assert(joined@.take(k + 1) =~= joined@.take(k as int).push(joined@[k as int]));
                }
                assert(joined@.take(joined.len() as int) =~= joined@);
                p
            };
            assert(joined@ == join(fv[i as int].0, '/'));
            assert(path@ == library_path(fv[i as int].0, rel_prefix@));
            assert(is_curve_file(fv[i as int].0));
            let ghost before = found@;
            found.push((path, f.size));
            assert(key_views(found@) =~= key_views(before).push((path@, f.size)));
        } else {
            assert(!is_curve_file(fv[i as int].0));
        }
    }
    assert(fv.take(files.len() as int) =~= fv);
    // 2. stable insertion by path
    let ghost cands = key_views(found@);
    let mut sorted: Vec<(Vec<char>, u64)> = Vec::new();
    let n = found.len();
    let mut i: usize = 0;
    while i < n
        invariant
            n == found@.len(),
            cands.len() == n,
            i <= n,
            forall|t: int| i <= t < n ==> (#[trigger] found@[t]).0@ == cands[t].0 && found@[t].1
                == cands[t].1,
            key_views(sorted@) == sort_by_path(cands.take(i as int)),
        decreases n - i,
    {
        let mut x: (Vec<char>, u64) = (Vec::new(), 0);
        std::mem::swap(&mut x, &mut found[i]);
        let ghost xv = (x.0@, x.1);
        assert(xv == cands[i as int]);
        let ghost sv = key_views(sorted@);
        let mut p: usize = 0;
        let mut go = true;
        while go && p < sorted.len()
            invariant
                p <= sorted@.len(),
                sv == key_views(sorted@),
                xv == (x.0@, x.1),
                forall|j: int| 0 <= j < p ==> lex_le(#[trigger] sv[j].0, xv.0),
                !go ==> p < sv.len() && !lex_le(sv[p as int].0, xv.0),
            decreases sorted@.len() - p, if go { 1int } else { 0int },
        {
            assert(sv[p as int].0 == sorted@[p as int].0@);
            if chars_le(sorted[p].0.as_slice(), x.0.as_slice()) {
                p = p + 1;
            } else {
                go = false;
            }
        }
        proof {
            lemma_insert_pos_skip(sv, xv.0, p as int);
            if p < sv.len() {
                assert(!lex_le(sv.skip(p as int)[0].0, xv.0));
            } else {
                assert(sv.skip(p as int).len() == 0);
            }
            assert(insert_pos(sv, xv.0) == p);
            let t = cands.take(i + 1);
            assert(t.drop_last() =~= cands.take(i as int));
            assert(t.last() == xv);
        }
        sorted.insert(p, x);
        assert(key_views(sorted@) =~= sv.insert(p as int, xv));
        i = i + 1;
    }
    assert(cands.take(n as int) =~= cands);
    // 3. the entries
    let mut out: Vec<ManifestEntry> = Vec::new();
    for k in 0..sorted.len()
        invariant
            entry_views(out@) == key_views(sorted@).take(k as int),
    {
        let e = ManifestEntry { file: string_of(sorted[k].0.as_slice()), size: sorted[k].1 };
        let ghost before = out@;
        out.push(e);
        assert(entry_views(out@) =~= entry_views(before).push(entry_view(e)));
        assert(key_views(sorted@).take(k + 1) =~= key_views(sorted@).take(k as int).push(
            key_views(sorted@)[k as int],
        ));
    }
    assert(key_views(sorted@).take(sorted.len() as int) =~= key_views(sorted@));
    out
}

/// The manifest of a scan lists its curve files in non-decreasing path order,
/// each curve file exactly once (as often as it was found) and nothing else.
pub proof fn law_manifest_sorted_and_complete(fs: Seq<(Seq<Seq<char>>, u64)>, prefix: Seq<char>)
    ensures
        sorted_by_path(manifest_of(fs, prefix)),
        manifest_of(fs, prefix).to_multiset() == curve_entries(fs, prefix).to_multiset(),
{
    lemma_sort_by_path(curve_entries(fs, prefix));
}

proof fn lemma_json_escaped_no(s: Seq<char>, c: char)
    requires
        c == '\n' || c == '\r' || c == '\t',
    ensures
        count_char(json_escaped(s), c) == 0,
    decreases s.len(),
{
    if s.len() > 0 {
        lemma_json_escaped_no(s.drop_last(), c);
        let e = json_escape(s.last());
        assert forall|i: int| 0 <= i < e.len() implies e[i] != c by {}
        lemma_count_char_absent(e, c);
        lemma_count_char_add(json_escaped(s.drop_last()), e, c);
    }
}

proof fn lemma_entries_json_prefix(es: Seq<ManifestEntry>, j: int)
    requires
        0 <= j <= es.len() - 2,
    ensures
        entries_json(es, j) == entries_json(es.drop_last(), j),
    decreases j,
{
    if j > 0 {
        lemma_entries_json_prefix(es, j - 1);
    }
}

/// The blocks of a manifest are separated by commas and the last one is not:
/// the text opens with `[` and a line feed and ends with the last block's
/// `  }` and `]`; adding an entry keeps the text up to the closing brace of the
/// block that was last and puts a comma right after that brace.
pub proof fn law_manifest_blocks_separated(es: Seq<ManifestEntry>)
    requires
        es.len() >= 1,
    ensures
        "[\n"@.is_prefix_of(manifest_json(es)),
        "  }\n]"@.is_suffix_of(manifest_json(es)),
        es.len() >= 2 ==> ({
            let m = manifest_json(es.drop_last());
            let f = manifest_json(es);
            &&& 2 <= m.len() < f.len()
            &&& f.subrange(0, m.len() - 2) == m.subrange(0, m.len() - 2)
            &&& f[m.len() - 2] == ','
        }),
{
    reveal_strlit("[\n");
    reveal_strlit("  }\n]");
    reveal_strlit("  }\n");
    reveal_strlit("  },\n");
    reveal_strlit("]");
    reveal_strlit("  }");
    let n = es.len() as int;
    let f = manifest_json(es);
    let last = entry_json(es[n - 1], true);
    assert(f =~= "[\n"@ + entries_json(es, n - 1) + last + "]"@);
    assert(f.subrange(0, 2) =~= "[\n"@);
    assert(f.subrange(f.len() - 5, f.len() as int) =~= "  }\n]"@);
    if n >= 2 {
        let d = es.drop_last();
        let e = es[n - 2];
        let c = "  {\n"@ + "    \"file\": "@ + json_quoted(e.file@) + ",\n"@ + "    \"size\": "@
            + decimal(e.size as nat) + "\n"@;
        lemma_entries_json_prefix(es, n - 2);
        let p = "[\n"@ + entries_json(es, n - 2) + c;
        assert(d[n - 2] == e);
        assert(entries_json(d, n - 1) == entries_json(d, n - 2) + entry_json(e, true));
        let m = manifest_json(d);
        assert(m =~= p + "  }\n"@ + "]"@);
        assert(f =~= p + "  },\n"@ + last + "]"@);
        assert(m.subrange(0, m.len() - 2) =~= p + "  }"@);
        assert(f.subrange(0, m.len() - 2) =~= p + "  }"@);
        assert(f[m.len() - 2] == ',');
    }
}

/// A JSON string literal of any text stays on one line: it holds no line
/// feed, carriage return or tab, which are all written as escapes.
pub proof fn law_json_string_single_line(s: Seq<char>)
    ensures
        count_char(json_quoted(s), '\n') == 0,
        count_char(json_quoted(s), '\r') == 0,
        count_char(json_quoted(s), '\t') == 0,
{
    assert forall|c: char| c == '\n' || c == '\r' || c == '\t' implies count_char(
        #[trigger] json_quoted(s),
        c,
    ) == 0 by {
        lemma_json_escaped_no(s, c);
        lemma_count_char_absent(seq!['"'], c);
        lemma_count_char_add(seq!['"'], json_escaped(s), c);
        lemma_count_char_add(seq!['"'] + json_escaped(s), seq!['"'], c);
    }
}

} // verus!
