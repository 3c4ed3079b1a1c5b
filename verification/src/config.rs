//! The reservoir config file (`.dam/config.toml`): reading the version and
//! project name, writing a new config, and upgrading an old one.

use vstd::prelude::*;
use crate::text::{
    chars_of, chars_eq, contains, contains_exec, join_lines, lines, lines_exec, lit, push_all,
    slice_chars, split_char, split_char_exec, starts_with, starts_with_exec, string_of, trim,
    trim_char, trim_char_exec, trim_exec, bool_text, bool_text_exec, str_eq, join_lines_exec,
    is_ws, find_from, lemma_find_from, skip_ws, back_ws, skip_char, back_char, is_whole_line,
    lemma_lines_of_join, lemma_trim_unchanged, lemma_lines_append, lemma_lines_have_no_newline,
    lemma_lines_of_join_strip, lemma_trim_strip_cr, strip_cr,
};

verus! {

/// The version a config line sets: a line that, trimmed, starts with
/// `version =` or `version=` and splits at `=` into exactly two parts gives
/// its second part, trimmed and without surrounding double quotes.
pub open spec fn line_version(l: Seq<char>) -> Option<Seq<char>> {
    let t = trim(l);
    if starts_with(t, "version ="@) || starts_with(t, "version="@) {
        let parts = split_char(t, '=');
        if parts.len() == 2 {
            Some(trim_char(trim(parts[1]), '\u{22}'))
        } else {
            None
        }
    } else {
        None
    }
}

/// The version set by the last version line among `ls`.
pub open spec fn last_version(ls: Seq<Seq<char>>) -> Option<Seq<char>>
    decreases ls.len(),
{
    if ls.len() == 0 {
        None
    } else {
        match line_version(ls.last()) {
            Some(v) => Some(v),
            None => last_version(ls.drop_last()),
        }
    }
}

/// The version a reservoir config declares, `0.1.0` when it declares none.
pub open spec fn config_version_spec(config: Seq<char>) -> Seq<char> {
    match last_version(lines(config)) {
        Some(v) => v,
        None => "0.1.0"@,
    }
}

fn line_version_exec(l: &[char]) -> (r: Option<Vec<char>>)
    ensures
        match r {
            Some(v) => line_version(l@) == Some(v@),
            None => line_version(l@) is None,
        },
{
    let t = trim_exec(l);
    if starts_with_exec(t.as_slice(), lit("version =").as_slice()) || starts_with_exec(
        t.as_slice(),
        lit("version=").as_slice(),
    ) {
        let parts = split_char_exec(t.as_slice(), '=');
        if parts.len() == 2 {
            let ghost pv = parts@.map_values(|x: Vec<char>| x@);
            assert(pv[1] == parts@[1]@);
            let v = trim_char_exec(trim_exec(parts[1].as_slice()).as_slice(), '\u{22}');
            Some(v)
        } else {
            None
        }
    } else {
        None
    }
}

/// The version a reservoir config declares.
pub fn config_version(content: &str) -> (r: String)
    ensures
        r@ == config_version_spec(content@),
{
    let ls = lines_exec(chars_of(content).as_slice());
    let ghost lv = ls@.map_values(|x: Vec<char>| x@);
    let mut version = lit("0.1.0");
    let mut found = false;
    let mut i: usize = 0;
    assert(lv.subrange(0, 0) =~= Seq::<Seq<char>>::empty());
    while i < ls.len()
        invariant
            lv == ls@.map_values(|x: Vec<char>| x@),
            lv == lines(content@),
            0 <= i <= ls@.len(),
            found == last_version(lv.subrange(0, i as int)) is Some,
            found ==> last_version(lv.subrange(0, i as int)) == Some(version@),
            !found ==> version@ == "0.1.0"@,
        decreases ls@.len() - i,
    {
        assert(lv.subrange(0, i + 1).drop_last() =~= lv.subrange(0, i as int));
        assert(lv.subrange(0, i + 1).last() == ls@[i as int]@);
        match line_version_exec(ls[i].as_slice()) {
            Some(v) => {
                version = v;
                found = true;
            },
            None => {},
        }
        i += 1;
    }
    assert(lv.subrange(0, i as int) =~= lv);
    string_of(version.as_slice())
}

/// Whether this tool supports a reservoir version: its own version, or `0.5.0`.
pub fn is_supported_version(version: &str, current: &str) -> (r: bool)
    ensures
        r == (version@ == current@ || version@ == "0.5.0"@),
{
    str_eq(version, current) || str_eq(version, "0.5.0")
}

/// The project name a config line sets: a line that, trimmed, starts with
/// `name`, then (after spaces) `=`, gives the rest trimmed and without
/// surrounding double quotes, when that is not empty.
pub open spec fn line_project_name(l: Seq<char>) -> Option<Seq<char>> {
    let t = trim(l);
    if starts_with(t, "name"@) {
        let rest = trim(t.subrange(4, t.len() as int));
        if starts_with(rest, "="@) {
            let name = trim_char(trim(rest.subrange(1, rest.len() as int)), '\u{22}');
            if name.len() > 0 { Some(name) } else { None }
        } else {
            None
        }
    } else {
        None
    }
}

/// The project name set by the first line that sets one.
pub open spec fn first_project_name(ls: Seq<Seq<char>>) -> Option<Seq<char>>
    decreases ls.len(),
{
    if ls.len() == 0 {
        None
    } else {
        match line_project_name(ls[0]) {
            Some(n) => Some(n),
            None => first_project_name(ls.drop_first()),
        }
    }
}

fn line_project_name_exec(l: &[char]) -> (r: Option<Vec<char>>)
    ensures
        match r {
            Some(v) => line_project_name(l@) == Some(v@),
            None => line_project_name(l@) is None,
        },
{
    let t = trim_exec(l);
    if !starts_with_exec(t.as_slice(), lit("name").as_slice()) {
        return None;
    }
    proof { reveal_strlit("name"); }
    let rest = trim_exec(slice_chars(t.as_slice(), 4, t.len()).as_slice());
    if !starts_with_exec(rest.as_slice(), lit("=").as_slice()) {
        return None;
    }
    proof { reveal_strlit("="); }
    let name = trim_char_exec(trim_exec(slice_chars(rest.as_slice(), 1, rest.len()).as_slice()).as_slice(), '\u{22}');
    if name.len() > 0 {
        Some(name)
    } else {
        None
    }
}

/// The project name a reservoir config sets, if any.
pub fn project_name_from_config(content: &str) -> (r: Option<String>)
    ensures
        match r {
            Some(n) => first_project_name(lines(content@)) == Some(n@),
            None => first_project_name(lines(content@)) is None,
        },
{
    let ls = lines_exec(chars_of(content).as_slice());
    let ghost lv = ls@.map_values(|x: Vec<char>| x@);
    let mut i: usize = 0;
    assert(lv.subrange(0, lv.len() as int) =~= lv);
    while i < ls.len()
        invariant
            lv == ls@.map_values(|x: Vec<char>| x@),
            lv == lines(content@),
            0 <= i <= ls@.len(),
            first_project_name(lv) == first_project_name(lv.subrange(i as int, lv.len() as int)),
        decreases ls@.len() - i,
    {
        let ghost rest = lv.subrange(i as int, lv.len() as int);
        assert(rest[0] == ls@[i as int]@);
        assert(rest.drop_first() =~= lv.subrange(i + 1, lv.len() as int));
        match line_project_name_exec(ls[i].as_slice()) {
            Some(n) => {
                return Some(string_of(n.as_slice()));
            },
            None => {},
        }
        i += 1;
    }
    None
}

/// The word that confirms destroying or archiving a reservoir: its project
/// name when it has one, else `ARCHIVE` or `DESTROY`.
pub fn confirmation_word(project_name: &Option<String>, archive: bool) -> (r: String)
    ensures
        match project_name {
            Some(n) => r@ == n@,
            None => r@ == if archive { "ARCHIVE"@ } else { "DESTROY"@ },
        },
{
    match project_name {
        Some(n) => n.clone(),
        None => if archive {
            string_of(lit("ARCHIVE").as_slice())
        } else {
            string_of(lit("DESTROY").as_slice())
        },
    }
}

/// Whether a config asks not to be warned about a parent reservoir.
pub fn suppresses_nested_warning(config_content: &str) -> (r: bool)
    ensures
        r == contains(config_content@, "suppress_nested_warning = true"@),
{
    contains_exec(chars_of(config_content).as_slice(), lit("suppress_nested_warning = true").as_slice())
}

/// The lines of a new reservoir's config.
pub open spec fn initial_config_lines(
    version: Seq<char>,
    name: Seq<char>,
    suppress: bool,
    p_win: bool,
    i_win: bool,
    enforce: bool,
) -> Seq<Seq<char>> {
    seq![
        "[reservoir]"@,
        "version = \u{22}"@ + version + "\u{22}"@,
        "type = \u{22}native\u{22}"@,
        "name = \u{22}"@ + name + "\u{22}"@,
        "suppress_nested_warning = "@ + bool_text(suppress),
        "purities_overrides_impurities = "@ + bool_text(p_win),
        "impurities_overrides_purities = "@ + bool_text(i_win),
        "enforce_password_on_project_import = "@ + bool_text(enforce),
    ]
}

/// The config text of a new reservoir: its lines, each ending in a newline.
pub fn initial_config(
    version: &str,
    name: &str,
    suppress: bool,
    p_win: bool,
    i_win: bool,
    enforce: bool,
) -> (r: String)
    ensures
        r@ == join_lines(initial_config_lines(version@, name@, suppress, p_win, i_win, enforce)),
{
    let ghost ls = initial_config_lines(version@, name@, suppress, p_win, i_win, enforce);
    let mut l1 = lit("version = \u{22}");
    push_all(&mut l1, chars_of(version).as_slice());
    push_all(&mut l1, lit("\u{22}").as_slice());
    let mut l3 = lit("name = \u{22}");
    push_all(&mut l3, chars_of(name).as_slice());
    push_all(&mut l3, lit("\u{22}").as_slice());
    let mut l4 = lit("suppress_nested_warning = ");
    push_all(&mut l4, bool_text_exec(suppress).as_slice());
    let mut l5 = lit("purities_overrides_impurities = ");
    push_all(&mut l5, bool_text_exec(p_win).as_slice());
    let mut l6 = lit("impurities_overrides_purities = ");
    push_all(&mut l6, bool_text_exec(i_win).as_slice());
    let mut l7 = lit("enforce_password_on_project_import = ");
    push_all(&mut l7, bool_text_exec(enforce).as_slice());
    let mut all: Vec<Vec<char>> = Vec::new();
    all.push(lit("[reservoir]"));
    all.push(l1);
    all.push(lit("type = \u{22}native\u{22}"));
    all.push(l3);
    all.push(l4);
    all.push(l5);
    all.push(l6);
    all.push(l7);
    assert(all@.map_values(|x: Vec<char>| x@) =~= ls);
    let out = join_lines_exec(&all);
    string_of(out.as_slice())
}

/// The config text after an upgrade: a missing version line is appended, an
/// existing `version =` line is replaced; the import-password setting is
/// appended when the config does not mention it.
pub open spec fn upgraded_config(config: Seq<char>, current: Seq<char>) -> Seq<char> {
    let vline = "version = \u{22}"@ + current + "\u{22}"@;
    let c1 = if !contains(config, "version ="@) {
        config + seq!['\n'] + vline + seq!['\n']
    } else {
        join_lines(replace_version_lines(lines(config), vline))
    };
    if !contains(c1, "enforce_password_on_project_import"@) {
        c1 + "enforce_password_on_project_import = false\n"@
    } else {
        c1
    }
}

/// Each line that, trimmed, starts with `version =` replaced by `vline`.
pub open spec fn replace_version_lines(ls: Seq<Seq<char>>, vline: Seq<char>) -> Seq<Seq<char>>
    decreases ls.len(),
{
    if ls.len() == 0 {
        seq![]
    } else {
        replace_version_lines(ls.drop_last(), vline).push(
            if starts_with(trim(ls.last()), "version ="@) { vline } else { ls.last() },
        )
    }
}

/// Upgrades a reservoir config to the current version.
pub fn upgrade_config(content: &str, current: &str) -> (r: String)
    ensures
        r@ == upgraded_config(content@, current@),
{
    let c = chars_of(content);
    let mut vline = lit("version = \u{22}");
    push_all(&mut vline, chars_of(current).as_slice());
    push_all(&mut vline, lit("\u{22}").as_slice());
    let mut c1: Vec<char>;
    if !contains_exec(c.as_slice(), lit("version =").as_slice()) {
        c1 = slice_chars(c.as_slice(), 0, c.len());
        c1.push('\n');
        push_all(&mut c1, vline.as_slice());
        c1.push('\n');
        proof {
            assert(c1@ =~= content@ + seq!['\n'] + vline@ + seq!['\n']);
        }
    } else {
        let ls = lines_exec(c.as_slice());
        let ghost lv = ls@.map_values(|x: Vec<char>| x@);
        let key = lit("version =");
        c1 = Vec::new();
        let mut i: usize = 0;
        assert(lv.subrange(0, 0) =~= Seq::<Seq<char>>::empty());
        while i < ls.len()
            invariant
                lv == ls@.map_values(|x: Vec<char>| x@),
                lv == lines(content@),
                key@ == "version ="@,
                0 <= i <= ls@.len(),
                c1@ == join_lines(replace_version_lines(lv.subrange(0, i as int), vline@)),
            decreases ls@.len() - i,
        {
            assert(lv.subrange(0, i + 1).drop_last() =~= lv.subrange(0, i as int));
            assert(lv.subrange(0, i + 1).last() == ls@[i as int]@);
            let t = trim_exec(ls[i].as_slice());
            let ghost prev = replace_version_lines(lv.subrange(0, i as int), vline@);
            let ghost x = if starts_with(trim(lv[i as int]), "version ="@) { vline@ } else { lv[i as int] };
            assert(replace_version_lines(lv.subrange(0, i + 1), vline@) == prev.push(x));
            assert(prev.push(x).drop_last() =~= prev);
            if starts_with_exec(t.as_slice(), key.as_slice()) {
                push_all(&mut c1, vline.as_slice());
            } else {
                push_all(&mut c1, ls[i].as_slice());
            }
            c1.push('\n');
            assert(c1@ =~= join_lines(prev) + x + seq!['\n']);
            i += 1;
        }
        assert(lv.subrange(0, i as int) =~= lv);
    }
    if !contains_exec(c1.as_slice(), lit("enforce_password_on_project_import").as_slice()) {
        push_all(&mut c1, lit("enforce_password_on_project_import = false\n").as_slice());
    }
    string_of(c1.as_slice())
}

proof fn lemma_concat_free(a: Seq<char>, b: Seq<char>, c: char)
    requires
        !a.contains(c),
        !b.contains(c),
    ensures
        !(a + b).contains(c),
{
    if (a + b).contains(c) {
        let k = choose|k: int| 0 <= k < (a + b).len() && (a + b)[k] == c;
        if k < a.len() {
            assert(a[k] == c);
        } else {
            assert(b[k - a.len()] == c);
        }
    }
}

proof fn lemma_not_version_line(l: Seq<char>)
    requires
        l.len() > 0,
        !is_ws(l[0]),
        !is_ws(l.last()),
        l[0] != 'v',
    ensures
        line_version(l) is None,
{
    lemma_trim_unchanged(l);
    reveal_strlit("version =");
    reveal_strlit("version=");
}

proof fn lemma_not_name_line(l: Seq<char>)
    requires
        l.len() > 0,
        !is_ws(l[0]),
        !is_ws(l.last()),
        l[0] != 'n',
    ensures
        line_project_name(l) is None,
{
    lemma_trim_unchanged(l);
    reveal_strlit("name");
}

/// `q` is a value between double quotes: trimming the quotes gives it back
/// when the value neither starts nor ends with a quote.
proof fn lemma_unquote_ends(q: Seq<char>, v: Seq<char>)
    requires
        q == seq!['\u{22}'] + v + seq!['\u{22}'],
        v.len() > 0 ==> v[0] != '\u{22}' && v.last() != '\u{22}',
    ensures
        trim_char(q, '\u{22}') == v,
{
    let n = q.len() as int;
    if v.len() == 0 {
        assert(skip_char(q, '\u{22}', 2) == 2);
        assert(skip_char(q, '\u{22}', 1) == 2);
        assert(skip_char(q, '\u{22}', 0) == 2);
        assert(back_char(q, '\u{22}', 2, 2) == 2);
        assert(q.subrange(2, 2) =~= v);
    } else {
        assert(q[1] == v[0]);
        assert(skip_char(q, '\u{22}', 1) == 1);
        assert(skip_char(q, '\u{22}', 0) == 1);
        assert(q[n - 2] == v[v.len() - 1]);
        assert(back_char(q, '\u{22}', 1, n - 1) == n - 1);
        assert(back_char(q, '\u{22}', 1, n) == n - 1);
        assert(q.subrange(1, n - 1) =~= v);
    }
}

/// `q` is a value without quotes between double quotes: trimming the quotes gives it back.
proof fn lemma_unquote(q: Seq<char>, v: Seq<char>)
    requires
        q == seq!['\u{22}'] + v + seq!['\u{22}'],
        !v.contains('\u{22}'),
    ensures
        trim_char(q, '\u{22}') == v,
{
    if v.len() > 0 {
        assert(v[0] != '\u{22}');
        assert(v[v.len() - 1] != '\u{22}');
    }
    lemma_unquote_ends(q, v);
}

/// The version line of a new config gives back the version it was written with.
proof fn lemma_version_line(v: Seq<char>)
    requires
        !v.contains('\u{22}'),
        !v.contains('='),
    ensures
        line_version("version = \u{22}"@ + v + "\u{22}"@) == Some(v),
{
    reveal_strlit("version = \u{22}");
    reveal_strlit("\u{22}");
    reveal_strlit("version =");
    let l = "version = \u{22}"@ + v + "\u{22}"@;
    let n = l.len() as int;
    assert(l[0] == 'v');
    assert(l[n - 1] == '\u{22}');
    lemma_trim_unchanged(l);
    assert(l.subrange(0, 9) =~= "version ="@);
    assert(starts_with(l, "version ="@));
    let rest = l.subrange(9, n);
    assert(l[8] == '=');
    lemma_find_from(l, '=', 0);
    assert(find_from(l, '=', 0) == 8) by {
        let k = find_from(l, '=', 0);
        if k < 8 {
            assert(l[k] == '=');
        }
    }
    assert(!rest.contains('=')) by {
        if rest.contains('=') {
            let k = choose|k: int| 0 <= k < rest.len() && rest[k] == '=';
            assert(rest[k] == l[k + 9]);
            if 2 <= k < rest.len() - 1 {
                assert(v[k - 2] == '=');
            }
        }
    }
    lemma_find_from(rest, '=', 0);
    assert(find_from(rest, '=', 0) == rest.len()) by {
        let k = find_from(rest, '=', 0);
        if k < rest.len() {
            assert(rest.contains('='));
        }
    }
    assert(split_char(rest, '=') == seq![rest]);
    assert(split_char(l, '=') =~= seq![l.subrange(0, 8), rest]);
    assert(rest[0] == ' ');
    assert(rest[1] == '\u{22}');
    assert(skip_ws(rest, 1) == 1);
    assert(skip_ws(rest, 0) == 1);
    assert(back_ws(rest, 1, rest.len() as int) == rest.len());
    let q = rest.subrange(1, rest.len() as int);
    assert(trim(rest) == q);
    assert(q =~= seq!['\u{22}'] + v + seq!['\u{22}']);
    lemma_unquote(q, v);
}

/// The name line of a new config gives back the name it was written with.
proof fn lemma_name_line(name: Seq<char>)
    requires
        name.len() > 0,
        !name.contains('\u{22}'),
        !is_ws(name[0]),
        !is_ws(name.last()),
    ensures
        line_project_name("name = \u{22}"@ + name + "\u{22}"@) == Some(name),
{
    reveal_strlit("name = \u{22}");
    reveal_strlit("\u{22}");
    reveal_strlit("name");
    reveal_strlit("=");
    let l = "name = \u{22}"@ + name + "\u{22}"@;
    let n = l.len() as int;
    assert(l[0] == 'n');
    assert(l[n - 1] == '\u{22}');
    lemma_trim_unchanged(l);
    assert(l.subrange(0, 4) =~= "name"@);
    let r0 = l.subrange(4, n);
    assert(r0[0] == ' ' && r0[1] == '=');
    assert(skip_ws(r0, 1) == 1);
    assert(skip_ws(r0, 0) == 1);
    assert(back_ws(r0, 1, r0.len() as int) == r0.len());
    let rest = r0.subrange(1, r0.len() as int);
    assert(trim(r0) == rest);
    assert(rest.subrange(0, 1) =~= "="@);
    let r1 = rest.subrange(1, rest.len() as int);
    assert(r1[0] == ' ' && r1[1] == '\u{22}');
    assert(skip_ws(r1, 1) == 1);
    assert(skip_ws(r1, 0) == 1);
    assert(back_ws(r1, 1, r1.len() as int) == r1.len());
    let q = r1.subrange(1, r1.len() as int);
    assert(trim(r1) == q);
    assert(q =~= seq!['\u{22}'] + name + seq!['\u{22}']);
    lemma_unquote(q, name);
}

/// The lines of a new config are written and read back unchanged.
proof fn lemma_initial_lines_read_back(
    version: Seq<char>,
    name: Seq<char>,
    suppress: bool,
    p_win: bool,
    i_win: bool,
    enforce: bool,
)
    requires
        !version.contains('\n'),
        !name.contains('\n'),
    ensures
        lines(join_lines(initial_config_lines(version, name, suppress, p_win, i_win, enforce)))
            == initial_config_lines(version, name, suppress, p_win, i_win, enforce),
{
    let ls = initial_config_lines(version, name, suppress, p_win, i_win, enforce);
    reveal_strlit("[reservoir]");
    reveal_strlit("version = \u{22}");
    reveal_strlit("\u{22}");
    reveal_strlit("type = \u{22}native\u{22}");
    reveal_strlit("name = \u{22}");
    reveal_strlit("suppress_nested_warning = ");
    reveal_strlit("purities_overrides_impurities = ");
    reveal_strlit("impurities_overrides_purities = ");
    reveal_strlit("enforce_password_on_project_import = ");
    reveal_strlit("true");
    reveal_strlit("false");
    lemma_concat_free("version = \u{22}"@, version, '\n');
    lemma_concat_free("version = \u{22}"@ + version, "\u{22}"@, '\n');
    lemma_concat_free("name = \u{22}"@, name, '\n');
    lemma_concat_free("name = \u{22}"@ + name, "\u{22}"@, '\n');
    lemma_concat_free("suppress_nested_warning = "@, bool_text(suppress), '\n');
    lemma_concat_free("purities_overrides_impurities = "@, bool_text(p_win), '\n');
    lemma_concat_free("impurities_overrides_purities = "@, bool_text(i_win), '\n');
    lemma_concat_free("enforce_password_on_project_import = "@, bool_text(enforce), '\n');
    assert forall|i: int| 0 <= i < ls.len() implies is_whole_line(#[trigger] ls[i]) by {
        assert(bool_text(suppress).last() == 'e');
        assert(bool_text(p_win).last() == 'e');
        assert(bool_text(i_win).last() == 'e');
        assert(bool_text(enforce).last() == 'e');
    }
    lemma_lines_of_join(ls);
}

/// A new reservoir's config declares the version it was made with, so the
/// version check passes for a reservoir this tool made; the version is one
/// that the config line can carry (no quote, `=` or line break), and the
/// name has no line break.
pub proof fn law_new_config_declares_version(
    version: Seq<char>,
    name: Seq<char>,
    suppress: bool,
    p_win: bool,
    i_win: bool,
    enforce: bool,
)
    requires
        !version.contains('\u{22}'),
        !version.contains('='),
        !version.contains('\n'),
        !name.contains('\n'),
    ensures
        config_version_spec(join_lines(initial_config_lines(version, name, suppress, p_win, i_win, enforce)))
            == version,
{
    let ls = initial_config_lines(version, name, suppress, p_win, i_win, enforce);
    lemma_initial_lines_read_back(version, name, suppress, p_win, i_win, enforce);
    reveal_strlit("[reservoir]");
    reveal_strlit("version = \u{22}");
    reveal_strlit("\u{22}");
    reveal_strlit("type = \u{22}native\u{22}");
    reveal_strlit("name = \u{22}");
    reveal_strlit("suppress_nested_warning = ");
    reveal_strlit("purities_overrides_impurities = ");
    reveal_strlit("impurities_overrides_purities = ");
    reveal_strlit("enforce_password_on_project_import = ");
    reveal_strlit("true");
    reveal_strlit("false");
    assert(bool_text(suppress).last() == 'e');
    assert(bool_text(p_win).last() == 'e');
    assert(bool_text(i_win).last() == 'e');
    assert(bool_text(enforce).last() == 'e');
    lemma_not_version_line(ls[7]);
    lemma_not_version_line(ls[6]);
    lemma_not_version_line(ls[5]);
    lemma_not_version_line(ls[4]);
    lemma_not_version_line(ls[3]);
    lemma_not_version_line(ls[2]);
    lemma_version_line(version);
    let l1 = ls.subrange(0, 2);
    assert(ls.drop_last() =~= ls.subrange(0, 7));
    assert(ls.subrange(0, 7).drop_last() =~= ls.subrange(0, 6));
    assert(ls.subrange(0, 6).drop_last() =~= ls.subrange(0, 5));
    assert(ls.subrange(0, 5).drop_last() =~= ls.subrange(0, 4));
    assert(ls.subrange(0, 4).drop_last() =~= ls.subrange(0, 3));
    assert(ls.subrange(0, 3).drop_last() =~= l1);
    assert(last_version(l1) == Some(version));
    assert(last_version(ls.subrange(0, 3)) == Some(version));
    assert(last_version(ls.subrange(0, 4)) == Some(version));
    assert(last_version(ls.subrange(0, 5)) == Some(version));
    assert(last_version(ls.subrange(0, 6)) == Some(version));
    assert(last_version(ls.subrange(0, 7)) == Some(version));
    assert(last_version(ls) == Some(version));
}

/// A new reservoir's config gives back the project name it was made with,
/// which is then the word that confirms destroying or archiving it; the name
/// is one a config line can carry (not empty, no quote, no line break, no
/// white space at its ends), and the version has no line break.
pub proof fn law_new_config_names_project(
    version: Seq<char>,
    name: Seq<char>,
    suppress: bool,
    p_win: bool,
    i_win: bool,
    enforce: bool,
)
    requires
        name.len() > 0,
        !name.contains('\u{22}'),
        !name.contains('\n'),
        !is_ws(name[0]),
        !is_ws(name.last()),
        !version.contains('\n'),
    ensures
        first_project_name(lines(join_lines(initial_config_lines(version, name, suppress, p_win, i_win, enforce))))
            == Some(name),
{
    let ls = initial_config_lines(version, name, suppress, p_win, i_win, enforce);
    lemma_initial_lines_read_back(version, name, suppress, p_win, i_win, enforce);
    reveal_strlit("[reservoir]");
    reveal_strlit("version = \u{22}");
    reveal_strlit("\u{22}");
    reveal_strlit("type = \u{22}native\u{22}");
    lemma_not_name_line(ls[0]);
    lemma_not_name_line(ls[1]);
    lemma_not_name_line(ls[2]);
    lemma_name_line(name);
    assert(ls.drop_first()[0] == ls[1]);
    assert(ls.drop_first().drop_first()[0] == ls[2]);
    assert(ls.drop_first().drop_first().drop_first()[0] == ls[3]);
    assert(first_project_name(ls.drop_first().drop_first().drop_first()) == Some(name));
    assert(first_project_name(ls.drop_first().drop_first()) == Some(name));
    assert(first_project_name(ls.drop_first()) == Some(name));
}

proof fn lemma_line_version_strip_cr(l: Seq<char>)
    ensures
        line_version(strip_cr(l)) == line_version(l),
{
    lemma_trim_strip_cr(l);
}

proof fn lemma_last_version_pointwise(x: Seq<Seq<char>>, y: Seq<Seq<char>>)
    requires
        x.len() == y.len(),
        forall|i: int| 0 <= i < x.len() ==> line_version(#[trigger] x[i]) == line_version(y[i]),
    ensures
        last_version(x) == last_version(y),
    decreases x.len(),
{
    if x.len() > 0 {
        let xd = x.drop_last();
        let yd = y.drop_last();
        assert forall|i: int| 0 <= i < xd.len() implies line_version(#[trigger] xd[i]) == line_version(yd[i]) by {
            assert(xd[i] == x[i]);
            assert(yd[i] == y[i]);
        }
        lemma_last_version_pointwise(xd, yd);
        assert(line_version(x[x.len() - 1]) == line_version(y[y.len() - 1]));
    }
}

/// Whether the last line of `ls` that sets a version or, trimmed, starts
/// with `version =` is one that starts with `version =`: a line an upgrade
/// replaces.
pub open spec fn last_version_line_replaced(ls: Seq<Seq<char>>) -> bool
    decreases ls.len(),
{
    if ls.len() == 0 {
        false
    } else if starts_with(trim(ls.last()), "version ="@) {
        true
    } else if line_version(ls.last()) is Some {
        false
    } else {
        last_version_line_replaced(ls.drop_last())
    }
}

proof fn lemma_replace_pointwise(ls: Seq<Seq<char>>, vline: Seq<char>)
    ensures
        replace_version_lines(ls, vline).len() == ls.len(),
        forall|i: int| 0 <= i < ls.len() ==> #[trigger] replace_version_lines(ls, vline)[i] == if starts_with(
            trim(ls[i]),
            "version ="@,
        ) {
            vline
        } else {
            ls[i]
        },
    decreases ls.len(),
{
    if ls.len() > 0 {
        lemma_replace_pointwise(ls.drop_last(), vline);
        let r = replace_version_lines(ls, vline);
        assert forall|i: int| 0 <= i < ls.len() implies #[trigger] r[i] == if starts_with(trim(ls[i]), "version ="@) {
            vline
        } else {
            ls[i]
        } by {
            if i < ls.len() - 1 {
                assert(r[i] == replace_version_lines(ls.drop_last(), vline)[i]);
                assert(ls.drop_last()[i] == ls[i]);
            }
        }
    }
}

proof fn lemma_replaced_version(ls: Seq<Seq<char>>, vline: Seq<char>, v: Seq<char>)
    requires
        last_version_line_replaced(ls),
        line_version(vline) == Some(v),
    ensures
        last_version(replace_version_lines(ls, vline)) == Some(v),
    decreases ls.len(),
{
    let r = replace_version_lines(ls, vline);
    let prev = replace_version_lines(ls.drop_last(), vline);
    assert(r.drop_last() =~= prev);
    if !starts_with(trim(ls.last()), "version ="@) {
        lemma_replaced_version(ls.drop_last(), vline, v);
    }
}

proof fn lemma_single_line(l: Seq<char>)
    requires
        is_whole_line(l),
    ensures
        lines(l + seq!['\n']) == seq![l],
{
    let ls = seq![l];
    assert(ls.drop_last() =~= Seq::<Seq<char>>::empty());
    assert(join_lines(Seq::<Seq<char>>::empty()) =~= Seq::<char>::empty());
    assert(ls.last() == l);
    assert(join_lines(ls) =~= l + seq!['\n']);
    lemma_lines_of_join(ls);
}

/// After an upgrade the config declares the version of this tool: a config
/// without `version =` text gets a version line appended; otherwise its
/// `version =` lines are replaced, which settles the version when the last
/// line that sets a version or starts with `version =` is one of them. The
/// version is one that the config line can carry (no quote, `=` or line break).
pub proof fn law_upgrade_reaches_current(config: Seq<char>, current: Seq<char>)
    requires
        !current.contains('\u{22}'),
        !current.contains('='),
        !current.contains('\n'),
        !contains(config, "version ="@) || last_version_line_replaced(lines(config)),
    ensures
        config_version_spec(upgraded_config(config, current)) == current,
{
    reveal_strlit("version = \u{22}");
    reveal_strlit("\u{22}");
    reveal_strlit("enforce_password_on_project_import = false\n");
    reveal_strlit("enforce_password_on_project_import = false");
    let vline = "version = \u{22}"@ + current + "\u{22}"@;
    lemma_version_line(current);
    lemma_concat_free("version = \u{22}"@, current, '\n');
    lemma_concat_free("version = \u{22}"@ + current, "\u{22}"@, '\n');
    assert(vline.last() == '\u{22}');
    assert(is_whole_line(vline));
    let c1 = if !contains(config, "version ="@) {
        config + seq!['\n'] + vline + seq!['\n']
    } else {
        join_lines(replace_version_lines(lines(config), vline))
    };
    if !contains(config, "version ="@) {
        let p = config + seq!['\n'];
        assert(c1 =~= p + (vline + seq!['\n']));
        lemma_lines_append(p, vline + seq!['\n']);
        lemma_single_line(vline);
        assert(lines(c1) =~= lines(p).push(vline));
        assert(lines(c1).drop_last() =~= lines(p));
        assert(last_version(lines(c1)) == Some(current));
    } else {
        let ls = lines(config);
        let rl = replace_version_lines(ls, vline);
        lemma_lines_have_no_newline(config);
        lemma_replace_pointwise(ls, vline);
        assert forall|i: int| 0 <= i < rl.len() implies !(#[trigger] rl[i]).contains('\n') by {
            assert(rl[i] == if starts_with(trim(ls[i]), "version ="@) { vline } else { ls[i] });
        }
        lemma_lines_of_join_strip(rl);
        assert forall|i: int| 0 <= i < lines(c1).len() implies line_version(#[trigger] lines(c1)[i]) == line_version(rl[i]) by {
            lemma_line_version_strip_cr(rl[i]);
        }
        lemma_last_version_pointwise(lines(c1), rl);
        lemma_replaced_version(ls, vline, current);
        if rl.len() > 0 {
            assert(c1 == join_lines(rl.drop_last()) + rl.last() + seq!['\n']);
            assert(c1.last() == '\n');
        } else {
            assert(c1 =~= Seq::<char>::empty());
        }
    }
    assert(last_version(lines(c1)) == Some(current));
    assert(c1.len() == 0 || c1.last() == '\n');
    let e_line = "enforce_password_on_project_import = false"@;
    let e = "enforce_password_on_project_import = false\n"@;
    if !contains(c1, "enforce_password_on_project_import"@) {
        assert(e =~= e_line + seq!['\n']);
        lemma_lines_append(c1, e);
        lemma_single_line(e_line);
        lemma_not_version_line(e_line);
        assert(lines(c1 + e) =~= lines(c1).push(e_line));
        assert(lines(c1 + e).drop_last() =~= lines(c1));
    }
}

/// The value a config line gives `key`: a line that, trimmed, starts with the
/// key, then (after spaces) `=`, gives the rest trimmed and without
/// surrounding double quotes.
pub open spec fn line_value(l: Seq<char>, key: Seq<char>) -> Option<Seq<char>> {
    let t = trim(l);
    if starts_with(t, key) {
        let rest = trim(t.subrange(key.len() as int, t.len() as int));
        if starts_with(rest, "="@) {
            Some(trim_char(trim(rest.subrange(1, rest.len() as int)), '\u{22}'))
        } else {
            None
        }
    } else {
        None
    }
}

/// The value the first line that sets `key` gives it.
pub open spec fn first_value(ls: Seq<Seq<char>>, key: Seq<char>) -> Option<Seq<char>>
    decreases ls.len(),
{
    if ls.len() == 0 {
        None
    } else {
        match line_value(ls[0], key) {
            Some(v) => Some(v),
            None => first_value(ls.drop_first(), key),
        }
    }
}

fn line_value_exec(l: &[char], key: &[char]) -> (r: Option<Vec<char>>)
    ensures
        match r {
            Some(v) => line_value(l@, key@) == Some(v@),
            None => line_value(l@, key@) is None,
        },
{
    let t = trim_exec(l);
    if !starts_with_exec(t.as_slice(), key) {
        return None;
    }
    let rest = trim_exec(slice_chars(t.as_slice(), key.len(), t.len()).as_slice());
    proof {
        reveal_strlit("=");
    }
    if !starts_with_exec(rest.as_slice(), lit("=").as_slice()) {
        return None;
    }
    Some(trim_char_exec(trim_exec(slice_chars(rest.as_slice(), 1, rest.len()).as_slice()).as_slice(), '\u{22}'))
}

/// The value a config gives `key`, from the first line that sets it.
pub fn config_value(content: &str, key: &str) -> (r: Option<String>)
    ensures
        match r {
            Some(v) => first_value(lines(content@), key@) == Some(v@),
            None => first_value(lines(content@), key@) is None,
        },
{
    let ls = lines_exec(chars_of(content).as_slice());
    let k = chars_of(key);
    let ghost lv = ls@.map_values(|x: Vec<char>| x@);
    let mut i: usize = 0;
    assert(lv.subrange(0, lv.len() as int) =~= lv);
    while i < ls.len()
        invariant
            lv == ls@.map_values(|x: Vec<char>| x@),
            lv == lines(content@),
            k@ == key@,
            0 <= i <= ls@.len(),
            first_value(lv, key@) == first_value(lv.subrange(i as int, lv.len() as int), key@),
        decreases ls@.len() - i,
    {
        let ghost rest = lv.subrange(i as int, lv.len() as int);
        assert(rest[0] == ls@[i as int]@);
        assert(rest.drop_first() =~= lv.subrange(i + 1, lv.len() as int));
        match line_value_exec(ls[i].as_slice(), k.as_slice()) {
            Some(v) => {
                return Some(string_of(v.as_slice()));
            },
            None => {},
        }
        i += 1;
    }
    None
}

/// The lines of a config that do not set `key`.
pub open spec fn lines_without_key(ls: Seq<Seq<char>>, key: Seq<char>) -> Seq<Seq<char>>
    decreases ls.len(),
{
    if ls.len() == 0 {
        seq![]
    } else if line_value(ls.last(), key) is Some {
        lines_without_key(ls.drop_last(), key)
    } else {
        lines_without_key(ls.drop_last(), key).push(ls.last())
    }
}

/// The line that sets `key` to `value`.
pub open spec fn value_line(key: Seq<char>, value: Seq<char>) -> Seq<char> {
    key + " = \u{22}"@ + value + "\u{22}"@
}

/// The config text with `key` set to `value`: every line that set it dropped,
/// the new line appended, each line ending in a newline.
pub open spec fn config_with_value_spec(config: Seq<char>, key: Seq<char>, value: Seq<char>) -> Seq<char> {
    join_lines(lines_without_key(lines(config), key).push(value_line(key, value)))
}

/// The config text with `key` set to `value`.
pub fn config_with_value(config: &str, key: &str, value: &str) -> (r: String)
    ensures
        r@ == config_with_value_spec(config@, key@, value@),
{
    let ls = lines_exec(chars_of(config).as_slice());
    let ghost lv = ls@.map_values(|l: Vec<char>| l@);
    let k = chars_of(key);
    let mut kept: Vec<Vec<char>> = Vec::new();
    let mut i: usize = 0;
    assert(lv.subrange(0, 0) =~= Seq::<Seq<char>>::empty());
    assert(kept@.map_values(|l: Vec<char>| l@) =~= Seq::<Seq<char>>::empty());
    while i < ls.len()
        invariant
            lv == ls@.map_values(|l: Vec<char>| l@),
            lv == lines(config@),
            k@ == key@,
            0 <= i <= ls@.len(),
            kept@.map_values(|l: Vec<char>| l@) == lines_without_key(lv.subrange(0, i as int), key@),
        decreases ls@.len() - i,
    {
        assert(lv.subrange(0, i + 1).drop_last() =~= lv.subrange(0, i as int));
        assert(lv.subrange(0, i + 1).last() == ls@[i as int]@);
        if line_value_exec(ls[i].as_slice(), k.as_slice()).is_none() {
            let ghost before = kept@.map_values(|l: Vec<char>| l@);
            let l = slice_chars(ls[i].as_slice(), 0, ls[i].len());
            assert(l@ =~= ls@[i as int]@);
            kept.push(l);
            assert(kept@.map_values(|l: Vec<char>| l@) =~= before.push(ls@[i as int]@));
        }
        i += 1;
    }
    assert(lv.subrange(0, i as int) =~= lv);
    let ghost before = kept@.map_values(|l: Vec<char>| l@);
    let mut line = chars_of(key);
    push_all(&mut line, lit(" = \u{22}").as_slice());
    push_all(&mut line, chars_of(value).as_slice());
    push_all(&mut line, lit("\u{22}").as_slice());
    let ghost lval = line@;
    kept.push(line);
    assert(kept@.map_values(|l: Vec<char>| l@) =~= before.push(lval));
    let out = join_lines_exec(&kept);
    string_of(out.as_slice())
}

proof fn lemma_lines_without_key(ls: Seq<Seq<char>>, key: Seq<char>)
    ensures
        forall|i: int|
            0 <= i < lines_without_key(ls, key).len() ==> line_value(#[trigger] lines_without_key(ls, key)[i], key)
                is None,
        forall|i: int|
            0 <= i < lines_without_key(ls, key).len() ==> ls.contains(#[trigger] lines_without_key(ls, key)[i]),
    decreases ls.len(),
{
    if ls.len() > 0 {
        lemma_lines_without_key(ls.drop_last(), key);
        let w = lines_without_key(ls, key);
        let wp = lines_without_key(ls.drop_last(), key);
        assert forall|i: int| 0 <= i < w.len() implies ls.contains(#[trigger] w[i]) by {
            if i < wp.len() {
                assert(w[i] == wp[i]);
                let j = choose|j: int| 0 <= j < ls.drop_last().len() && ls.drop_last()[j] == wp[i];
                assert(ls[j] == wp[i]);
            } else {
                assert(ls[ls.len() - 1] == w[i]);
            }
        }
        assert forall|i: int| 0 <= i < w.len() implies line_value(#[trigger] w[i], key) is None by {
            if i < wp.len() {
                assert(w[i] == wp[i]);
            }
        }
    }
}

proof fn lemma_first_value_skip(x: Seq<Seq<char>>, l: Seq<char>, key: Seq<char>)
    requires
        forall|i: int| 0 <= i < x.len() ==> line_value(#[trigger] x[i], key) is None,
    ensures
        first_value(x.push(l), key) == line_value(l, key),
    decreases x.len(),
{
    let y = x.push(l);
    if x.len() == 0 {
        assert(y.drop_first() =~= Seq::<Seq<char>>::empty());
        assert(y[0] == l);
    } else {
        assert(y[0] == x[0]);
        assert(y.drop_first() =~= x.drop_first().push(l));
        assert forall|i: int| 0 <= i < x.drop_first().len() implies line_value(#[trigger] x.drop_first()[i], key)
            is None by {
            assert(x.drop_first()[i] == x[i + 1]);
        }
        lemma_first_value_skip(x.drop_first(), l, key);
    }
}

proof fn lemma_first_value_pointwise(x: Seq<Seq<char>>, y: Seq<Seq<char>>, key: Seq<char>)
    requires
        x.len() == y.len(),
        forall|i: int| 0 <= i < x.len() ==> line_value(#[trigger] x[i], key) == line_value(y[i], key),
    ensures
        first_value(x, key) == first_value(y, key),
    decreases x.len(),
{
    if x.len() > 0 {
        assert(line_value(x[0], key) == line_value(y[0], key));
        assert forall|i: int| 0 <= i < x.drop_first().len() implies line_value(#[trigger] x.drop_first()[i], key)
            == line_value(y.drop_first()[i], key) by {
            assert(x.drop_first()[i] == x[i + 1]);
            assert(y.drop_first()[i] == y[i + 1]);
        }
        lemma_first_value_pointwise(x.drop_first(), y.drop_first(), key);
    }
}

/// A value set in a config is the one read back from it: the key is one a
/// config line can start with (no line break, and no white space first), and
/// the value one it can carry between quotes (no line break, no quote at its ends).
pub proof fn law_set_value_is_read_back(config: Seq<char>, key: Seq<char>, value: Seq<char>)
    requires
        !key.contains('\n'),
        key.len() == 0 || !is_ws(key[0]),
        !value.contains('\n'),
        value.len() > 0 ==> value[0] != '\u{22}' && value.last() != '\u{22}',
    ensures
        first_value(lines(config_with_value_spec(config, key, value)), key) == Some(value),
{
    reveal_strlit(" = \u{22}");
    reveal_strlit("\u{22}");
    reveal_strlit("=");
    let ls = lines(config);
    let kept = lines_without_key(ls, key);
    let line = value_line(key, value);
    let all = kept.push(line);
    lemma_lines_without_key(ls, key);
    lemma_lines_have_no_newline(config);
    lemma_concat_free(key, " = \u{22}"@, '\n');
    lemma_concat_free(key + " = \u{22}"@, value, '\n');
    lemma_concat_free(key + " = \u{22}"@ + value, "\u{22}"@, '\n');
    assert forall|i: int| 0 <= i < all.len() implies !(#[trigger] all[i]).contains('\n') by {
        if i < kept.len() {
            assert(all[i] == kept[i]);
            let j = choose|j: int| 0 <= j < ls.len() && ls[j] == kept[i];
            assert(!ls[j].contains('\n'));
        } else {
            assert(all[i] == line);
        }
    }
    lemma_lines_of_join_strip(all);
    let back = lines(join_lines(all));
    assert forall|i: int| 0 <= i < back.len() implies line_value(#[trigger] back[i], key) == line_value(all[i], key) by {
        lemma_trim_strip_cr(all[i]);
    }
    lemma_first_value_pointwise(back, all, key);
    assert forall|i: int| 0 <= i < kept.len() implies line_value(#[trigger] kept[i], key) is None by {}
    lemma_first_value_skip(kept, line, key);
    // The new line itself.
    let n = line.len() as int;
    let kl = key.len() as int;
    assert(line[n - 1] == '\u{22}');
    if kl > 0 {
        assert(line[0] == key[0]);
    } else {
        assert(line[0] == ' ');
    }
    let t = trim(line);
    if kl > 0 {
        lemma_trim_unchanged(line);
    } else {
        assert(skip_ws(line, 1) == 1);
        assert(skip_ws(line, 0) == 1);
        assert(back_ws(line, 1, n) == n);
    }
    let t0 = if kl > 0 { 0 } else { 1 };
    assert(t == line.subrange(t0, n));
    assert(starts_with(t, key)) by {
        if kl > 0 {
            assert(t.subrange(0, kl) =~= key);
        } else {
            assert(t.subrange(0, 0) =~= key);
        }
    }
    let r0 = t.subrange(kl, t.len() as int);
    let rest = trim(r0);
    if kl > 0 {
        assert(r0 =~= " = \u{22}"@ + value + "\u{22}"@);
        assert(skip_ws(r0, 1) == 1);
        assert(skip_ws(r0, 0) == 1);
        assert(back_ws(r0, 1, r0.len() as int) == r0.len());
        assert(rest == r0.subrange(1, r0.len() as int));
    } else {
        assert(r0 =~= line.subrange(1, n));
        assert(skip_ws(r0, 0) == 0);
        assert(back_ws(r0, 0, r0.len() as int) == r0.len());
        assert(rest == r0);
    }
    assert(rest[0] == '=');
    assert(rest.subrange(0, 1) =~= "="@);
    let r1 = rest.subrange(1, rest.len() as int);
    assert(r1[0] == ' ' && r1[1] == '\u{22}');
    assert(skip_ws(r1, 1) == 1);
    assert(skip_ws(r1, 0) == 1);
    assert(back_ws(r1, 1, r1.len() as int) == r1.len());
    let q = r1.subrange(1, r1.len() as int);
    assert(trim(r1) == q);
    assert(q =~= seq!['\u{22}'] + value + seq!['\u{22}']);
    lemma_unquote_ends(q, value);
}

} // verus!
