//! Collection rules: `.purities` allowlists, `.impurities` blocklists, and how
//! a path is judged against them.

use vstd::prelude::*;
use crate::text::{
    chars_of, contains, contains_exec, ends_with, ends_with_exec, lines, lines_exec, lit,
    push_all, replace_char, replace_char_exec, starts_with, starts_with_exec, string_of, trim,
    trim_exec, slice_chars, join_lines, bool_text, bool_text_exec, eq_ignore_ascii_case,
    eq_ignore_ascii_case_exec, occurs_at, join_lines_exec,
};
use crate::seal::strings_view;

verus! {

/// The compiled glob patterns of the `glob` crate.
#[verifier::external_type_specification]
#[verifier::external_body]
pub struct ExPattern(glob::Pattern);

/// Whether `glob::Pattern::new` accepts a pattern.
pub uninterp spec fn glob_pattern_ok(pattern: Seq<char>) -> bool;

/// Whether the pattern compiled from `pattern` matches `path` with the default match options.
pub uninterp spec fn glob_matches(pattern: Seq<char>, path: Seq<char>) -> bool;

/// A compiled glob together with the text it was compiled from.
/// Only [`compile_glob`] builds one, so `compiled` always comes from `source`.
struct CompiledPattern {
    source: String,
    compiled: glob::Pattern,
}

/// Calls `glob::Pattern::new`. Claims it succeeds exactly when the pattern is
/// accepted, and that the result remembers the text it was compiled from.
#[verifier::external_body]
fn compile_glob(pattern: &str) -> (r: Option<CompiledPattern>)
    ensures
        r is Some <==> glob_pattern_ok(pattern@),
        r matches Some(c) ==> c.source@ == pattern@,
{
    match glob::Pattern::new(pattern) {
        Ok(p) => Some(CompiledPattern { source: pattern.to_string(), compiled: p }),
        Err(_) => None,
    }
}

/// Calls `glob::Pattern::matches`. Claims the answer is whether the pattern
/// compiled from the remembered text matches the path.
#[verifier::external_body]
fn glob_match(p: &CompiledPattern, path: &str) -> (r: bool)
    ensures
        r == glob_matches(p.source@, path@),
{
    p.compiled.matches(path)
}

/// One rule line: a glob pattern, relative to the directory whose rule file held it.
#[derive(Clone, Debug)]
pub struct Rule {
    pub pattern: String,
    pub base_dir: String,
}

/// The mathematical value of a [`Rule`]: its pattern and base directory.
pub open spec fn rule_view(r: Rule) -> (Seq<char>, Seq<char>) {
    (r.pattern@, r.base_dir@)
}

/// The views of a list of rules.
pub open spec fn rules_view(v: Seq<Rule>) -> Seq<(Seq<char>, Seq<char>)> {
    v.map_values(|r: Rule| rule_view(r))
}

/// The glob a rule pattern stands for: a pattern ending in `/` covers everything below it.
pub open spec fn effective_pattern(pattern: Seq<char>) -> Seq<char> {
    if ends_with(pattern, "/"@) {
        pattern + "**"@
    } else {
        pattern
    }
}

/// Whether a rule matches a path: the path lies under the rule's base directory
/// and the rest of it matches the rule's glob.
pub open spec fn rule_matches(rule: (Seq<char>, Seq<char>), path: Seq<char>) -> bool {
    let (pattern, base) = rule;
    &&& (base.len() == 0 || starts_with(path, base))
    &&& glob_pattern_ok(effective_pattern(pattern))
    &&& glob_matches(effective_pattern(pattern), path.subrange(base.len() as int, path.len() as int))
}

/// Whether some rule of the list matches the path.
pub open spec fn any_matches(rules: Seq<(Seq<char>, Seq<char>)>, path: Seq<char>) -> bool {
    exists|i: int| 0 <= i < rules.len() && rule_matches(#[trigger] rules[i], path)
}

impl Rule {
    /// Whether this rule matches the path.
    pub fn matches(&self, path: &str) -> (r: bool)
        ensures
            r == rule_matches(rule_view(*self), path@),
    {
        let p = chars_of(path);
        let base = chars_of(self.base_dir.as_str());
        if base.len() > 0 && !starts_with_exec(p.as_slice(), base.as_slice()) {
            return false;
        }
        let rel = slice_chars(p.as_slice(), base.len(), p.len());
        let mut pat = chars_of(self.pattern.as_str());
        let slash = lit("/");
        if ends_with_exec(pat.as_slice(), slash.as_slice()) {
            let stars = lit("**");
            push_all(&mut pat, stars.as_slice());
        }
        let pat_s = string_of(pat.as_slice());
        let rel_s = string_of(rel.as_slice());
        match compile_glob(pat_s.as_str()) {
            Some(c) => glob_match(&c, rel_s.as_str()),
            None => false,
        }
    }
}

/// A rule from a directory's rule file is judged on the path relative to
/// that directory: for any base directory `base` (empty for the root) and any
/// rest `rel`, the rule matches `base + rel` exactly when its glob is valid
/// and matches `rel`.
pub proof fn law_rule_judges_path_relative_to_its_directory(pattern: Seq<char>, base: Seq<char>, rel: Seq<char>)
    ensures
        rule_matches((pattern, base), base + rel) == (glob_pattern_ok(effective_pattern(pattern))
            && glob_matches(effective_pattern(pattern), rel)),
{
    assert((base + rel).subrange(0, base.len() as int) =~= base);
    assert((base + rel).subrange(base.len() as int, (base + rel).len() as int) =~= rel);
}

/// A rule never matches a path outside its (non-empty) base directory.
pub proof fn law_rule_ignores_paths_outside_its_directory(pattern: Seq<char>, base: Seq<char>, path: Seq<char>)
    requires
        base.len() > 0,
        !starts_with(path, base),
    ensures
        !rule_matches((pattern, base), path),
{
}

/// A pattern ending in `/` stands for everything below that directory (the
/// glob with `**` appended); any other pattern stands for itself.
pub proof fn law_directory_pattern_covers_below(dir: Seq<char>, pattern: Seq<char>)
    ensures
        effective_pattern(dir + "/"@) == dir + "/**"@,
        pattern.len() == 0 || pattern.last() != '/' ==> effective_pattern(pattern) == pattern,
{
    reveal_strlit("/");
    reveal_strlit("**");
    reveal_strlit("/**");
    let q = dir + "/"@;
    assert(q.subrange(q.len() - 1, q.len() as int) =~= "/"@);
    assert(q + "**"@ =~= dir + "/**"@);
    if pattern.len() > 0 && pattern.last() != '/' && pattern.len() >= 1 {
        assert(pattern.subrange(pattern.len() - 1, pattern.len() as int)[0] == pattern.last());
        assert(pattern.subrange(pattern.len() - 1, pattern.len() as int) != "/"@);
    }
}

/// Whether some rule of the list matches the path.
pub fn any_rule_matches(rules: &Vec<Rule>, path: &str) -> (r: bool)
    ensures
        r == any_matches(rules_view(rules@), path@),
{
    let ghost rv = rules_view(rules@);
    let mut i: usize = 0;
    while i < rules.len()
        invariant
            rv == rules_view(rules@),
            0 <= i <= rules@.len(),
            forall|j: int| 0 <= j < i ==> !rule_matches(#[trigger] rv[j], path@),
        decreases rules@.len() - i,
    {
        if rules[i].matches(path) {
            assert(rule_matches(rv[i as int], path@));
            return true;
        }
        i += 1;
    }
    false
}

/// The active rules of a collection run, and whether rule files are still read
/// from the directories being scanned.
#[derive(Clone, Debug)]
pub struct RuleSet {
    pub purities: Vec<Rule>,
    pub impurities: Vec<Rule>,
    pub dynamic_purities: bool,
    pub dynamic_impurities: bool,
}

impl RuleSet {
    /// No rules, and rule files not read.
    pub fn empty() -> (r: RuleSet)
        ensures
            r.purities@.len() == 0,
            r.impurities@.len() == 0,
            !r.dynamic_purities,
            !r.dynamic_impurities,
    {
        RuleSet {
            purities: Vec::new(),
            impurities: Vec::new(),
            dynamic_purities: false,
            dynamic_impurities: false,
        }
    }
}

/// Whether a rule-file line holds a rule: it is not blank and not a `#` comment.
pub open spec fn is_rule_line(line: Seq<char>) -> bool {
    trim(line).len() > 0 && !starts_with(trim(line), "#"@)
}

/// The rules a rule file holds, each relative to `base_dir`: one per rule line,
/// trimmed, with `\` written as `/`.
pub open spec fn parse_rules(ls: Seq<Seq<char>>, base_dir: Seq<char>) -> Seq<(Seq<char>, Seq<char>)>
    decreases ls.len(),
{
    if ls.len() == 0 {
        seq![]
    } else {
        let prev = parse_rules(ls.drop_last(), base_dir);
        if is_rule_line(ls.last()) {
            prev.push((replace_char(trim(ls.last()), '\\', '/'), base_dir))
        } else {
            prev
        }
    }
}

/// Appends the rules of a rule file's content, relative to `base_dir`.
pub fn load_rules(content: &str, base_dir: &str, target: &mut Vec<Rule>)
    ensures
        rules_view(final(target)@) == rules_view(old(target)@) + parse_rules(lines(content@), base_dir@),
{
    let cs = chars_of(content);
    let ls = lines_exec(cs.as_slice());
    let ghost lv = ls@.map_values(|l: Vec<char>| l@);
    let ghost start = rules_view(target@);
    let hash = lit("#");
    let mut i: usize = 0;
    assert(lv.subrange(0, 0) =~= Seq::<Seq<char>>::empty());
    assert(start + parse_rules(seq![], base_dir@) =~= start);
    while i < ls.len()
        invariant
            lv == ls@.map_values(|l: Vec<char>| l@),
            lv == lines(content@),
            hash@ == "#"@,
            0 <= i <= ls@.len(),
            rules_view(target@) == start + parse_rules(lv.subrange(0, i as int), base_dir@),
        decreases ls@.len() - i,
    {
        assert(lv.subrange(0, i + 1).drop_last() =~= lv.subrange(0, i as int));
        assert(lv.subrange(0, i + 1).last() == ls@[i as int]@);
        let t = trim_exec(ls[i].as_slice());
        if t.len() > 0 && !starts_with_exec(t.as_slice(), hash.as_slice()) {
            let pat = replace_char_exec(t.as_slice(), '\\', '/');
            let ghost before = rules_view(target@);
            let rule = Rule {
                pattern: string_of(pat.as_slice()),
                base_dir: string_of(chars_of(base_dir).as_slice()),
            };
            target.push(rule);
            assert(rules_view(target@) =~= before.push((pat@, base_dir@)));
        }
        i += 1;
    }
    assert(lv.subrange(0, i as int) =~= lv);
}

/// Where a judged path goes.
pub open spec fn verdict(rules_p: Seq<(Seq<char>, Seq<char>)>, rules_i: Seq<(Seq<char>, Seq<char>)>, path: Seq<char>) -> int {
    let pure = any_matches(rules_p, path);
    let impure = any_matches(rules_i, path);
    if rules_p.len() > 0 {
        if pure {
            if impure { 2 } else { 1 }
        } else {
            0
        }
    } else if !impure {
        1
    } else {
        0
    }
}

/// Judges a path found while scanning: with an allowlist in force it must match
/// it, and then it is collected, or is a conflict when a blocklist rule matches
/// too; without an allowlist it is collected unless a blocklist rule matches.
pub fn evaluate_and_push(
    clean_path: &str,
    item_list: &mut Vec<String>,
    conflicts: &mut Vec<String>,
    rules: &RuleSet,
)
    ensures
        ({
            let v = verdict(rules_view(rules.purities@), rules_view(rules.impurities@), clean_path@);
            &&& strings_view(final(item_list)@) == if v == 1 {
                strings_view(old(item_list)@).push(clean_path@)
            } else {
                strings_view(old(item_list)@)
            }
            &&& strings_view(final(conflicts)@) == if v == 2 {
                strings_view(old(conflicts)@).push(clean_path@)
            } else {
                strings_view(old(conflicts)@)
            }
        }),
{
    let has_purities_rules = rules.purities.len() > 0;
    let is_pure = any_rule_matches(&rules.purities, clean_path);
    let is_impure = any_rule_matches(&rules.impurities, clean_path);
    let ghost items0 = strings_view(item_list@);
    let ghost conf0 = strings_view(conflicts@);
    let p = string_of(chars_of(clean_path).as_slice());
    if has_purities_rules {
        if is_pure {
            if is_impure {
                conflicts.push(p);
                assert(strings_view(conflicts@) =~= conf0.push(clean_path@));
            } else {
                item_list.push(p);
                assert(strings_view(item_list@) =~= items0.push(clean_path@));
            }
        }
    } else {
        if !is_impure {
            item_list.push(p);
            assert(strings_view(item_list@) =~= items0.push(clean_path@));
        }
    }
}

/// One judgement a scan makes: the purities and impurities in force, and the path.
pub type Judgement = (Seq<(Seq<char>, Seq<char>)>, Seq<(Seq<char>, Seq<char>)>, Seq<char>);

/// The collected and conflicting paths after judging each step in order with
/// `evaluate_and_push`, starting from `items` and `conflicts`.
pub open spec fn judge_all(
    steps: Seq<Judgement>,
    items: Seq<Seq<char>>,
    conflicts: Seq<Seq<char>>,
) -> (Seq<Seq<char>>, Seq<Seq<char>>)
    decreases steps.len(),
{
    if steps.len() == 0 {
        (items, conflicts)
    } else {
        let (i, c) = judge_all(steps.drop_last(), items, conflicts);
        let s = steps.last();
        let v = verdict(s.0, s.1, s.2);
        (if v == 1 { i.push(s.2) } else { i }, if v == 2 { c.push(s.2) } else { c })
    }
}

/// What a scan's judgements do to the two lists, whatever paths and rules it
/// meets: both lists only grow at the end; each judgement adds its path to at
/// most one of them; and a path is added to the conflicts only when an
/// allowlist is in force and both a purity and an impurity in force match it.
pub proof fn law_judgements_only_append(
    steps: Seq<Judgement>,
    items: Seq<Seq<char>>,
    conflicts: Seq<Seq<char>>,
)
    ensures
        ({
            let (fi, fc) = judge_all(steps, items, conflicts);
            &&& fi.len() >= items.len() && fi.subrange(0, items.len() as int) == items
            &&& fc.len() >= conflicts.len() && fc.subrange(0, conflicts.len() as int) == conflicts
            &&& (fi.len() - items.len()) + (fc.len() - conflicts.len()) <= steps.len()
            &&& forall|j: int| #![trigger fc[j]] conflicts.len() <= j < fc.len() ==> exists|k: int| 0 <= k < steps.len()
                && #[trigger] steps[k].2 == fc[j] && steps[k].0.len() > 0
                && any_matches(steps[k].0, fc[j]) && any_matches(steps[k].1, fc[j])
        }),
    decreases steps.len(),
{
    if steps.len() > 0 {
        let d = steps.drop_last();
        law_judgements_only_append(d, items, conflicts);
        let (i, c) = judge_all(d, items, conflicts);
        let (fi, fc) = judge_all(steps, items, conflicts);
        let s = steps.last();
        let v = verdict(s.0, s.1, s.2);
        assert(fi.subrange(0, items.len() as int) =~= items) by {
            assert(fi.subrange(0, items.len() as int) =~= i.subrange(0, items.len() as int));
        }
        assert(fc.subrange(0, conflicts.len() as int) =~= conflicts) by {
            assert(fc.subrange(0, conflicts.len() as int) =~= c.subrange(0, conflicts.len() as int));
        }
        assert forall|j: int| #![trigger fc[j]] conflicts.len() <= j < fc.len() implies exists|k: int| 0 <= k < steps.len()
            && #[trigger] steps[k].2 == fc[j] && steps[k].0.len() > 0
            && any_matches(steps[k].0, fc[j]) && any_matches(steps[k].1, fc[j]) by {
            if j < c.len() {
                assert(fc[j] == c[j]);
                let k = choose|k: int| 0 <= k < d.len() && #[trigger] d[k].2 == c[j] && d[k].0.len() > 0
                    && any_matches(d[k].0, c[j]) && any_matches(d[k].1, c[j]);
                assert(steps[k] == d[k]);
            } else {
                assert(v == 2);
                assert(fc[j] == s.2);
                assert(steps[steps.len() - 1] == s);
            }
        }
    }
}

/// The config line that makes purities win conflicts.
pub open spec fn purities_win_line() -> Seq<char> {
    "purities_overrides_impurities = true"@
}

/// The config line that makes impurities win conflicts.
pub open spec fn impurities_win_line() -> Seq<char> {
    "impurities_overrides_purities = true"@
}

/// The conflict preference a reservoir config sets: purities winning takes
/// precedence over impurities winning; with neither, the user is asked.
pub open spec fn config_priority(config: Seq<char>) -> (bool, bool) {
    if contains(config, purities_win_line()) {
        (true, false)
    } else if contains(config, impurities_win_line()) {
        (false, true)
    } else {
        (false, false)
    }
}

/// Reads the conflict preference of a reservoir config, with a line describing it.
pub fn resolve_config_priority(config_content: &str) -> (r: (bool, bool, &'static str))
    ensures
        (r.0, r.1) == config_priority(config_content@),
        r.0 ==> r.2@ == "Reservoir Config: Purities automatically win"@,
        !r.0 && r.1 ==> r.2@ == "Reservoir Config: Impurities silently win (Files excluded)"@,
        !r.0 && !r.1 ==> r.2@ == "Unset (Will warn on conflict)"@,
{
    let c = chars_of(config_content);
    let p = lit("purities_overrides_impurities = true");
    let i = lit("impurities_overrides_purities = true");
    let p_win = contains_exec(c.as_slice(), p.as_slice());
    let i_win = contains_exec(c.as_slice(), i.as_slice());
    if p_win {
        (true, false, "Reservoir Config: Purities automatically win")
    } else if i_win {
        (false, true, "Reservoir Config: Impurities silently win (Files excluded)")
    } else {
        (false, false, "Unset (Will warn on conflict)")
    }
}

/// The conflict preference for a collection run: a `--rule-priority` of
/// `purities` or `impurities` (in any letter case) decides, anything else
/// falls back to the config. The last field tells whether a given priority was
/// not recognised.
pub fn priority_for_run(rule_priority: Option<&str>, config_content: &str) -> (r: (bool, bool, &'static str, bool))
    ensures
        ({
            let (p, i, _, unknown) = r;
            match rule_priority {
                Some(s) => if eq_ignore_ascii_case(s@, "purities"@) {
                    p && !i && !unknown
                } else if eq_ignore_ascii_case(s@, "impurities"@) {
                    !p && i && !unknown
                } else {
                    (p, i) == config_priority(config_content@) && unknown
                },
                None => (p, i) == config_priority(config_content@) && !unknown,
            }
        }),
        rule_priority matches Some(s) && eq_ignore_ascii_case(s@, "purities"@) ==> r.2@
            == "CLI Override: Purities always win conflicts"@,
        rule_priority matches Some(s) && !eq_ignore_ascii_case(s@, "purities"@)
            && eq_ignore_ascii_case(s@, "impurities"@) ==> r.2@
            == "CLI Override: Impurities always win conflicts"@,
{
    match rule_priority {
        Some(s) => {
            let cs = chars_of(s);
            if eq_ignore_ascii_case_exec(cs.as_slice(), lit("purities").as_slice()) {
                (true, false, "CLI Override: Purities always win conflicts", false)
            } else if eq_ignore_ascii_case_exec(cs.as_slice(), lit("impurities").as_slice()) {
                (false, true, "CLI Override: Impurities always win conflicts", false)
            } else {
                let (p, i, m) = resolve_config_priority(config_content);
                (p, i, m, true)
            }
        },
        None => {
            let (p, i, m) = resolve_config_priority(config_content);
            (p, i, m, false)
        },
    }
}

/// Whether a config line sets a conflict preference.
pub open spec fn is_preference_line(line: Seq<char>) -> bool {
    starts_with(trim(line), "purities_overrides_impurities"@) || starts_with(
        trim(line),
        "impurities_overrides_purities"@,
    )
}

/// The config lines that are kept when a preference is saved.
pub open spec fn kept_lines(ls: Seq<Seq<char>>) -> Seq<Seq<char>>
    decreases ls.len(),
{
    if ls.len() == 0 {
        seq![]
    } else if is_preference_line(ls.last()) {
        kept_lines(ls.drop_last())
    } else {
        kept_lines(ls.drop_last()).push(ls.last())
    }
}

/// The config text with a saved conflict preference: every preference line
/// dropped, the two preference lines appended, each line ending in a newline.
pub open spec fn config_with_preference_spec(config: Seq<char>, p_win: bool, i_win: bool) -> Seq<char> {
    join_lines(
        kept_lines(lines(config)).push("purities_overrides_impurities = "@ + bool_text(p_win)).push(
            "impurities_overrides_purities = "@ + bool_text(i_win),
        ),
    )
}

/// The config text after saving a conflict preference.
pub fn config_with_preference(config_content: &str, p_win: bool, i_win: bool) -> (r: String)
    ensures
        r@ == config_with_preference_spec(config_content@, p_win, i_win),
{
    let cs = chars_of(config_content);
    let ls = lines_exec(cs.as_slice());
    let ghost lv = ls@.map_values(|l: Vec<char>| l@);
    let k1 = lit("purities_overrides_impurities");
    let k2 = lit("impurities_overrides_purities");
    let mut kept: Vec<Vec<char>> = Vec::new();
    let mut i: usize = 0;
    assert(lv.subrange(0, 0) =~= Seq::<Seq<char>>::empty());
    assert(kept@.map_values(|l: Vec<char>| l@) =~= Seq::<Seq<char>>::empty());
    while i < ls.len()
        invariant
            lv == ls@.map_values(|l: Vec<char>| l@),
            lv == lines(config_content@),
            k1@ == "purities_overrides_impurities"@,
            k2@ == "impurities_overrides_purities"@,
            0 <= i <= ls@.len(),
            kept@.map_values(|l: Vec<char>| l@) == kept_lines(lv.subrange(0, i as int)),
        decreases ls@.len() - i,
    {
        assert(lv.subrange(0, i + 1).drop_last() =~= lv.subrange(0, i as int));
        assert(lv.subrange(0, i + 1).last() == ls@[i as int]@);
        let t = trim_exec(ls[i].as_slice());
        if !starts_with_exec(t.as_slice(), k1.as_slice()) && !starts_with_exec(t.as_slice(), k2.as_slice()) {
            let ghost before = kept@.map_values(|l: Vec<char>| l@);
            let l = slice_chars(ls[i].as_slice(), 0, ls[i].len());
            assert(l@ =~= ls@[i as int]@);
            kept.push(l);
            assert(kept@.map_values(|l: Vec<char>| l@) =~= before.push(ls@[i as int]@));
        }
        i += 1;
    }
    assert(lv.subrange(0, i as int) =~= lv);
    let ghost before = kept@.map_values(|l: Vec<char>| l@);
    let mut l1 = lit("purities_overrides_impurities = ");
    push_all(&mut l1, bool_text_exec(p_win).as_slice());
    let mut l2 = lit("impurities_overrides_purities = ");
    push_all(&mut l2, bool_text_exec(i_win).as_slice());
    let ghost v1 = l1@;
    let ghost v2 = l2@;
    kept.push(l1);
    kept.push(l2);
    assert(kept@.map_values(|l: Vec<char>| l@) =~= before.push(v1).push(v2));
    let out = join_lines_exec(&kept);
    string_of(out.as_slice())
}

proof fn lemma_occurs_char(s: Seq<char>, p: Seq<char>, i: int, k: int)
    requires
        occurs_at(s, p, i),
        0 <= k < p.len(),
    ensures
        s[i + k] == p[k],
{
    assert(s.subrange(i, i + p.len())[k] == p[k]);
}

proof fn lemma_join_lines_end(ls: Seq<Seq<char>>)
    ensures
        join_lines(ls).len() == 0 <==> ls.len() == 0,
        ls.len() > 0 ==> join_lines(ls)[join_lines(ls).len() - 1] == '\n',
{
    if ls.len() > 0 {
        let j = join_lines(ls.drop_last());
        assert(join_lines(ls) == j + ls.last() + seq!['\n']);
    }
}

/// Text made of newline-ended lines contains a pattern without newlines only
/// where one of the lines does.
proof fn lemma_join_lines_contains(ls: Seq<Seq<char>>, pat: Seq<char>)
    requires
        !pat.contains('\n'),
        pat.len() > 0,
        contains(join_lines(ls), pat),
    ensures
        exists|k: int| 0 <= k < ls.len() && contains(#[trigger] ls[k], pat),
    decreases ls.len(),
{
    let whole = join_lines(ls);
    let i = choose|i: int| occurs_at(whole, pat, i);
    if ls.len() == 0 {
        assert(whole.len() == 0);
    } else {
        let j = join_lines(ls.drop_last());
        let l = ls.last();
        assert(whole == j + l + seq!['\n']);
        lemma_join_lines_end(ls.drop_last());
        let m = pat.len();
        if i + m <= j.len() {
            assert(occurs_at(j, pat, i)) by {
                assert(j.subrange(i, i + m) =~= whole.subrange(i, i + m));
            }
            lemma_join_lines_contains(ls.drop_last(), pat);
            let k = choose|k: int| 0 <= k < ls.drop_last().len() && contains(#[trigger] ls.drop_last()[k], pat);
            assert(ls[k] == ls.drop_last()[k]);
        } else if i < j.len() {
            lemma_occurs_char(whole, pat, i, j.len() - 1 - i);
            assert(whole[j.len() - 1] == j[j.len() - 1]);
            assert(pat[j.len() - 1 - i] == '\n');
            assert(pat.contains('\n'));
        } else if i + m <= j.len() + l.len() {
            assert(occurs_at(l, pat, i - j.len())) by {
                assert(l.subrange(i - j.len(), i - j.len() + m) =~= whole.subrange(i, i + m));
            }
            assert(contains(ls[ls.len() - 1], pat));
        } else {
            let k = j.len() + l.len() - i;
            lemma_occurs_char(whole, pat, i, k);
            assert(whole[(j.len() + l.len()) as int] == '\n');
            assert(pat[k] == '\n');
            assert(pat.contains('\n'));
        }
    }
}

proof fn lemma_join_lines_has(ls: Seq<Seq<char>>, k: int, pat: Seq<char>)
    requires
        0 <= k < ls.len(),
        contains(ls[k], pat),
    ensures
        contains(join_lines(ls), pat),
    decreases ls.len(),
{
    let j = join_lines(ls.drop_last());
    let l = ls.last();
    assert(join_lines(ls) == j + l + seq!['\n']);
    let i = choose|i: int| occurs_at(ls[k], pat, i);
    if k == ls.len() - 1 {
        assert(occurs_at(join_lines(ls), pat, j.len() + i)) by {
            assert(join_lines(ls).subrange(j.len() + i, j.len() + i + pat.len()) =~= l.subrange(i, i + pat.len()));
        }
    } else {
        assert(ls.drop_last()[k] == ls[k]);
        lemma_join_lines_has(ls.drop_last(), k, pat);
        let i2 = choose|i2: int| occurs_at(j, pat, i2);
        assert(occurs_at(join_lines(ls), pat, i2)) by {
            assert(join_lines(ls).subrange(i2, i2 + pat.len()) =~= j.subrange(i2, i2 + pat.len()));
        }
    }
}

/// Whether no kept line of a config mentions a preference setting.
pub open spec fn preference_free(config: Seq<char>) -> bool {
    forall|k: int|
        0 <= k < kept_lines(lines(config)).len() ==> !contains(#[trigger] kept_lines(lines(config))[k], purities_win_line())
            && !contains(kept_lines(lines(config))[k], impurities_win_line())
}

proof fn lemma_preference_lines(p: bool)
    ensures
        contains("purities_overrides_impurities = "@ + bool_text(p), purities_win_line()) == p,
        !contains("purities_overrides_impurities = "@ + bool_text(p), impurities_win_line()),
        contains("impurities_overrides_purities = "@ + bool_text(p), impurities_win_line()) == p,
        !contains("impurities_overrides_purities = "@ + bool_text(p), purities_win_line()),
{
    reveal_strlit("purities_overrides_impurities = ");
    reveal_strlit("impurities_overrides_purities = ");
    reveal_strlit("purities_overrides_impurities = true");
    reveal_strlit("impurities_overrides_purities = true");
    reveal_strlit("true");
    reveal_strlit("false");
    let a = "purities_overrides_impurities = "@ + bool_text(p);
    let b = "impurities_overrides_purities = "@ + bool_text(p);
    let pw = purities_win_line();
    let iw = impurities_win_line();
    if p {
        assert(occurs_at(a, pw, 0)) by { assert(a.subrange(0, 36) =~= pw); }
        assert(occurs_at(b, iw, 0)) by { assert(b.subrange(0, 36) =~= iw); }
    } else {
        assert forall|i: int| !occurs_at(a, pw, i) by {
            if occurs_at(a, pw, i) {
                if i == 0 { lemma_occurs_char(a, pw, i, 32); } else { lemma_occurs_char(a, pw, i, 0); }
            }
        }
        assert forall|i: int| !occurs_at(b, iw, i) by {
            if occurs_at(b, iw, i) {
                if i == 0 { lemma_occurs_char(b, iw, i, 32); } else { lemma_occurs_char(b, iw, i, 0); }
            }
        }
    }
    assert forall|i: int| !occurs_at(a, iw, i) by {
        if occurs_at(a, iw, i) { lemma_occurs_char(a, iw, i, 0); }
    }
    assert forall|i: int| !occurs_at(b, pw, i) by {
        if occurs_at(b, pw, i) { lemma_occurs_char(b, pw, i, 0); }
    }
}

/// A conflict preference saved into a config is the one read back from it,
/// provided no other line of the config mentions a preference setting.
pub proof fn law_saved_preference_is_read_back(config: Seq<char>, p_win: bool, i_win: bool)
    requires
        preference_free(config),
    ensures
        config_priority(config_with_preference_spec(config, p_win, i_win)) == (p_win, !p_win && i_win),
{
    reveal_strlit("purities_overrides_impurities = true");
    reveal_strlit("impurities_overrides_purities = true");
    let kl = kept_lines(lines(config));
    let l1 = "purities_overrides_impurities = "@ + bool_text(p_win);
    let l2 = "impurities_overrides_purities = "@ + bool_text(i_win);
    let all = kl.push(l1).push(l2);
    let out = join_lines(all);
    lemma_preference_lines(p_win);
    lemma_preference_lines(i_win);
    assert(all[kl.len() as int] == l1);
    assert(all[(kl.len() + 1) as int] == l2);
    assert(!purities_win_line().contains('\n')) by {
        if purities_win_line().contains('\n') {
            let k = choose|k: int| 0 <= k < purities_win_line().len() && purities_win_line()[k] == '\n';
        }
    }
    assert(!impurities_win_line().contains('\n')) by {
        if impurities_win_line().contains('\n') {
            let k = choose|k: int| 0 <= k < impurities_win_line().len() && impurities_win_line()[k] == '\n';
        }
    }
    if p_win {
        lemma_join_lines_has(all, kl.len() as int, purities_win_line());
    } else {
        if contains(out, purities_win_line()) {
            lemma_join_lines_contains(all, purities_win_line());
            let k = choose|k: int| 0 <= k < all.len() && contains(#[trigger] all[k], purities_win_line());
            if k < kl.len() {
                assert(all[k] == kl[k]);
            }
        }
        if i_win {
            lemma_join_lines_has(all, (kl.len() + 1) as int, impurities_win_line());
        } else {
            if contains(out, impurities_win_line()) {
                lemma_join_lines_contains(all, impurities_win_line());
                let k = choose|k: int| 0 <= k < all.len() && contains(#[trigger] all[k], impurities_win_line());
                if k < kl.len() {
                    assert(all[k] == kl[k]);
                }
            }
        }
    }
}

/// Where the rules of one kind come from in a collection run.
pub enum RuleSource {
    /// An empty override: no rules of that kind apply.
    Bypassed,
    /// A rule file given on the command line, read once; directories are not scanned for more.
    Static(String),
    /// The rule files found in the directories being scanned.
    Dynamic,
}

/// The source of rules for an override option as given on the command line.
pub fn rule_source(over: Option<&str>) -> (r: RuleSource)
    ensures
        match over {
            None => r is Dynamic,
            Some(p) => if p@.len() == 0 {
                r is Bypassed
            } else {
                r matches RuleSource::Static(f) && f@ == p@
            },
        },
{
    match over {
        None => RuleSource::Dynamic,
        Some(p) => {
            let cs = chars_of(p);
            if cs.len() == 0 {
                RuleSource::Bypassed
            } else {
                RuleSource::Static(string_of(cs.as_slice()))
            }
        },
    }
}

/// What becomes of the files that match both a purity and an impurity rule.
pub enum ConflictOutcome {
    /// Purities win: the files are collected.
    Include,
    /// Impurities win: the files are left out.
    Exclude,
    /// No preference: the user is asked, and they are left out unless included.
    Ask,
}

/// The outcome of conflicts under a preference.
pub fn conflict_outcome(p_win: bool, i_win: bool) -> (r: ConflictOutcome)
    ensures
        p_win ==> r is Include,
        !p_win && i_win ==> r is Exclude,
        !p_win && !i_win ==> r is Ask,
{
    if p_win {
        ConflictOutcome::Include
    } else if i_win {
        ConflictOutcome::Exclude
    } else {
        ConflictOutcome::Ask
    }
}

/// The preference saved from an answer: `p` (purities win) or `i`
/// (impurities win) in either case, spaces around it ignored; anything
/// else saves none.
pub fn preference_answer(input: &str) -> (r: Option<(bool, bool)>)
    ensures
        r == (if eq_ignore_ascii_case(trim(input@), "p"@) {
            Some((true, false))
        } else if eq_ignore_ascii_case(trim(input@), "i"@) {
            Some((false, true))
        } else {
            None::<(bool, bool)>
        }),
{
    let t = trim_exec(chars_of(input).as_slice());
    if eq_ignore_ascii_case_exec(t.as_slice(), lit("p").as_slice()) {
        Some((true, false))
    } else if eq_ignore_ascii_case_exec(t.as_slice(), lit("i").as_slice()) {
        Some((false, true))
    } else {
        None
    }
}

} // verus!

