//! The decisions of a collection scan: how a scanned path is named, whether a
//! directory is entered, and how an explicitly targeted file is judged.
//! Listing directories and asking the user stay with the caller.

use vstd::prelude::*;
use crate::text::{
    chars_of, chars_eq, lit, push_all, replace_char, replace_char_exec, slice_chars,
    starts_with, starts_with_exec, string_of,
};
use crate::rules::{
    Rule, RuleSet, any_matches, any_rule_matches, rule_matches, rule_view, rules_view,
};
use crate::paths::{components, components_exec, vv, join_path, join_path_exec, RuleFileRequest, request_view};

verus! {

/// How a scanned path is written in the staging area: `\` as `/`, without a
/// leading `./`, and the root itself as the empty text.
pub open spec fn scan_name(path: Seq<char>) -> Seq<char> {
    let p = replace_char(path, '\\', '/');
    let q = if starts_with(p, "./"@) { p.subrange(2, p.len() as int) } else { p };
    if q == "."@ { seq![] } else { q }
}

/// The staging name of a scanned path.
pub fn scan_name_exec(path: &str) -> (r: Vec<char>)
    ensures
        r@ == scan_name(path@),
{
    let p = replace_char_exec(chars_of(path).as_slice(), '\\', '/');
    proof {
        reveal_strlit("./");
        reveal_strlit(".");
    }
    let q = if starts_with_exec(p.as_slice(), lit("./").as_slice()) {
        slice_chars(p.as_slice(), 2, p.len())
    } else {
        p
    };
    if chars_eq(q.as_slice(), lit(".").as_slice()) {
        Vec::new()
    } else {
        q
    }
}

/// Whether a path lies in the reservoir's own `.dam` directory.
pub open spec fn inside_dam(path: Seq<char>) -> bool {
    components(path).contains(".dam"@)
}

/// Whether one of a path's components is `name`.
pub fn has_component(path: &str, name: &str) -> (r: bool)
    ensures
        r == components(path@).contains(name@),
{
    let comps = components_exec(chars_of(path).as_slice());
    let want = chars_of(name);
    let ghost cv = vv(comps@);
    let mut i: usize = 0;
    while i < comps.len()
        invariant
            cv == vv(comps@),
            cv == components(path@),
            want@ == name@,
            0 <= i <= comps@.len(),
            forall|j: int| 0 <= j < i ==> cv[j] != name@,
        decreases comps@.len() - i,
    {
        assert(cv[i as int] == comps@[i as int]@);
        if chars_eq(comps[i].as_slice(), want.as_slice()) {
            assert(cv[i as int] == name@);
            return true;
        }
        i += 1;
    }
    false
}

/// Whether a path lies in the reservoir's own `.dam` directory, which scans skip.
pub fn is_inside_dam(path: &str) -> (r: bool)
    ensures
        r == inside_dam(path@),
{
    has_component(path, ".dam")
}

/// Whether the search for rule files skips a directory: it lies in `.dam` or `.git`.
pub fn skips_rule_scan(dir: &str) -> (r: bool)
    ensures
        r == (components(dir@).contains(".dam"@) || components(dir@).contains(".git"@)),
{
    has_component(dir, ".dam") || has_component(dir, ".git")
}

/// The two kinds of rule file.
#[derive(PartialEq, Eq, Structural, Debug, Clone, Copy)]
pub enum RuleFileKind {
    /// A `.purities` allowlist.
    Purities,
    /// An `.impurities` blocklist.
    Impurities,
}

/// The kind of rule file a file name denotes, if any.
pub fn rule_file_kind(file_name: &str) -> (r: Option<RuleFileKind>)
    ensures
        r == if file_name@ == ".purities"@ {
            Some(RuleFileKind::Purities)
        } else if file_name@ == ".impurities"@ {
            Some(RuleFileKind::Impurities)
        } else {
            None
        },
{
    if crate::text::str_eq(file_name, ".purities") {
        Some(RuleFileKind::Purities)
    } else if crate::text::str_eq(file_name, ".impurities") {
        Some(RuleFileKind::Impurities)
    } else {
        None
    }
}

/// How a rule file's path is shown: `\` as `/`, without a leading `./`.
pub open spec fn rule_file_display_spec(path: Seq<char>) -> Seq<char> {
    let p = replace_char(path, '\\', '/');
    if starts_with(p, "./"@) { p.subrange(2, p.len() as int) } else { p }
}

/// The path of a rule file as the inspection shows it.
pub fn rule_file_display(path: &str) -> (r: String)
    ensures
        r@ == rule_file_display_spec(path@),
{
    let p = replace_char_exec(chars_of(path).as_slice(), '\\', '/');
    proof {
        reveal_strlit("./");
    }
    if starts_with_exec(p.as_slice(), lit("./").as_slice()) {
        string_of(slice_chars(p.as_slice(), 2, p.len()).as_slice())
    } else {
        string_of(p.as_slice())
    }
}

/// The prefix of a scanned directory: its staging name followed by `/`, or empty for the root.
pub open spec fn scan_dir_prefix(name: Seq<char>) -> Seq<char> {
    if name.len() == 0 { seq![] } else { name + "/"@ }
}

/// Whether some allowlist rule admits a directory: it matches the directory or
/// its pattern lies below it.
pub open spec fn dir_allowed(purities: Seq<(Seq<char>, Seq<char>)>, prefix: Seq<char>) -> bool {
    exists|i: int|
        0 <= i < purities.len() && (rule_matches(#[trigger] purities[i], prefix) || starts_with(
            purities[i].0,
            prefix,
        ))
}

/// What to do with a scanned directory.
#[derive(PartialEq, Eq, Structural, Debug, Clone, Copy)]
pub enum DirAction {
    /// Scan its contents.
    Enter,
    /// Leave it out silently.
    Skip,
    /// It breaks the impurities rules: ask whether to scan it anyway.
    AskImpure,
    /// It breaks the purities rules: ask whether to scan it anyway.
    AskNotPure,
}

/// Why a directory is blocked: 1 for a matching blocklist rule with no
/// allowlist in force, 2 for an allowlist that admits nothing under it, 0 when
/// it is not blocked.
pub open spec fn dir_block(rules_p: Seq<(Seq<char>, Seq<char>)>, rules_i: Seq<(Seq<char>, Seq<char>)>, prefix: Seq<char>) -> int {
    if any_matches(rules_i, prefix) && rules_p.len() == 0 {
        1
    } else if rules_p.len() > 0 && !dir_allowed(rules_p, prefix) {
        2
    } else {
        0
    }
}

/// The action for a scanned directory with the given staging name: a blocked
/// directory is offered to the user only when it was targeted explicitly and
/// is not the root; otherwise it is skipped.
pub open spec fn dir_action_spec(
    rules_p: Seq<(Seq<char>, Seq<char>)>,
    rules_i: Seq<(Seq<char>, Seq<char>)>,
    name: Seq<char>,
    explicit: bool,
) -> DirAction {
    let b = dir_block(rules_p, rules_i, scan_dir_prefix(name));
    if b == 0 {
        DirAction::Enter
    } else if explicit && name.len() > 0 {
        if b == 1 { DirAction::AskImpure } else { DirAction::AskNotPure }
    } else {
        DirAction::Skip
    }
}

fn scan_dir_prefix_exec(name: &[char]) -> (r: Vec<char>)
    ensures
        r@ == scan_dir_prefix(name@),
{
    if name.len() == 0 {
        Vec::new()
    } else {
        let mut r = slice_chars(name, 0, name.len());
        r.push('/');
        assert(r@ =~= name@ + "/"@) by { reveal_strlit("/"); }
        r
    }
}

/// Decides what to do with a scanned directory.
pub fn dir_action(rules: &RuleSet, name: &str, explicit: bool) -> (r: DirAction)
    ensures
        r == dir_action_spec(rules_view(rules.purities@), rules_view(rules.impurities@), name@, explicit),
{
    let ghost rp = rules_view(rules.purities@);
    let n = chars_of(name);
    let prefix = scan_dir_prefix_exec(n.as_slice());
    let prefix_s = string_of(prefix.as_slice());
    let is_dir_impure = any_rule_matches(&rules.impurities, prefix_s.as_str());
    let has_purities = rules.purities.len() > 0;
    let mut block: u8 = 0;
    if is_dir_impure && !has_purities {
        block = 1;
    } else if has_purities {
        let mut allowed = false;
        let mut i: usize = 0;
        while i < rules.purities.len()
            invariant
                rp == rules_view(rules.purities@),
                prefix@ == prefix_s@,
                0 <= i <= rules.purities@.len(),
                allowed == exists|j: int| 0 <= j < i && (rule_matches(#[trigger] rp[j], prefix@) || starts_with(rp[j].0, prefix@)),
            decreases rules.purities@.len() - i,
        {
            let m = rules.purities[i].matches(prefix_s.as_str());
            let s = starts_with_exec(chars_of(rules.purities[i].pattern.as_str()).as_slice(), prefix.as_slice());
            proof {
                assert(rp[i as int] == rule_view(rules.purities@[i as int]));
                if m || s {
                    assert(rule_matches(rp[i as int], prefix@) || starts_with(rp[i as int].0, prefix@));
                }
            }
            allowed = allowed || m || s;
            i += 1;
        }
        if !allowed {
            block = 2;
        }
    }
    if block == 0 {
        DirAction::Enter
    } else if explicit && n.len() > 0 {
        if block == 1 { DirAction::AskImpure } else { DirAction::AskNotPure }
    } else {
        DirAction::Skip
    }
}

/// The rules in force inside an entered directory (a clean slate when the user
/// overrode a block) and the rule files of that directory still to be read.
pub fn enter_dir(rules: &RuleSet, path: &str, name: &str, override_granted: bool) -> (r: (RuleSet, Vec<RuleFileRequest>))
    ensures
        r.0.dynamic_purities == rules.dynamic_purities,
        r.0.dynamic_impurities == rules.dynamic_impurities,
        rules_view(r.0.purities@) == if override_granted { seq![] } else { rules_view(rules.purities@) },
        rules_view(r.0.impurities@) == if override_granted { seq![] } else { rules_view(rules.impurities@) },
        r.1@.map_values(|x: RuleFileRequest| request_view(x)) == crate::paths::dir_requests(
            path@,
            scan_dir_prefix(name@),
            rules.dynamic_purities,
            rules.dynamic_impurities,
        ),
{
    let local = if override_granted {
        RuleSet {
            purities: Vec::new(),
            impurities: Vec::new(),
            dynamic_purities: rules.dynamic_purities,
            dynamic_impurities: rules.dynamic_impurities,
        }
    } else {
        RuleSet {
            purities: copy_rules(&rules.purities),
            impurities: copy_rules(&rules.impurities),
            dynamic_purities: rules.dynamic_purities,
            dynamic_impurities: rules.dynamic_impurities,
        }
    };
    proof {
        if override_granted {
            assert(rules_view(local.purities@) =~= Seq::<(Seq<char>, Seq<char>)>::empty());
            assert(rules_view(local.impurities@) =~= Seq::<(Seq<char>, Seq<char>)>::empty());
        }
    }
    let prefix = scan_dir_prefix_exec(chars_of(name).as_slice());
    let p = chars_of(path);
    let mut reqs: Vec<RuleFileRequest> = Vec::new();
    let ghost start = reqs@.map_values(|x: RuleFileRequest| request_view(x));
    assert(start =~= Seq::<(Seq<char>, Seq<char>, bool)>::empty());
    if rules.dynamic_purities {
        let f = join_path_exec(p.as_slice(), lit(".purities").as_slice());
        reqs.push(RuleFileRequest { file: string_of(f.as_slice()), base_dir: string_of(prefix.as_slice()), purities: true });
    }
    let ghost mid = reqs@.map_values(|x: RuleFileRequest| request_view(x));
    if rules.dynamic_impurities {
        let f = join_path_exec(p.as_slice(), lit(".impurities").as_slice());
        reqs.push(RuleFileRequest { file: string_of(f.as_slice()), base_dir: string_of(prefix.as_slice()), purities: false });
    }
    proof {
        let x1 = (join_path(path@, ".purities"@), scan_dir_prefix(name@), true);
        let x2 = (join_path(path@, ".impurities"@), scan_dir_prefix(name@), false);
        assert(mid =~= if rules.dynamic_purities { seq![x1] } else { Seq::<(Seq<char>, Seq<char>, bool)>::empty() });
        assert(reqs@.map_values(|x: RuleFileRequest| request_view(x)) =~= mid + if rules.dynamic_impurities {
            seq![x2]
        } else {
            Seq::<(Seq<char>, Seq<char>, bool)>::empty()
        });
    }
    (local, reqs)
}

/// Copies of a list of rules.
pub fn copy_rules(v: &Vec<Rule>) -> (r: Vec<Rule>)
    ensures
        rules_view(r@) == rules_view(v@),
{
    let mut r: Vec<Rule> = Vec::new();
    let mut i: usize = 0;
    while i < v.len()
        invariant
            0 <= i <= v@.len(),
            rules_view(r@) == rules_view(v@.subrange(0, i as int)),
        decreases v@.len() - i,
    {
        r.push(Rule { pattern: v[i].pattern.clone(), base_dir: v[i].base_dir.clone() });
        i += 1;
        proof {
            assert(rules_view(v@.subrange(0, i as int)) =~= rules_view(v@.subrange(0, i - 1)).push(rule_view(v@[i - 1])));
        }
    }
    proof {
        assert(v@.subrange(0, i as int) =~= v@);
    }
    r
}

/// How an explicitly targeted file fares against the rules.
pub struct SingleFileCheck {
    /// The file's staging name.
    pub clean_path: String,
    /// Whether the rules let it in without asking.
    pub passes: bool,
    /// Whether an allowlist is in force that it does not match.
    pub not_pure: bool,
    /// Whether a blocklist rule matches it.
    pub impure: bool,
}

/// The staging name of an explicitly targeted file: `\` as `/`, without a leading `./`.
pub open spec fn file_name_spec(path: Seq<char>) -> Seq<char> {
    let p = replace_char(path, '\\', '/');
    if starts_with(p, "./"@) { p.subrange(2, p.len() as int) } else { p }
}

/// Judges an explicitly targeted file: with an allowlist in force it must match
/// it and no blocklist rule; without one, no blocklist rule may match it.
pub fn check_single_file(path: &str, rules: &RuleSet) -> (r: SingleFileCheck)
    ensures
        ({
            let name = file_name_spec(path@);
            let rp = rules_view(rules.purities@);
            let ri = rules_view(rules.impurities@);
            &&& r.clean_path@ == name
            &&& r.impure == any_matches(ri, name)
            &&& r.not_pure == (rp.len() > 0 && !any_matches(rp, name))
            &&& r.passes == if rp.len() > 0 {
                any_matches(rp, name) && !any_matches(ri, name)
            } else {
                !any_matches(ri, name)
            }
        }),
{
    let p = replace_char_exec(chars_of(path).as_slice(), '\\', '/');
    proof { reveal_strlit("./"); }
    let clean = if starts_with_exec(p.as_slice(), lit("./").as_slice()) {
        slice_chars(p.as_slice(), 2, p.len())
    } else {
        p
    };
    let clean_s = string_of(clean.as_slice());
    let has_purities = rules.purities.len() > 0;
    let is_pure = any_rule_matches(&rules.purities, clean_s.as_str());
    let is_impure = any_rule_matches(&rules.impurities, clean_s.as_str());
    let passes = if has_purities { is_pure && !is_impure } else { !is_impure };
    SingleFileCheck { clean_path: clean_s, passes, not_pure: has_purities && !is_pure, impure: is_impure }
}

} // verus!
