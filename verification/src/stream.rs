//! Streams: named lines of seals, with their descriptive metadata.

use vstd::prelude::*;
use crate::text::{chars_of, decimal, decimal_exec, lit, push_all, string_of, str_eq, trim, trim_exec};
use crate::seal::strings_view;

verus! {

/// The metadata of a stream, and the latest seal made in it.
#[derive(Clone, Debug)]
pub struct StreamMeta {
    pub name: String,
    pub description: String,
    pub owner: String,
    pub priority: String,
    pub status: String,
    pub created_at: String,
    pub target: String,
    pub goals: Vec<String>,
    pub latest_seal: Option<String>,
}

/// Calls `chrono::Utc::now().to_rfc3339()`. Claims nothing of the result:
/// it is the current time.
#[verifier::external_body]
pub(crate) fn now_rfc3339() -> String {
    chrono::Utc::now().to_rfc3339()
}

/// The priority a stream gets unless told otherwise: `High` for `main`, else `Normal`.
pub fn default_priority(name: &str) -> (r: &'static str)
    ensures
        r@ == if name@ == "main"@ { "High"@ } else { "Normal"@ },
{
    if str_eq(name, "main") {
        "High"
    } else {
        "Normal"
    }
}

/// The metadata of a stream that has none recorded yet, created now and owned
/// by `owner`: a standard active stream targeting `main`, with no goals and no seals.
pub fn new_stream_meta(name: &str, owner: String) -> (r: StreamMeta)
    ensures
        r.name@ == name@,
        r.description@ == "Standard workflow stream"@,
        r.owner@ == owner@,
        r.priority@ == if name@ == "main"@ { "High"@ } else { "Normal"@ },
        r.status@ == "Active"@,
        r.target@ == "main"@,
        r.goals@.len() == 0,
        r.latest_seal is None,
{
    let p = default_priority(name);
    StreamMeta {
        name: string_of(chars_of(name).as_slice()),
        description: string_of(lit("Standard workflow stream").as_slice()),
        owner,
        priority: string_of(chars_of(p).as_slice()),
        status: string_of(lit("Active").as_slice()),
        created_at: now_rfc3339(),
        target: string_of(lit("main").as_slice()),
        goals: Vec::new(),
        latest_seal: None,
    }
}

/// The metadata of stream `name`: what is recorded for it, or else new
/// metadata owned by `user` (`Unknown` when no user is known).
pub fn get_or_create_meta(name: &str, recorded: Option<StreamMeta>, user: Option<String>) -> (r: StreamMeta)
    ensures
        recorded is Some ==> r == recorded->0,
        recorded is None ==> {
            &&& r.name@ == name@
            &&& r.description@ == "Standard workflow stream"@
            &&& r.owner@ == match user {
                Some(u) => u@,
                None => "Unknown"@,
            }
            &&& r.priority@ == if name@ == "main"@ { "High"@ } else { "Normal"@ }
            &&& r.status@ == "Active"@
            &&& r.target@ == "main"@
            &&& r.goals@.len() == 0
            &&& r.latest_seal is None
        },
{
    match recorded {
        Some(m) => m,
        None => {
            let owner = match user {
                Some(u) => u,
                None => string_of(lit("Unknown").as_slice()),
            };
            new_stream_meta(name, owner)
        },
    }
}

/// Where the metadata of stream `name` is stored.
pub fn stream_meta_path(name: &str) -> (r: String)
    ensures
        r@ == ".dam/streams/"@ + name@,
{
    let mut v = lit(".dam/streams/");
    push_all(&mut v, chars_of(name).as_slice());
    string_of(v.as_slice())
}

/// The numbered lines of a stream's goals, counting from 1.
pub open spec fn goal_lines(goals: Seq<Seq<char>>) -> Seq<Seq<char>>
    decreases goals.len(),
{
    if goals.len() == 0 {
        seq![]
    } else {
        goal_lines(goals.drop_last()).push(decimal(goals.len()) + ". "@ + goals.last())
    }
}

/// The lines that describe a stream: its fields, its latest seal, and its
/// goals or a hint that it has none, then a blank line.
pub open spec fn stream_report_lines(m: StreamMeta) -> Seq<Seq<char>> {
    let head = seq![
        "\nCurrent Stream"@,
        m.name@,
        "──────────────"@,
        "Description : "@ + m.description@,
        "Owner       : "@ + m.owner@,
        "Priority    : "@ + m.priority@,
        "Target      : "@ + m.target@,
        "Status      : "@ + m.status@,
        "Latest Seal : "@ + match m.latest_seal {
            Some(l) => l@,
            None => "(None)"@,
        },
    ];
    let goals = strings_view(m.goals@);
    let tail = if goals.len() > 0 {
        seq!["\nGoals"@, "─────"@] + goal_lines(goals)
    } else {
        seq!["\nGoals: None configured. Use 'dam stream set-goal' to add one."@]
    };
    head + tail + seq![Seq::<char>::empty()]
}

fn cat(a: &str, b: &str) -> (r: String)
    ensures
        r@ == a@ + b@,
{
    let mut v = chars_of(a);
    push_all(&mut v, chars_of(b).as_slice());
    string_of(v.as_slice())
}

fn text(a: &str) -> (r: String)
    ensures
        r@ == a@,
{
    string_of(chars_of(a).as_slice())
}

/// The lines that describe stream `m`.
pub fn stream_report(m: &StreamMeta) -> (r: Vec<String>)
    ensures
        strings_view(r@) == stream_report_lines(*m),
{
    let mut r: Vec<String> = Vec::new();
    r.push(text("\nCurrent Stream"));
    r.push(m.name.clone());
    r.push(text("──────────────"));
    r.push(cat("Description : ", m.description.as_str()));
    r.push(cat("Owner       : ", m.owner.as_str()));
    r.push(cat("Priority    : ", m.priority.as_str()));
    r.push(cat("Target      : ", m.target.as_str()));
    r.push(cat("Status      : ", m.status.as_str()));
    match &m.latest_seal {
        Some(l) => r.push(cat("Latest Seal : ", l.as_str())),
        None => r.push(cat("Latest Seal : ", "(None)")),
    }
    let ghost goals = strings_view(m.goals@);
    let ghost head = strings_view(r@);
    assert(head.len() == 9);
    if m.goals.len() > 0 {
        r.push(text("\nGoals"));
        r.push(text("─────"));
        let mut i: usize = 0;
        assert(goals.subrange(0, 0) =~= Seq::<Seq<char>>::empty());
        while i < m.goals.len()
            invariant
                goals == strings_view(m.goals@),
                i <= m.goals@.len(),
                strings_view(r@) == head + seq!["\nGoals"@, "─────"@] + goal_lines(goals.subrange(0, i as int)),
            decreases m.goals@.len() - i,
        {
            let mut v = decimal_exec((i + 1) as u64);
            push_all(&mut v, lit(". ").as_slice());
            push_all(&mut v, chars_of(m.goals[i].as_str()).as_slice());
            let ghost before = strings_view(r@);
            let line = string_of(v.as_slice());
            r.push(line);
            proof {
                assert(goals.subrange(0, i + 1).drop_last() =~= goals.subrange(0, i as int));
                assert(goals.subrange(0, i + 1).last() == m.goals@[i as int]@);
                assert(strings_view(r@) =~= before.push(line@));
            }
            i += 1;
        }
        assert(goals.subrange(0, i as int) =~= goals);
    } else {
        r.push(text("\nGoals: None configured. Use 'dam stream set-goal' to add one."));
    }
    let ghost body = strings_view(r@);
    let e = String::new();
    assert(e@ == Seq::<char>::empty());
    r.push(e);
    proof {
        assert(strings_view(r@) =~= body.push(Seq::<char>::empty()));
        assert(strings_view(r@) =~= stream_report_lines(*m));
    }
    r
}

/// The line of a stream in the list of streams, marked when it is the active one.
pub open spec fn stream_list_text(name: Seq<char>, status: Seq<char>, priority: Seq<char>, active: bool) -> Seq<char> {
    if active {
        "  * "@ + name + " (active) - ["@ + status + " Priority: "@ + priority + "]"@
    } else {
        "    "@ + name + " - ["@ + status + " Priority: "@ + priority + "]"@
    }
}

/// The line of stream `name` in the list of streams, `current` being the
/// content of the file that names the active stream.
pub fn stream_list_line(name: &str, meta: &StreamMeta, current: &str) -> (r: String)
    ensures
        r@ == stream_list_text(name@, meta.status@, meta.priority@, name@ == trim(current@)),
{
    let n = chars_of(name);
    let cur = trim_exec(chars_of(current).as_slice());
    let active = crate::text::chars_eq(n.as_slice(), cur.as_slice());
    let mut v = if active {
        lit("  * ")
    } else {
        lit("    ")
    };
    push_all(&mut v, n.as_slice());
    if active {
        push_all(&mut v, lit(" (active) - [").as_slice());
    } else {
        push_all(&mut v, lit(" - [").as_slice());
    }
    push_all(&mut v, chars_of(meta.status.as_str()).as_slice());
    push_all(&mut v, lit(" Priority: ").as_slice());
    push_all(&mut v, chars_of(meta.priority.as_str()).as_slice());
    push_all(&mut v, lit("]").as_slice());
    string_of(v.as_slice())
}

} // verus!


