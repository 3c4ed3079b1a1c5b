//! Finding the reservoir a command works in: the nearest directory holding a
//! `.dam` directory, from the working directory up to the root, and the next
//! one above it, about which the user is warned.

use vstd::prelude::*;
use crate::paths::{accum_dir, components, components_exec, join_path, join_path_exec, vv};
use crate::seal::strings_view;
use crate::text::{chars_of, lit, string_of};

verus! {

/// How many components stay when the search reaches its top: the root
/// stays, a relative path is popped down to nothing.
pub open spec fn search_floor(c: Seq<Seq<char>>) -> int {
    if c.len() > 0 && c[0] == "/"@ {
        1
    } else {
        0
    }
}

/// The directories searched for a reservoir, nearest first: the working
/// directory, then each parent in turn (`PathBuf::pop`), up to the root.
pub open spec fn search_chain(cwd: Seq<char>) -> Seq<Seq<char>> {
    let c = components(cwd);
    Seq::new((c.len() - search_floor(c) + 1) as nat, |i: int| accum_dir(c, c.len() - i))
}

/// The directories searched for a reservoir, nearest first.
pub fn search_dirs(cwd: &str) -> (r: Vec<String>)
    ensures
        strings_view(r@) == search_chain(cwd@),
{
    let c = components_exec(chars_of(cwd).as_slice());
    let ghost cv = vv(c@);
    assert(cv == components(cwd@));
    let n = c.len();
    let mut acc: Vec<Vec<char>> = Vec::new();
    acc.push(Vec::new());
    let mut k: usize = 0;
    while k < n
        invariant
            cv == vv(c@),
            n == c@.len(),
            k <= n,
            acc@.len() == k + 1,
            forall|j: int| 0 <= j <= k ==> #[trigger] acc@[j]@ == accum_dir(cv, j),
        decreases n - k,
    {
        let next = join_path_exec(acc[k].as_slice(), c[k].as_slice());
        acc.push(next);
        k += 1;
    }
    let floor: usize = if n > 0 && crate::text::chars_eq(c[0].as_slice(), lit("/").as_slice()) {
        1
    } else {
        0
    };
    assert(cv.len() == n);
    assert(floor == search_floor(cv)) by {
        if n > 0 {
            assert(cv[0] == c@[0]@);
        }
    }
    let count = acc.len() - floor;
    let mut r: Vec<String> = Vec::new();
    let mut i: usize = 0;
    while i < count
        invariant
            count == n + 1 - floor,
            cv == vv(c@),
            n == c@.len(),
            floor <= n || n == 0,
            floor == search_floor(cv),
            acc@.len() == n + 1,
            forall|j: int| 0 <= j <= n ==> #[trigger] acc@[j]@ == accum_dir(cv, j),
            i <= n - floor + 1,
            cv == components(cwd@),
            search_chain(cwd@).len() == n - floor + 1,
            strings_view(r@) == search_chain(cwd@).subrange(0, i as int),
        decreases n - floor + 1 - i,
    {
        let s = string_of(acc[n - i].as_slice());
        assert(search_chain(cwd@)[i as int] == accum_dir(cv, n - i));
        let ghost before = strings_view(r@);
        r.push(s);
        i += 1;
        proof {
            assert(strings_view(r@) =~= before.push(s@));
            assert(search_chain(cwd@).subrange(0, i as int) =~= search_chain(cwd@).subrange(
                0,
                i - 1,
            ).push(s@));
        }
    }
    proof {
        assert(search_chain(cwd@).subrange(0, i as int) =~= search_chain(cwd@));
    }
    r
}

/// The first index at or after `i` where `s` is true, or the length when none is.
pub open spec fn first_true(s: Seq<bool>, i: int) -> int
    decreases s.len() - i,
{
    if i < 0 || i >= s.len() {
        s.len() as int
    } else if s[i] {
        i
    } else {
        first_true(s, i + 1)
    }
}

/// The first index at or after `i` where `s` is true, or the length when none is.
pub fn first_true_exec(s: &Vec<bool>, i: usize) -> (r: usize)
    requires
        i <= s@.len(),
    ensures
        r == first_true(s@, i as int),
{
    let mut k = i;
    while k < s.len() && !s[k]
        invariant
            i <= k <= s@.len(),
            first_true(s@, k as int) == first_true(s@, i as int),
        decreases s@.len() - k,
    {
        k += 1;
    }
    k
}

proof fn lemma_first_true_bounds(s: Seq<bool>, i: int)
    requires
        0 <= i <= s.len(),
    ensures
        i <= first_true(s, i) <= s.len(),
    decreases s.len() - i,
{
    if i < s.len() && !s[i] {
        lemma_first_true_bounds(s, i + 1);
    }
}

/// Given which searched directories hold `.dam`, nearest first: the index of
/// the reservoir to work in (the nearest), and of the next one above it.
pub fn pick_reservoirs(has_dam: &Vec<bool>) -> (r: (Option<usize>, Option<usize>))
    ensures
        r.0 == (if first_true(has_dam@, 0) < has_dam@.len() {
            Some(first_true(has_dam@, 0) as usize)
        } else {
            None::<usize>
        }),
        r.1 == (match r.0 {
            Some(a) => if first_true(has_dam@, a + 1) < has_dam@.len() {
                Some(first_true(has_dam@, a + 1) as usize)
            } else {
                None::<usize>
            },
            None => None::<usize>,
        }),
{
    let a = first_true_exec(has_dam, 0);
    proof {
        lemma_first_true_bounds(has_dam@, 0);
    }
    if a == has_dam.len() {
        return (None, None);
    }
    let b = first_true_exec(has_dam, a + 1);
    proof {
        lemma_first_true_bounds(has_dam@, a + 1);
    }
    if b == has_dam.len() {
        (Some(a), None)
    } else {
        (Some(a), Some(b))
    }
}

/// The path of the config file of the reservoir in `dir`.
pub fn reservoir_config_path(dir: &str) -> (r: String)
    ensures
        r@ == join_path(dir@, ".dam/config.toml"@),
{
    let name = lit(".dam/config.toml");
    string_of(join_path_exec(chars_of(dir).as_slice(), name.as_slice()).as_slice())
}

} // verus!
