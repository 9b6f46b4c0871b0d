//! Where the files of a snapshot may lie.

use vstd::prelude::*;
use crate::text::same_text;

verus! {

/// A part of a path.
#[derive(Debug, Clone)]
pub enum Part {
    Normal(String),
    Current,
    Parent,
    Rooted,
}

/// A part of a path as plain values.
pub enum Step {
    Into(Seq<char>),
    Stay,
    Up,
    Away,
}

impl View for Part {
    type V = Step;

    open spec fn view(&self) -> Step {
        match self {
            Part::Normal(name) => Step::Into(name@),
            Part::Current => Step::Stay,
            Part::Parent => Step::Up,
            Part::Rooted => Step::Away,
        }
    }
}

/// Why a path is refused.
#[derive(Debug, Clone, Copy, PartialEq, Eq, Structural)]
pub enum Refusal {
    Absolute,
    Escape,
    Symlink,
    Missing,
}

pub open spec fn steps(parts: Seq<Part>) -> Seq<Step> {
    parts.map_values(|part: Part| part@)
}

pub open spec fn names(path: Seq<String>) -> Seq<Seq<char>> {
    path.map_values(|name: String| name@)
}

/// A place lies at or below another.
pub open spec fn below(path: Seq<Seq<char>>, root: Seq<Seq<char>>) -> bool {
    root.len() <= path.len() && path.take(root.len() as int) == root
}

/// Where the first `n` steps from a place lead. Going up must not leave the root.
pub open spec fn walked(
    root: Seq<Seq<char>>,
    base: Seq<Seq<char>>,
    requested: Seq<Step>,
    n: nat,
) -> Result<Seq<Seq<char>>, Refusal>
    decreases n,
{
    if n == 0 {
        Ok(base)
    } else {
        match walked(root, base, requested, (n - 1) as nat) {
            Err(refusal) => Err(refusal),
            Ok(reached) => match requested[n - 1] {
                Step::Into(name) => Ok(reached.push(name)),
                Step::Stay => Ok(reached),
                Step::Up => if reached.len() > 0 && below(reached.drop_last(), root) {
                    Ok(reached.drop_last())
                } else {
                    Err(Refusal::Escape)
                },
                Step::Away => Err(Refusal::Absolute),
            },
        }
    }
}

/// Where a requested path leads from a place, if it stays below the root.
pub open spec fn resolved(root: Seq<Seq<char>>, base: Seq<Seq<char>>, requested: Seq<Step>) -> Result<
    Seq<Seq<char>>,
    Refusal,
> {
    match walked(root, base, requested, requested.len()) {
        Err(refusal) => Err(refusal),
        Ok(reached) => if below(reached, root) {
            Ok(reached)
        } else {
            Err(Refusal::Escape)
        },
    }
}

proof fn lemma_walk_stops(
    root: Seq<Seq<char>>,
    base: Seq<Seq<char>>,
    requested: Seq<Step>,
    n: nat,
    m: nat,
)
    requires
        n <= m,
        walked(root, base, requested, n) is Err,
    ensures
        walked(root, base, requested, m) == walked(root, base, requested, n),
    decreases m,
{
    if n < m {
        lemma_walk_stops(root, base, requested, n, (m - 1) as nat);
    }
}

/// Whether a place lies at or below another.
pub fn is_below(path: &Vec<String>, root: &Vec<String>) -> (result: bool)
    ensures
        result == below(names(path@), names(root@)),
{
    let ghost a = names(path@);
    let ghost b = names(root@);
    if root.len() > path.len() {
        return false;
    }
    let mut i: usize = 0;
    while i < root.len()
        invariant
            i <= root@.len() <= path@.len(),
            a == names(path@),
            b == names(root@),
            forall|k: int| 0 <= k < i ==> #[trigger] a[k] == b[k],
        decreases root@.len() - i,
    {
        assert(a[i as int] == path@[i as int]@ && b[i as int] == root@[i as int]@);
        if !same_text(path[i].as_str(), root[i].as_str()) {
            proof {
                assert(a.take(b.len() as int)[i as int] == a[i as int]);
            }
            return false;
        }
        i = i + 1;
    }
    assert(a.take(b.len() as int) =~= b);
    true
}

/// Follows a requested path from a place, without looking at any file.
pub fn lexical_path(root: &Vec<String>, base: &Vec<String>, requested: &Vec<Part>) -> (result: Result<
    Vec<String>,
    Refusal,
>)
    ensures
        match result {
            Ok(reached) => resolved(names(root@), names(base@), steps(requested@)) == Ok::<
                Seq<Seq<char>>,
                Refusal,
            >(names(reached@)),
            Err(refusal) => resolved(names(root@), names(base@), steps(requested@)) == Err::<
                Seq<Seq<char>>,
                Refusal,
            >(refusal),
        },
{
    let ghost wanted = steps(requested@);
    let ghost top = names(root@);
    let ghost start = names(base@);
    let mut reached: Vec<String> = Vec::new();
    let mut k: usize = 0;
    while k < base.len()
        invariant
            k <= base@.len(),
            start == names(base@),
            names(reached@) =~= start.take(k as int),
        decreases base@.len() - k,
    {
        let ghost before = reached@;
        let name = base[k].as_str().to_owned();
        reached.push(name);
        proof {
            assert(names(reached@) =~= names(before).push(name@));
            assert(start[k as int] == base@[k as int]@);
        }
        k = k + 1;
    }
    assert(start.take(start.len() as int) =~= start);
    let mut i: usize = 0;
    while i < requested.len()
        invariant
            i <= requested@.len(),
            wanted == steps(requested@),
            top == names(root@),
            start == names(base@),
            walked(top, start, wanted, i as nat) == Ok::<Seq<Seq<char>>, Refusal>(
                names(reached@),
            ),
        decreases requested@.len() - i,
    {
        assert(wanted[i as int] == requested@[i as int]@);
        let ghost before = reached@;
        match &requested[i] {
            Part::Normal(name) => {
                let copy = name.as_str().to_owned();
                reached.push(copy);
                assert(names(reached@) =~= names(before).push(name@));
            },
            Part::Current => {},
            Part::Parent => {
                let popped: bool = reached.len() > 0;
                if popped {
                    reached.truncate(reached.len() - 1);
                    assert(names(reached@) =~= names(before).drop_last());
                }
                if !popped || !is_below(&reached, root) {
                    proof {
                        lemma_walk_stops(top, start, wanted, (i + 1) as nat, wanted.len());
                    }
                    return Err(Refusal::Escape);
                }
            },
            Part::Rooted => {
                proof {
                    lemma_walk_stops(top, start, wanted, (i + 1) as nat, wanted.len());
                }
                return Err(Refusal::Absolute);
            },
        }
        i = i + 1;
    }
    if !is_below(&reached, root) {
        return Err(Refusal::Escape);
    }
    Ok(reached)
}

/// Whether the file that a path names in the end may be read.
pub fn check_resolved(root: &Vec<String>, canonical: &Vec<String>, is_file: bool) -> (result: Result<
    (),
    Refusal,
>)
    ensures
        result == (if !below(names(canonical@), names(root@)) {
            Err::<(), Refusal>(Refusal::Symlink)
        } else if !is_file {
            Err::<(), Refusal>(Refusal::Missing)
        } else {
            Ok::<(), Refusal>(())
        }),
{
    if !is_below(canonical, root) {
        Err(Refusal::Symlink)
    } else if !is_file {
        Err(Refusal::Missing)
    } else {
        Ok(())
    }
}

impl Refusal {
    /// The code of a diagnostic.
    pub fn code(self) -> (code: &'static str)
        ensures
            code@ == match self {
                Refusal::Absolute => "E_INCLUDE_ABSOLUTE"@,
                Refusal::Escape => "E_INCLUDE_ESCAPE"@,
                Refusal::Symlink => "E_INCLUDE_SYMLINK"@,
                Refusal::Missing => "E_INCLUDE_MISSING"@,
            },
    {
        match self {
            Refusal::Absolute => "E_INCLUDE_ABSOLUTE",
            Refusal::Escape => "E_INCLUDE_ESCAPE",
            Refusal::Symlink => "E_INCLUDE_SYMLINK",
            Refusal::Missing => "E_INCLUDE_MISSING",
        }
    }

    /// The words of a diagnostic.
    pub fn detail(self) -> (detail: &'static str)
        ensures
            detail@ == match self {
                Refusal::Absolute => "absolute paths are forbidden"@,
                Refusal::Escape => "path escapes snapshot root"@,
                Refusal::Symlink => "resolved path escapes snapshot root"@,
                Refusal::Missing => "zone input is not a regular file"@,
            },
    {
        match self {
            Refusal::Absolute => "absolute paths are forbidden",
            Refusal::Escape => "path escapes snapshot root",
            Refusal::Symlink => "resolved path escapes snapshot root",
            Refusal::Missing => "zone input is not a regular file",
        }
    }
}

/// A requested path that is followed without a refusal stays below the root.
pub proof fn resolved_paths_stay_below_root(
    root: Seq<Seq<char>>,
    base: Seq<Seq<char>>,
    requested: Seq<Step>,
)
    ensures
        resolved(root, base, requested) is Ok ==> below(resolved(root, base, requested)->Ok_0, root),
{
}

/// A place lies below another when its path goes on from there.
pub proof fn places_below_go_on_from_there(path: Seq<Seq<char>>, root: Seq<Seq<char>>)
    ensures
        below(path, root) <==> exists|rest: Seq<Seq<char>>| path == #[trigger] (root + rest),
{
    if below(path, root) {
        let rest = path.skip(root.len() as int);
        assert(path =~= path.take(root.len() as int) + rest);
        assert(path == root + rest);
    }
    if exists|rest: Seq<Seq<char>>| path == #[trigger] (root + rest) {
        let rest = choose|rest: Seq<Seq<char>>| path == #[trigger] (root + rest);
        assert(path.take(root.len() as int) =~= root);
    }
}

proof fn lemma_walk_on(
    root: Seq<Seq<char>>,
    base: Seq<Seq<char>>,
    requested: Seq<Step>,
    last: Step,
    n: nat,
)
    requires
        n <= requested.len(),
    ensures
        walked(root, base, requested.push(last), n) == walked(root, base, requested, n),
    decreases n,
{
    if n > 0 {
        lemma_walk_on(root, base, requested, last, (n - 1) as nat);
        assert(requested.push(last)[n - 1] == requested[n - 1]);
    }
}

/// One step more leads into what it names, stays, or goes back up unless that leaves the
/// root; a path that starts elsewhere is refused.
pub proof fn paths_are_followed_step_by_step(
    root: Seq<Seq<char>>,
    base: Seq<Seq<char>>,
    requested: Seq<Step>,
    last: Step,
)
    requires
        resolved(root, base, requested) is Ok,
    ensures
        ({
            let reached = resolved(root, base, requested)->Ok_0;
            let after = resolved(root, base, requested.push(last));
            match last {
                Step::Into(name) => after is Ok && after->Ok_0 == reached.push(name),
                Step::Stay => after is Ok && after->Ok_0 == reached,
                Step::Up => if reached == root {
                    after is Err
                } else {
                    after is Ok && after->Ok_0 == reached.drop_last()
                },
                Step::Away => after is Err,
            }
        }),
{
    let reached = resolved(root, base, requested)->Ok_0;
    lemma_walk_on(root, base, requested, last, requested.len());
    assert(requested.push(last)[requested.len() as int] == last);
    match last {
        Step::Into(name) => {
            assert(reached.push(name).take(root.len() as int) =~= reached.take(root.len() as int));
        },
        Step::Up => {
            if reached.len() == root.len() {
                assert(reached =~= reached.take(root.len() as int));
            } else {
                assert(reached.drop_last().take(root.len() as int) =~= reached.take(
                    root.len() as int,
                ));
            }
        },
        _ => {},
    }
}

/// Why a report may not be written where it was asked for.
#[derive(Debug, Clone, Copy, PartialEq, Eq, Structural)]
pub enum OutputRefusal {
    InsideRoot,
    ReplacesPolicy,
    ResolvesInsideRoot,
    ResolvesToPolicy,
}

/// Why an output is refused, if it is. The output is named in its directory; if it
/// exists, it resolves to a place of its own.
pub open spec fn output_refusal(
    roots: (Seq<Seq<char>>, Seq<Seq<char>>),
    policy: Seq<Seq<char>>,
    directory: Seq<Seq<char>>,
    file_name: Seq<char>,
    existing: Option<Seq<Seq<char>>>,
) -> Option<OutputRefusal> {
    if below(directory, roots.0) || below(directory, roots.1) {
        Some(OutputRefusal::InsideRoot)
    } else if directory.push(file_name) == policy {
        Some(OutputRefusal::ReplacesPolicy)
    } else {
        match existing {
            None => None,
            Some(place) => if below(place, roots.0) || below(place, roots.1) {
                Some(OutputRefusal::ResolvesInsideRoot)
            } else if place == policy {
                Some(OutputRefusal::ResolvesToPolicy)
            } else {
                None
            },
        }
    }
}

pub open spec fn place_of(path: Option<Vec<String>>) -> Option<Seq<Seq<char>>> {
    match path {
        Some(path) => Some(names(path@)),
        None => None,
    }
}

fn same_place(a: &Vec<String>, b: &Vec<String>) -> (same: bool)
    ensures
        same == (names(a@) == names(b@)),
{
    if a.len() != b.len() {
        assert(names(a@).len() != names(b@).len());
        return false;
    }
    let same = is_below(a, b);
    assert(names(a@).take(names(b@).len() as int) =~= names(a@));
    same
}

/// Whether a report may be written to a file: outside both snapshots, and not over
/// the policy.
pub fn check_output(
    old_root: &Vec<String>,
    new_root: &Vec<String>,
    policy: &Vec<String>,
    directory: &Vec<String>,
    file_name: &str,
    existing: &Option<Vec<String>>,
) -> (refusal: Option<OutputRefusal>)
    ensures
        refusal == output_refusal(
            (names(old_root@), names(new_root@)),
            names(policy@),
            names(directory@),
            file_name@,
            place_of(*existing),
        ),
{
    if is_below(directory, old_root) || is_below(directory, new_root) {
        return Some(OutputRefusal::InsideRoot);
    }
    let ghost candidate = names(directory@).push(file_name@);
    let ghost other = names(policy@);
    let mut replaces = false;
    if policy.len() > 0 && policy.len() - 1 == directory.len() {
        let last: usize = policy.len() - 1;
        replaces = is_below(policy, directory) && same_text(policy[last].as_str(), file_name);
        proof {
            assert(other[last as int] == policy@[last as int]@);
            assert(other =~= other.take(last as int).push(other[last as int]));
            if candidate == other {
                assert(other.take(last as int) =~= names(directory@));
            }
        }
    }
    if replaces {
        return Some(OutputRefusal::ReplacesPolicy);
    }
    match existing {
        Some(place) => if is_below(place, old_root) || is_below(place, new_root) {
            Some(OutputRefusal::ResolvesInsideRoot)
        } else if same_place(place, policy) {
            Some(OutputRefusal::ResolvesToPolicy)
        } else {
            None
        },
        None => None,
    }
}

impl OutputRefusal {
    /// The words of a diagnostic.
    pub fn detail(self) -> (detail: &'static str)
        ensures
            detail@ == match self {
                OutputRefusal::InsideRoot => "output must be outside both immutable snapshot roots"@,
                OutputRefusal::ReplacesPolicy => "output must not replace the policy file"@,
                OutputRefusal::ResolvesInsideRoot => "existing output resolves inside an immutable snapshot root"@,
                OutputRefusal::ResolvesToPolicy => "existing output resolves to the policy file"@,
            },
    {
        match self {
            OutputRefusal::InsideRoot => "output must be outside both immutable snapshot roots",
            OutputRefusal::ReplacesPolicy => "output must not replace the policy file",
            OutputRefusal::ResolvesInsideRoot =>
            "existing output resolves inside an immutable snapshot root",
            OutputRefusal::ResolvesToPolicy => "existing output resolves to the policy file",
        }
    }
}

/// A report that is not refused is written outside both snapshots.
pub proof fn reports_stay_outside(
    roots: (Seq<Seq<char>>, Seq<Seq<char>>),
    policy: Seq<Seq<char>>,
    directory: Seq<Seq<char>>,
    file_name: Seq<char>,
    existing: Option<Seq<Seq<char>>>,
)
    requires
        output_refusal(roots, policy, directory, file_name, existing) is None,
    ensures
        !below(directory, roots.0),
        !below(directory, roots.1),
        directory.push(file_name) != policy,
        existing matches Some(place) ==> !below(place, roots.0) && !below(place, roots.1) && place
            != policy,
{
}

} // verus!
