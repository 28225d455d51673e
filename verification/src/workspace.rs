//! Which targets a workspace is generated for, and how its symlinks change.
use vstd::prelude::*;

verus! {

/// The target triples that `--default` stands for.
pub open spec fn default_target_views() -> Seq<Seq<char>> {
    seq!["riscv64gc-unknown-none-elf"@]
}

pub fn default_targets() -> (r: Vec<String>)
    ensures
        r@.map_values(|s: String| s@) == default_target_views(),
{
    let mut r: Vec<String> = Vec::new();
    r.push("riscv64gc-unknown-none-elf".to_owned());
    proof {
        assert(r@.map_values(|s: String| s@) =~= default_target_views());
    }
    r
}

/// Generate or regenerate workspaces for the given targets
/// (regenerates all existing workspaces if no targets were provided).
pub struct WorkspaceCommand {
    /// target triple to generate a workspace for (can be repeated)
    pub target: Vec<String>,
    /// include the default targets
    pub default: bool,
}

/// `s` occurs in `v`.
pub open spec fn holds(v: Seq<String>, s: Seq<char>) -> bool {
    exists|i: int| 0 <= i < v.len() && (#[trigger] v[i])@ == s
}

/// No two strings of `v` are equal.
pub open spec fn distinct(v: Seq<String>) -> bool {
    forall|i: int, j: int| 0 <= i < j < v.len() ==> (#[trigger] v[i])@ != (#[trigger] v[j])@
}

impl WorkspaceCommand {
    /// The targets that were asked for: the default ones when `default` is set,
    /// and each `target`, every one once.
    pub fn requested_targets(&self) -> (r: Vec<String>)
        ensures
            distinct(r@),
            forall|s: Seq<char>|
                #![trigger holds(r@, s)]
                holds(r@, s) <==> (self.default && default_target_views().contains(s)) || holds(
                    self.target@,
                    s,
                ),
    {
        let mut requested: Vec<String> = Vec::new();
        if self.default {
            let defaults = default_targets();
            let mut i: usize = 0;
            while i < defaults.len()
                invariant
                    0 <= i <= defaults@.len(),
                    defaults@.map_values(|s: String| s@) == default_target_views(),
                    distinct(requested@),
                    forall|s: Seq<char>|
                        #![trigger holds(requested@, s)]
                        holds(requested@, s) <==> exists|j: int|
                            0 <= j < i && (#[trigger] defaults@[j])@ == s,
                decreases defaults@.len() - i,
            {
                push_new(&mut requested, &defaults[i]);
                proof {
                    assert(defaults@.map_values(|s: String| s@)[i as int] == defaults@[i as int]@);
                }
                i = i + 1;
            }
            proof {
                assert forall|s: Seq<char>| holds(requested@, s) <==> default_target_views().contains(s) by {
                    if default_target_views().contains(s) {
                        let k = choose|k: int| 0 <= k < default_target_views().len() && default_target_views()[k] == s;
                        assert(defaults@.map_values(|s: String| s@)[k] == defaults@[k]@);
                    }
                    if holds(requested@, s) {
                        let j = choose|j: int| 0 <= j < i && (#[trigger] defaults@[j])@ == s;
                        assert(defaults@.map_values(|s: String| s@)[j] == defaults@[j]@);
                    }
                }
            }
        }
        let ghost before = requested@;
        let mut i: usize = 0;
        while i < self.target.len()
            invariant
                0 <= i <= self.target@.len(),
                distinct(requested@),
                forall|s: Seq<char>|
                    #![trigger holds(requested@, s)]
                    holds(requested@, s) <==> holds(before, s) || exists|j: int|
                        0 <= j < i && (#[trigger] self.target@[j])@ == s,
            decreases self.target@.len() - i,
        {
            push_new(&mut requested, &self.target[i]);
            i = i + 1;
        }
        requested
    }
}

/// Appends a copy of `s` to `v` unless `v` already holds an equal string.
fn push_new(v: &mut Vec<String>, s: &String)
    requires
        distinct(old(v)@),
    ensures
        distinct(final(v)@),
        forall|t: Seq<char>|
            #![trigger holds(final(v)@, t)]
            holds(final(v)@, t) <==> holds(old(v)@, t) || t == s@,
{
    let mut k: usize = 0;
    while k < v.len()
        invariant
            0 <= k <= v@.len(),
            v@ == old(v)@,
            distinct(v@),
            forall|j: int| 0 <= j < k ==> (#[trigger] v@[j])@ != s@,
        decreases v@.len() - k,
    {
        if v[k] == *s {
            proof {
                assert forall|t: Seq<char>| holds(v@, t) <==> holds(v@, t) || t == s@ by {
                    if t == s@ {
                        assert(v@[k as int]@ == t);
                    }
                }
            }
            return;
        }
        k = k + 1;
    }
    let ghost old_v = v@;
    v.push(s.clone());
    proof {
        assert forall|t: Seq<char>| holds(v@, t) <==> holds(old_v, t) || t == s@ by {
            if t == s@ {
                assert(v@[old_v.len() as int]@ == t);
            }
            if holds(v@, t) {
                let j = choose|j: int| 0 <= j < v@.len() && (#[trigger] v@[j])@ == t;
                if j < old_v.len() {
                    assert(old_v[j] == v@[j]);
                }
            }
            if holds(old_v, t) {
                let j = choose|j: int| 0 <= j < old_v.len() && (#[trigger] old_v[j])@ == t;
                assert(old_v[j] == v@[j]);
            }
        }
        assert forall|a: int, b: int| 0 <= a < b < v@.len() implies (#[trigger] v@[a])@ != (
        #[trigger] v@[b])@ by {
            if b == old_v.len() {
                assert(v@[a] == old_v[a]);
            } else {
                assert(v@[a] == old_v[a]);
                assert(v@[b] == old_v[b]);
            }
        }
    }
}

/// `name` is one of `names`.
pub open spec fn names_hold(names: Seq<Vec<u8>>, name: Seq<u8>) -> bool {
    exists|i: int| 0 <= i < names.len() && (#[trigger] names[i])@ == name
}

/// No two of `names` are equal.
pub open spec fn distinct_names(names: Seq<Vec<u8>>) -> bool {
    forall|i: int, j: int| 0 <= i < j < names.len() ==> (#[trigger] names[i])@ != (#[trigger] names[j])@
}

/// Whether one of `names` equals `name`.
fn holds_name(names: &Vec<Vec<u8>>, name: &Vec<u8>) -> (r: bool)
    ensures
        r == names_hold(names@, name@),
{
    let mut i: usize = 0;
    while i < names.len()
        invariant
            0 <= i <= names@.len(),
            forall|j: int| 0 <= j < i ==> (#[trigger] names@[j])@ != name@,
        decreases names@.len() - i,
    {
        let same = bytes_equal(&names[i], name);
        if same {
            return true;
        }
        i = i + 1;
    }
    false
}

/// Whether two byte strings are equal.
fn bytes_equal(a: &Vec<u8>, b: &Vec<u8>) -> (r: bool)
    ensures
        r == (a@ == b@),
{
    if a.len() != b.len() {
        return false;
    }
    let mut i: usize = 0;
    while i < a.len()
        invariant
            0 <= i <= a@.len(),
            a@.len() == b@.len(),
            forall|j: int| 0 <= j < i ==> a@[j] == b@[j],
        decreases a@.len() - i,
    {
        if a[i] != b[i] {
            return false;
        }
        i = i + 1;
    }
    assert(a@ =~= b@);
    true
}

/// The names of `names`, in order, that `other` lacks.
fn names_missing_from(names: &Vec<Vec<u8>>, other: &Vec<Vec<u8>>) -> (r: Vec<Vec<u8>>)
    ensures
        forall|name: Seq<u8>|
            #![trigger names_hold(r@, name)]
            names_hold(r@, name) <==> names_hold(names@, name) && !names_hold(other@, name),
        distinct_names(names@) ==> distinct_names(r@),
{
    let mut r: Vec<Vec<u8>> = Vec::new();
    let mut i: usize = 0;
    while i < names.len()
        invariant
            0 <= i <= names@.len(),
            forall|k: int|
                0 <= k < r@.len() ==> exists|j: int|
                    0 <= j < i && (#[trigger] r@[k])@ == (#[trigger] names@[j])@,
            forall|name: Seq<u8>|
                #![trigger names_hold(r@, name)]
                names_hold(r@, name) <==> (exists|j: int|
                    0 <= j < i && (#[trigger] names@[j])@ == name) && !names_hold(other@, name),
            distinct_names(names@) ==> distinct_names(r@),
        decreases names@.len() - i,
    {
        let name = &names[i];
        if !holds_name(other, name) {
            let ghost before = r@;
            let copy = name.clone();
            assert(copy@ =~= name@);
            r.push(copy);
            proof {
                assert(r@[before.len() as int] == copy);
                assert forall|k: int| 0 <= k < r@.len() implies exists|j: int|
                    0 <= j < i + 1 && (#[trigger] r@[k])@ == (#[trigger] names@[j])@ by {
                    if k < before.len() {
                        assert(r@[k] == before[k]);
                        let j = choose|j: int| 0 <= j < i && (#[trigger] before[k])@ == (#[trigger] names@[j])@;
                        assert(r@[k]@ == names@[j]@);
                    } else {
                        assert(r@[k]@ == names@[i as int]@);
                    }
                }
                assert forall|n: Seq<u8>|
                    names_hold(r@, n) <==> (exists|j: int|
                        0 <= j < i + 1 && (#[trigger] names@[j])@ == n) && !names_hold(other@, n) by {
                    if names_hold(r@, n) {
                        let k = choose|k: int| 0 <= k < r@.len() && (#[trigger] r@[k])@ == n;
                        if k < before.len() {
                            assert(r@[k] == before[k]);
                            assert(names_hold(before, n));
                        } else {
                            assert(names@[i as int]@ == n);
                        }
                    }
                    if (exists|j: int| 0 <= j < i + 1 && (#[trigger] names@[j])@ == n) && !names_hold(other@, n) {
                        let j = choose|j: int| 0 <= j < i + 1 && (#[trigger] names@[j])@ == n;
                        if j < i {
                            assert(names_hold(before, n));
                            let k = choose|k: int| 0 <= k < before.len() && (#[trigger] before[k])@ == n;
                            assert(r@[k] == before[k]);
                        } else {
                            assert(r@[before.len() as int]@ == n);
                        }
                    }
                }
                if distinct_names(names@) {
                    assert forall|a: int, b: int| 0 <= a < b < r@.len() implies (#[trigger] r@[a])@ != (
                    #[trigger] r@[b])@ by {
                        assert(r@[a] == before[a]);
                        if b < before.len() {
                            assert(r@[b] == before[b]);
                        } else {
                            let j = choose|j: int| 0 <= j < i && (#[trigger] before[a])@ == (#[trigger] names@[j])@;
                            assert(names@[j]@ != names@[i as int]@);
                        }
                    }
                }
            }
        } else {
            proof {
                assert forall|n: Seq<u8>|
                    names_hold(r@, n) <==> (exists|j: int|
                        0 <= j < i + 1 && (#[trigger] names@[j])@ == n) && !names_hold(other@, n) by {
                    if (exists|j: int| 0 <= j < i + 1 && (#[trigger] names@[j])@ == n) && !names_hold(other@, n) {
                        let j = choose|j: int| 0 <= j < i + 1 && (#[trigger] names@[j])@ == n;
                        assert(j < i);
                    }
                }
            }
        }
        i = i + 1;
    }
    proof {
        assert forall|name: Seq<u8>|
            names_hold(r@, name) <==> names_hold(names@, name) && !names_hold(other@, name) by {
            if names_hold(names@, name) {
                let j = choose|j: int| 0 <= j < names@.len() && (#[trigger] names@[j])@ == name;
                assert(exists|j2: int| 0 <= j2 < i && (#[trigger] names@[j2])@ == name);
            }
        }
    }
    r
}

/// How a workspace's symlinks change so that they name exactly the expected
/// entries: the expected names that no symlink has yet, to be linked, and the
/// symlinked names no longer expected, to be removed.
pub fn symlink_changes(expected: &Vec<Vec<u8>>, actual: &Vec<Vec<u8>>) -> (r: (
    Vec<Vec<u8>>,
    Vec<Vec<u8>>,
))
    ensures
        forall|name: Seq<u8>|
            #![trigger names_hold(r.0@, name)]
            names_hold(r.0@, name) <==> names_hold(expected@, name) && !names_hold(actual@, name),
        forall|name: Seq<u8>|
            #![trigger names_hold(r.1@, name)]
            names_hold(r.1@, name) <==> names_hold(actual@, name) && !names_hold(expected@, name),
        distinct_names(expected@) ==> distinct_names(r.0@),
        distinct_names(actual@) ==> distinct_names(r.1@),
{
    (names_missing_from(expected, actual), names_missing_from(actual, expected))
}

} // verus!
