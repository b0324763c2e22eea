pub mod kafka;

use std::path::PathBuf;
use vstd::prelude::*;

verus! {

#[verifier::external_type_specification]
#[verifier::external_body]
pub struct ExPathBuf(PathBuf);

/// The components of a path, by which two paths are compared.
pub uninterp spec fn path_components(p: PathBuf) -> Seq<Seq<char>>;

/// The components of the parent of the path written as `file`; `None` for a root or an
/// empty path.
pub uninterp spec fn parent_components(file: Seq<char>) -> Option<Seq<Seq<char>>>;

/// Calls `Path::parent` on the path written as `file`. Trusted: the parent depends on the
/// text alone.
#[verifier::external_body]
fn parent_of(file: &str) -> (r: Option<PathBuf>)
    ensures
        match r {
            Some(p) => parent_components(file@) == Some(path_components(p)),
            None => parent_components(file@) is None,
        },
{
    std::path::Path::new(file).parent().map(|p| p.to_path_buf())
}

/// Calls `PathBuf::eq`. Trusted: two paths are equal exactly when their components are.
#[verifier::external_body]
fn same_path(a: &PathBuf, b: &PathBuf) -> (r: bool)
    ensures
        r == (path_components(*a) == path_components(*b)),
{
    a == b
}

/// The parents that the first `n` files have.
pub open spec fn parents_of(files: Seq<String>, n: int) -> Set<Seq<Seq<char>>> {
    Set::new(
        |c: Seq<Seq<char>>|
            exists|i: int| 0 <= i < n && #[trigger] parent_components(files[i]@) == Some(c),
    )
}

/// The components of each path of a list.
pub open spec fn components_of(dirs: Seq<PathBuf>) -> Seq<Seq<Seq<char>>> {
    dirs.map_values(|p: PathBuf| path_components(p))
}

/// Whether `dirs` holds a path with the components of `p`.
fn holds_path(dirs: &Vec<PathBuf>, p: &PathBuf) -> (r: bool)
    ensures
        r == components_of(dirs@).contains(path_components(*p)),
{
    let mut i: usize = 0;
    while i < dirs.len()
        invariant
            i <= dirs.len(),
            forall|j: int| 0 <= j < i ==> components_of(dirs@)[j] != path_components(*p),
        decreases dirs.len() - i,
    {
        if same_path(&dirs[i], p) {
            assert(components_of(dirs@)[i as int] == path_components(*p));
            return true;
        }
        i += 1;
    }
    false
}

/// The parent directories of the given files, each once, in the order in which they first
/// occur. A file without a parent contributes nothing.
pub fn unique_parent_dirs(files: &[String]) -> (dirs: Vec<PathBuf>)
    ensures
        components_of(dirs@).no_duplicates(),
        components_of(dirs@).to_set() == parents_of(files@, files@.len() as int),
{
    let mut dirs: Vec<PathBuf> = Vec::new();
    let mut i: usize = 0;
    assert(components_of(dirs@).to_set() =~= parents_of(files@, 0));
    while i < files.len()
        invariant
            i <= files.len(),
            components_of(dirs@).no_duplicates(),
            components_of(dirs@).to_set() == parents_of(files@, i as int),
        decreases files.len() - i,
    {
        let ghost before = components_of(dirs@);
        match parent_of(files[i].as_str()) {
            Some(p) => {
                if !holds_path(&dirs, &p) {
                    dirs.push(p);
                    assert(components_of(dirs@) =~= before.push(path_components(p)));
                    assert(components_of(dirs@).to_set() =~= parents_of(files@, i + 1)) by {
                        assert forall|c: Seq<Seq<char>>|
                            components_of(dirs@).contains(c) implies parents_of(
                            files@,
                            i + 1,
                        ).contains(c) by {
                            if before.contains(c) {
                                assert(parents_of(files@, i as int).contains(c));
                            } else {
                                assert(parent_components(files@[i as int]@) == Some(c));
                            }
                        }
                        assert forall|c: Seq<Seq<char>>|
                            parents_of(files@, i + 1).contains(c) implies components_of(
                            dirs@,
                        ).contains(c) by {
                            let k = choose|k: int|
                                0 <= k < i + 1 && #[trigger] parent_components(files@[k]@) == Some(
                                    c,
                                );
                            if k < i {
                                assert(parents_of(files@, i as int).contains(c));
                                assert(before.contains(c));
                                let j = choose|j: int| 0 <= j < before.len() && before[j] == c;
                                assert(components_of(dirs@)[j] == c);
                            } else {
                                assert(components_of(dirs@)[before.len() as int] == c);
                            }
                        }
                    }
                } else {
                    assert(components_of(dirs@).to_set() =~= parents_of(files@, i + 1)) by {
                        assert forall|c: Seq<Seq<char>>|
                            parents_of(files@, i + 1).contains(c) implies components_of(
                            dirs@,
                        ).contains(c) by {
                            let k = choose|k: int|
                                0 <= k < i + 1 && #[trigger] parent_components(files@[k]@) == Some(
                                    c,
                                );
                            if k < i {
                                assert(parents_of(files@, i as int).contains(c));
                            }
                        }
                        assert forall|c: Seq<Seq<char>>|
                            components_of(dirs@).contains(c) implies parents_of(
                            files@,
                            i + 1,
                        ).contains(c) by {
                            assert(parents_of(files@, i as int).contains(c));
                        }
                    }
                }
            },
            None => {
                assert(components_of(dirs@).to_set() =~= parents_of(files@, i + 1)) by {
                    assert forall|c: Seq<Seq<char>>|
                        parents_of(files@, i + 1).contains(c) implies parents_of(
                        files@,
                        i as int,
                    ).contains(c) by {
                        let k = choose|k: int|
                            0 <= k < i + 1 && #[trigger] parent_components(files@[k]@) == Some(c);
                        assert(k < i);
                    }
                    assert forall|c: Seq<Seq<char>>|
                        parents_of(files@, i as int).contains(c) implies parents_of(
                        files@,
                        i + 1,
                    ).contains(c) by {
                        let k = choose|k: int|
                            0 <= k < i && #[trigger] parent_components(files@[k]@) == Some(c);
                        assert(0 <= k < i + 1);
                    }
                }
            },
        }
        i += 1;
    }
    dirs
}

/// A protobuf full name without its leading dot, if it has one.
pub open spec fn normalized_name(name: Seq<char>) -> Seq<char> {
    if name.len() > 0 && name[0] == '.' {
        name.skip(1)
    } else {
        name
    }
}

/// Removes the leading dot of a protobuf full name.
pub fn normalize_full_name(name: String) -> (r: String)
    ensures
        r@ == normalized_name(name@),
{
    let n: usize = name.as_str().unicode_len();
    if n > 0 && name.as_str().get_char(0) == '.' {
        let rest = name.as_str().substring_char(1, n);
        assert(rest@ =~= name@.skip(1));
        rest.to_owned()
    } else {
        name
    }
}

/// A schema file as the linker sees it: its name and the names of the files it imports.
#[derive(Debug)]
pub struct ProtoFile {
    pub name: String,
    pub dependencies: Vec<String>,
}

/// One file to build: which file, and for each of its imports, in order, the place in the
/// build order of the file that satisfies it.
#[derive(Debug)]
pub struct LinkStep {
    pub file: usize,
    pub deps: Vec<usize>,
}

/// The order in which schema files are built, and the files that cannot be built because an
/// import of theirs leads nowhere.
#[derive(Debug)]
pub struct LinkPlan {
    pub steps: Vec<LinkStep>,
    pub unresolved: Vec<usize>,
}

/// Mathematical content of a `LinkStep`.
pub struct StepShape {
    pub file: usize,
    pub deps: Seq<usize>,
}

impl View for LinkStep {
    type V = StepShape;

    open spec fn view(&self) -> StepShape {
        StepShape { file: self.file, deps: self.deps@ }
    }
}

/// The steps of a list, as plain values.
pub open spec fn steps_of(steps: Seq<LinkStep>) -> Seq<StepShape> {
    steps.map_values(|s: LinkStep| s@)
}

/// The last component of the path written as `path`; `None` where it has none.
pub uninterp spec fn path_file_name(path: Seq<char>) -> Option<Seq<char>>;

/// Calls `Path::file_name` on the path written as `path`. Trusted: the name depends on the
/// text alone.
#[verifier::external_body]
fn base_name(path: &str) -> (r: Option<String>)
    ensures
        match r {
            Some(b) => path_file_name(path@) == Some(b@),
            None => path_file_name(path@) is None,
        },
{
    std::path::Path::new(path).file_name().map(|n| n.to_string_lossy().to_string())
}

/// The name of the file built at place `k`.
pub open spec fn built_name(files: Seq<ProtoFile>, built: Seq<usize>, k: int) -> Seq<char> {
    files[built[k] as int].name@
}

/// Among the first `n` places of the build order, the last one whose file has the name
/// `name`.
pub open spec fn last_named(files: Seq<ProtoFile>, built: Seq<usize>, name: Seq<char>, n: int) -> Option<
    usize,
>
    decreases n,
{
    if n <= 0 {
        None
    } else if built_name(files, built, n - 1) == name {
        Some((n - 1) as usize)
    } else {
        last_named(files, built, name, n - 1)
    }
}

/// Among the first `n` places of the build order, how many hold a file whose last path
/// component is `base`.
pub open spec fn count_based(files: Seq<ProtoFile>, built: Seq<usize>, base: Seq<char>, n: int) -> nat
    decreases n,
{
    if n <= 0 {
        0
    } else if path_file_name(built_name(files, built, n - 1)) == Some(base) {
        count_based(files, built, base, n - 1) + 1
    } else {
        count_based(files, built, base, n - 1)
    }
}

/// Among the first `n` places of the build order, the last one that holds a file whose last
/// path component is `base`.
pub open spec fn last_based(files: Seq<ProtoFile>, built: Seq<usize>, base: Seq<char>, n: int) -> Option<
    usize,
>
    decreases n,
{
    if n <= 0 {
        None
    } else if path_file_name(built_name(files, built, n - 1)) == Some(base) {
        Some((n - 1) as usize)
    } else {
        last_based(files, built, base, n - 1)
    }
}

/// The place of the built file that satisfies the import `dep`: the file of that name, the
/// last one built where several have it; else the one built file with the same last path
/// component, where there is exactly one.
pub open spec fn resolved_dep(files: Seq<ProtoFile>, built: Seq<usize>, dep: Seq<char>) -> Option<
    usize,
> {
    match last_named(files, built, dep, built.len() as int) {
        Some(k) => Some(k),
        None => match path_file_name(dep) {
            Some(base) => if count_based(files, built, base, built.len() as int) == 1 {
                last_based(files, built, base, built.len() as int)
            } else {
                None
            },
            None => None,
        },
    }
}

/// The places that satisfy the first `n` imports, in order; `None` where one of them leads
/// nowhere yet.
pub open spec fn resolved_deps(files: Seq<ProtoFile>, built: Seq<usize>, deps: Seq<String>, n: int) -> Option<
    Seq<usize>,
>
    decreases n,
{
    if n <= 0 {
        Some(Seq::empty())
    } else {
        match resolved_deps(files, built, deps, n - 1) {
            None => None,
            Some(before) => match resolved_dep(files, built, deps[n - 1]@) {
                None => None,
                Some(k) => Some(before.push(k)),
            },
        }
    }
}

/// The files built by a list of steps, in order.
pub open spec fn built_of(steps: Seq<StepShape>) -> Seq<usize> {
    steps.map_values(|s: StepShape| s.file)
}

/// One pass over the files that wait, from place `i` on: a file whose imports are all
/// satisfied by files built so far is built at once and leaves the waiting list, so that
/// files behind it in the pass can import it.
pub open spec fn pass_from(
    files: Seq<ProtoFile>,
    steps: Seq<StepShape>,
    waiting: Seq<usize>,
    i: int,
) -> (Seq<StepShape>, Seq<usize>)
    decreases waiting.len() - i,
{
    if i < 0 || i >= waiting.len() {
        (steps, waiting)
    } else {
        let deps = files[waiting[i] as int].dependencies@;
        match resolved_deps(files, built_of(steps), deps, deps.len() as int) {
            Some(places) => pass_from(
                files,
                steps.push(StepShape { file: waiting[i], deps: places }),
                waiting.remove(i),
                i,
            ),
            None => pass_from(files, steps, waiting, i + 1),
        }
    }
}

/// Passes over the files that wait, again and again, until a pass builds nothing or no
/// file waits.
pub open spec fn linked_from(files: Seq<ProtoFile>, steps: Seq<StepShape>, waiting: Seq<usize>) -> (
    Seq<StepShape>,
    Seq<usize>,
)
    decreases waiting.len(),
{
    let after = pass_from(files, steps, waiting, 0);
    if after.1.len() == 0 || after.1.len() >= waiting.len() {
        after
    } else {
        linked_from(files, after.0, after.1)
    }
}

/// The numbers `0` to `n - 1`.
pub open spec fn all_indices(n: nat) -> Seq<usize> {
    Seq::new(n, |i: int| i as usize)
}

/// The build order of a set of schema files, and the files that are left over.
pub open spec fn link_plan(files: Seq<ProtoFile>) -> (Seq<StepShape>, Seq<usize>) {
    linked_from(files, Seq::empty(), all_indices(files.len()))
}

/// Every index of the list is one of a file.
pub open spec fn indices_fit(list: Seq<usize>, n: nat) -> bool {
    forall|k: int| 0 <= k < list.len() ==> #[trigger] list[k] < n
}

/// Finds the place of the built file that satisfies an import.
fn resolve_dep(files: &Vec<ProtoFile>, built: &Vec<usize>, dep: &str) -> (r: Option<usize>)
    requires
        indices_fit(built@, files@.len()),
    ensures
        r == resolved_dep(files@, built@, dep@),
        r matches Some(k) ==> k < built@.len(),
{
    let mut k: usize = built.len();
    while k > 0
        invariant
            k <= built.len(),
            indices_fit(built@, files@.len()),
            last_named(files@, built@, dep@, built@.len() as int) == last_named(
                files@,
                built@,
                dep@,
                k as int,
            ),
        decreases k,
    {
        assert(built@[k - 1] < files@.len());
        if crate::text::same_text(files[built[k - 1]].name.as_str(), dep) {
            return Some(k - 1);
        }
        k -= 1;
    }
    let base = match base_name(dep) {
        Some(b) => b,
        None => {
            return None;
        },
    };
    let mut count: usize = 0;
    let mut last: Option<usize> = None;
    let mut n: usize = 0;
    while n < built.len()
        invariant
            n <= built.len(),
            count <= n,
            indices_fit(built@, files@.len()),
            count == count_based(files@, built@, base@, n as int),
            last == last_based(files@, built@, base@, n as int),
            last matches Some(w) ==> w < n,
        decreases built.len() - n,
    {
        assert(built@[n as int] < files@.len());
        let same: bool = match base_name(files[built[n]].name.as_str()) {
            Some(b) => b == base,
            None => false,
        };
        if same {
            count += 1;
            last = Some(n);
        }
        n += 1;
    }
    if count == 1 {
        last
    } else {
        None
    }
}

/// Finds the places that satisfy all imports of a file, if all are satisfied.
fn resolve_deps(files: &Vec<ProtoFile>, built: &Vec<usize>, deps: &Vec<String>) -> (r: Option<
    Vec<usize>,
>)
    requires
        indices_fit(built@, files@.len()),
    ensures
        match r {
            Some(places) => resolved_deps(files@, built@, deps@, deps@.len() as int) == Some(
                places@,
            ) && places@.len() == deps@.len() && forall|k: int|
                0 <= k < places@.len() ==> #[trigger] places@[k] < built@.len(),
            None => resolved_deps(files@, built@, deps@, deps@.len() as int) is None,
        },
{
    let mut places: Vec<usize> = Vec::new();
    let mut n: usize = 0;
    while n < deps.len()
        invariant
            n <= deps.len(),
            indices_fit(built@, files@.len()),
            resolved_deps(files@, built@, deps@, n as int) == Some(places@),
            places@.len() == n,
            forall|k: int| 0 <= k < places@.len() ==> #[trigger] places@[k] < built@.len(),
        decreases deps.len() - n,
    {
        match resolve_dep(files, built, deps[n].as_str()) {
            Some(k) => {
                places.push(k);
            },
            None => {
                proof {
                    lemma_unresolved_stays(files@, built@, deps@, n + 1, deps@.len() as int);
                }
                return None;
            },
        }
        n += 1;
    }
    Some(places)
}

/// Once an import leads nowhere, the imports of the file are not all satisfied.
pub proof fn lemma_unresolved_stays(
    files: Seq<ProtoFile>,
    built: Seq<usize>,
    deps: Seq<String>,
    k: int,
    n: int,
)
    requires
        0 <= k <= n,
        resolved_deps(files, built, deps, k) is None,
    ensures
        resolved_deps(files, built, deps, n) is None,
    decreases n,
{
    if k < n {
        lemma_unresolved_stays(files, built, deps, k, n - 1);
    }
}

/// A step is sound at place `s` of the build order: it builds a file of the set, names a
/// place for each import of the file, and every place lies before `s`.
pub open spec fn step_sound(files: Seq<ProtoFile>, step: StepShape, s: int) -> bool {
    &&& step.file < files.len()
    &&& step.deps.len() == files[step.file as int].dependencies@.len()
    &&& forall|d: int| 0 <= d < step.deps.len() ==> #[trigger] step.deps[d] < s
}

/// Every step is sound at its place.
pub open spec fn steps_sound(files: Seq<ProtoFile>, steps: Seq<StepShape>) -> bool {
    forall|s: int| 0 <= s < steps.len() ==> step_sound(files, #[trigger] steps[s], s)
}

/// Plans the linking of schema files: each file is built once every file it imports is
/// built. An import is satisfied by the built file of that name, or else by the one built
/// file with the same last path component.
///
/// The plan lists the files in the order in which they can be built, each with the places
/// of the files that satisfy its imports, and the files that are left over. Every place
/// in a step points to an earlier step.
pub fn link_file_descriptors(files: &Vec<ProtoFile>) -> (plan: LinkPlan)
    ensures
        (steps_of(plan.steps@), plan.unresolved@) == link_plan(files@),
        plan.steps@.len() + plan.unresolved@.len() == files@.len(),
        indices_fit(plan.unresolved@, files@.len()),
        steps_sound(files@, steps_of(plan.steps@)),
{
    let mut steps: Vec<LinkStep> = Vec::new();
    let mut built: Vec<usize> = Vec::new();
    let mut waiting: Vec<usize> = Vec::new();
    let mut f: usize = 0;
    while f < files.len()
        invariant
            f <= files.len(),
            waiting@ == all_indices(f as nat),
        decreases files.len() - f,
    {
        waiting.push(f);
        assert(waiting@ =~= all_indices((f + 1) as nat));
        f += 1;
    }
    assert(steps_of(steps@) =~= Seq::<StepShape>::empty());
    assert(built@ =~= built_of(steps_of(steps@)));
    assert(indices_fit(waiting@, files@.len()));
    loop
        invariant
            built@ == built_of(steps_of(steps@)),
            indices_fit(built@, files@.len()),
            indices_fit(waiting@, files@.len()),
            steps@.len() + waiting@.len() == files@.len(),
            link_plan(files@) == linked_from(files@, steps_of(steps@), waiting@),
            steps_sound(files@, steps_of(steps@)),
        decreases waiting@.len(),
    {
        let before: usize = waiting.len();
        let ghost steps0 = steps_of(steps@);
        let ghost waiting0 = waiting@;
        let mut i: usize = 0;
        while i < waiting.len()
            invariant
                i <= waiting@.len(),
                waiting@.len() <= before,
                built@ == built_of(steps_of(steps@)),
                indices_fit(built@, files@.len()),
                indices_fit(waiting@, files@.len()),
                steps@.len() + waiting@.len() == files@.len(),
                pass_from(files@, steps0, waiting0, 0) == pass_from(
                    files@,
                    steps_of(steps@),
                    waiting@,
                    i as int,
                ),
                steps_sound(files@, steps_of(steps@)),
            decreases waiting@.len() - i,
        {
            let file: usize = waiting[i];
            assert(waiting@[i as int] < files@.len());
            match resolve_deps(files, &built, &files[file].dependencies) {
                Some(places) => {
                    let ghost shape = StepShape { file, deps: places@ };
                    let ghost old_steps = steps_of(steps@);
                    let ghost old_waiting = waiting@;
                    let ghost old_built = built@;
                    steps.push(LinkStep { file, deps: places });
                    built.push(file);
                    waiting.remove(i);
                    proof {
                        assert(steps_of(steps@) =~= old_steps.push(shape));
                        assert(old_built.len() == old_steps.len());
                        assert(step_sound(files@, shape, old_steps.len() as int));
                        assert forall|s: int| 0 <= s < steps_of(steps@).len() implies step_sound(
                            files@,
                            #[trigger] steps_of(steps@)[s],
                            s,
                        ) by {
                            if s < old_steps.len() {
                                assert(steps_of(steps@)[s] == old_steps[s]);
                            }
                        }
                        assert(built@ =~= built_of(steps_of(steps@)));
                        assert(waiting@ =~= old_waiting.remove(i as int));
                        old_waiting.remove_ensures(i as int);
                    }
                },
                None => {
                    i += 1;
                },
            }
        }
        if waiting.len() == 0 || waiting.len() >= before {
            return LinkPlan { steps, unresolved: waiting };
        }
    }
}

/// A list of strings as it is shown for inspection: in square brackets, each string in
/// double quotes with its special characters escaped, separated by commas.
pub uninterp spec fn debug_list_text(names: Seq<Seq<char>>) -> Seq<char>;

/// Formats a list of strings with `{:?}`. Trusted: the result is the list as it is shown
/// for inspection.
#[verifier::external_body]
fn debug_list(names: &Vec<String>) -> (r: String)
    ensures
        r@ == debug_list_text(crate::proto_decoder::metadata::texts(names@)),
{
    format!("{:?}", names)
}

/// The names of the files at the given indices, in order.
pub open spec fn names_at(files: Seq<ProtoFile>, indices: Seq<usize>) -> Seq<Seq<char>> {
    indices.map_values(|i: usize| files[i as int].name@)
}

/// Says which files of a plan cannot be built; `None` when all can.
pub fn unresolved_error(files: &Vec<ProtoFile>, plan: &LinkPlan) -> (r: Option<String>)
    requires
        indices_fit(plan.unresolved@, files@.len()),
    ensures
        match r {
            Some(e) => plan.unresolved@.len() > 0 && e@
                == "Failed to resolve dependencies for proto files: "@ + debug_list_text(
                names_at(files@, plan.unresolved@),
            ),
            None => plan.unresolved@.len() == 0,
        },
{
    if plan.unresolved.len() == 0 {
        return None;
    }
    let mut names: Vec<String> = Vec::new();
    let mut i: usize = 0;
    while i < plan.unresolved.len()
        invariant
            i <= plan.unresolved.len(),
            indices_fit(plan.unresolved@, files@.len()),
            crate::proto_decoder::metadata::texts(names@) == names_at(files@, plan.unresolved@.subrange(0, i as int)),
        decreases plan.unresolved.len() - i,
    {
        assert(plan.unresolved@[i as int] < files@.len());
        let ghost before = crate::proto_decoder::metadata::texts(names@);
        names.push(files[plan.unresolved[i]].name.clone());
        proof {
            let now = crate::proto_decoder::metadata::texts(names@);
            let want = names_at(files@, plan.unresolved@.subrange(0, i + 1));
            assert(before.len() == names_at(files@, plan.unresolved@.subrange(0, i as int)).len());
            assert(plan.unresolved@.subrange(0, i as int).len() == i);
            assert(plan.unresolved@.subrange(0, i + 1).len() == i + 1);
            assert(now.len() == before.len() + 1);
            assert(now.len() == want.len());
            assert forall|k: int| 0 <= k < now.len() implies now[k] == want[k] by {
                if k < i {
                    assert(now[k] == before[k]);
                    assert(before[k] == names_at(files@, plan.unresolved@.subrange(0, i as int))[k]);
                }
            }
            assert(now =~= want);
        }
        i += 1;
    }
    assert(plan.unresolved@.subrange(0, plan.unresolved@.len() as int) =~= plan.unresolved@);
    Some(crate::text::joined("Failed to resolve dependencies for proto files: ", debug_list(&names).as_str()))
}

} // verus!
