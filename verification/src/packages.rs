//! Which package each file belongs to, and which packages each package may reach.
use vstd::prelude::*;

use crate::adapter::{PackageDecl, PackageDependency, RefDecl, RefTarget, RefTargetView};
use crate::indices::{count_true, first_match, lemma_count_true_bound, lemma_count_true_set, lemma_first_match};
use crate::text::{
    chars_of, concat_chars, has_prefix, split_once_path, split_once_sep, starts_with, str_eq,
    string_of,
};

verus! {

/// A package list entry: the language it belongs to and its declaration.
pub type PackageEntry = (String, PackageDecl);

pub open spec fn named(p: Seq<PackageEntry>, language: Seq<char>, name: Seq<char>) -> spec_fn(int) -> bool {
    |j: int| p[j].0@ == language && p[j].1.name@ == name
}

/// The first package of `language` called `name`.
pub open spec fn find_pkg(p: Seq<PackageEntry>, language: Seq<char>, name: Seq<char>) -> Option<int> {
    first_match(p.len(), named(p, language, name))
}

/// Where package `i`'s `k`-th dependency points, if it names a known package of the same
/// language.
pub open spec fn dep_target(p: Seq<PackageEntry>, i: int, k: int) -> Option<int> {
    find_pkg(p, p[i].0@, p[i].1.dependencies@[k].package@)
}

/// Among package `i`'s first `k` dependencies, one points at `j` with dev flag `dev`.
pub open spec fn dep_upto(p: Seq<PackageEntry>, i: int, k: int, j: int, dev: bool) -> bool {
    exists|kk: int|
        0 <= kk < k && #[trigger] dep_target(p, i, kk) == Some(j)
            && p[i].1.dependencies@[kk].dev_only == dev
}

/// Package `i` depends on package `j`, for tests only (`dev`) or not.
pub open spec fn dep_edge(p: Seq<PackageEntry>, i: int, j: int, dev: bool) -> bool {
    dep_upto(p, i, p[i].1.dependencies@.len() as int, j, dev)
}

/// `row` holds the entry `(j, dev)`.
pub open spec fn row_has(row: Seq<(usize, bool)>, j: int, dev: bool) -> bool {
    exists|t: int| 0 <= t < row.len() && #[trigger] row[t] == (j as usize, dev)
}

/// A chain of packages, each (shipped code) depending on the next.
pub open spec fn path_ok(p: Seq<PackageEntry>, path: Seq<int>) -> bool {
    &&& forall|t: int| 0 <= t < path.len() ==> 0 <= #[trigger] path[t] < p.len()
    &&& forall|t: int| 0 <= t < path.len() - 1 ==> dep_edge(p, #[trigger] path[t], path[t + 1], false)
}

/// Where package `i`'s code starts: the package itself, plus its dev-only dependencies
/// for its test code.
pub open spec fn starts(p: Seq<PackageEntry>, i: int, tests: bool) -> spec_fn(int) -> bool {
    |s: int| s == i || (tests && dep_edge(p, i, s, true))
}

/// `j` can be reached from one of `start` through non-dev dependencies.
pub open spec fn reach_from(p: Seq<PackageEntry>, start: spec_fn(int) -> bool, j: int) -> bool {
    exists|path: Seq<int>|
        path.len() >= 1 && start(path[0]) && path.last() == j && #[trigger] path_ok(p, path)
}

/// What package `i`'s shipped code (or, with `tests`, its test code) may reach: itself
/// and everything it depends on, directly or not — never a dependency's own dev-only
/// dependencies.
pub open spec fn reaches(p: Seq<PackageEntry>, i: int, j: int, tests: bool) -> bool {
    reach_from(p, starts(p, i, tests), j)
}

/// Whether `file` sits under the directory `root` (`""` being the project root).
pub open spec fn is_under_spec(file: Seq<char>, root: Seq<char>) -> bool {
    root.len() == 0 || (has_prefix(file, root) && file.len() > root.len() && file[root.len() as int] == '/')
}

/// The length of package `i`'s root as `str::len` reports it (its UTF-8 byte count).
pub open spec fn root_bytes(p: Seq<PackageEntry>, i: int) -> usize {
    vstd::utf8::encode_utf8(p[i].1.root@).len() as usize
}

pub open spec fn owns(p: Seq<PackageEntry>, language: Seq<char>, file: Seq<char>, i: int) -> bool {
    p[i].0@ == language && is_under_spec(file, p[i].1.root@)
}

/// The owning package among the first `n`: the one with the longest root (in bytes), the
/// last of several equally long.
pub open spec fn owner_upto(p: Seq<PackageEntry>, language: Seq<char>, file: Seq<char>, n: nat) -> Option<int>
    decreases n,
{
    if n == 0 {
        None
    } else {
        let prev = owner_upto(p, language, file, (n - 1) as nat);
        if owns(p, language, file, n - 1) && (match prev {
            Some(b) => root_bytes(p, n - 1) >= root_bytes(p, b),
            None => true,
        }) {
            Some(n - 1)
        } else {
            prev
        }
    }
}

/// The package `file` (in `language`) belongs to: the deepest root containing it.
pub open spec fn owner_spec(p: Seq<PackageEntry>, language: Seq<char>, file: Seq<char>) -> Option<int> {
    owner_upto(p, language, file, p.len())
}

pub open spec fn dep_named(deps: Seq<PackageDependency>, name: Seq<char>) -> spec_fn(int) -> bool {
    |k: int| deps[k].import_name@ == name
}

/// The first dependency imported under `name`.
pub open spec fn dep_by_import(deps: Seq<PackageDependency>, name: Seq<char>) -> Option<int> {
    first_match(deps.len(), dep_named(deps, name))
}

/// Where an import of `module` from package `i` really points, if its first segment names
/// `i` itself or one of `i`'s dependencies by import name.
pub open spec fn rewrite_module(p: Seq<PackageEntry>, i: int, module: Seq<char>) -> Option<Seq<char>> {
    let (first, rest) = match split_once_sep(module) {
        Some((f, r)) => (f, Some(r)),
        None => (module, None),
    };
    let own = p[i].1;
    let target: Option<int> = if own.import_name@ == first {
        Some(i)
    } else {
        match dep_by_import(own.dependencies@, first) {
            Some(k) => find_pkg(p, p[i].0@, own.dependencies@[k].package@),
            None => None,
        }
    };
    match target {
        Some(t) => {
            let root = p[t].1.module_root@;
            Some(
                match rest {
                    Some(r) => if root.len() > 0 {
                        root + "::"@ + r
                    } else {
                        r
                    },
                    None => root,
                },
            )
        },
        None => None,
    }
}

/// A reference target with its module rewritten (see `rewrite_module`), or `None` when
/// there's nothing to rewrite.
pub open spec fn rewrite_target(p: Seq<PackageEntry>, i: int, t: RefTargetView) -> Option<RefTargetView> {
    match t {
        RefTargetView::Module(m) => match rewrite_module(p, i, m) {
            Some(r) => Some(RefTargetView::Module(r)),
            None => None,
        },
        RefTargetView::ModuleDefault(m) => match rewrite_module(p, i, m) {
            Some(r) => Some(RefTargetView::ModuleDefault(r)),
            None => None,
        },
        _ => None,
    }
}

/// The package graph's direct edges as computed: for package `i`, the resolved targets of
/// its dependencies with their dev flags.
pub open spec fn direct_ok(p: Seq<PackageEntry>, d: Seq<Vec<(usize, bool)>>) -> bool {
    &&& d.len() == p.len()
    &&& p.len() <= usize::MAX
    &&& forall|i: int, k: int| 0 <= i < d.len() && 0 <= k < d[i]@.len() ==> (#[trigger] d[i]@[k]).0 < p.len()
    &&& forall|i: int, j: int, dev: bool|
        0 <= i < p.len() && 0 <= j < p.len() ==> (#[trigger] dep_edge(p, i, j, dev) <==> row_has(d[i]@, j, dev))
}

/// Which package each file belongs to, and what each package may reach — the part of
/// resolution no single file's imports can answer.
pub struct Packages<'p> {
    packages: &'p [PackageEntry],
    visible: Vec<Vec<bool>>,
    visible_to_tests: Vec<Vec<bool>>,
}

/// Whether `file` sits under the directory `root` (`""` being the project root).
pub fn is_under(file: &str, root: &str) -> (r: bool)
    ensures
        r == is_under_spec(file@, root@),
{
    let f = chars_of(file);
    let r = chars_of(root);
    if r.len() == 0 {
        return true;
    }
    starts_with(f.as_slice(), r.as_slice()) && f.len() > r.len() && f[r.len()] == '/'
}

impl<'p> Packages<'p> {
    pub closed spec fn entries(&self) -> Seq<PackageEntry> {
        self.packages@
    }

    pub closed spec fn wf(&self) -> bool {
        let p = self.packages@;
        &&& self.visible@.len() == p.len()
        &&& self.visible_to_tests@.len() == p.len()
        &&& forall|i: int| 0 <= i < p.len() ==> (#[trigger] self.visible@[i])@.len() == p.len()
        &&& forall|i: int| 0 <= i < p.len() ==> (#[trigger] self.visible_to_tests@[i])@.len() == p.len()
        &&& forall|i: int, j: int|
            0 <= i < p.len() && 0 <= j < p.len() ==> (#[trigger] self.visible@[i]@[j] <==> reaches(p, i, j, false))
        &&& forall|i: int, j: int|
            0 <= i < p.len() && 0 <= j < p.len() ==> (#[trigger] self.visible_to_tests@[i]@[j] <==> reaches(p, i, j, true))
    }

    pub fn new(packages: &'p [PackageEntry]) -> (r: Packages<'p>)
        ensures
            r.wf(),
            r.entries() == packages@,
    {
        let n = packages.len();
        let ghost p = packages@;
        let mut direct: Vec<Vec<(usize, bool)>> = Vec::new();
        let mut i: usize = 0;
        while i < n
            invariant
                n == p.len(),
                p == packages@,
                i <= n,
                direct@.len() == i,
                forall|a: int, k: int| 0 <= a < i && 0 <= k < direct@[a]@.len() ==> (#[trigger] direct@[a]@[k]).0 < n,
                forall|a: int, j: int, dev: bool|
                    0 <= a < i && 0 <= j < n ==> (#[trigger] dep_edge(p, a, j, dev) <==> row_has(direct@[a]@, j, dev)),
            decreases n - i,
        {
            let language = &packages[i].0;
            let deps = &packages[i].1.dependencies;
            let mut row: Vec<(usize, bool)> = Vec::new();
            let mut k: usize = 0;
            while k < deps.len()
                invariant
                    n == p.len(),
                    p == packages@,
                    i < n,
                    deps@ == p[i as int].1.dependencies@,
                    language@ == p[i as int].0@,
                    k <= deps@.len(),
                    forall|t: int| 0 <= t < row@.len() ==> (#[trigger] row@[t]).0 < n,
                    forall|j: int, dev: bool|
                        0 <= j < n ==> (#[trigger] dep_upto(p, i as int, k as int, j, dev) <==> row_has(row@, j, dev)),
                decreases deps@.len() - k,
            {
                let found = find_package(packages, language.as_str(), deps[k].package.as_str());
                proof {
                    assert(dep_target(p, i as int, k as int) == find_pkg(p, language@, deps@[k as int].package@));
                }
                let ghost old_row = row@;
                if let Some(j) = found {
                    row.push((j, deps[k].dev_only));
                }
                proof {
                    assert forall|j: int, dev: bool| 0 <= j < n implies (#[trigger] dep_upto(p, i as int, k + 1, j, dev)
                        <==> row_has(row@, j, dev)) by {
                        if dep_upto(p, i as int, k + 1, j, dev) {
                            let kk = choose|kk: int| 0 <= kk < k + 1 && #[trigger] dep_target(p, i as int, kk) == Some(j)
                                && p[i as int].1.dependencies@[kk].dev_only == dev;
                            if kk < k {
                                assert(dep_upto(p, i as int, k as int, j, dev));
                                let t = choose|t: int| 0 <= t < old_row.len() && #[trigger] old_row[t] == (j as usize, dev);
                                assert(row@[t] == (j as usize, dev));
                            } else {
                                assert(row@[old_row.len() as int] == (j as usize, dev));
                            }
                        }
                        if row_has(row@, j, dev) {
                            let t = choose|t: int| 0 <= t < row@.len() && #[trigger] row@[t] == (j as usize, dev);
                            if t < old_row.len() {
                                assert(old_row[t] == (j as usize, dev));
                                assert(row_has(old_row, j, dev));
                                assert(dep_upto(p, i as int, k as int, j, dev));
                                let kk = choose|kk: int| 0 <= kk < k && #[trigger] dep_target(p, i as int, kk) == Some(j)
                                    && p[i as int].1.dependencies@[kk].dev_only == dev;
                                assert(dep_target(p, i as int, kk) == Some(j));
                            } else {
                                assert(dep_target(p, i as int, k as int) == Some(j));
                                assert(p[i as int].1.dependencies@[k as int].dev_only == dev);
                            }
                        }
                    }
                }
                k = k + 1;
            }
            direct.push(row);
            i = i + 1;
        }
        let mut visible: Vec<Vec<bool>> = Vec::new();
        let mut visible_to_tests: Vec<Vec<bool>> = Vec::new();
        let mut i: usize = 0;
        while i < n
            invariant
                n == p.len(),
                p == packages@,
                direct_ok(p, direct@),
                i <= n,
                visible@.len() == i,
                visible_to_tests@.len() == i,
                forall|a: int| 0 <= a < i ==> (#[trigger] visible@[a])@.len() == n,
                forall|a: int| 0 <= a < i ==> (#[trigger] visible_to_tests@[a])@.len() == n,
                forall|a: int, j: int| 0 <= a < i && 0 <= j < n ==> (#[trigger] visible@[a]@[j] <==> reaches(p, a, j, false)),
                forall|a: int, j: int| 0 <= a < i && 0 <= j < n ==> (#[trigger] visible_to_tests@[a]@[j] <==> reaches(p, a, j, true)),
            decreases n - i,
        {
            let mut start: Vec<usize> = Vec::new();
            start.push(i);
            proof {
                assert forall|s: int| 0 <= s < n implies (#[trigger] start@.contains(s as usize) <==> starts(p, i as int, false)(s)) by {
                    if s == i {
                        assert(start@[0] == s as usize);
                    }
                }
            }
            let shipped = closure(&direct, &start, Ghost(p), Ghost(starts(p, i as int, false)));
            let mut test_start: Vec<usize> = Vec::new();
            test_start.push(i);
            let mut k: usize = 0;
            while k < direct[i].len()
                invariant
                    n == p.len(),
                    direct_ok(p, direct@),
                    i < n,
                    k <= direct@[i as int]@.len(),
                    forall|t: int| 0 <= t < test_start@.len() ==> (#[trigger] test_start@[t]) < n,
                    forall|s: int| 0 <= s < n ==> (#[trigger] test_start@.contains(s as usize) <==> (s == i || row_has(direct@[i as int]@.take(k as int), s, true))),
                decreases direct@[i as int]@.len() - k,
            {
                let (j, dev) = direct[i][k];
                let ghost old_start = test_start@;
                if dev {
                    test_start.push(j);
                }
                proof {
                    let row_k = direct@[i as int]@.take(k as int);
                    let row_k1 = direct@[i as int]@.take(k + 1);
                    assert forall|s: int| 0 <= s < n implies (#[trigger] test_start@.contains(s as usize) <==> (s == i || row_has(row_k1, s, true))) by {
                        if test_start@.contains(s as usize) && !old_start.contains(s as usize) {
                            assert(row_k1[k as int] == (s as usize, true));
                        }
                        if old_start.contains(s as usize) {
                            let w = choose|w: int| 0 <= w < old_start.len() && old_start[w] == s as usize;
                            assert(test_start@[w] == s as usize);
                            if s != i {
                                let t = choose|t: int| 0 <= t < row_k.len() && #[trigger] row_k[t] == (s as usize, true);
                                assert(row_k1[t] == (s as usize, true));
                            }
                        }
                        if row_has(row_k1, s, true) {
                            let t = choose|t: int| 0 <= t < row_k1.len() && #[trigger] row_k1[t] == (s as usize, true);
                            if t == k {
                                assert(test_start@[old_start.len() as int] == s as usize);
                            } else {
                                assert(row_k[t] == (s as usize, true));
                                assert(old_start.contains(s as usize));
                                let w = choose|w: int| 0 <= w < old_start.len() && old_start[w] == s as usize;
                                assert(test_start@[w] == s as usize);
                            }
                        }
                    }
                }
                k = k + 1;
            }
            proof {
                assert(direct@[i as int]@.take(k as int) =~= direct@[i as int]@);
                assert forall|s: int| 0 <= s < n implies (#[trigger] test_start@.contains(s as usize) <==> starts(p, i as int, true)(s)) by {}
            }
            let tested = closure(&direct, &test_start, Ghost(p), Ghost(starts(p, i as int, true)));
            visible.push(shipped);
            visible_to_tests.push(tested);
            i = i + 1;
        }
        Packages { packages, visible, visible_to_tests }
    }

    /// The package `file` belongs to: the one with the deepest root containing it, so a
    /// crate nested inside another crate's directory owns its own files.
    pub fn owner(&self, language: &str, file: &str) -> (r: Option<usize>)
        ensures
            match owner_spec(self.entries(), language@, file@) {
                Some(i) => r matches Some(x) && x as int == i,
                None => r is None,
            },
            r matches Some(x) ==> x < self.entries().len(),
    {
        let ghost p = self.packages@;
        let mut best: Option<usize> = None;
        let mut best_len: usize = 0;
        let mut i: usize = 0;
        while i < self.packages.len()
            invariant
                p == self.packages@,
                i <= p.len(),
                match owner_upto(p, language@, file@, i as nat) {
                    Some(b) => best matches Some(x) && x as int == b && best_len == root_bytes(p, b),
                    None => best is None,
                },
                best matches Some(x) ==> x < p.len(),
            decreases p.len() - i,
        {
            let (l, pkg) = &self.packages[i];
            if str_eq(l.as_str(), language) && is_under(file, pkg.root.as_str()) {
                let len = pkg.root.as_str().len();
                if best.is_none() || len >= best_len {
                    best = Some(i);
                    best_len = len;
                }
            }
            i = i + 1;
        }
        best
    }

    /// Whether package `package`'s code (its tests', with `tests`) may reach package `other`.
    pub fn can_see(&self, package: usize, other: usize, tests: bool) -> (r: bool)
        requires
            self.wf(),
            package < self.entries().len(),
            other < self.entries().len(),
        ensures
            r == reaches(self.entries(), package as int, other as int, tests),
    {
        if tests {
            self.visible_to_tests[package][other]
        } else {
            self.visible[package][other]
        }
    }

    /// The shipped-source directory of package `package`.
    pub fn source_root(&self, package: usize) -> (s: &str)
        requires
            package < self.entries().len(),
        ensures
            s@ == self.entries()[package as int].1.source_root@,
    {
        self.packages[package].1.source_root.as_str()
    }

    /// `r` with an import of a package rewritten to where that package's symbols are
    /// indexed, when `r` names one `package` can see by its import name — or `None`.
    pub fn rewrite(&self, package: usize, r: &RefDecl) -> (res: Option<RefDecl>)
        requires
            package < self.entries().len(),
        ensures
            match rewrite_target(self.entries(), package as int, r.to_target@) {
                Some(t) => res matches Some(x) && x.to_target@ == t && x.to_name@ == r.to_name@
                    && x.from_qualified_path@ == r.from_qualified_path@ && x.kind == r.kind,
                None => res is None,
            },
    {
        let ghost p = self.packages@;
        let (module, is_default) = match &r.to_target {
            RefTarget::Module(m) => (m, false),
            RefTarget::ModuleDefault(m) => (m, true),
            _ => return None,
        };
        let rewritten = match self.rewrite_module(package, module.as_str()) {
            Some(x) => x,
            None => return None,
        };
        let to_target = if is_default {
            RefTarget::ModuleDefault(rewritten)
        } else {
            RefTarget::Module(rewritten)
        };
        Some(RefDecl {
            from_qualified_path: r.from_qualified_path.clone(),
            to_name: r.to_name.clone(),
            kind: r.kind,
            to_target,
        })
    }

    fn rewrite_module(&self, package: usize, module: &str) -> (res: Option<String>)
        requires
            package < self.entries().len(),
        ensures
            match rewrite_module(self.entries(), package as int, module@) {
                Some(m) => res matches Some(x) && x@ == m,
                None => res is None,
            },
    {
        let ghost p = self.packages@;
        let chars = chars_of(module);
        let (first, rest) = match split_once_path(chars.as_slice()) {
            Some((f, r)) => (f, Some(r)),
            None => (chars, None),
        };
        let first_s = string_of(first.as_slice());
        let (language, own) = &self.packages[package];
        let target: usize = if str_eq(own.import_name.as_str(), first_s.as_str()) {
            package
        } else {
            let dk = match find_dependency(own.dependencies.as_slice(), first_s.as_str()) {
                Some(dk) => dk,
                None => return None,
            };
            match find_package(self.packages, language.as_str(), own.dependencies[dk].package.as_str()) {
                Some(t) => t,
                None => return None,
            }
        };
        let root = chars_of(self.packages[target].1.module_root.as_str());
        let out = match rest {
            Some(r) => if root.len() > 0 {
                let sep = chars_of("::");
                let a = concat_chars(root.as_slice(), sep.as_slice());
                concat_chars(a.as_slice(), r.as_slice())
            } else {
                r
            },
            None => root,
        };
        Some(string_of(out.as_slice()))
    }
}

/// `first_match` over a longer prefix agrees once a match is found.
proof fn lemma_first_match_prefix(k: nat, n: nat, q: spec_fn(int) -> bool)
    requires
        k <= n,
        first_match(k, q) is Some,
    ensures
        first_match(n, q) == first_match(k, q),
    decreases n - k,
{
    if n > k {
        lemma_first_match_prefix(k, (n - 1) as nat, q);
    }
}

/// The first dependency imported under `name`.
fn find_dependency(deps: &[PackageDependency], name: &str) -> (r: Option<usize>)
    ensures
        match dep_by_import(deps@, name@) {
            Some(i) => r matches Some(x) && x as int == i,
            None => r is None,
        },
        r matches Some(x) ==> x < deps@.len(),
{
    let mut i: usize = 0;
    while i < deps.len()
        invariant
            i <= deps@.len(),
            first_match(i as nat, dep_named(deps@, name@)) is None,
        decreases deps@.len() - i,
    {
        if str_eq(deps[i].import_name.as_str(), name) {
            proof {
                assert(first_match(i as nat + 1, dep_named(deps@, name@)) == Some(i as int));
                lemma_first_match_prefix(i as nat + 1, deps@.len(), dep_named(deps@, name@));
            }
            return Some(i);
        }
        i = i + 1;
    }
    None
}

/// The first package of `language` called `name`.
fn find_package(packages: &[PackageEntry], language: &str, name: &str) -> (r: Option<usize>)
    ensures
        match find_pkg(packages@, language@, name@) {
            Some(i) => r matches Some(x) && x as int == i,
            None => r is None,
        },
        r matches Some(x) ==> x < packages@.len(),
{
    let ghost p = packages@;
    let mut i: usize = 0;
    while i < packages.len()
        invariant
            p == packages@,
            i <= p.len(),
            first_match(i as nat, named(p, language@, name@)) is None,
        decreases p.len() - i,
    {
        if str_eq(packages[i].0.as_str(), language) && str_eq(packages[i].1.name.as_str(), name) {
            proof {
                assert(first_match(i as nat + 1, named(p, language@, name@)) == Some(i as int));
                lemma_first_match_prefix(i as nat + 1, p.len(), named(p, language@, name@));
            }
            return Some(i);
        }
        i = i + 1;
    }
    None
}

/// Everything reachable through non-dev edges from `start`, by depth-first search.
fn closure(
    direct: &Vec<Vec<(usize, bool)>>,
    start: &Vec<usize>,
    Ghost(p): Ghost<Seq<PackageEntry>>,
    Ghost(s): Ghost<spec_fn(int) -> bool>,
) -> (seen: Vec<bool>)
    requires
        direct_ok(p, direct@),
        forall|t: int| 0 <= t < start@.len() ==> (#[trigger] start@[t]) < p.len(),
        forall|x: int| 0 <= x < p.len() ==> (start@.contains(x as usize) <==> #[trigger] s(x)),
    ensures
        seen@.len() == p.len(),
        forall|j: int| 0 <= j < p.len() ==> (#[trigger] seen@[j] <==> reach_from(p, s, j)),
{
    let n = direct.len();
    let mut seen: Vec<bool> = Vec::new();
    let mut i: usize = 0;
    while i < n
        invariant
            i <= n,
            seen@ == Seq::new(i as nat, |j: int| false),
        decreases n - i,
    {
        seen.push(false);
        i = i + 1;
        assert(seen@ =~= Seq::new(i as nat, |j: int| false));
    }
    let mut stack: Vec<usize> = slice_copy(start.as_slice());
    proof {
        assert(count_true(seen@) == 0) by {
            lemma_count_zero(seen@);
        }
        assert forall|t: int| 0 <= t < stack@.len() implies reach_from(p, s, #[trigger] stack@[t] as int) by {
            assert(start@.contains(stack@[t]));
            assert(s(stack@[t] as int));
            let path = seq![stack@[t] as int];
            assert(path_ok(p, path));
        }
    }
    while stack.len() > 0
        invariant
            n == p.len(),
            direct_ok(p, direct@),
            seen@.len() == n,
            forall|t: int| 0 <= t < stack@.len() ==> (#[trigger] stack@[t]) < n,
            forall|t: int| 0 <= t < stack@.len() ==> reach_from(p, s, #[trigger] stack@[t] as int),
            forall|j: int| 0 <= j < n && #[trigger] seen@[j] ==> reach_from(p, s, j),
            forall|x: int| 0 <= x < n && #[trigger] s(x) ==> seen@[x] || stack@.contains(x as usize),
            forall|a: int, k: int|
                0 <= a < n && seen@[a] && 0 <= k < direct@[a]@.len() && !(#[trigger] direct@[a]@[k]).1
                    ==> seen@[direct@[a]@[k].0 as int] || stack@.contains(direct@[a]@[k].0),
        decreases n - count_true(seen@), stack@.len(),
    {
        let ghost old_stack = stack@;
        let ghost old_seen = seen@;
        let top = stack.pop().unwrap();
        proof {
            assert(old_stack =~= stack@.push(top));
            lemma_count_true_bound(seen@);
        }
        if !seen[top] {
            proof {
                lemma_count_true_set(seen@, top as int);
                lemma_count_true_bound(seen@.update(top as int, true));
            }
            seen.set(top, true);
            let row = &direct[top];
            let ghost before_push = stack@;
            let mut k: usize = 0;
            while k < row.len()
                invariant
                    n == p.len(),
                    direct_ok(p, direct@),
                    row@ == direct@[top as int]@,
                    top < n,
                    reach_from(p, s, top as int),
                    k <= row@.len(),
                    stack@.len() >= before_push.len(),
                    forall|t: int| 0 <= t < before_push.len() ==> stack@[t] == before_push[t],
                    forall|t: int| 0 <= t < stack@.len() ==> (#[trigger] stack@[t]) < n,
                    forall|t: int| 0 <= t < stack@.len() ==> reach_from(p, s, #[trigger] stack@[t] as int),
                    forall|kk: int| 0 <= kk < k && !(#[trigger] row@[kk]).1 ==> stack@.contains(row@[kk].0),
                decreases row@.len() - k,
            {
                let (j, dev) = row[k];
                if !dev {
                    proof {
                        let w = choose|path: Seq<int>| path.len() >= 1 && s(path[0]) && path.last() == top as int && #[trigger] path_ok(p, path);
                        let w2 = w.push(j as int);
                        assert(dep_edge(p, top as int, j as int, false));
                        assert forall|t: int| 0 <= t < w2.len() - 1 implies dep_edge(p, #[trigger] w2[t], w2[t + 1], false) by {
                            if t < w.len() - 1 {
                                assert(w2[t] == w[t] && w2[t + 1] == w[t + 1]);
                            }
                        }
                        assert(path_ok(p, w2));
                        assert(w2[0] == w[0]);
                    }
                    let ghost ost = stack@;
                    stack.push(j);
                    proof {
                        assert forall|kk: int| 0 <= kk < k + 1 && !(#[trigger] row@[kk]).1 implies stack@.contains(row@[kk].0) by {
                            if kk < k {
                                let w = choose|w: int| 0 <= w < ost.len() && ost[w] == row@[kk].0;
                                assert(stack@[w] == row@[kk].0);
                            } else {
                                assert(stack@[ost.len() as int] == j);
                            }
                        }
                    }
                }
                k = k + 1;
            }
            proof {
                assert forall|x: int| 0 <= x < n && #[trigger] s(x) implies seen@[x] || stack@.contains(x as usize) by {
                    if !seen@[x] {
                        assert(old_stack.contains(x as usize));
                        let w = choose|w: int| 0 <= w < old_stack.len() && old_stack[w] == x as usize;
                        if w < before_push.len() {
                            assert(stack@[w] == x as usize);
                        }
                    }
                }
                assert forall|a: int, kk: int|
                    0 <= a < n && seen@[a] && 0 <= kk < direct@[a]@.len() && !(#[trigger] direct@[a]@[kk]).1
                    implies seen@[direct@[a]@[kk].0 as int] || stack@.contains(direct@[a]@[kk].0) by {
                    if a != top {
                        let x = direct@[a]@[kk].0;
                        if !seen@[x as int] {
                            assert(old_stack.contains(x));
                            let w = choose|w: int| 0 <= w < old_stack.len() && old_stack[w] == x;
                            if w < before_push.len() {
                                assert(stack@[w] == x);
                            }
                        }
                    }
                }
            }
        } else {
            proof {
                assert forall|x: int| 0 <= x < n && #[trigger] s(x) implies seen@[x] || stack@.contains(x as usize) by {
                    if !seen@[x] {
                        assert(old_stack.contains(x as usize));
                        let w = choose|w: int| 0 <= w < old_stack.len() && old_stack[w] == x as usize;
                        assert(w < stack@.len());
                        assert(stack@[w] == x as usize);
                    }
                }
                assert forall|a: int, kk: int|
                    0 <= a < n && seen@[a] && 0 <= kk < direct@[a]@.len() && !(#[trigger] direct@[a]@[kk]).1
                    implies seen@[direct@[a]@[kk].0 as int] || stack@.contains(direct@[a]@[kk].0) by {
                    let x = direct@[a]@[kk].0;
                    if !seen@[x as int] {
                        assert(old_stack.contains(x));
                        let w = choose|w: int| 0 <= w < old_stack.len() && old_stack[w] == x;
                        assert(w < stack@.len());
                        assert(stack@[w] == x);
                    }
                }
            }
        }
    }
    proof {
        assert forall|j: int| 0 <= j < n && reach_from(p, s, j) implies #[trigger] seen@[j] by {
            let w = choose|path: Seq<int>| path.len() >= 1 && s(path[0]) && path.last() == j && #[trigger] path_ok(p, path);
            lemma_path_seen(p, direct@, seen@, s, w, w.len() - 1);
        }
    }
    seen
}

/// Along a path from the start set, every package is seen once `seen` holds the start set
/// and is closed under non-dev edges.
proof fn lemma_path_seen(
    p: Seq<PackageEntry>,
    d: Seq<Vec<(usize, bool)>>,
    seen: Seq<bool>,
    s: spec_fn(int) -> bool,
    path: Seq<int>,
    t: int,
)
    requires
        direct_ok(p, d),
        seen.len() == p.len(),
        path.len() >= 1,
        s(path[0]),
        path_ok(p, path),
        0 <= t < path.len(),
        forall|x: int| 0 <= x < p.len() && #[trigger] s(x) ==> seen[x],
        forall|a: int, k: int|
            0 <= a < p.len() && seen[a] && 0 <= k < d[a]@.len() && !(#[trigger] d[a]@[k]).1 ==> seen[d[a]@[k].0 as int],
    ensures
        seen[path[t]],
    decreases t,
{
    if t > 0 {
        lemma_path_seen(p, d, seen, s, path, t - 1);
        let a = path[t - 1];
        let b = path[t];
        assert(0 <= a < p.len());
        assert(0 <= b < p.len());
        assert(dep_edge(p, a, b, false));
        assert(row_has(d[a]@, b, false));
        let k = choose|k: int| 0 <= k < d[a]@.len() && #[trigger] d[a]@[k] == (b as usize, false);
        assert(!d[a]@[k].1);
        assert(seen[a]);
        assert(seen[d[a]@[k].0 as int]);
        assert(d[a]@[k].0 as int == b);
    } else {
        assert(0 <= path[0] < p.len());
        assert(s(path[0]));
    }
}

proof fn lemma_count_zero(s: Seq<bool>)
    requires
        forall|i: int| 0 <= i < s.len() ==> !s[i],
    ensures
        count_true(s) == 0,
    decreases s.len(),
{
    if s.len() > 0 {
        lemma_count_zero(s.drop_last());
    }
}

fn slice_copy(s: &[usize]) -> (r: Vec<usize>)
    ensures
        r@ == s@,
{
    let mut r: Vec<usize> = Vec::new();
    let mut i: usize = 0;
    while i < s.len()
        invariant
            i <= s@.len(),
            r@ == s@.take(i as int),
        decreases s@.len() - i,
    {
        r.push(s[i]);
        i = i + 1;
        assert(r@ =~= s@.take(i as int));
    }
    assert(s@.take(i as int) =~= s@);
    r
}

/// Every package reaches itself; test code reaches everything shipped code reaches; and
/// reach carries through shipped dependencies: what a reached package's shipped code
/// reaches is reached too (a dependency's dependency still counts, its dev-only
/// dependencies never do).
pub proof fn law_reach_is_closed(p: Seq<PackageEntry>, i: int, j: int, k: int, tests: bool)
    ensures
        0 <= i < p.len() ==> reaches(p, i, i, tests),
        reaches(p, i, j, false) ==> reaches(p, i, j, true),
        reaches(p, i, j, tests) && reaches(p, j, k, false) ==> reaches(p, i, k, tests),
{
    if 0 <= i < p.len() {
        let path = seq![i];
        assert(path_ok(p, path));
        assert(starts(p, i, tests)(path[0]));
    }
    if reaches(p, i, j, false) {
        let path = choose|path: Seq<int>|
            path.len() >= 1 && starts(p, i, false)(path[0]) && path.last() == j && #[trigger] path_ok(p, path);
        assert(starts(p, i, true)(path[0]));
    }
    if reaches(p, i, j, tests) && reaches(p, j, k, false) {
        let a = choose|path: Seq<int>|
            path.len() >= 1 && starts(p, i, tests)(path[0]) && path.last() == j && #[trigger] path_ok(p, path);
        let b = choose|path: Seq<int>|
            path.len() >= 1 && starts(p, j, false)(path[0]) && path.last() == k && #[trigger] path_ok(p, path);
        let c = a + b.drop_first();
        assert(b[0] == j);
        assert forall|t: int| 0 <= t < c.len() implies 0 <= #[trigger] c[t] < p.len() by {
            if t >= a.len() {
                assert(c[t] == b[t - a.len() + 1]);
            }
        }
        assert forall|t: int| 0 <= t < c.len() - 1 implies dep_edge(p, #[trigger] c[t], c[t + 1], false) by {
            if t < a.len() - 1 {
                assert(c[t] == a[t] && c[t + 1] == a[t + 1]);
            } else if t == a.len() - 1 {
                assert(c[t] == a.last() && c[t + 1] == b[1]);
                assert(dep_edge(p, b[0], b[1], false));
            } else {
                assert(c[t] == b[t - a.len() + 1] && c[t + 1] == b[t - a.len() + 2]);
            }
        }
        assert(path_ok(p, c));
        if b.len() == 1 {
            assert(c =~= a);
        } else {
            assert(c.last() == b.last());
        }
        assert(starts(p, i, tests)(c[0]));
    }
}

} // verus!
