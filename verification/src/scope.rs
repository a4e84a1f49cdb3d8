//! What one source file's own text says about where the names it uses come from.
use vstd::hash_map::StringHashMap;
use vstd::hash_set::StringHashSet;
use vstd::prelude::*;

use crate::adapter::{RefTarget, RefTargetView};

verus! {

/// What one source file's own text says about where the names it uses come from: which
/// module each import binds a name to, which names the file declares itself, and what to
/// assume about a name that's neither. It keeps the linker from claiming `Exact` on the
/// strength of a bare name.
pub struct FileScope {
    module: String,
    imports: StringHashMap<String>,
    default_imports: StringHashMap<String>,
    locals: StringHashSet,
    wildcards: Vec<String>,
    unimported: RefTarget,
}

/// A `FileScope` as plain values.
pub struct FileScopeView {
    pub module: Seq<char>,
    pub imports: Map<Seq<char>, Seq<char>>,
    pub default_imports: Map<Seq<char>, Seq<char>>,
    pub locals: Set<Seq<char>>,
    pub wildcards: Seq<Seq<char>>,
    pub unimported: RefTargetView,
}

/// Where a bare `name()` points: a default import, then a named import, then a same-file
/// declaration, then the one glob import in scope (never one of several), else whatever
/// an unimported name means in this language.
pub open spec fn bare_target(s: FileScopeView, name: Seq<char>) -> RefTargetView {
    if s.default_imports.contains_key(name) {
        RefTargetView::ModuleDefault(s.default_imports[name])
    } else if s.imports.contains_key(name) {
        RefTargetView::Module(s.imports[name])
    } else if s.locals.contains(name) {
        RefTargetView::Module(s.module)
    } else if s.wildcards.len() == 1 {
        RefTargetView::Module(s.wildcards[0])
    } else {
        s.unimported
    }
}

/// Where `qualifier::name()` points: an import of the qualifier, a same-file declaration
/// of it, else `Opaque`.
pub open spec fn qualified_target(s: FileScopeView, qualifier: Seq<char>) -> RefTargetView {
    if s.imports.contains_key(qualifier) {
        RefTargetView::Module(s.imports[qualifier])
    } else if s.locals.contains(qualifier) {
        RefTargetView::Module(s.module)
    } else {
        RefTargetView::Opaque
    }
}

impl View for FileScope {
    type V = FileScopeView;

    closed spec fn view(&self) -> FileScopeView {
        FileScopeView {
            module: self.module@,
            imports: self.imports@.map_values(|m: String| m@),
            default_imports: self.default_imports@.map_values(|m: String| m@),
            locals: self.locals@,
            wildcards: self.wildcards@.map_values(|m: String| m@),
            unimported: self.unimported@,
        }
    }
}

impl FileScope {
    /// `module` is this file's own module path; `unimported` is what a name that's neither
    /// imported nor declared here resolves to.
    pub fn new(module: &str, unimported: RefTarget) -> (s: FileScope)
        ensures
            s@.module == module@,
            s@.imports == Map::<Seq<char>, Seq<char>>::empty(),
            s@.default_imports == Map::<Seq<char>, Seq<char>>::empty(),
            s@.locals == Set::<Seq<char>>::empty(),
            s@.wildcards == Seq::<Seq<char>>::empty(),
            s@.unimported == unimported@,
    {
        let s = FileScope {
            module: module.to_owned(),
            imports: StringHashMap::new(),
            default_imports: StringHashMap::new(),
            locals: StringHashSet::new(),
            wildcards: Vec::new(),
            unimported,
        };
        assert(s@.imports =~= Map::<Seq<char>, Seq<char>>::empty());
        assert(s@.default_imports =~= Map::<Seq<char>, Seq<char>>::empty());
        assert(s@.wildcards =~= Seq::<Seq<char>>::empty());
        s
    }

    /// Binds `local_name` (as written at call sites in this file) to the module it was
    /// imported from.
    pub fn add_import(&mut self, local_name: &str, module: &str)
        ensures
            final(self)@ == (FileScopeView {
                imports: old(self)@.imports.insert(local_name@, module@),
                ..old(self)@
            }),
    {
        self.imports.insert(local_name.to_owned(), module.to_owned());
        assert(self@.imports =~= old(self)@.imports.insert(local_name@, module@));
    }

    /// Binds `local_name` to the module a default import brought it in from: the same
    /// bookkeeping as `add_import`, plus a record `bare` prefers.
    pub fn add_default_import(&mut self, local_name: &str, module: &str)
        ensures
            final(self)@ == (FileScopeView {
                imports: old(self)@.imports.insert(local_name@, module@),
                default_imports: old(self)@.default_imports.insert(local_name@, module@),
                ..old(self)@
            }),
    {
        self.default_imports.insert(local_name.to_owned(), module.to_owned());
        self.imports.insert(local_name.to_owned(), module.to_owned());
        assert(self@.imports =~= old(self)@.imports.insert(local_name@, module@));
        assert(self@.default_imports =~= old(self)@.default_imports.insert(local_name@, module@));
    }

    /// A glob import — applied only when it is the only one.
    pub fn add_wildcard(&mut self, module: &str)
        ensures
            final(self)@ == (FileScopeView {
                wildcards: old(self)@.wildcards.push(module@),
                ..old(self)@
            }),
    {
        self.wildcards.push(module.to_owned());
        assert(self@.wildcards =~= old(self)@.wildcards.push(module@));
    }

    /// A name this file declares itself.
    pub fn declare_local(&mut self, name: &str)
        ensures
            final(self)@ == (FileScopeView { locals: old(self)@.locals.insert(name@), ..old(self)@ }),
    {
        self.locals.insert(name.to_owned());
    }

    pub fn module(&self) -> (m: &str)
        ensures
            m@ == self@.module,
    {
        self.module.as_str()
    }

    /// Where a bare `name()` call points.
    pub fn bare(&self, name: &str) -> (t: RefTarget)
        ensures
            t@ == bare_target(self@, name@),
    {
        if let Some(module) = self.default_imports.get(name) {
            return RefTarget::ModuleDefault(module.clone());
        }
        if let Some(module) = self.imports.get(name) {
            return RefTarget::Module(module.clone());
        }
        if self.locals.contains(name) {
            return RefTarget::Module(self.module.clone());
        }
        if self.wildcards.len() == 1 {
            return RefTarget::Module(self.wildcards[0].clone());
        }
        self.unimported.copy()
    }

    /// Where a `qualifier::name()` / `qualifier.name()` call points.
    pub fn qualified(&self, qualifier: &str) -> (t: RefTarget)
        ensures
            t@ == qualified_target(self@, qualifier@),
    {
        if let Some(module) = self.imports.get(qualifier) {
            return RefTarget::Module(module.clone());
        }
        if self.locals.contains(qualifier) {
            return RefTarget::Module(self.module.clone());
        }
        RefTarget::Opaque
    }

    /// Where a call on this file's own scope points (`self.method()`).
    pub fn own(&self) -> (t: RefTarget)
        ensures
            t@ == RefTargetView::Module(self@.module),
    {
        RefTarget::Module(self.module.clone())
    }
}

/// An import is what a later bare or qualified use of its name resolves to — unless the
/// name is also a default import, which a bare use prefers; a declaration binds a name to
/// the file's own module unless an import of it shadows it.
pub proof fn law_import_then_resolve(s: FileScopeView, name: Seq<char>, module: Seq<char>)
    ensures
        ({
            let t = FileScopeView { imports: s.imports.insert(name, module), ..s };
            &&& qualified_target(t, name) == RefTargetView::Module(module)
            &&& !s.default_imports.contains_key(name) ==> bare_target(t, name)
                == RefTargetView::Module(module)
        }),
        ({
            let t = FileScopeView {
                imports: s.imports.insert(name, module),
                default_imports: s.default_imports.insert(name, module),
                ..s
            };
            &&& bare_target(t, name) == RefTargetView::ModuleDefault(module)
            &&& qualified_target(t, name) == RefTargetView::Module(module)
        }),
        ({
            let t = FileScopeView { locals: s.locals.insert(name), ..s };
            &&& !s.imports.contains_key(name) && !s.default_imports.contains_key(name)
                ==> bare_target(t, name) == RefTargetView::Module(s.module)
            &&& !s.imports.contains_key(name) ==> qualified_target(t, name)
                == RefTargetView::Module(s.module)
        }),
{
}

/// A second glob import makes every name that nothing else binds fall back to the
/// language's default, never to one of the two globs.
pub proof fn law_two_wildcards_are_no_evidence(s: FileScopeView, name: Seq<char>)
    requires
        s.wildcards.len() >= 2,
        !s.default_imports.contains_key(name),
        !s.imports.contains_key(name),
        !s.locals.contains(name),
    ensures
        bare_target(s, name) == s.unimported,
{
}

} // verus!
