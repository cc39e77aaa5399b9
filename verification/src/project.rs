//! The module being edited and what it imports.
use crate::symbol::NodeId;
use crate::text::str_eq;
use vstd::prelude::*;

verus! {

/// An import: a local name bound to another module.
#[derive(Debug, Clone)]
pub struct Import {
    /// The alias under which the module is known here.
    pub as_name: String,
    /// The identifier of the imported module.
    pub module_ident: String,
}

/// An import as a mathematical value.
pub struct ImportView {
    pub as_name: Seq<char>,
    pub module_ident: Seq<char>,
}

impl View for Import {
    type V = ImportView;

    open spec fn view(&self) -> ImportView {
        ImportView { as_name: self.as_name@, module_ident: self.module_ident@ }
    }
}

/// A module of the program.
#[derive(Debug, Clone)]
pub struct Module {
    pub ident: String,
    /// The module's top-level scope.
    pub scope_id: NodeId,
    /// The module's imports, in source order.
    pub dependencies: Vec<Import>,
}

/// A module as a mathematical value.
pub struct ModuleView {
    pub ident: Seq<char>,
    pub scope_id: NodeId,
    pub dependencies: Seq<ImportView>,
}

impl View for Module {
    type V = ModuleView;

    open spec fn view(&self) -> ModuleView {
        ModuleView {
            ident: self.ident@,
            scope_id: self.scope_id,
            dependencies: self.dependencies@.map_values(|import: Import| import@),
        }
    }
}

/// The first import known under `alias`.
pub open spec fn first_import(imports: Seq<ImportView>, alias: Seq<char>) -> Option<ImportView>
    decreases imports.len(),
{
    if imports.len() == 0 {
        None
    } else if imports[0].as_name == alias {
        Some(imports[0])
    } else {
        first_import(imports.drop_first(), alias)
    }
}

/// `first_import` finds an import with the alias that no import with the
/// alias precedes, and finds none only where no import has the alias.
pub proof fn lemma_first_import(imports: Seq<ImportView>, alias: Seq<char>)
    ensures
        match first_import(imports, alias) {
            Some(import) => exists|i: int|
                0 <= i < imports.len() && #[trigger] imports[i] == import && import.as_name
                    == alias && forall|j: int| 0 <= j < i ==> (#[trigger] imports[j]).as_name != alias,
            None => forall|i: int| 0 <= i < imports.len() ==> (#[trigger] imports[i]).as_name != alias,
        },
    decreases imports.len(),
{
    if imports.len() > 0 && imports[0].as_name != alias {
        let rest = imports.drop_first();
        lemma_first_import(rest, alias);
        match first_import(rest, alias) {
            Some(import) => {
                let i = choose|i: int|
                    0 <= i < rest.len() && #[trigger] rest[i] == import && import.as_name == alias
                        && forall|j: int| 0 <= j < i ==> (#[trigger] rest[j]).as_name != alias;
                assert(imports[i + 1] == import);
                assert forall|j: int| 0 <= j < i + 1 implies (#[trigger] imports[j]).as_name
                    != alias by {
                    if j > 0 {
                        assert(rest[j - 1] == imports[j]);
                    }
                }
            },
            None => {
                assert forall|i: int| 0 <= i < imports.len() implies (#[trigger] imports[i]).as_name
                    != alias by {
                    if i > 0 {
                        assert(rest[i - 1] == imports[i]);
                    }
                }
            },
        }
    } else if imports.len() > 0 {
        assert(imports[0] == imports[0]);
    }
}

impl Module {
    /// Looks `alias` up in the import list; the first import of that name
    /// counts.
    pub fn find_import(&self, alias: &str) -> (r: Option<&Import>)
        ensures
            match r {
                Some(import) => first_import(self@.dependencies, alias@) == Some(import@)
                    && import@.as_name == alias@,
                None => first_import(self@.dependencies, alias@) is None,
            },
            r is None <==> forall|i: int|
                0 <= i < self@.dependencies.len() ==> (#[trigger] self@.dependencies[i]).as_name
                    != alias@,
    {
        proof {
            lemma_first_import(self@.dependencies, alias@);
        }
        let ghost imports = self@.dependencies;
        let mut i: usize = 0;
        assert(imports.skip(0) == imports);
        while i < self.dependencies.len()
            invariant
                i <= self.dependencies@.len(),
                imports == self@.dependencies,
                first_import(imports, alias@) == first_import(imports.skip(i as int), alias@),
            decreases self.dependencies@.len() - i,
        {
            if str_eq(self.dependencies[i].as_name.as_str(), alias) {
                return Some(&self.dependencies[i]);
            }
            assert(imports.skip(i as int).drop_first() == imports.skip(i + 1));
            i += 1;
        }
        None
    }
}

} // verus!
