//! Symbols, lexical scopes, and the table that owns both.
//!
//! Scopes and symbols are named by references: positive integers handed
//! out in order of creation. Reference 0 names nothing; as a parent it
//! marks a root scope.
use crate::text::str_eq;
use vstd::prelude::*;

verus! {

/// A reference to a scope or to a symbol.
pub type NodeId = usize;

/// The kind of a symbol, with what was recorded of it when it was declared:
/// a description of its type and, for a function, the name it is shown
/// under.
#[derive(Debug, Clone)]
pub enum SymbolKind {
    Variable { type_desc: String },
    Constant { type_desc: String },
    Function { type_desc: String, name: String },
    Type { type_desc: String },
}

/// A symbol kind as a mathematical value.
pub enum SymbolKindView {
    Variable { type_desc: Seq<char> },
    Constant { type_desc: Seq<char> },
    Function { type_desc: Seq<char>, name: Seq<char> },
    Type { type_desc: Seq<char> },
}

impl View for SymbolKind {
    type V = SymbolKindView;

    open spec fn view(&self) -> SymbolKindView {
        match *self {
            SymbolKind::Variable { type_desc } => SymbolKindView::Variable { type_desc: type_desc@ },
            SymbolKind::Constant { type_desc } => SymbolKindView::Constant { type_desc: type_desc@ },
            SymbolKind::Function { type_desc, name } => SymbolKindView::Function {
                type_desc: type_desc@,
                name: name@,
            },
            SymbolKind::Type { type_desc } => SymbolKindView::Type { type_desc: type_desc@ },
        }
    }
}

/// A declared name.
#[derive(Debug, Clone)]
pub struct Symbol {
    /// The identifier, possibly qualified with dots.
    pub ident: String,
    /// The offset at which the symbol is declared.
    pub pos: usize,
    pub kind: SymbolKind,
}

/// A symbol as a mathematical value.
pub struct SymbolView {
    pub ident: Seq<char>,
    pub pos: usize,
    pub kind: SymbolKindView,
}

impl View for Symbol {
    type V = SymbolView;

    open spec fn view(&self) -> SymbolView {
        SymbolView { ident: self.ident@, pos: self.pos, kind: self.kind@ }
    }
}

/// The symbol in a slot of the table, if the slot still holds one.
pub open spec fn slot_view(slot: Option<Symbol>) -> Option<SymbolView> {
    match slot {
        Some(symbol) => Some(symbol@),
        None => None,
    }
}

/// A lexical region of the source.
#[derive(Debug)]
pub struct Scope {
    /// The half-open range of offsets `[start, end)`; an `end` of 0 means
    /// that the scope runs to the end of the file.
    pub range: (usize, usize),
    /// The enclosing scope, or 0 for a root.
    pub parent: NodeId,
    /// The scopes nested directly inside, in order of creation.
    pub children: Vec<NodeId>,
    /// The symbols declared directly in this scope, in order of declaration.
    pub symbols: Vec<NodeId>,
}

/// A scope as a mathematical value.
pub struct ScopeView {
    pub start: usize,
    pub end: usize,
    pub parent: NodeId,
    pub children: Seq<NodeId>,
    pub symbols: Seq<NodeId>,
}

impl View for Scope {
    type V = ScopeView;

    open spec fn view(&self) -> ScopeView {
        ScopeView {
            start: self.range.0,
            end: self.range.1,
            parent: self.parent,
            children: self.children@,
            symbols: self.symbols@,
        }
    }
}

impl ScopeView {
    /// Whether `position` lies in the scope, an `end` of 0 standing for no
    /// upper bound.
    pub open spec fn encloses(self, position: usize) -> bool {
        position >= self.start && (position < self.end || self.end == 0)
    }

    /// Whether `position` lies in the scope's range read literally, as it
    /// is read for a nested scope.
    pub open spec fn spans(self, position: usize) -> bool {
        self.start <= position < self.end
    }
}

impl Scope {
    /// Decides [`ScopeView::encloses`].
    pub fn encloses(&self, position: usize) -> (r: bool)
        ensures
            r == self@.encloses(position),
    {
        position >= self.range.0 && (position < self.range.1 || self.range.1 == 0)
    }

    /// Decides [`ScopeView::spans`].
    pub fn spans(&self, position: usize) -> (r: bool)
        ensures
            r == self@.spans(position),
    {
        position >= self.range.0 && position < self.range.1
    }
}

/// Whether the range `[start, end)` may be nested in `outer`: it lies
/// within `outer`'s range, or `outer` is unbounded.
pub open spec fn range_within(start: usize, end: usize, outer: ScopeView) -> bool {
    outer.end == 0 || (outer.start <= start && end <= outer.end && end != 0)
}

/// Whether `child` is a proper child of scope `id`: created after it,
/// present, and pointing back to it.
pub open spec fn child_ok(scopes: Seq<ScopeView>, id: NodeId, child: NodeId) -> bool {
    id < child <= scopes.len() && scopes[child - 1].parent == id
}

/// Whether scope `id` is consistent with the other scopes.
pub open spec fn scope_ok(scopes: Seq<ScopeView>, id: NodeId) -> bool {
    let s = scopes[id - 1];
    &&& s.parent < id
    &&& s.parent != 0 ==> range_within(s.start, s.end, scopes[s.parent - 1])
    &&& forall|j: int| 0 <= j < s.children.len() ==> child_ok(scopes, id, #[trigger] s.children[j])
}

/// The scopes form a forest without cycles, in which a parent is created
/// before its children, and each nested scope lies within its parent
/// unless that parent is unbounded.
pub open spec fn forest_ok(scopes: Seq<ScopeView>) -> bool {
    forall|id: NodeId| 1 <= id <= scopes.len() ==> #[trigger] scope_ok(scopes, id)
}

/// A symbol table as a mathematical value. Scope `id` is `scopes[id - 1]`,
/// symbol `id` is `symbols[id - 1]`.
pub struct TableView {
    pub scopes: Seq<ScopeView>,
    pub symbols: Seq<Option<SymbolView>>,
    pub module_scopes: Map<Seq<char>, NodeId>,
}

impl TableView {
    /// Whether `id` names a scope of the table.
    pub open spec fn has_scope(self, id: NodeId) -> bool {
        1 <= id <= self.scopes.len()
    }

    /// The scope that `id` names.
    pub open spec fn scope(self, id: NodeId) -> ScopeView
        recommends
            self.has_scope(id),
    {
        self.scopes[id - 1]
    }

    /// The symbol that `id` names, or `None` for a stale reference.
    pub open spec fn symbol(self, id: NodeId) -> Option<SymbolView> {
        if 1 <= id <= self.symbols.len() {
            self.symbols[id - 1]
        } else {
            None
        }
    }

    /// The scope around scope `id`, or 0 where `id` names a root or nothing.
    /// A scope's parent is created before the scope, so its reference is
    /// the smaller one.
    pub open spec fn enclosing(self, id: NodeId) -> NodeId {
        if self.has_scope(id) && self.scope(id).parent < id {
            self.scope(id).parent
        } else {
            0
        }
    }

    /// The top-level scope registered for the module `ident`.
    pub open spec fn module_scope(self, ident: Seq<char>) -> Option<NodeId> {
        if self.module_scopes.contains_key(ident) {
            Some(self.module_scopes[ident])
        } else {
            None
        }
    }

    /// The table's invariant: see [`forest_ok`].
    pub open spec fn wf(self) -> bool {
        forest_ok(self.scopes)
    }

    /// Whether a scope `[start, end)` can be created under `parent`.
    pub open spec fn admits_scope(self, parent: NodeId, start: usize, end: usize) -> bool {
        &&& self.scopes.len() < usize::MAX
        &&& parent == 0 || (self.has_scope(parent) && range_within(
            start,
            end,
            self.scope(parent),
        ))
    }

    /// The table after a scope `[start, end)` was created under `parent`.
    pub open spec fn with_scope(self, parent: NodeId, start: usize, end: usize) -> TableView {
        let id = (self.scopes.len() + 1) as usize;
        let added = self.scopes.push(
            ScopeView { start, end, parent, children: Seq::empty(), symbols: Seq::empty() },
        );
        let scopes = if parent == 0 {
            added
        } else {
            added.update(
                parent - 1,
                ScopeView { children: added[parent - 1].children.push(id), ..added[parent - 1] },
            )
        };
        TableView { scopes, ..self }
    }

    /// Whether a symbol can be declared in `scope_id`.
    pub open spec fn admits_symbol(self, scope_id: NodeId) -> bool {
        self.symbols.len() < usize::MAX && self.has_scope(scope_id)
    }

    /// The table after `symbol` was declared in `scope_id`.
    pub open spec fn with_symbol(self, scope_id: NodeId, symbol: SymbolView) -> TableView {
        let id = (self.symbols.len() + 1) as usize;
        let s = self.scope(scope_id);
        TableView {
            scopes: self.scopes.update(
                scope_id - 1,
                ScopeView { symbols: s.symbols.push(id), ..s },
            ),
            symbols: self.symbols.push(Some(symbol)),
            ..self
        }
    }

    /// The table after symbol `id` was dropped. References to it stay
    /// where they are and turn stale.
    pub open spec fn without_symbol(self, id: NodeId) -> TableView {
        if 1 <= id <= self.symbols.len() {
            TableView { symbols: self.symbols.update(id - 1, None), ..self }
        } else {
            self
        }
    }

    /// The table after module `ident` was registered with top-level scope
    /// `scope_id`, replacing an earlier registration.
    pub open spec fn with_module(self, ident: Seq<char>, scope_id: NodeId) -> TableView {
        TableView { module_scopes: self.module_scopes.insert(ident, scope_id), ..self }
    }
}

/// One registration of a module's top-level scope.
struct ModuleScope {
    ident: String,
    scope_id: NodeId,
}

/// The mapping that a list of registrations stands for; a later
/// registration of an identifier overrides an earlier one.
spec fn module_map(entries: Seq<ModuleScope>) -> Map<Seq<char>, NodeId>
    decreases entries.len(),
{
    if entries.len() == 0 {
        Map::empty()
    } else {
        module_map(entries.drop_last()).insert(entries.last().ident@, entries.last().scope_id)
    }
}

/// Replacing the last registration of an identifier has the effect of
/// registering it anew.
proof fn lemma_module_map_update(entries: Seq<ModuleScope>, i: int, entry: ModuleScope)
    requires
        0 <= i < entries.len(),
        entries[i].ident@ == entry.ident@,
        forall|j: int| i < j < entries.len() ==> (#[trigger] entries[j]).ident@ != entry.ident@,
    ensures
        module_map(entries.update(i, entry)) == module_map(entries).insert(
            entry.ident@,
            entry.scope_id,
        ),
    decreases entries.len(),
{
    let updated = entries.update(i, entry);
    if i == entries.len() - 1 {
        assert(updated.drop_last() == entries.drop_last());
        assert(module_map(updated) =~= module_map(entries).insert(entry.ident@, entry.scope_id));
    } else {
        lemma_module_map_update(entries.drop_last(), i, entry);
        assert(updated.drop_last() == entries.drop_last().update(i, entry));
        assert(updated.last() == entries.last());
        assert(module_map(updated) =~= module_map(entries).insert(entry.ident@, entry.scope_id));
    }
}

/// Whether `r` is the index of the last registration of `ident`, or
/// `None` where it was never registered.
spec fn is_last_registration(entries: Seq<ModuleScope>, ident: Seq<char>, r: Option<usize>) -> bool {
    match r {
        Some(i) => {
            &&& i < entries.len()
            &&& entries[i as int].ident@ == ident
            &&& forall|j: int| i < j < entries.len() ==> (#[trigger] entries[j]).ident@ != ident
        },
        None => forall|j: int| 0 <= j < entries.len() ==> (#[trigger] entries[j]).ident@ != ident,
    }
}

/// The mapping sends an identifier to the scope of its last registration.
proof fn lemma_module_map_lookup(entries: Seq<ModuleScope>, ident: Seq<char>, r: Option<usize>)
    requires
        is_last_registration(entries, ident, r),
    ensures
        match r {
            Some(i) => module_map(entries).contains_key(ident) && module_map(entries)[ident]
                == entries[i as int].scope_id,
            None => !module_map(entries).contains_key(ident),
        },
    decreases entries.len(),
{
    let at_end = match r {
        Some(i) => i == entries.len() - 1,
        None => false,
    };
    if entries.len() > 0 && !at_end {
        assert(entries.last().ident@ != ident);
        assert forall|j: int| 0 <= j < entries.drop_last().len() implies entries.drop_last()[j]
            == entries[j] by {}
        lemma_module_map_lookup(entries.drop_last(), ident, r);
    }
}

/// Finds the last registration of `ident`.
fn last_registration(entries: &Vec<ModuleScope>, ident: &str) -> (r: Option<usize>)
    ensures
        is_last_registration(entries@, ident@, r),
{
    let mut i: usize = entries.len();
    while i > 0
        invariant
            i <= entries@.len(),
            forall|j: int| i <= j < entries@.len() ==> (#[trigger] entries@[j]).ident@ != ident@,
        decreases i,
    {
        i -= 1;
        if str_eq(entries[i].ident.as_str(), ident) {
            return Some(i);
        }
    }
    None
}

/// All scopes and symbols of a program, and the top-level scope of each
/// module.
pub struct SymbolTable {
    scopes: Vec<Scope>,
    symbols: Vec<Option<Symbol>>,
    module_scopes: Vec<ModuleScope>,
}

impl View for SymbolTable {
    type V = TableView;

    closed spec fn view(&self) -> TableView {
        TableView {
            scopes: self.scopes@.map_values(|s: Scope| s@),
            symbols: self.symbols@.map_values(|slot: Option<Symbol>| slot_view(slot)),
            module_scopes: module_map(self.module_scopes@),
        }
    }
}

impl SymbolTable {
    /// Every table is well formed.
    #[verifier::type_invariant]
    pub open spec fn inv(self) -> bool {
        self.view().wf()
    }

    /// An empty table.
    pub fn new() -> (table: SymbolTable)
        ensures
            table@.scopes.len() == 0,
            table@.symbols.len() == 0,
            table@.module_scopes == Map::<Seq<char>, NodeId>::empty(),
    {
        SymbolTable { scopes: Vec::new(), symbols: Vec::new(), module_scopes: Vec::new() }
    }

    /// Resolves a scope reference.
    pub fn find_scope(&self, scope_id: NodeId) -> (r: Option<&Scope>)
        ensures
            match r {
                Some(scope) => self@.has_scope(scope_id) && scope@ == self@.scope(scope_id),
                None => !self@.has_scope(scope_id),
            },
    {
        if scope_id == 0 || scope_id > self.scopes.len() {
            None
        } else {
            Some(&self.scopes[scope_id - 1])
        }
    }

    /// Resolves a symbol reference; `None` when it is stale.
    pub fn get_symbol_ref(&self, symbol_id: NodeId) -> (r: Option<&Symbol>)
        ensures
            match r {
                Some(symbol) => self@.symbol(symbol_id) == Some(symbol@),
                None => self@.symbol(symbol_id) is None,
            },
    {
        if symbol_id == 0 || symbol_id > self.symbols.len() {
            None
        } else {
            match &self.symbols[symbol_id - 1] {
                Some(symbol) => Some(symbol),
                None => None,
            }
        }
    }

    /// Resolves a module identifier to the module's top-level scope.
    pub fn find_module_scope(&self, ident: &str) -> (r: Option<NodeId>)
        ensures
            r == self@.module_scope(ident@),
    {
        let found = last_registration(&self.module_scopes, ident);
        proof {
            lemma_module_map_lookup(self.module_scopes@, ident@, found);
        }
        match found {
            Some(i) => Some(self.module_scopes[i].scope_id),
            None => None,
        }
    }

    /// Creates a scope `[start, end)` under `parent` (0 for a root) and
    /// returns its reference. Refuses, leaving the table as it was, when
    /// `parent` names no scope or the range does not fit into it.
    pub fn create_scope(&mut self, parent: NodeId, start: usize, end: usize) -> (r: Option<NodeId>)
        ensures
            r is Some <==> old(self)@.admits_scope(parent, start, end),
            r is Some ==> r->0 == old(self)@.scopes.len() + 1 && final(self)@ == old(
                self,
            )@.with_scope(parent, start, end),
            r is None ==> final(self)@ == old(self)@,
    {
        proof {
            use_type_invariant(&*self);
        }
        let count: usize = self.scopes.len();
        if count == usize::MAX {
            return None;
        }
        if parent != 0 {
            if parent > count {
                return None;
            }
            let outer = &self.scopes[parent - 1];
            if !(outer.range.1 == 0 || (outer.range.0 <= start && end <= outer.range.1 && end
                != 0)) {
                return None;
            }
        }
        let id: usize = count + 1;
        let ghost before = self@;
        let mut scopes: Vec<Scope> = Vec::new();
        core::mem::swap(&mut self.scopes, &mut scopes);
        scopes.push(Scope { range: (start, end), parent, children: Vec::new(), symbols: Vec::new() });
        if parent != 0 {
            scopes[parent - 1].children.push(id);
        }
        proof {
            let after = before.with_scope(parent, start, end);
            assert(scopes@.map_values(|s: Scope| s@) =~= after.scopes);
            assert forall|k: NodeId| 1 <= k <= after.scopes.len() implies #[trigger] scope_ok(
                after.scopes,
                k,
            ) by {
                if k <= count {
                    assert(scope_ok(before.scopes, k));
                }
            }
        }
        core::mem::swap(&mut self.scopes, &mut scopes);
        Some(id)
    }

    /// Declares `symbol` in scope `scope_id` and returns its reference.
    /// Refuses, leaving the table as it was, when `scope_id` names no scope.
    pub fn define_symbol(&mut self, scope_id: NodeId, symbol: Symbol) -> (r: Option<NodeId>)
        ensures
            r is Some <==> old(self)@.admits_symbol(scope_id),
            r is Some ==> r->0 == old(self)@.symbols.len() + 1 && final(self)@ == old(
                self,
            )@.with_symbol(scope_id, symbol@),
            r is None ==> final(self)@ == old(self)@,
    {
        proof {
            use_type_invariant(&*self);
        }
        if scope_id == 0 || scope_id > self.scopes.len() || self.symbols.len() == usize::MAX {
            return None;
        }
        let id: usize = self.symbols.len() + 1;
        let ghost before = self@;
        let ghost after = before.with_symbol(scope_id, symbol@);
        let mut symbols: Vec<Option<Symbol>> = Vec::new();
        core::mem::swap(&mut self.symbols, &mut symbols);
        symbols.push(Some(symbol));
        assert(symbols@.map_values(|slot: Option<Symbol>| slot_view(slot)) =~= after.symbols);
        core::mem::swap(&mut self.symbols, &mut symbols);
        let mut scopes: Vec<Scope> = Vec::new();
        core::mem::swap(&mut self.scopes, &mut scopes);
        scopes[scope_id - 1].symbols.push(id);
        proof {
            assert(scopes@.map_values(|s: Scope| s@) =~= after.scopes);
            assert forall|k: NodeId| 1 <= k <= after.scopes.len() implies #[trigger] scope_ok(
                after.scopes,
                k,
            ) by {
                assert(scope_ok(before.scopes, k));
            }
        }
        core::mem::swap(&mut self.scopes, &mut scopes);
        Some(id)
    }

    /// Drops symbol `symbol_id` from the table. The scope that declared it
    /// keeps its reference, which from now on resolves to nothing.
    pub fn remove_symbol(&mut self, symbol_id: NodeId)
        ensures
            final(self)@ == old(self)@.without_symbol(symbol_id),
    {
        proof {
            use_type_invariant(&*self);
        }
        if symbol_id == 0 || symbol_id > self.symbols.len() {
            return ;
        }
        let ghost after = self@.without_symbol(symbol_id);
        let mut symbols: Vec<Option<Symbol>> = Vec::new();
        core::mem::swap(&mut self.symbols, &mut symbols);
        symbols.set(symbol_id - 1, None);
        assert(symbols@.map_values(|slot: Option<Symbol>| slot_view(slot)) =~= after.symbols);
        core::mem::swap(&mut self.symbols, &mut symbols);
    }

    /// Registers `scope_id` as the top-level scope of module `ident`,
    /// replacing an earlier registration of that module.
    pub fn register_module(&mut self, ident: String, scope_id: NodeId)
        ensures
            final(self)@ == old(self)@.with_module(ident@, scope_id),
    {
        proof {
            use_type_invariant(&*self);
        }
        let found = last_registration(&self.module_scopes, ident.as_str());
        let ghost before = self.module_scopes@;
        let mut entries: Vec<ModuleScope> = Vec::new();
        core::mem::swap(&mut self.module_scopes, &mut entries);
        let entry = ModuleScope { ident, scope_id };
        match found {
            Some(i) => {
                proof {
                    lemma_module_map_update(before, i as int, entry);
                }
                entries.set(i, entry);
            },
            None => {
                entries.push(entry);
                assert(entries@.drop_last() == before);
            },
        }
        core::mem::swap(&mut self.module_scopes, &mut entries);
    }
}

} // verus!
