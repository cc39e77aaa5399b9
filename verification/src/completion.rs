//! The completion entry points: from cursor and text to ranked candidates.
use crate::item::{
    item_views, sort_key, zero_padded, CompletionItem, CompletionItemKind, ItemView, SORT_KEY_WIDTH,
};
use crate::project::{first_import, Module, ModuleView};
use crate::rank::{
    has_label, is_ranking, labels_distinct, lemma_ranking_unique, lemma_ranking_within,
    matches_come_first, rank_completions, ranks_behind_all, MAX_COMPLETIONS,
};
use crate::symbol::{
    child_ok, scope_ok, NodeId, Symbol, SymbolKind, SymbolKindView, SymbolTable, SymbolView,
    TableView,
};
use crate::text::{
    extract_last_ident_part, extract_module_member_context, extract_prefix_at_position,
    last_segment, qualified_split, starts_with, token_at,
};
use vstd::prelude::*;

verus! {

/// Whether a symbol of this kind takes part in plain scope completion.
pub open spec fn is_local_kind(kind: SymbolKindView) -> bool {
    kind is Variable || kind is Constant
}

/// The sort key of a symbol declared at `pos`.
pub open spec fn sort_key_of(pos: usize) -> Seq<char> {
    zero_padded(pos as nat, SORT_KEY_WIDTH as nat)
}

/// The candidate that plain scope completion makes of a symbol.
pub open spec fn local_item(symbol: SymbolView) -> ItemView {
    ItemView {
        label: symbol.ident,
        kind: match symbol.kind {
            SymbolKindView::Constant { .. } => CompletionItemKind::Constant,
            _ => CompletionItemKind::Variable,
        },
        detail: match symbol.kind {
            SymbolKindView::Variable { type_desc } => Some("var: "@ + type_desc),
            SymbolKindView::Constant { type_desc } => Some("const: "@ + type_desc),
            _ => None,
        },
        documentation: None,
        insert_text: symbol.ident,
        sort_text: Some(sort_key_of(symbol.pos)),
    }
}

/// The name under which a module member is seen from outside: a
/// function's own name, else the identifier without its qualification.
pub open spec fn member_label(symbol: SymbolView) -> Seq<char> {
    match symbol.kind {
        SymbolKindView::Function { name, .. } => name,
        _ => last_segment(symbol.ident),
    }
}

/// The candidate that module-member completion makes of a symbol.
pub open spec fn member_item(symbol: SymbolView) -> ItemView {
    ItemView {
        label: member_label(symbol),
        kind: match symbol.kind {
            SymbolKindView::Constant { .. } => CompletionItemKind::Constant,
            SymbolKindView::Function { .. } => CompletionItemKind::Function,
            _ => CompletionItemKind::Variable,
        },
        detail: Some(
            match symbol.kind {
                SymbolKindView::Variable { type_desc } => "var: "@ + type_desc,
                SymbolKindView::Constant { type_desc } => "const: "@ + type_desc,
                SymbolKindView::Function { type_desc, .. } => "fn: "@ + type_desc,
                SymbolKindView::Type { .. } => "type definition"@,
            },
        ),
        documentation: None,
        insert_text: member_label(symbol),
        sort_text: Some(sort_key_of(symbol.pos)),
    }
}

/// What a query asks of the symbols of a scope.
pub enum Filter {
    /// Variables and constants that start with `prefix` and are declared
    /// before `position`.
    Local { prefix: Seq<char>, position: usize },
    /// Members of a module that start with `prefix`, wherever declared.
    Member { prefix: Seq<char> },
}

/// The candidate that `symbol` gives under `filter`, if it passes.
pub open spec fn candidate(symbol: SymbolView, filter: Filter) -> Option<ItemView> {
    match filter {
        Filter::Local { prefix, position } => if is_local_kind(symbol.kind) && prefix.is_prefix_of(
            symbol.ident,
        ) && symbol.pos < position {
            Some(local_item(symbol))
        } else {
            None
        },
        Filter::Member { prefix } => if prefix.is_prefix_of(symbol.ident) {
            Some(member_item(symbol))
        } else {
            None
        },
    }
}

/// The candidate that the symbol reference `symbol_id` gives; a stale
/// reference gives none.
pub open spec fn candidate_at(t: TableView, symbol_id: NodeId, filter: Filter) -> Option<ItemView> {
    match t.symbol(symbol_id) {
        Some(symbol) => candidate(symbol, filter),
        None => None,
    }
}

/// The candidates that a list of symbol references gives, in the order of
/// the list.
pub open spec fn candidates_in(t: TableView, symbols: Seq<NodeId>, filter: Filter) -> Seq<ItemView>
    decreases symbols.len(),
{
    if symbols.len() == 0 {
        Seq::empty()
    } else {
        let before = candidates_in(t, symbols.drop_last(), filter);
        match candidate_at(t, symbols.last(), filter) {
            Some(item) => before.push(item),
            None => before,
        }
    }
}

/// The candidates of scope `scope_id` followed by those of the scopes
/// around it, innermost first.
pub open spec fn chain_candidates(
    t: TableView,
    scope_id: NodeId,
    prefix: Seq<char>,
    position: usize,
) -> Seq<ItemView>
    decreases scope_id,
{
    if t.has_scope(scope_id) {
        candidates_in(t, t.scope(scope_id).symbols, Filter::Local { prefix, position })
            + chain_candidates(t, t.enclosing(scope_id), prefix, position)
    } else {
        Seq::empty()
    }
}

/// The first of `children` that names a scope whose range holds `position`.
pub open spec fn first_spanning(t: TableView, children: Seq<NodeId>, position: usize) -> Option<
    NodeId,
>
    decreases children.len(),
{
    if children.len() == 0 {
        None
    } else if t.has_scope(children[0]) && t.scope(children[0]).spans(position) {
        Some(children[0])
    } else {
        first_spanning(t, children.drop_first(), position)
    }
}

/// The innermost scope around `position`, searched from `scope_id` down:
/// `scope_id` itself where its range does not hold `position` or no child's
/// range does, else the innermost scope under the first child whose range
/// does.
pub open spec fn innermost_scope(t: TableView, scope_id: NodeId, position: usize) -> NodeId
    decreases t.scopes.len() - scope_id,
{
    if t.has_scope(scope_id) && t.scope(scope_id).encloses(position) {
        match first_spanning(t, t.scope(scope_id).children, position) {
            Some(child) => if scope_id < child <= t.scopes.len() {
                innermost_scope(t, child, position)
            } else {
                scope_id
            },
            None => scope_id,
        }
    } else {
        scope_id
    }
}

/// The top-level scope of the module that `m` imports as `alias`.
pub open spec fn imported_scope(t: TableView, m: ModuleView, alias: Seq<char>) -> Option<NodeId> {
    match first_import(m.dependencies, alias) {
        Some(import) => t.module_scope(import.module_ident),
        None => None,
    }
}

/// The members of the module imported as `alias` that start with `prefix`.
/// There are none where the alias is unknown, the module is not registered
/// or its scope no longer exists.
pub open spec fn member_candidates(
    t: TableView,
    m: ModuleView,
    alias: Seq<char>,
    prefix: Seq<char>,
) -> Seq<ItemView> {
    match imported_scope(t, m, alias) {
        Some(scope_id) => if t.has_scope(scope_id) {
            candidates_in(t, t.scope(scope_id).symbols, Filter::Member { prefix })
        } else {
            Seq::empty()
        },
        None => Seq::empty(),
    }
}

/// The prefix that candidates are matched and ranked against: the member
/// prefix of a qualified access, else the whole token.
pub open spec fn query_prefix(text: Seq<char>, position: usize) -> Seq<char> {
    let token = token_at(text, position as int);
    match qualified_split(token) {
        Some((_, member)) => member,
        None => token,
    }
}

/// The candidates of a query, before ranking: the members of the imported
/// module where the token is a qualified access, else the variables and
/// constants visible from the innermost scope around the cursor.
pub open spec fn query_candidates(
    t: TableView,
    m: ModuleView,
    text: Seq<char>,
    position: usize,
) -> Seq<ItemView> {
    let token = token_at(text, position as int);
    match qualified_split(token) {
        Some((alias, member)) => member_candidates(t, m, alias, member),
        None => chain_candidates(t, innermost_scope(t, m.scope_id, position), token, position),
    }
}

/// The scopes from `scope_id` up to its root, innermost first.
pub open spec fn scope_chain(t: TableView, scope_id: NodeId) -> Seq<NodeId>
    decreases scope_id,
{
    if t.has_scope(scope_id) {
        seq![scope_id] + scope_chain(t, t.enclosing(scope_id))
    } else {
        Seq::empty()
    }
}

/// Whether the symbol `symbol_id` is declared in a scope on the way from
/// `scope_id` up to its root and gives the candidate `item` for a query
/// with `prefix` at `position`.
pub open spec fn is_visible_source(
    t: TableView,
    scope_id: NodeId,
    symbol_id: NodeId,
    prefix: Seq<char>,
    position: usize,
    item: ItemView,
) -> bool {
    &&& candidate_at(t, symbol_id, Filter::Local { prefix, position }) == Some(item)
    &&& exists|k: int|
        0 <= k < scope_chain(t, scope_id).len() && t.scope(
            #[trigger] scope_chain(t, scope_id)[k],
        ).symbols.contains(symbol_id)
}

/// Whether `out` answers a query for `text` at `position`.
pub open spec fn is_completion(
    t: TableView,
    m: ModuleView,
    text: Seq<char>,
    position: usize,
    out: Seq<ItemView>,
) -> bool {
    is_ranking(query_candidates(t, m, text, position), query_prefix(text, position), out)
}

/// The walk up the scopes goes through ever smaller references, so it
/// visits no scope twice and ends.
pub proof fn lemma_scope_chain_descends(t: TableView, scope_id: NodeId)
    ensures
        forall|k: int|
            0 <= k < scope_chain(t, scope_id).len() ==> t.has_scope(
                #[trigger] scope_chain(t, scope_id)[k],
            ) && scope_chain(t, scope_id)[k] <= scope_id,
        forall|j: int, k: int|
            #![trigger scope_chain(t, scope_id)[j], scope_chain(t, scope_id)[k]]
            0 <= j < k < scope_chain(t, scope_id).len() ==> scope_chain(t, scope_id)[k]
                < scope_chain(t, scope_id)[j],
    decreases scope_id,
{
    if t.has_scope(scope_id) {
        let outer = t.enclosing(scope_id);
        lemma_scope_chain_descends(t, outer);
        let chain = scope_chain(t, scope_id);
        let rest = scope_chain(t, outer);
        assert forall|k: int| 0 <= k < chain.len() implies t.has_scope(#[trigger] chain[k])
            && chain[k] <= scope_id by {
            if k > 0 {
                assert(chain[k] == rest[k - 1]);
            }
        }
        assert forall|j: int, k: int| 0 <= j < k < chain.len() implies chain[k] < chain[j] by {
            assert(chain[k] == rest[k - 1]);
            if j > 0 {
                assert(chain[j] == rest[j - 1]);
            }
        }
    }
}

/// Every candidate of a list of symbol references comes from one of them.
pub proof fn lemma_candidates_sound(t: TableView, symbols: Seq<NodeId>, filter: Filter, i: int)
    requires
        0 <= i < candidates_in(t, symbols, filter).len(),
    ensures
        exists|j: int|
            0 <= j < symbols.len() && candidate_at(t, #[trigger] symbols[j], filter) == Some(
                candidates_in(t, symbols, filter)[i],
            ),
    decreases symbols.len(),
{
    let before = candidates_in(t, symbols.drop_last(), filter);
    if i < before.len() {
        lemma_candidates_sound(t, symbols.drop_last(), filter, i);
        let j = choose|j: int|
            0 <= j < symbols.drop_last().len() && candidate_at(
                t,
                #[trigger] symbols.drop_last()[j],
                filter,
            ) == Some(before[i]);
        assert(symbols[j] == symbols.drop_last()[j]);
    } else {
        assert(symbols[symbols.len() - 1] == symbols.last());
    }
}

/// Every symbol reference of a list that passes the filter has its
/// candidate in the list's candidates.
pub proof fn lemma_candidates_complete(t: TableView, symbols: Seq<NodeId>, filter: Filter, j: int)
    requires
        0 <= j < symbols.len(),
        candidate_at(t, symbols[j], filter) is Some,
    ensures
        candidates_in(t, symbols, filter).contains(candidate_at(t, symbols[j], filter)->0),
    decreases symbols.len(),
{
    let all = candidates_in(t, symbols, filter);
    let item = candidate_at(t, symbols[j], filter)->0;
    if j == symbols.len() - 1 {
        assert(all[all.len() - 1] == item);
    } else {
        let before = candidates_in(t, symbols.drop_last(), filter);
        assert(symbols.drop_last()[j] == symbols[j]);
        lemma_candidates_complete(t, symbols.drop_last(), filter, j);
        let w = choose|w: int| 0 <= w < before.len() && before[w] == item;
        assert(all[w] == item);
    }
}

/// No forward references: every candidate of plain scope completion comes
/// from a variable or constant that is declared in a scope around the
/// cursor, starts with the prefix, and is declared before `position`.
pub proof fn lemma_chain_candidates_sound(
    t: TableView,
    scope_id: NodeId,
    prefix: Seq<char>,
    position: usize,
    i: int,
)
    requires
        0 <= i < chain_candidates(t, scope_id, prefix, position).len(),
    ensures
        exists|symbol_id: NodeId| #[trigger]
            is_visible_source(
                t,
                scope_id,
                symbol_id,
                prefix,
                position,
                chain_candidates(t, scope_id, prefix, position)[i],
            ),
    decreases scope_id,
{
    let filter = Filter::Local { prefix, position };
    let symbols = t.scope(scope_id).symbols;
    let own = candidates_in(t, symbols, filter);
    let chain = scope_chain(t, scope_id);
    let item = chain_candidates(t, scope_id, prefix, position)[i];
    if i < own.len() {
        lemma_candidates_sound(t, symbols, filter, i);
        let j = choose|j: int|
            0 <= j < symbols.len() && candidate_at(t, #[trigger] symbols[j], filter) == Some(own[i]);
        assert(chain[0] == scope_id);
        assert(t.scope(chain[0]).symbols.contains(symbols[j]));
        assert(is_visible_source(t, scope_id, symbols[j], prefix, position, item));
    } else {
        let outer = t.enclosing(scope_id);
        lemma_chain_candidates_sound(t, outer, prefix, position, i - own.len());
        let symbol_id = choose|symbol_id: NodeId| #[trigger]
            is_visible_source(t, outer, symbol_id, prefix, position, item);
        let k = choose|k: int|
            0 <= k < scope_chain(t, outer).len() && t.scope(
                #[trigger] scope_chain(t, outer)[k],
            ).symbols.contains(symbol_id);
        assert(chain[k + 1] == scope_chain(t, outer)[k]);
        assert(is_visible_source(t, scope_id, symbol_id, prefix, position, item));
    }
}

/// A variable or constant that is declared in a scope around the cursor,
/// starts with the prefix and is declared before `position` is a candidate.
pub proof fn lemma_chain_candidates_complete(
    t: TableView,
    scope_id: NodeId,
    symbol_id: NodeId,
    prefix: Seq<char>,
    position: usize,
    item: ItemView,
)
    requires
        is_visible_source(t, scope_id, symbol_id, prefix, position, item),
    ensures
        chain_candidates(t, scope_id, prefix, position).contains(item),
    decreases scope_id,
{
    let filter = Filter::Local { prefix, position };
    let chain = scope_chain(t, scope_id);
    let k = choose|k: int|
        0 <= k < chain.len() && t.scope(#[trigger] chain[k]).symbols.contains(symbol_id);
    let own = candidates_in(t, t.scope(scope_id).symbols, filter);
    let all = chain_candidates(t, scope_id, prefix, position);
    if k == 0 {
        let symbols = t.scope(scope_id).symbols;
        let j = choose|j: int| 0 <= j < symbols.len() && symbols[j] == symbol_id;
        lemma_candidates_complete(t, symbols, filter, j);
        let w = choose|w: int| 0 <= w < own.len() && own[w] == item;
        assert(all[w] == item);
    } else {
        let outer = t.enclosing(scope_id);
        assert(scope_chain(t, outer)[k - 1] == chain[k]);
        assert(is_visible_source(t, outer, symbol_id, prefix, position, item));
        lemma_chain_candidates_complete(t, outer, symbol_id, prefix, position, item);
        let rest = chain_candidates(t, outer, prefix, position);
        let w = choose|w: int| 0 <= w < rest.len() && rest[w] == item;
        assert(all[own.len() + w] == item);
    }
}

/// What the innermost scope is: a scope at or below the start whose range
/// holds the position and none of whose children's ranges does.
pub proof fn lemma_innermost_scope(t: TableView, scope_id: NodeId, position: usize)
    requires
        t.wf(),
        t.has_scope(scope_id),
    ensures
        t.has_scope(innermost_scope(t, scope_id, position)),
        scope_chain(t, innermost_scope(t, scope_id, position)).contains(scope_id),
        t.scope(scope_id).encloses(position) ==> t.scope(
            innermost_scope(t, scope_id, position),
        ).encloses(position) && first_spanning(
            t,
            t.scope(innermost_scope(t, scope_id, position)).children,
            position,
        ) is None,
    decreases t.scopes.len() - scope_id,
{
    let r = innermost_scope(t, scope_id, position);
    let children = t.scope(scope_id).children;
    if t.scope(scope_id).encloses(position) && first_spanning(t, children, position) is Some {
        let child = first_spanning(t, children, position)->0;
        lemma_first_spanning(t, children, position);
        let w = choose|w: int| 0 <= w < children.len() && children[w] == child;
        assert(scope_ok(t.scopes, scope_id));
        assert(child_ok(t.scopes, scope_id, children[w]));
        lemma_innermost_scope(t, child, position);
        lemma_scope_chain_through(t, r, child);
    } else {
        assert(scope_chain(t, scope_id)[0] == scope_id);
    }
}

/// `first_spanning` finds one of the children, and one whose range holds
/// the position.
proof fn lemma_first_spanning(t: TableView, children: Seq<NodeId>, position: usize)
    ensures
        match first_spanning(t, children, position) {
            Some(child) => children.contains(child) && t.has_scope(child) && t.scope(child).spans(
                position,
            ),
            None => true,
        },
    decreases children.len(),
{
    if children.len() > 0 {
        if t.has_scope(children[0]) && t.scope(children[0]).spans(position) {
            assert(children.contains(children[0]));
        } else {
            lemma_first_spanning(t, children.drop_first(), position);
            match first_spanning(t, children.drop_first(), position) {
                Some(child) => {
                    let w = choose|w: int|
                        0 <= w < children.drop_first().len() && children.drop_first()[w] == child;
                    assert(children[w + 1] == child);
                },
                None => {},
            }
        }
    }
}

/// The way up from a scope passes through the parent of every scope on it.
proof fn lemma_scope_chain_through(t: TableView, from: NodeId, via: NodeId)
    requires
        scope_chain(t, from).contains(via),
        t.has_scope(via),
        t.enclosing(via) != 0,
    ensures
        scope_chain(t, from).contains(t.enclosing(via)),
    decreases from,
{
    let chain = scope_chain(t, from);
    let outer = t.enclosing(via);
    if from == via {
        lemma_scope_chain_descends(t, outer);
        assert(scope_chain(t, outer)[0] == outer);
        assert(chain[1] == outer);
    } else {
        let w = choose|w: int| 0 <= w < chain.len() && chain[w] == via;
        let rest = scope_chain(t, t.enclosing(from));
        assert(rest[w - 1] == via);
        lemma_scope_chain_through(t, t.enclosing(from), via);
        let v = choose|v: int| 0 <= v < rest.len() && rest[v] == outer;
        assert(chain[v + 1] == outer);
    }
}

/// Whether `item` is the candidate of a variable or constant of the table
/// that is declared before `position`.
pub open spec fn declared_before(t: TableView, item: ItemView, position: usize) -> bool {
    exists|symbol_id: NodeId|
        {
            &&& #[trigger] t.symbol(symbol_id) is Some
            &&& t.symbol(symbol_id)->0.pos < position
            &&& is_local_kind(t.symbol(symbol_id)->0.kind)
            &&& item == local_item(t.symbol(symbol_id)->0)
        }
}

/// No forward references in the answer to a query: where the token is no
/// qualified access, every returned candidate comes from a variable or
/// constant declared before the cursor.
pub proof fn lemma_no_forward_reference(
    t: TableView,
    m: ModuleView,
    text: Seq<char>,
    position: usize,
    out: Seq<ItemView>,
)
    requires
        is_completion(t, m, text, position, out),
        qualified_split(token_at(text, position as int)) is None,
    ensures
        forall|i: int| 0 <= i < out.len() ==> declared_before(t, #[trigger] out[i], position),
{
    let token = token_at(text, position as int);
    let scope_id = innermost_scope(t, m.scope_id, position);
    let candidates = chain_candidates(t, scope_id, token, position);
    lemma_ranking_within(candidates, token, out);
    assert forall|i: int| 0 <= i < out.len() implies declared_before(
        t,
        #[trigger] out[i],
        position,
    ) by {
        let w = choose|w: int| 0 <= w < candidates.len() && candidates[w] == out[i];
        lemma_chain_candidates_sound(t, scope_id, token, position, w);
        let symbol_id = choose|symbol_id: NodeId| #[trigger]
            is_visible_source(t, scope_id, symbol_id, token, position, out[i]);
        assert(t.symbol(symbol_id) is Some);
    }
}

/// A variable or constant that is declared before the cursor in a scope
/// around it, and starts with the token, is offered: its label is in the
/// answer, unless the answer is full and the label ranks behind all of it.
pub proof fn lemma_visible_symbol_is_offered(
    t: TableView,
    m: ModuleView,
    text: Seq<char>,
    position: usize,
    out: Seq<ItemView>,
    symbol_id: NodeId,
    item: ItemView,
)
    requires
        is_completion(t, m, text, position, out),
        qualified_split(token_at(text, position as int)) is None,
        is_visible_source(
            t,
            innermost_scope(t, m.scope_id, position),
            symbol_id,
            token_at(text, position as int),
            position,
            item,
        ),
    ensures
        has_label(out, item.label) || ranks_behind_all(
            out,
            item.label,
            token_at(text, position as int),
        ),
{
    let token = token_at(text, position as int);
    let scope_id = innermost_scope(t, m.scope_id, position);
    let candidates = chain_candidates(t, scope_id, token, position);
    lemma_chain_candidates_complete(t, scope_id, symbol_id, token, position, item);
    let w = choose|w: int| 0 <= w < candidates.len() && candidates[w] == item;
    assert(has_label(out, candidates[w].label) || ranks_behind_all(
        out,
        candidates[w].label,
        token,
    ));
}

/// Completion is a function of its arguments: two answers to the same
/// query against the same table and module are the same list.
pub proof fn lemma_completion_deterministic(
    t: TableView,
    m: ModuleView,
    text: Seq<char>,
    position: usize,
    first: Seq<ItemView>,
    second: Seq<ItemView>,
)
    requires
        is_completion(t, m, text, position, first),
        is_completion(t, m, text, position, second),
    ensures
        first == second,
{
    lemma_ranking_unique(
        query_candidates(t, m, text, position),
        query_prefix(text, position),
        first,
        second,
    );
}

/// Module-member completion does not depend on where the cursor is: two
/// queries whose tokens are the same qualified access get the same answer,
/// whatever their texts and positions.
pub proof fn lemma_member_completion_position_independent(
    t: TableView,
    m: ModuleView,
    text: Seq<char>,
    position: usize,
    other_text: Seq<char>,
    other_position: usize,
    first: Seq<ItemView>,
    second: Seq<ItemView>,
)
    requires
        token_at(text, position as int) == token_at(other_text, other_position as int),
        qualified_split(token_at(text, position as int)) is Some,
        is_completion(t, m, text, position, first),
        is_completion(t, m, other_text, other_position, second),
    ensures
        first == second,
{
    lemma_ranking_unique(
        query_candidates(t, m, text, position),
        query_prefix(text, position),
        first,
        second,
    );
}

/// The string `tag` followed by `text`.
fn tagged(tag: &str, text: &str) -> (s: String)
    ensures
        s@ == tag@ + text@,
{
    let mut s = tag.to_owned();
    s.append(text);
    s
}

/// Resolves completion requests against a symbol table, on behalf of one
/// module.
pub struct CompletionProvider<'a> {
    symbol_table: &'a SymbolTable,
    module: &'a Module,
}

impl<'a> CompletionProvider<'a> {
    /// The table that requests are resolved against.
    pub closed spec fn table(&self) -> TableView {
        self.symbol_table@
    }

    /// The module being edited.
    pub closed spec fn module(&self) -> ModuleView {
        self.module@
    }

    /// A provider for `module` over `symbol_table`. Both are only read.
    pub fn new(symbol_table: &'a SymbolTable, module: &'a Module) -> (provider: Self)
        ensures
            provider.table() == symbol_table@,
            provider.module() == module@,
            provider.table().wf(),
    {
        proof {
            use_type_invariant(symbol_table);
        }
        CompletionProvider { symbol_table, module }
    }

    /// Completes the token in front of the cursor.
    ///
    /// `text` is the source in front of the cursor and `position` the
    /// cursor's offset, in characters. The token that ends at `position`
    /// is cut out of `text`. A token of the form `alias.member` asks for
    /// the members of the module imported as `alias`; any other token asks
    /// for the variables and constants that are visible at `position` and
    /// declared before it. Either way the candidates that start with the
    /// typed prefix are deduplicated, ranked and capped.
    pub fn get_completions(&self, position: usize, text: &str) -> (r: Vec<CompletionItem>)
        ensures
            is_completion(self.table(), self.module(), text@, position, item_views(r@)),
            r@.len() <= MAX_COMPLETIONS,
            labels_distinct(item_views(r@)),
            matches_come_first(item_views(r@), query_prefix(text@, position)),
            query_candidates(self.table(), self.module(), text@, position).len() == 0 ==> r@.len()
                == 0,
            qualified_split(token_at(text@, position as int)) is None ==> forall|i: int|
                0 <= i < r@.len() ==> declared_before(
                    self.table(),
                    #[trigger] item_views(r@)[i],
                    position,
                ),
    {
        let token = extract_prefix_at_position(text, position);
        match extract_module_member_context(token.as_str(), position) {
            Some((alias, member_prefix)) => self.get_module_member_completions(
                alias.as_str(),
                member_prefix.as_str(),
            ),
            None => {
                let current_scope_id = self.find_innermost_scope(self.module.scope_id, position);
                let mut completions: Vec<CompletionItem> = Vec::new();
                self.collect_variable_completions(
                    current_scope_id,
                    token.as_str(),
                    &mut completions,
                    position,
                );
                assert(item_views(completions@) =~= chain_candidates(
                    self.table(),
                    current_scope_id,
                    token@,
                    position,
                ));
                let ghost candidates = item_views(completions@);
                self.sort_and_filter_completions(&mut completions, token.as_str());
                proof {
                    lemma_ranking_within(candidates, token@, item_views(completions@));
                    lemma_no_forward_reference(
                        self.table(),
                        self.module(),
                        text@,
                        position,
                        item_views(completions@),
                    );
                }
                completions
            },
        }
    }

    /// Completes a member of the module imported as `imported_as_name`.
    ///
    /// The candidates are the symbols declared at the top level of that
    /// module whose identifier starts with `prefix`, wherever they are
    /// declared; deduplicated, ranked and capped. The list is empty where
    /// no import has that name or the module is not registered.
    pub fn get_module_member_completions(&self, imported_as_name: &str, prefix: &str) -> (r: Vec<
        CompletionItem,
    >)
        ensures
            is_ranking(
                member_candidates(self.table(), self.module(), imported_as_name@, prefix@),
                prefix@,
                item_views(r@),
            ),
            r@.len() <= MAX_COMPLETIONS,
            labels_distinct(item_views(r@)),
            matches_come_first(item_views(r@), prefix@),
            member_candidates(self.table(), self.module(), imported_as_name@, prefix@).len() == 0
                ==> r@.len() == 0,
    {
        let mut completions: Vec<CompletionItem> = Vec::new();
        let ghost filter = Filter::Member { prefix: prefix@ };
        let import = match self.module.find_import(imported_as_name) {
            Some(import) => import,
            None => {
                return completions;
            },
        };
        if let Some(imported_scope_id) = self.symbol_table.find_module_scope(import.module_ident.as_str()) {
            if let Some(imported_scope) = self.symbol_table.find_scope(imported_scope_id) {
                let ghost symbols = imported_scope@.symbols;
                let mut i: usize = 0;
                assert(symbols.take(0) =~= Seq::<NodeId>::empty());
                while i < imported_scope.symbols.len()
                    invariant
                        i <= symbols.len(),
                        symbols == imported_scope@.symbols,
                        filter == (Filter::Member { prefix: prefix@ }),
                        item_views(completions@) == candidates_in(
                            self.table(),
                            symbols.take(i as int),
                            filter,
                        ),
                    decreases symbols.len() - i,
                {
                    let symbol_id = imported_scope.symbols[i];
                    let ghost before = item_views(completions@);
                    assert(symbols.take(i + 1).drop_last() == symbols.take(i as int));
                    if let Some(symbol) = self.symbol_table.get_symbol_ref(symbol_id) {
                        if prefix.is_empty() || starts_with(symbol.ident.as_str(), prefix) {
                            let item = self.create_module_completion_member(symbol);
                            completions.push(item);
                            assert(item_views(completions@) =~= before.push(item@));
                        }
                    }
                    i += 1;
                }
                assert(symbols.take(i as int) == symbols);
            }
        }
        let ghost candidates = item_views(completions@);
        self.sort_and_filter_completions(&mut completions, prefix);
        proof {
            lemma_ranking_within(candidates, prefix@, item_views(completions@));
        }
        completions
    }

    /// Descends from `scope_id` to the innermost scope around `position`.
    ///
    /// Where the range of `scope_id` does not hold `position` (an end of 0
    /// standing for no upper bound), or `scope_id` names no scope, the
    /// answer is `scope_id` itself. Else the children are tried in order,
    /// and the search goes on in the first whose range holds `position`;
    /// with no such child `scope_id` is the innermost.
    pub fn find_innermost_scope(&self, scope_id: NodeId, position: usize) -> (r: NodeId)
        ensures
            r == innermost_scope(self.table(), scope_id, position),
            self.table().has_scope(scope_id) ==> self.table().has_scope(r) && scope_chain(
                self.table(),
                r,
            ).contains(scope_id),
            self.table().has_scope(scope_id) && self.table().scope(scope_id).encloses(position)
                ==> self.table().scope(r).encloses(position) && first_spanning(
                self.table(),
                self.table().scope(r).children,
                position,
            ) is None,
        decreases self.table().scopes.len() - scope_id,
    {
        proof {
            use_type_invariant(self.symbol_table);
            if self.table().has_scope(scope_id) {
                lemma_innermost_scope(self.table(), scope_id, position);
            }
        }
        let scope = match self.symbol_table.find_scope(scope_id) {
            Some(scope) => scope,
            None => {
                return scope_id;
            },
        };
        if scope.encloses(position) {
            let ghost children = scope@.children;
            let mut i: usize = 0;
            assert(children.skip(0) == children);
            while i < scope.children.len()
                invariant
                    i <= children.len(),
                    children == scope@.children,
                    self.table().has_scope(scope_id),
                    scope@ == self.table().scope(scope_id),
                    scope@.encloses(position),
                    self.table().wf(),
                    first_spanning(self.table(), children, position) == first_spanning(
                        self.table(),
                        children.skip(i as int),
                        position,
                    ),
                decreases children.len() - i,
            {
                let child_id = scope.children[i];
                assert(children.skip(i as int).drop_first() == children.skip(i + 1));
                if let Some(child_scope) = self.symbol_table.find_scope(child_id) {
                    if child_scope.spans(position) {
                        assert(scope_ok(self.table().scopes, scope_id));
                        assert(child_ok(
                            self.table().scopes,
                            scope_id,
                            children[i as int],
                        ));
                        proof {
                            lemma_innermost_scope(self.table(), scope_id, position);
                        }
                        assert(children.skip(i as int)[0] == child_id);
                        assert(first_spanning(self.table(), children, position) == Some(
                            child_id,
                        ));
                        return self.find_innermost_scope(child_id, position);
                    }
                }
                i += 1;
            }
        }
        scope_id
    }

    /// Gathers the variables and constants visible from `current_scope_id`
    /// and appends them to `completions`.
    ///
    /// The walk starts at `current_scope_id` and follows the parents up to
    /// a root, so that inner declarations come before outer ones. Of each
    /// scope it takes, in order of declaration, the variables and constants
    /// whose identifier starts with `prefix` and whose declaration lies
    /// before `position`. A symbol reference that no longer resolves is
    /// passed over.
    pub fn collect_variable_completions(
        &self,
        current_scope_id: NodeId,
        prefix: &str,
        completions: &mut Vec<CompletionItem>,
        position: usize,
    )
        ensures
            item_views(final(completions)@) == item_views(old(completions)@) + chain_candidates(
                self.table(),
                current_scope_id,
                prefix@,
                position,
            ),
    {
        proof {
            use_type_invariant(self.symbol_table);
        }
        let ghost filter = Filter::Local { prefix: prefix@, position };
        let ghost t = self.table();
        let ghost goal = item_views(completions@) + chain_candidates(
            t,
            current_scope_id,
            prefix@,
            position,
        );
        let mut current: NodeId = current_scope_id;
        while current > 0
            invariant
                t == self.table(),
                t.wf(),
                filter == (Filter::Local { prefix: prefix@, position }),
                item_views(completions@) + chain_candidates(t, current, prefix@, position) == goal,
            decreases current,
        {
            match self.symbol_table.find_scope(current) {
                None => {
                    current = 0;
                },
                Some(scope) => {
                    let ghost base = item_views(completions@);
                    let ghost symbols = scope@.symbols;
                    let mut i: usize = 0;
                    assert(symbols.take(0) =~= Seq::<NodeId>::empty());
                    while i < scope.symbols.len()
                        invariant
                            i <= symbols.len(),
                            symbols == scope@.symbols,
                            t == self.table(),
                            filter == (Filter::Local { prefix: prefix@, position }),
                            item_views(completions@) == base + candidates_in(
                                t,
                                symbols.take(i as int),
                                filter,
                            ),
                        decreases symbols.len() - i,
                    {
                        let symbol_id = scope.symbols[i];
                        let ghost before = item_views(completions@);
                        assert(symbols.take(i + 1).drop_last() == symbols.take(i as int));
                        if let Some(symbol) = self.symbol_table.get_symbol_ref(symbol_id) {
                            match &symbol.kind {
                                SymbolKind::Variable { .. } | SymbolKind::Constant { .. } => {
                                    if (prefix.is_empty() || starts_with(
                                        symbol.ident.as_str(),
                                        prefix,
                                    )) && symbol.pos < position {
                                        let item = self.create_completion_item(symbol);
                                        completions.push(item);
                                        assert(item_views(completions@) =~= before.push(item@));
                                    }
                                },
                                _ => {},
                            }
                        }
                        assert(item_views(completions@) =~= base + candidates_in(
                            t,
                            symbols.take(i + 1),
                            filter,
                        ));
                        i += 1;
                    }
                    assert(symbols.take(i as int) == symbols);
                    assert(scope_ok(t.scopes, current));
                    assert(item_views(completions@) + chain_candidates(
                        t,
                        scope.parent,
                        prefix@,
                        position,
                    ) =~= goal);
                    current = scope.parent;
                },
            }
        }
    }

    /// Makes a candidate of a variable or constant: the identifier as label
    /// and insertion text, `var: <type>` or `const: <type>` as detail, and
    /// the declaration offset as sort key. A symbol of another kind gets no
    /// detail.
    pub fn create_completion_item(&self, symbol: &Symbol) -> (item: CompletionItem)
        ensures
            item@ == local_item(symbol@),
    {
        let (kind, detail) = match &symbol.kind {
            SymbolKind::Variable { type_desc } => (
                CompletionItemKind::Variable,
                Some(tagged("var: ", type_desc.as_str())),
            ),
            SymbolKind::Constant { type_desc } => (
                CompletionItemKind::Constant,
                Some(tagged("const: ", type_desc.as_str())),
            ),
            _ => (CompletionItemKind::Variable, None),
        };
        CompletionItem {
            label: symbol.ident.clone(),
            kind,
            detail,
            documentation: None,
            insert_text: symbol.ident.clone(),
            sort_text: Some(sort_key(symbol.pos)),
        }
    }

    /// Makes a candidate of a module member of any kind. A function is
    /// shown under its own name, with `fn: <type>` as detail; a variable,
    /// constant or type under its identifier without the qualification, a
    /// type with the detail `type definition`.
    pub fn create_module_completion_member(&self, symbol: &Symbol) -> (item: CompletionItem)
        ensures
            item@ == member_item(symbol@),
    {
        let (ident, kind, detail) = match &symbol.kind {
            SymbolKind::Variable { type_desc } => (
                extract_last_ident_part(symbol.ident.as_str()),
                CompletionItemKind::Variable,
                tagged("var: ", type_desc.as_str()),
            ),
            SymbolKind::Constant { type_desc } => (
                extract_last_ident_part(symbol.ident.as_str()),
                CompletionItemKind::Constant,
                tagged("const: ", type_desc.as_str()),
            ),
            SymbolKind::Function { type_desc, name } => (
                name.clone(),
                CompletionItemKind::Function,
                tagged("fn: ", type_desc.as_str()),
            ),
            SymbolKind::Type { .. } => (
                extract_last_ident_part(symbol.ident.as_str()),
                CompletionItemKind::Variable,
                "type definition".to_owned(),
            ),
        };
        CompletionItem {
            label: ident.clone(),
            kind,
            detail: Some(detail),
            documentation: None,
            insert_text: ident,
            sort_text: Some(sort_key(symbol.pos)),
        }
    }

    /// Deduplicates, ranks and caps `completions`; see
    /// [`rank_completions`](crate::rank::rank_completions).
    pub fn sort_and_filter_completions(&self, completions: &mut Vec<CompletionItem>, prefix: &str)
        ensures
            is_ranking(item_views(old(completions)@), prefix@, item_views(final(completions)@)),
            final(completions)@.len() <= MAX_COMPLETIONS,
            labels_distinct(item_views(final(completions)@)),
            matches_come_first(item_views(final(completions)@), prefix@),
    {
        rank_completions(completions, prefix);
    }
}

} // verus!
