//! Scopes and symbols: which variable a name denotes at each point of a
//! script, with its kind, type and presence.
use vstd::prelude::*;
use std::collections::HashMap;
use crate::annotation::{
    Annotation, AnnotationV, Directive, DirectiveV, TypeExpr, TypeExprV, annotation_v, annotations_v,
    type_expr_v,
};
use crate::hir::{
    Assignment, CaseArmV, DeclKind, Function, FunctionV, Item, ItemV, ListElementV, NodeId, SourceUnit,
    Statement, StatementV, arm_v, arms_v, elements_v, function_v, item_v, items_v, stmt_v, stmts_v,
    strings_v,
};
use crate::span::Span;
use crate::text::{copy_string, owned, push_str, str_eq};

verus! {

broadcast use vstd::std_specs::hash::group_hash_axioms;

#[derive(Debug, Clone, Copy, PartialEq, Eq, Structural)]
#[non_exhaustive]
pub enum CellKind {
    Scalar,
    IndexedArray,
    AssocArray,
    Unknown,
}

/// Whether a variable is known to be set at a given program point.
#[derive(Debug, Clone, Copy, PartialEq, Eq, Structural)]
#[non_exhaustive]
pub enum Presence {
    IsSet,
    Unset,
    MaybeUnset,
    Unknown,
}

/// How a variable behaves when expanded.
#[derive(Debug, Clone, Copy, PartialEq, Eq, Structural)]
#[non_exhaustive]
pub enum ExpansionShape {
    /// One shell word.
    Scalar,
    /// Zero or more shell words.
    Argv,
    Unknown,
}

/// What is known of a variable's type.
#[derive(Debug)]
pub struct TypeInfo {
    pub cell_kind: CellKind,
    pub shape: ExpansionShape,
    pub refinement: Option<String>,
    pub presence: Presence,
}

#[derive(Debug, Clone, Copy, PartialEq, Eq, Structural)]
#[non_exhaustive]
pub enum DeclScope {
    Global,
    Local,
    Export,
    Readonly,
    Implicit,
}

#[derive(Debug)]
pub struct Symbol {
    pub name: String,
    pub cell_kind: CellKind,
    pub type_info: TypeInfo,
    pub decl_scope: DeclScope,
    pub decl_span: Span,
    pub decl_node: NodeId,
    pub type_annotation: Option<TypeExpr>,
}

#[derive(Debug, Clone, Copy, PartialEq, Eq, Hash, Structural)]
pub struct ScopeId(pub u32);

#[derive(Debug, Clone, Copy, PartialEq, Eq, Structural)]
#[non_exhaustive]
pub enum ScopeKind {
    Global,
    Function,
    Subshell,
}

// ---------------------------------------------------------------------------
// The model
// ---------------------------------------------------------------------------

pub struct TypeInfoV {
    pub cell_kind: CellKind,
    pub shape: ExpansionShape,
    pub refinement: Option<Seq<char>>,
    pub presence: Presence,
}

pub struct SymbolV {
    pub name: Seq<char>,
    pub cell_kind: CellKind,
    pub type_info: TypeInfoV,
    pub decl_scope: DeclScope,
    pub decl_span: Span,
    pub decl_node: NodeId,
    pub type_annotation: Option<TypeExprV>,
}

pub open spec fn type_info_v(t: TypeInfo) -> TypeInfoV {
    TypeInfoV {
        cell_kind: t.cell_kind,
        shape: t.shape,
        refinement: match t.refinement {
            Some(r) => Some(r@),
            None => None,
        },
        presence: t.presence,
    }
}

pub open spec fn symbol_v(s: Symbol) -> SymbolV {
    SymbolV {
        name: s.name@,
        cell_kind: s.cell_kind,
        type_info: type_info_v(s.type_info),
        decl_scope: s.decl_scope,
        decl_span: s.decl_span,
        decl_node: s.decl_node,
        type_annotation: match s.type_annotation {
            Some(t) => Some(type_expr_v(t)),
            None => None,
        },
    }
}

// ---------------------------------------------------------------------------
// Types from annotations
// ---------------------------------------------------------------------------

/// The refinement that a type expression names: `Name`, `Name[Inner]`, `Status[code]`.
pub open spec fn refinement_s(t: TypeExprV) -> Seq<char>
    decreases t,
{
    match t {
        TypeExprV::Named(n) => n,
        TypeExprV::Parameterized { name, param } => name + "["@ + refinement_s(*param) + "]"@,
        TypeExprV::Status(c) => "Status["@ + c + "]"@,
    }
}

/// The type information of a variable of kind `cell_kind`, from its type
/// annotation if it has one, else from its kind.
pub open spec fn infer_s(cell_kind: CellKind, annotation: Option<TypeExprV>, presence: Presence) -> TypeInfoV {
    let (shape, refinement) = match annotation {
        Some(t) => match t {
            TypeExprV::Named(n) => if n == "Scalar"@ {
                (ExpansionShape::Scalar, None)
            } else if n == "Argv"@ {
                (ExpansionShape::Argv, None)
            } else {
                (ExpansionShape::Scalar, Some(n))
            },
            TypeExprV::Parameterized { name, param } => if name == "Scalar"@ || name == "AssocArray"@ {
                (ExpansionShape::Scalar, Some(refinement_s(*param)))
            } else if name == "Argv"@ {
                (ExpansionShape::Argv, Some(refinement_s(*param)))
            } else {
                (ExpansionShape::Scalar, Some(name + "["@ + refinement_s(*param) + "]"@))
            },
            TypeExprV::Status(_) => (ExpansionShape::Scalar, Some("Status"@)),
        },
        None => (
            match cell_kind {
                CellKind::IndexedArray => ExpansionShape::Argv,
                CellKind::AssocArray => ExpansionShape::Scalar,
                CellKind::Scalar => ExpansionShape::Scalar,
                CellKind::Unknown => ExpansionShape::Unknown,
            },
            None,
        ),
    };
    TypeInfoV { cell_kind, shape, refinement, presence }
}

/// The kind of cell a type annotation declares.
pub open spec fn type_cell_kind_s(t: TypeExprV) -> CellKind {
    match t {
        TypeExprV::Named(n) => if n == "Argv"@ {
            CellKind::IndexedArray
        } else {
            CellKind::Scalar
        },
        TypeExprV::Parameterized { name, .. } => if name == "Argv"@ {
            CellKind::IndexedArray
        } else if name == "AssocArray"@ {
            CellKind::AssocArray
        } else {
            CellKind::Scalar
        },
        _ => CellKind::Scalar,
    }
}

/// A copy of a type expression.
pub fn copy_type_expr(t: &TypeExpr) -> (r: TypeExpr)
    ensures
        type_expr_v(r) == type_expr_v(*t),
    decreases t,
{
    match t {
        TypeExpr::Named(n) => TypeExpr::Named(copy_string(n)),
        TypeExpr::Parameterized { name, param } => {
            let inner = copy_type_expr(param);
            TypeExpr::Parameterized { name: copy_string(name), param: Box::new(inner) }
        },
        TypeExpr::Status(c) => TypeExpr::Status(copy_string(c)),
    }
}

fn type_expr_refinement(t: &TypeExpr) -> (r: String)
    ensures
        r@ == refinement_s(type_expr_v(*t)),
    decreases t,
{
    match t {
        TypeExpr::Named(n) => copy_string(n),
        TypeExpr::Parameterized { name, param } => {
            let inner = type_expr_refinement(param);
            let mut r = copy_string(name);
            push_str(&mut r, "[");
            push_str(&mut r, inner.as_str());
            push_str(&mut r, "]");
            r
        },
        TypeExpr::Status(c) => {
            let mut r = owned("Status[");
            push_str(&mut r, c.as_str());
            push_str(&mut r, "]");
            r
        },
    }
}

/// The type information of a variable, as `infer_s` states.
pub fn infer_type_info(cell_kind: CellKind, type_annotation: Option<&TypeExpr>, presence: Presence) -> (t: TypeInfo)
    ensures
        type_info_v(t) == infer_s(
            cell_kind,
            match type_annotation {
                Some(x) => Some(type_expr_v(*x)),
                None => None,
            },
            presence,
        ),
{
    match type_annotation {
        Some(te) => {
            let (shape, refinement) = match te {
                TypeExpr::Named(name) => {
                    if str_eq(name.as_str(), "Scalar") {
                        (ExpansionShape::Scalar, None)
                    } else if str_eq(name.as_str(), "Argv") {
                        (ExpansionShape::Argv, None)
                    } else {
                        (ExpansionShape::Scalar, Some(copy_string(name)))
                    }
                },
                TypeExpr::Parameterized { name, param } => {
                    if str_eq(name.as_str(), "Scalar") || str_eq(name.as_str(), "AssocArray") {
                        (ExpansionShape::Scalar, Some(type_expr_refinement(param)))
                    } else if str_eq(name.as_str(), "Argv") {
                        (ExpansionShape::Argv, Some(type_expr_refinement(param)))
                    } else {
                        let mut r = copy_string(name);
                        push_str(&mut r, "[");
                        let inner = type_expr_refinement(param);
                        push_str(&mut r, inner.as_str());
                        push_str(&mut r, "]");
                        (ExpansionShape::Scalar, Some(r))
                    }
                },
                TypeExpr::Status(_) => (ExpansionShape::Scalar, Some(owned("Status"))),
            };
            TypeInfo { cell_kind, shape, refinement, presence }
        },
        None => {
            let shape = match cell_kind {
                CellKind::IndexedArray => ExpansionShape::Argv,
                CellKind::AssocArray => ExpansionShape::Scalar,
                CellKind::Scalar => ExpansionShape::Scalar,
                CellKind::Unknown => ExpansionShape::Unknown,
            };
            TypeInfo { cell_kind, shape, refinement: None, presence }
        },
    }
}

fn type_expr_to_cell_kind(t: &TypeExpr) -> (k: CellKind)
    ensures
        k == type_cell_kind_s(type_expr_v(*t)),
{
    match t {
        TypeExpr::Named(name) => if str_eq(name.as_str(), "Argv") {
            CellKind::IndexedArray
        } else {
            CellKind::Scalar
        },
        TypeExpr::Parameterized { name, .. } => if str_eq(name.as_str(), "Argv") {
            CellKind::IndexedArray
        } else if str_eq(name.as_str(), "AssocArray") {
            CellKind::AssocArray
        } else {
            CellKind::Scalar
        },
        TypeExpr::Status(_) => CellKind::Scalar,
    }
}

// ---------------------------------------------------------------------------
// The symbols of one scope
// ---------------------------------------------------------------------------

/// The symbols of a scope, by name: a name is defined at most once, and a
/// new definition replaces the old one.
#[derive(Debug)]
pub struct SymbolMap {
    entries: Vec<Symbol>,
}

spec fn names_distinct(e: Seq<Symbol>) -> bool {
    forall|i: int, j: int| 0 <= i < j < e.len() ==> e[i].name@ != e[j].name@
}

spec fn map_of(e: Seq<Symbol>) -> Map<Seq<char>, SymbolV>
    decreases e.len(),
{
    if e.len() == 0 {
        Map::empty()
    } else {
        map_of(e.drop_last()).insert(e.last().name@, symbol_v(e.last()))
    }
}

proof fn lemma_map_of(e: Seq<Symbol>)
    requires
        names_distinct(e),
    ensures
        forall|n: Seq<char>| map_of(e).contains_key(n) <==> exists|i: int| 0 <= i < e.len() && (#[trigger] e[i]).name@ == n,
        forall|i: int| 0 <= i < e.len() ==> map_of(e)[(#[trigger] e[i]).name@] == symbol_v(e[i]),
    decreases e.len(),
{
    if e.len() > 0 {
        let d = e.drop_last();
        lemma_map_of(d);
        assert forall|n: Seq<char>| map_of(e).contains_key(n) <==> exists|i: int| 0 <= i < e.len() && (#[trigger] e[i]).name@ == n by {
            if map_of(e).contains_key(n) && n != e.last().name@ {
                let i = choose|i: int| 0 <= i < d.len() && (#[trigger] d[i]).name@ == n;
                assert(e[i] == d[i]);
            }
            if exists|i: int| 0 <= i < e.len() && (#[trigger] e[i]).name@ == n {
                let i = choose|i: int| 0 <= i < e.len() && (#[trigger] e[i]).name@ == n;
                if i < e.len() - 1 {
                    assert(d[i] == e[i]);
                }
            }
        }
        assert forall|i: int| 0 <= i < e.len() implies map_of(e)[(#[trigger] e[i]).name@] == symbol_v(e[i]) by {
            if i < e.len() - 1 {
                assert(d[i] == e[i]);
                assert(e[i].name@ != e.last().name@);
            }
        }
    }
}

proof fn lemma_map_of_update(e: Seq<Symbol>, i: int, x: Symbol)
    requires
        names_distinct(e),
        0 <= i < e.len(),
        e[i].name@ == x.name@,
    ensures
        names_distinct(e.update(i, x)),
        map_of(e.update(i, x)) == map_of(e).insert(x.name@, symbol_v(x)),
{
    let e2 = e.update(i, x);
    assert(names_distinct(e2)) by {
        assert forall|a: int, b: int| 0 <= a < b < e2.len() implies e2[a].name@ != e2[b].name@ by {
            assert(e2[a].name@ == e[a].name@);
            assert(e2[b].name@ == e[b].name@);
        }
    }
    lemma_map_of(e);
    lemma_map_of(e2);
    assert(map_of(e2) =~= map_of(e).insert(x.name@, symbol_v(x))) by {
        assert forall|n: Seq<char>| map_of(e2).contains_key(n) <==> map_of(e).insert(x.name@, symbol_v(x)).contains_key(n) by {
            if map_of(e2).contains_key(n) {
                let k = choose|k: int| 0 <= k < e2.len() && (#[trigger] e2[k]).name@ == n;
                if k != i {
                    assert(e[k].name@ == n);
                }
            }
            if map_of(e).contains_key(n) {
                let k = choose|k: int| 0 <= k < e.len() && (#[trigger] e[k]).name@ == n;
                assert(e2[k].name@ == n);
            }
            assert(e2[i].name@ == x.name@);
        }
        assert forall|n: Seq<char>| #[trigger] map_of(e2).contains_key(n) implies map_of(e2)[n] == map_of(e).insert(x.name@, symbol_v(x))[n] by {
            let k = choose|k: int| 0 <= k < e2.len() && (#[trigger] e2[k]).name@ == n;
            assert(map_of(e2)[e2[k].name@] == symbol_v(e2[k]));
            if k != i {
                assert(map_of(e)[e[k].name@] == symbol_v(e[k]));
            }
        }
    }
}

impl View for SymbolMap {
    type V = Map<Seq<char>, SymbolV>;

    closed spec fn view(&self) -> Map<Seq<char>, SymbolV> {
        map_of(self.entries@)
    }
}

impl SymbolMap {
    /// No name is held twice.
    pub closed spec fn wf(&self) -> bool {
        names_distinct(self.entries@)
    }

    /// The symbols in the order they were first defined.
    pub closed spec fn entries_v(&self) -> Seq<SymbolV> {
        Seq::new(self.entries@.len(), |i: int| symbol_v(self.entries@[i]))
    }

    pub fn new() -> (m: SymbolMap)
        ensures
            m.wf(),
            m@ == Map::<Seq<char>, SymbolV>::empty(),
    {
        SymbolMap { entries: Vec::new() }
    }

    fn position(&self, name: &str) -> (r: Option<usize>)
        requires
            self.wf(),
        ensures
            match r {
                Some(i) => i < self.entries@.len() && self.entries@[i as int].name@ == name@,
                None => !self@.contains_key(name@),
            },
    {
        proof {
            lemma_map_of(self.entries@);
        }
        let mut i: usize = 0;
        while i < self.entries.len()
            invariant
                i <= self.entries@.len(),
                forall|j: int| 0 <= j < i ==> self.entries@[j].name@ != name@,
            decreases self.entries.len() - i,
        {
            if str_eq(self.entries[i].name.as_str(), name) {
                return Some(i);
            }
            i = i + 1;
        }
        None
    }

    /// The symbol named `name`, if there is one.
    pub fn get(&self, name: &str) -> (r: Option<&Symbol>)
        requires
            self.wf(),
        ensures
            r is Some <==> self@.contains_key(name@),
            r matches Some(s) ==> symbol_v(*s) == self@[name@] && s.name@ == name@,
    {
        proof {
            lemma_map_of(self.entries@);
        }
        match self.position(name) {
            Some(i) => Some(&self.entries[i]),
            None => None,
        }
    }

    pub fn contains_key(&self, name: &str) -> (b: bool)
        requires
            self.wf(),
        ensures
            b == self@.contains_key(name@),
    {
        self.get(name).is_some()
    }

    /// Defines `symbol` under its name, in place of any earlier one.
    pub fn insert(&mut self, symbol: Symbol)
        requires
            old(self).wf(),
        ensures
            final(self).wf(),
            final(self)@ == old(self)@.insert(symbol.name@, symbol_v(symbol)),
    {
        proof {
            lemma_map_of(self.entries@);
        }
        match self.position(symbol.name.as_str()) {
            Some(i) => {
                proof {
                    lemma_map_of_update(self.entries@, i as int, symbol);
                }
                self.entries.set(i, symbol);
            },
            None => {
                let ghost e = self.entries@;
                self.entries.push(symbol);
                proof {
                    assert(self.entries@.drop_last() =~= e);
                    assert forall|a: int, b: int| 0 <= a < b < self.entries@.len() implies self.entries@[a].name@
                        != self.entries@[b].name@ by {
                        if b == e.len() {
                            assert(map_of(e).contains_key(e[a].name@));
                        }
                    }
                }
            },
        }
    }

    /// The symbols, in the order they were first defined.
    pub fn values(&self) -> (r: &[Symbol])
        requires
            self.wf(),
        ensures
            forall|i: int| 0 <= i < r@.len() ==> self@.contains_key((#[trigger] r@[i]).name@) && self@[r@[i].name@]
                == symbol_v(r@[i]),
            forall|n: Seq<char>| #[trigger] self@.contains_key(n) ==> exists|i: int| 0 <= i < r@.len() && r@[i].name@ == n,
            forall|i: int, j: int| 0 <= i < j < r@.len() ==> r@[i].name@ != r@[j].name@,
            Seq::new(r@.len(), |i: int| symbol_v(r@[i])) == self.entries_v(),
    {
        proof {
            lemma_map_of(self.entries@);
        }
        let r = self.entries.as_slice();
        assert(Seq::new(r@.len(), |i: int| symbol_v(r@[i])) =~= self.entries_v());
        r
    }
}


// ---------------------------------------------------------------------------
// Scopes and the table
// ---------------------------------------------------------------------------

#[derive(Debug)]
pub struct Scope {
    pub id: ScopeId,
    pub parent: Option<ScopeId>,
    pub kind: ScopeKind,
    pub symbols: SymbolMap,
}

pub struct ScopeV {
    pub id: ScopeId,
    pub parent: Option<ScopeId>,
    pub kind: ScopeKind,
    pub symbols: Map<Seq<char>, SymbolV>,
}

pub open spec fn scope_v(s: Scope) -> ScopeV {
    ScopeV { id: s.id, parent: s.parent, kind: s.kind, symbols: s.symbols@ }
}

/// The table as a value: its scopes, and the scope of each node by number.
pub struct TableV {
    pub scopes: Seq<ScopeV>,
    pub nodes: Map<u32, ScopeId>,
}

/// The scopes form a tree rooted at scope 0: scope `i` has id `i`, and a
/// scope's parent comes before it.
pub open spec fn scopes_wf(scopes: Seq<ScopeV>) -> bool {
    &&& 1 <= scopes.len() <= u32::MAX
    &&& scopes[0].parent is None
    &&& forall|i: int| 0 <= i < scopes.len() ==> (#[trigger] scopes[i]).id == ScopeId(i as u32)
    &&& forall|i: int| 0 <= i < scopes.len() && (#[trigger] scopes[i]).parent is Some ==> ((scopes[i].parent->0).0 as int) < i
}

/// The symbol that `name` denotes in scope `s`: its own definition there,
/// else what it denotes in the parent scope.
pub open spec fn resolve_s(scopes: Seq<ScopeV>, s: int, name: Seq<char>) -> Option<SymbolV>
    decreases s,
{
    if s < 0 || s >= scopes.len() {
        None
    } else if scopes[s].symbols.contains_key(name) {
        Some(scopes[s].symbols[name])
    } else {
        match scopes[s].parent {
            Some(p) => if (p.0 as int) < s {
                resolve_s(scopes, p.0 as int, name)
            } else {
                None
            },
            None => None,
        }
    }
}

pub open spec fn define_s(t: TableV, s: nat, sym: SymbolV) -> TableV {
    TableV {
        scopes: t.scopes.update(s as int, ScopeV { symbols: t.scopes[s as int].symbols.insert(sym.name, sym), ..t.scopes[s as int] }),
        ..t
    }
}

pub open spec fn bind_s(t: TableV, node: NodeId, s: nat) -> TableV {
    TableV { nodes: t.nodes.insert(node.0, ScopeId(s as u32)), ..t }
}

pub open spec fn push_scope_s(t: TableV, parent: nat, kind: ScopeKind) -> (TableV, nat) {
    (
        TableV {
            scopes: t.scopes.push(
                ScopeV {
                    id: ScopeId(t.scopes.len() as u32),
                    parent: Some(ScopeId(parent as u32)),
                    kind,
                    symbols: Map::empty(),
                },
            ),
            ..t
        },
        t.scopes.len(),
    )
}

/// A type annotation on the symbol `name` of scope `s`, where there is one:
/// the annotation is recorded and the type information derived from it.
pub open spec fn annotate_s(t: TableV, s: nat, name: Seq<char>, te: TypeExprV) -> TableV {
    if t.scopes[s as int].symbols.contains_key(name) {
        let sym = t.scopes[s as int].symbols[name];
        define_s(
            t,
            s,
            SymbolV {
                type_annotation: Some(te),
                type_info: infer_s(sym.cell_kind, Some(te), sym.type_info.presence),
                ..sym
            },
        )
    } else {
        t
    }
}

pub open spec fn new_table_s() -> TableV {
    TableV {
        scopes: seq![ScopeV { id: ScopeId(0), parent: None, kind: ScopeKind::Global, symbols: Map::empty() }],
        nodes: Map::empty(),
    }
}

#[derive(Debug)]
pub struct SymbolTable {
    scopes: Vec<Scope>,
    node_scopes: HashMap<u32, ScopeId>,
}

impl Default for SymbolTable {
    fn default() -> (t: SymbolTable)
        ensures
            t.wf(),
            t.tv() == new_table_s(),
    {
        SymbolTable::new()
    }
}

impl SymbolTable {
    pub closed spec fn scopes_v(&self) -> Seq<ScopeV> {
        Seq::new(self.scopes@.len(), |i: int| scope_v(self.scopes@[i]))
    }

    pub closed spec fn nodes_v(&self) -> Map<u32, ScopeId> {
        self.node_scopes@
    }

    /// The table as a value.
    pub open spec fn tv(&self) -> TableV {
        TableV { scopes: self.scopes_v(), nodes: self.nodes_v() }
    }

    /// The scopes form a tree rooted at scope 0, and each maps a name once.
    pub closed spec fn wf(&self) -> bool {
        &&& scopes_wf(self.scopes_v())
        &&& forall|i: int| 0 <= i < self.scopes@.len() ==> (#[trigger] self.scopes@[i]).symbols.wf()
    }

    pub fn new() -> (t: SymbolTable)
        ensures
            t.wf(),
            t.tv() == new_table_s(),
    {
        let mut scopes: Vec<Scope> = Vec::new();
        scopes.push(Scope { id: ScopeId(0), parent: None, kind: ScopeKind::Global, symbols: SymbolMap::new() });
        let t = SymbolTable { scopes, node_scopes: HashMap::new() };
        assert(t.scopes_v() =~= new_table_s().scopes);
        t
    }

    pub fn root_scope(&self) -> (s: ScopeId)
        ensures
            s == ScopeId(0),
    {
        ScopeId(0)
    }

    /// A new empty scope under `parent`; its id is the number of scopes before.
    pub fn push_scope(&mut self, parent: ScopeId, kind: ScopeKind) -> (id: ScopeId)
        requires
            old(self).wf(),
            (parent.0 as int) < old(self).scopes_v().len(),
            old(self).scopes_v().len() < u32::MAX,
        ensures
            final(self).wf(),
            (final(self).tv(), id.0 as nat) == push_scope_s(old(self).tv(), parent.0 as nat, kind),
    {
        let id = ScopeId(self.scopes.len() as u32);
        self.scopes.push(Scope { id, parent: Some(parent), kind, symbols: SymbolMap::new() });
        assert(self.scopes_v() =~= push_scope_s(old(self).tv(), parent.0 as nat, kind).0.scopes);
        id
    }

    /// Defines `symbol` in `scope`, in place of an earlier symbol of that name there.
    pub fn define(&mut self, scope: ScopeId, symbol: Symbol)
        requires
            old(self).wf(),
            (scope.0 as int) < old(self).scopes_v().len(),
        ensures
            final(self).wf(),
            final(self).tv() == define_s(old(self).tv(), scope.0 as nat, symbol_v(symbol)),
    {
        let i = scope.0 as usize;
        assert(self.scopes@[i as int].symbols.wf());
        self.scopes[i].symbols.insert(symbol);
        assert(self.scopes_v() =~= define_s(old(self).tv(), scope.0 as nat, symbol_v(symbol)).scopes);
        assert forall|k: int| 0 <= k < self.scopes@.len() implies (#[trigger] self.scopes@[k]).symbols.wf() by {
            if k != i {
                assert(self.scopes@[k] == old(self).scopes@[k]);
            }
        }
    }

    /// The symbol that `name` denotes in `scope`, as `resolve_s` states.
    pub fn resolve(&self, scope: ScopeId, name: &str) -> (r: Option<&Symbol>)
        requires
            self.wf(),
            (scope.0 as int) < self.scopes_v().len(),
        ensures
            match r {
                Some(s) => resolve_s(self.scopes_v(), scope.0 as int, name@) == Some(symbol_v(*s)),
                None => resolve_s(self.scopes_v(), scope.0 as int, name@) is None,
            },
        decreases scope.0,
    {
        let s = &self.scopes[scope.0 as usize];
        assert(self.scopes_v()[scope.0 as int] == scope_v(*s));
        if let Some(sym) = s.symbols.get(name) {
            return Some(sym);
        }
        match s.parent {
            Some(p) => {
                assert(self.scopes_v()[scope.0 as int].parent == Some(p));
                self.resolve(p, name)
            },
            None => None,
        }
    }

    pub fn scope(&self, id: ScopeId) -> (s: &Scope)
        requires
            (id.0 as int) < self.scopes_v().len(),
        ensures
            scope_v(*s) == self.scopes_v()[id.0 as int],
    {
        &self.scopes[id.0 as usize]
    }

    /// The scope that a node was bound to, if any.
    pub fn scope_of_node(&self, node: NodeId) -> (r: Option<ScopeId>)
        ensures
            r is Some <==> self.nodes_v().contains_key(node.0),
            r matches Some(s) ==> s == self.nodes_v()[node.0],
    {
        match self.node_scopes.get(&node.0) {
            Some(s) => Some(*s),
            None => None,
        }
    }

    pub fn bind_node(&mut self, node: NodeId, scope: ScopeId)
        requires
            old(self).wf(),
        ensures
            final(self).wf(),
            final(self).tv() == bind_s(old(self).tv(), node, scope.0 as nat),
    {
        self.node_scopes.insert(node.0, scope);
    }

    /// Calls `f` on every symbol of every scope, scope by scope.
    pub fn for_each_symbol<F: FnMut(&Symbol)>(&self, mut f: F)
        requires
            self.wf(),
            forall|s: &Symbol| #[trigger] f.requires((s,)),
    {
        let mut i: usize = 0;
        while i < self.scopes.len()
            invariant
                self.wf(),
                i <= self.scopes@.len(),
                forall|s: &Symbol| #[trigger] f.requires((s,)),
            decreases self.scopes.len() - i,
        {
            assert(self.scopes@[i as int].symbols.wf());
            let vals = self.scopes[i].symbols.values();
            let mut j: usize = 0;
            while j < vals.len()
                invariant
                    j <= vals@.len(),
                    forall|s: &Symbol| #[trigger] f.requires((s,)),
                decreases vals.len() - j,
            {
                f(&vals[j]);
                j = j + 1;
            }
            i = i + 1;
        }
    }

    /// The symbols defined in scope `id`, each once.
    pub fn scope_symbols(&self, id: ScopeId) -> (r: Vec<&Symbol>)
        requires
            self.wf(),
            (id.0 as int) < self.scopes_v().len(),
        ensures
            forall|i: int| 0 <= i < r@.len() ==> self.scopes_v()[id.0 as int].symbols.contains_key((#[trigger] r@[i]).name@)
                && self.scopes_v()[id.0 as int].symbols[r@[i].name@] == symbol_v(*r@[i]),
            forall|n: Seq<char>| #[trigger] self.scopes_v()[id.0 as int].symbols.contains_key(n) ==> exists|i: int|
                0 <= i < r@.len() && r@[i].name@ == n,
            forall|i: int, j: int| 0 <= i < j < r@.len() ==> r@[i].name@ != r@[j].name@,
    {
        let s = id.0 as usize;
        assert(self.scopes@[s as int].symbols.wf());
        let vals = self.scopes[s].symbols.values();
        let mut r: Vec<&Symbol> = Vec::new();
        let mut i: usize = 0;
        while i < vals.len()
            invariant
                i <= vals@.len(),
                r@.len() == i,
                forall|k: int| 0 <= k < i ==> *r@[k] == vals@[k],
            decreases vals.len() - i,
        {
            r.push(&vals[i]);
            i = i + 1;
        }
        proof {
            assert(self.scopes_v()[s as int].symbols == self.scopes@[s as int].symbols@);
            assert forall|n: Seq<char>| #[trigger] self.scopes_v()[id.0 as int].symbols.contains_key(n) implies exists|k: int|
                0 <= k < r@.len() && r@[k].name@ == n by {
                let k = choose|k: int| 0 <= k < vals@.len() && vals@[k].name@ == n;
                assert(r@[k].name@ == n);
            }
        }
        r
    }

    /// The symbols of scope `s` in a fixed order: that of their first
    /// definition.
    pub closed spec fn scope_entries(&self, s: int) -> Seq<SymbolV> {
        self.scopes@[s].symbols.entries_v()
    }

    /// The symbols of the root scope, each once, in the order of
    /// `scope_entries`.
    pub fn global_symbols(&self) -> (r: Vec<&Symbol>)
        requires
            self.wf(),
        ensures
            Seq::new(r@.len(), |i: int| symbol_v(*r@[i])) == self.scope_entries(0),
            forall|i: int| 0 <= i < r@.len() ==> self.scopes_v()[0].symbols.contains_key((#[trigger] r@[i]).name@)
                && self.scopes_v()[0].symbols[r@[i].name@] == symbol_v(*r@[i]),
            forall|n: Seq<char>| #[trigger] self.scopes_v()[0].symbols.contains_key(n) ==> exists|i: int|
                0 <= i < r@.len() && r@[i].name@ == n,
            forall|i: int, j: int| 0 <= i < j < r@.len() ==> r@[i].name@ != r@[j].name@,
    {
        assert(self.scopes@[0].symbols.wf());
        let vals = self.scopes[0].symbols.values();
        let mut r: Vec<&Symbol> = Vec::new();
        let mut i: usize = 0;
        while i < vals.len()
            invariant
                i <= vals@.len(),
                r@.len() == i,
                forall|k: int| 0 <= k < i ==> *r@[k] == vals@[k],
            decreases vals.len() - i,
        {
            r.push(&vals[i]);
            i = i + 1;
        }
        proof {
            assert(self.scopes_v()[0].symbols == self.scopes@[0].symbols@);
            assert forall|n: Seq<char>| #[trigger] self.scopes_v()[0].symbols.contains_key(n) implies exists|k: int|
                0 <= k < r@.len() && r@[k].name@ == n by {
                let k = choose|k: int| 0 <= k < vals@.len() && vals@[k].name@ == n;
                assert(r@[k].name@ == n);
            }
        }
        r
    }
}


// ---------------------------------------------------------------------------
// Building the table from the HIR
// ---------------------------------------------------------------------------

/// The kind of cell an assignment declares: `-a` an indexed array, `-A` an
/// associative one, an array value an indexed array, else a scalar.
pub open spec fn assign_cell_kind_s(flags: Seq<Seq<char>>, has_array_value: bool) -> CellKind {
    if flags.contains("-a"@) {
        CellKind::IndexedArray
    } else if flags.contains("-A"@) {
        CellKind::AssocArray
    } else if has_array_value {
        CellKind::IndexedArray
    } else {
        CellKind::Scalar
    }
}

pub open spec fn decl_scope_s(d: Option<DeclKind>) -> DeclScope {
    match d {
        Some(DeclKind::Local) => DeclScope::Local,
        Some(DeclKind::Declare) => DeclScope::Local,
        Some(DeclKind::Export) => DeclScope::Export,
        Some(DeclKind::Readonly) => DeclScope::Readonly,
        None => DeclScope::Implicit,
    }
}

/// What the table does for a statement in scope `scope`.
pub open spec fn stmt_table_s(st: StatementV, scope: nat, t: TableV) -> TableV
    decreases st, 0int,
{
    match st {
        StatementV::Assignment { id, span, name, value, decl_kind, flags, array_value } => {
            let ck = assign_cell_kind_s(flags, array_value is Some);
            let presence = if value is Some || array_value is Some {
                Presence::IsSet
            } else {
                Presence::Unset
            };
            define_s(
                bind_s(t, id, scope),
                scope,
                SymbolV {
                    name,
                    cell_kind: ck,
                    type_info: infer_s(ck, None, presence),
                    decl_scope: decl_scope_s(decl_kind),
                    decl_span: span,
                    decl_node: id,
                    type_annotation: None,
                },
            )
        },
        StatementV::Command { id, .. } => bind_s(t, id, scope),
        StatementV::Pipeline { id, commands, .. } => stmts_table_s(commands, 0, scope, bind_s(t, id, scope)),
        StatementV::If { id, condition, then_body, else_body, .. } => {
            let t2 = stmts_table_s(condition, 0, scope, bind_s(t, id, scope));
            let t3 = stmts_table_s(then_body, 0, scope, t2);
            match else_body {
                Some(e) => stmts_table_s(e, 0, scope, t3),
                None => t3,
            }
        },
        StatementV::For { id, span, variable, body, .. } => {
            let t2 = define_s(
                bind_s(t, id, scope),
                scope,
                SymbolV {
                    name: variable,
                    cell_kind: CellKind::Scalar,
                    type_info: infer_s(CellKind::Scalar, None, Presence::IsSet),
                    decl_scope: DeclScope::Implicit,
                    decl_span: span,
                    decl_node: id,
                    type_annotation: None,
                },
            );
            stmts_table_s(body, 0, scope, t2)
        },
        StatementV::While { id, condition, body, .. } => {
            let t2 = stmts_table_s(condition, 0, scope, bind_s(t, id, scope));
            stmts_table_s(body, 0, scope, t2)
        },
        StatementV::Case { id, arms, .. } => arms_table_s(arms, 0, scope, bind_s(t, id, scope)),
        StatementV::List { id, elements, .. } => elements_table_s(elements, 0, scope, bind_s(t, id, scope)),
        StatementV::Block { id, body, subshell, .. } => {
            let t1 = bind_s(t, id, scope);
            if subshell {
                let (t2, sub) = push_scope_s(t1, scope, ScopeKind::Subshell);
                stmts_table_s(body, 0, sub, t2)
            } else {
                stmts_table_s(body, 0, scope, t1)
            }
        },
        StatementV::Unmodeled { id, .. } => bind_s(t, id, scope),
        StatementV::SourceCommand { .. } => t,
    }
}

pub open spec fn stmts_table_s(ss: Seq<StatementV>, i: int, scope: nat, t: TableV) -> TableV
    decreases ss, ss.len() - i,
{
    if i < 0 || i >= ss.len() {
        t
    } else {
        stmts_table_s(ss, i + 1, scope, stmt_table_s(ss[i], scope, t))
    }
}

pub open spec fn arms_table_s(arms: Seq<CaseArmV>, i: int, scope: nat, t: TableV) -> TableV
    decreases arms, arms.len() - i,
{
    if i < 0 || i >= arms.len() {
        t
    } else {
        arms_table_s(arms, i + 1, scope, stmts_table_s(arms[i].body, 0, scope, t))
    }
}

pub open spec fn elements_table_s(es: Seq<ListElementV>, i: int, scope: nat, t: TableV) -> TableV
    decreases es, es.len() - i,
{
    if i < 0 || i >= es.len() {
        t
    } else {
        elements_table_s(es, i + 1, scope, stmt_table_s(es[i].statement, scope, t))
    }
}

/// The parameters of a signature, defined in the function's scope.
pub open spec fn params_table_s(ps: Seq<crate::annotation::ParamV>, j: int, fs: nat, span: Span, fid: NodeId, t: TableV) -> TableV
    decreases ps.len() - j,
{
    if j < 0 || j >= ps.len() {
        t
    } else {
        let te = ps[j].type_expr;
        let ck = type_cell_kind_s(te);
        let t2 = define_s(
            t,
            fs,
            SymbolV {
                name: ps[j].name,
                cell_kind: ck,
                type_info: infer_s(ck, Some(te), Presence::MaybeUnset),
                decl_scope: DeclScope::Local,
                decl_span: span,
                decl_node: fid,
                type_annotation: Some(te),
            },
        );
        params_table_s(ps, j + 1, fs, span, fid, t2)
    }
}

/// The annotations of a function from `i` on: signature parameters, binds of
/// names not yet defined, and types of the function's symbols.
pub open spec fn fn_annotations_s(anns: Seq<AnnotationV>, i: int, fs: nat, fid: NodeId, t: TableV) -> TableV
    decreases anns.len() - i,
{
    if i < 0 || i >= anns.len() {
        t
    } else {
        let span = anns[i].span;
        let t2 = match anns[i].directive {
            DirectiveV::Sig { params, .. } => params_table_s(params, 0, fs, span, fid, t),
            DirectiveV::Bind { name, variadic, .. } => if resolve_s(t.scopes, fs as int, name) is None {
                let ck = if variadic {
                    CellKind::IndexedArray
                } else {
                    CellKind::Scalar
                };
                define_s(
                    t,
                    fs,
                    SymbolV {
                        name,
                        cell_kind: ck,
                        type_info: infer_s(ck, None, Presence::MaybeUnset),
                        decl_scope: DeclScope::Local,
                        decl_span: span,
                        decl_node: fid,
                        type_annotation: None,
                    },
                )
            } else {
                t
            },
            DirectiveV::Type { name, type_expr } => annotate_s(t, fs, name, type_expr),
            _ => t,
        };
        fn_annotations_s(anns, i + 1, fs, fid, t2)
    }
}

/// A function: a new scope under `parent`, its annotations, its body.
pub open spec fn function_table_s(f: FunctionV, parent: nat, t: TableV) -> TableV {
    let (t1, fs) = push_scope_s(t, parent, ScopeKind::Function);
    let t2 = bind_s(t1, f.id, fs);
    let t3 = fn_annotations_s(f.annotations, 0, fs, f.id, t2);
    stmts_table_s(f.body, 0, fs, t3)
}

pub open spec fn items_table_s(items: Seq<ItemV>, i: int, t: TableV) -> TableV
    decreases items.len() - i,
{
    if i < 0 || i >= items.len() {
        t
    } else {
        let t2 = match items[i] {
            ItemV::Function(f) => function_table_s(f, 0, t),
            ItemV::Statement(st) => stmt_table_s(st, 0, t),
        };
        items_table_s(items, i + 1, t2)
    }
}

/// The top-level type annotations, applied to the root scope.
pub open spec fn top_annotations_s(anns: Seq<AnnotationV>, i: int, t: TableV) -> TableV
    decreases anns.len() - i,
{
    if i < 0 || i >= anns.len() {
        t
    } else {
        let t2 = match anns[i].directive {
            DirectiveV::Type { name, type_expr } => annotate_s(t, 0, name, type_expr),
            _ => t,
        };
        top_annotations_s(anns, i + 1, t2)
    }
}

/// The symbol table of a source unit.
pub open spec fn symbol_table_s(items: Seq<ItemV>, annotations: Seq<AnnotationV>) -> TableV {
    top_annotations_s(annotations, 0, items_table_s(items, 0, new_table_s()))
}

/// The scopes a statement opens: one per subshell block.
pub open spec fn stmt_scopes(st: StatementV) -> nat
    decreases st, 0int,
{
    match st {
        StatementV::Pipeline { commands, .. } => stmts_scopes(commands, 0),
        StatementV::If { condition, then_body, else_body, .. } => stmts_scopes(condition, 0) + stmts_scopes(
            then_body,
            0,
        ) + match else_body {
            Some(e) => stmts_scopes(e, 0),
            None => 0,
        },
        StatementV::For { body, .. } => stmts_scopes(body, 0),
        StatementV::While { condition, body, .. } => stmts_scopes(condition, 0) + stmts_scopes(body, 0),
        StatementV::Case { arms, .. } => arms_scopes(arms, 0),
        StatementV::List { elements, .. } => elements_scopes(elements, 0),
        StatementV::Block { body, subshell, .. } => (if subshell {
            1nat
        } else {
            0nat
        }) + stmts_scopes(body, 0),
        _ => 0,
    }
}

pub open spec fn stmts_scopes(ss: Seq<StatementV>, i: int) -> nat
    decreases ss, ss.len() - i,
{
    if i < 0 || i >= ss.len() {
        0
    } else {
        stmt_scopes(ss[i]) + stmts_scopes(ss, i + 1)
    }
}

pub open spec fn arms_scopes(arms: Seq<CaseArmV>, i: int) -> nat
    decreases arms, arms.len() - i,
{
    if i < 0 || i >= arms.len() {
        0
    } else {
        stmts_scopes(arms[i].body, 0) + arms_scopes(arms, i + 1)
    }
}

pub open spec fn elements_scopes(es: Seq<ListElementV>, i: int) -> nat
    decreases es, es.len() - i,
{
    if i < 0 || i >= es.len() {
        0
    } else {
        stmt_scopes(es[i].statement) + elements_scopes(es, i + 1)
    }
}

pub open spec fn items_scopes(items: Seq<ItemV>, i: int) -> nat
    decreases items.len() - i,
{
    if i < 0 || i >= items.len() {
        0
    } else {
        (match items[i] {
            ItemV::Function(f) => 1 + stmts_scopes(f.body, 0),
            ItemV::Statement(st) => stmt_scopes(st),
        }) + items_scopes(items, i + 1)
    }
}


fn cell_kind_from_assignment(a: &Assignment) -> (k: CellKind)
    ensures
        k == assign_cell_kind_s(strings_v(a.flags@), a.array_value is Some),
{
    if crate::check::has_flag(&a.flags, "-a") {
        CellKind::IndexedArray
    } else if crate::check::has_flag(&a.flags, "-A") {
        CellKind::AssocArray
    } else if a.array_value.is_some() {
        CellKind::IndexedArray
    } else {
        CellKind::Scalar
    }
}

fn decl_scope_from_assignment(a: &Assignment) -> (d: DeclScope)
    ensures
        d == decl_scope_s(a.decl_kind),
{
    match a.decl_kind {
        Some(DeclKind::Local) => DeclScope::Local,
        Some(DeclKind::Declare) => DeclScope::Local,
        Some(DeclKind::Export) => DeclScope::Export,
        Some(DeclKind::Readonly) => DeclScope::Readonly,
        None => DeclScope::Implicit,
    }
}

fn build_stmts(table: &mut SymbolTable, stmts: &Vec<Statement>, scope: ScopeId)
    requires
        old(table).wf(),
        (scope.0 as int) < old(table).scopes_v().len(),
        old(table).scopes_v().len() + stmts_scopes(stmts_v(stmts@), 0) <= u32::MAX,
    ensures
        final(table).wf(),
        final(table).tv() == stmts_table_s(stmts_v(stmts@), 0, scope.0 as nat, old(table).tv()),
        old(table).scopes_v().len() <= final(table).scopes_v().len() <= old(table).scopes_v().len() + stmts_scopes(
            stmts_v(stmts@),
            0,
        ),
    decreases stmts, 2int,
{
    let ghost ss = stmts_v(stmts@);
    let ghost goal = stmts_table_s(ss, 0, scope.0 as nat, table.tv());
    let ghost len0 = table.scopes_v().len();
    let mut i: usize = 0;
    while i < stmts.len()
        invariant
            table.wf(),
            i <= stmts@.len(),
            ss == stmts_v(stmts@),
            (scope.0 as int) < table.scopes_v().len(),
            len0 <= table.scopes_v().len(),
            table.scopes_v().len() + stmts_scopes(ss, i as int) <= len0 + stmts_scopes(ss, 0),
            len0 + stmts_scopes(ss, 0) <= u32::MAX,
            goal == stmts_table_s(ss, i as int, scope.0 as nat, table.tv()),
        decreases stmts.len() - i,
    {
        proof {
            assert(decreases_to!(*stmts => stmts@));
            assert(decreases_to!(stmts@ => stmts@[i as int]));
            assert(ss[i as int] == stmt_v(stmts@[i as int]));
        }
        build_statement(table, &stmts[i], scope);
        i = i + 1;
    }
}

fn build_if(table: &mut SymbolTable, x: &crate::hir::IfStatement, scope: ScopeId)
    requires
        old(table).wf(),
        (scope.0 as int) < old(table).scopes_v().len(),
        old(table).scopes_v().len() + stmt_scopes(stmt_v(Statement::If(*x))) <= u32::MAX,
    ensures
        final(table).wf(),
        final(table).tv() == stmt_table_s(stmt_v(Statement::If(*x)), scope.0 as nat, old(table).tv()),
        old(table).scopes_v().len() <= final(table).scopes_v().len() <= old(table).scopes_v().len() + stmt_scopes(
            stmt_v(Statement::If(*x)),
        ),
    decreases x, 0int,
{
    table.bind_node(x.id, scope);
    build_stmts(table, &x.condition, scope);
    build_stmts(table, &x.then_body, scope);
    match &x.else_body {
        Some(e) => {
            proof {
                assert(decreases_to!(x.else_body => x.else_body->Some_0));
            }
            build_stmts(table, e, scope);
        },
        None => {},
    }
}

fn build_for(table: &mut SymbolTable, x: &crate::hir::ForLoop, scope: ScopeId)
    requires
        old(table).wf(),
        (scope.0 as int) < old(table).scopes_v().len(),
        old(table).scopes_v().len() + stmt_scopes(stmt_v(Statement::For(*x))) <= u32::MAX,
    ensures
        final(table).wf(),
        final(table).tv() == stmt_table_s(stmt_v(Statement::For(*x)), scope.0 as nat, old(table).tv()),
        old(table).scopes_v().len() <= final(table).scopes_v().len() <= old(table).scopes_v().len() + stmt_scopes(
            stmt_v(Statement::For(*x)),
        ),
    decreases x, 0int,
{
    table.bind_node(x.id, scope);
    let ti = infer_type_info(CellKind::Scalar, None, Presence::IsSet);
    table.define(
        scope,
        Symbol {
            name: copy_string(&x.variable),
            cell_kind: CellKind::Scalar,
            type_info: ti,
            decl_scope: DeclScope::Implicit,
            decl_span: x.span,
            decl_node: x.id,
            type_annotation: None,
        },
    );
    build_stmts(table, &x.body, scope);
}

fn build_while(table: &mut SymbolTable, x: &crate::hir::WhileLoop, scope: ScopeId)
    requires
        old(table).wf(),
        (scope.0 as int) < old(table).scopes_v().len(),
        old(table).scopes_v().len() + stmt_scopes(stmt_v(Statement::While(*x))) <= u32::MAX,
    ensures
        final(table).wf(),
        final(table).tv() == stmt_table_s(stmt_v(Statement::While(*x)), scope.0 as nat, old(table).tv()),
        old(table).scopes_v().len() <= final(table).scopes_v().len() <= old(table).scopes_v().len() + stmt_scopes(
            stmt_v(Statement::While(*x)),
        ),
    decreases x, 0int,
{
    table.bind_node(x.id, scope);
    build_stmts(table, &x.condition, scope);
    build_stmts(table, &x.body, scope);
}

fn build_case(table: &mut SymbolTable, x: &crate::hir::CaseStatement, scope: ScopeId)
    requires
        old(table).wf(),
        (scope.0 as int) < old(table).scopes_v().len(),
        old(table).scopes_v().len() + stmt_scopes(stmt_v(Statement::Case(*x))) <= u32::MAX,
    ensures
        final(table).wf(),
        final(table).tv() == stmt_table_s(stmt_v(Statement::Case(*x)), scope.0 as nat, old(table).tv()),
        old(table).scopes_v().len() <= final(table).scopes_v().len() <= old(table).scopes_v().len() + stmt_scopes(
            stmt_v(Statement::Case(*x)),
        ),
    decreases x, 0int,
{
    table.bind_node(x.id, scope);
    let ghost av = arms_v(x.arms@);
    let ghost len1 = table.scopes_v().len();
    let ghost goal = arms_table_s(av, 0, scope.0 as nat, table.tv());
    let mut i: usize = 0;
    while i < x.arms.len()
        invariant
            table.wf(),
            i <= x.arms@.len(),
            av == arms_v(x.arms@),
            (scope.0 as int) < table.scopes_v().len(),
            len1 <= table.scopes_v().len(),
            table.scopes_v().len() + arms_scopes(av, i as int) <= len1 + arms_scopes(av, 0),
            len1 + arms_scopes(av, 0) <= u32::MAX,
            goal == arms_table_s(av, i as int, scope.0 as nat, table.tv()),
        decreases x.arms.len() - i,
    {
        proof {
            assert(decreases_to!(*x => x.arms));
            assert(decreases_to!(x.arms => x.arms@));
            assert(decreases_to!(x.arms@ => x.arms@[i as int]));
            assert(decreases_to!(x.arms@[i as int] => x.arms@[i as int].body));
            assert(av[i as int] == arm_v(x.arms@[i as int]));
        }
        build_stmts(table, &x.arms[i].body, scope);
        i = i + 1;
    }
}

fn build_list(table: &mut SymbolTable, x: &crate::hir::List, scope: ScopeId)
    requires
        old(table).wf(),
        (scope.0 as int) < old(table).scopes_v().len(),
        old(table).scopes_v().len() + stmt_scopes(stmt_v(Statement::List(*x))) <= u32::MAX,
    ensures
        final(table).wf(),
        final(table).tv() == stmt_table_s(stmt_v(Statement::List(*x)), scope.0 as nat, old(table).tv()),
        old(table).scopes_v().len() <= final(table).scopes_v().len() <= old(table).scopes_v().len() + stmt_scopes(
            stmt_v(Statement::List(*x)),
        ),
    decreases x, 0int,
{
    table.bind_node(x.id, scope);
    let ghost es = elements_v(x.elements@);
    let ghost len1 = table.scopes_v().len();
    let ghost goal = elements_table_s(es, 0, scope.0 as nat, table.tv());
    let mut i: usize = 0;
    while i < x.elements.len()
        invariant
            table.wf(),
            i <= x.elements@.len(),
            es == elements_v(x.elements@),
            (scope.0 as int) < table.scopes_v().len(),
            len1 <= table.scopes_v().len(),
            table.scopes_v().len() + elements_scopes(es, i as int) <= len1 + elements_scopes(es, 0),
            len1 + elements_scopes(es, 0) <= u32::MAX,
            goal == elements_table_s(es, i as int, scope.0 as nat, table.tv()),
        decreases x.elements.len() - i,
    {
        proof {
            assert(decreases_to!(*x => x.elements));
            assert(decreases_to!(x.elements => x.elements@));
            assert(decreases_to!(x.elements@ => x.elements@[i as int]));
            assert(decreases_to!(x.elements@[i as int] => x.elements@[i as int].statement));
            assert(es[i as int].statement == stmt_v(x.elements@[i as int].statement));
        }
        build_statement(table, &x.elements[i].statement, scope);
        i = i + 1;
    }
}

fn build_block(table: &mut SymbolTable, x: &crate::hir::Block, scope: ScopeId)
    requires
        old(table).wf(),
        (scope.0 as int) < old(table).scopes_v().len(),
        old(table).scopes_v().len() + stmt_scopes(stmt_v(Statement::Block(*x))) <= u32::MAX,
    ensures
        final(table).wf(),
        final(table).tv() == stmt_table_s(stmt_v(Statement::Block(*x)), scope.0 as nat, old(table).tv()),
        old(table).scopes_v().len() <= final(table).scopes_v().len() <= old(table).scopes_v().len() + stmt_scopes(
            stmt_v(Statement::Block(*x)),
        ),
    decreases x, 0int,
{
    table.bind_node(x.id, scope);
    if x.subshell {
        let sub = table.push_scope(scope, ScopeKind::Subshell);
        build_stmts(table, &x.body, sub);
    } else {
        build_stmts(table, &x.body, scope);
    }
}

fn build_statement(table: &mut SymbolTable, stmt: &Statement, scope: ScopeId)
    requires
        old(table).wf(),
        (scope.0 as int) < old(table).scopes_v().len(),
        old(table).scopes_v().len() + stmt_scopes(stmt_v(*stmt)) <= u32::MAX,
    ensures
        final(table).wf(),
        final(table).tv() == stmt_table_s(stmt_v(*stmt), scope.0 as nat, old(table).tv()),
        old(table).scopes_v().len() <= final(table).scopes_v().len() <= old(table).scopes_v().len() + stmt_scopes(
            stmt_v(*stmt),
        ),
    decreases stmt, 1int,
{
    match stmt {
        Statement::Assignment(a) => {
            table.bind_node(a.id, scope);
            let cell_kind = cell_kind_from_assignment(a);
            let decl_scope = decl_scope_from_assignment(a);
            let has_value = a.value.is_some() || a.array_value.is_some();
            let presence = if has_value {
                Presence::IsSet
            } else {
                Presence::Unset
            };
            let type_info = infer_type_info(cell_kind, None, presence);
            table.define(
                scope,
                Symbol {
                    name: copy_string(&a.name),
                    cell_kind,
                    type_info,
                    decl_scope,
                    decl_span: a.span,
                    decl_node: a.id,
                    type_annotation: None,
                },
            );
        },
        Statement::Command(c) => {
            table.bind_node(c.id, scope);
        },
        Statement::Pipeline(p) => {
            proof {
                assert(decreases_to!(*stmt => stmt->Pipeline_0));
            }
            table.bind_node(p.id, scope);
            build_stmts(table, &p.commands, scope);
        },
        Statement::If(x) => {
            proof {
                assert(decreases_to!(*stmt => stmt->If_0));
            }
            build_if(table, x, scope);
        },
        Statement::For(x) => {
            proof {
                assert(decreases_to!(*stmt => stmt->For_0));
            }
            build_for(table, x, scope);
        },
        Statement::While(x) => {
            proof {
                assert(decreases_to!(*stmt => stmt->While_0));
            }
            build_while(table, x, scope);
        },
        Statement::Case(x) => {
            proof {
                assert(decreases_to!(*stmt => stmt->Case_0));
            }
            build_case(table, x, scope);
        },
        Statement::List(x) => {
            proof {
                assert(decreases_to!(*stmt => stmt->List_0));
            }
            build_list(table, x, scope);
        },
        Statement::Block(x) => {
            proof {
                assert(decreases_to!(*stmt => stmt->Block_0));
            }
            build_block(table, x, scope);
        },
        Statement::Unmodeled(u) => {
            table.bind_node(u.id, scope);
        },
        Statement::SourceCommand(_) => {},
    }
}


/// Records a type annotation on the symbol `name` of `scope`, if it is defined there.
fn annotate(table: &mut SymbolTable, scope: ScopeId, name: &String, te: &TypeExpr)
    requires
        old(table).wf(),
        (scope.0 as int) < old(table).scopes_v().len(),
    ensures
        final(table).wf(),
        final(table).tv() == annotate_s(old(table).tv(), scope.0 as nat, name@, type_expr_v(*te)),
        final(table).scopes_v().len() == old(table).scopes_v().len(),
{
    let i = scope.0 as usize;
    assert(table.scopes@[i as int].symbols.wf());
    assert(table.scopes_v()[i as int].symbols == table.scopes@[i as int].symbols@);
    let updated = match table.scopes[i].symbols.get(name.as_str()) {
        Some(sym) => Some(
            Symbol {
                name: copy_string(&sym.name),
                cell_kind: sym.cell_kind,
                type_info: infer_type_info(sym.cell_kind, Some(te), sym.type_info.presence),
                decl_scope: sym.decl_scope,
                decl_span: sym.decl_span,
                decl_node: sym.decl_node,
                type_annotation: Some(copy_type_expr(te)),
            },
        ),
        None => None,
    };
    match updated {
        Some(u) => {
            table.define(scope, u);
        },
        None => {},
    }
}

fn build_function(table: &mut SymbolTable, f: &Function, parent: ScopeId)
    requires
        old(table).wf(),
        (parent.0 as int) < old(table).scopes_v().len(),
        old(table).scopes_v().len() + 1 + stmts_scopes(stmts_v(f.body@), 0) <= u32::MAX,
    ensures
        final(table).wf(),
        final(table).tv() == function_table_s(function_v(*f), parent.0 as nat, old(table).tv()),
        old(table).scopes_v().len() <= final(table).scopes_v().len() <= old(table).scopes_v().len() + 1
            + stmts_scopes(stmts_v(f.body@), 0),
{
    let fs = table.push_scope(parent, ScopeKind::Function);
    table.bind_node(f.id, fs);
    let ghost av = annotations_v(f.annotations@);
    let ghost goal = fn_annotations_s(av, 0, fs.0 as nat, f.id, table.tv());
    let ghost len1 = table.scopes_v().len();
    let mut i: usize = 0;
    while i < f.annotations.len()
        invariant
            table.wf(),
            i <= f.annotations@.len(),
            av == annotations_v(f.annotations@),
            (fs.0 as int) < table.scopes_v().len(),
            table.scopes_v().len() == len1,
            goal == fn_annotations_s(av, i as int, fs.0 as nat, f.id, table.tv()),
        decreases f.annotations.len() - i,
    {
        let ann = &f.annotations[i];
        assert(av[i as int] == annotation_v(*ann));
        match &ann.directive {
            Directive::Sig(sig) => {
                let ghost pv = crate::annotation::params_v(sig.params@);
                let ghost pgoal = params_table_s(pv, 0, fs.0 as nat, ann.span, f.id, table.tv());
                let mut j: usize = 0;
                while j < sig.params.len()
                    invariant
                        table.wf(),
                        j <= sig.params@.len(),
                        pv == crate::annotation::params_v(sig.params@),
                        (fs.0 as int) < table.scopes_v().len(),
                        table.scopes_v().len() == len1,
                        pgoal == params_table_s(pv, j as int, fs.0 as nat, ann.span, f.id, table.tv()),
                    decreases sig.params.len() - j,
                {
                    let param = &sig.params[j];
                    let cell_kind = type_expr_to_cell_kind(&param.type_expr);
                    let type_info = infer_type_info(cell_kind, Some(&param.type_expr), Presence::MaybeUnset);
                    table.define(
                        fs,
                        Symbol {
                            name: copy_string(&param.name),
                            cell_kind,
                            type_info,
                            decl_scope: DeclScope::Local,
                            decl_span: ann.span,
                            decl_node: f.id,
                            type_annotation: Some(copy_type_expr(&param.type_expr)),
                        },
                    );
                    j = j + 1;
                }
            },
            Directive::Bind(bind) => {
                if table.resolve(fs, bind.name.as_str()).is_none() {
                    let cell_kind = if bind.variadic {
                        CellKind::IndexedArray
                    } else {
                        CellKind::Scalar
                    };
                    let type_info = infer_type_info(cell_kind, None, Presence::MaybeUnset);
                    table.define(
                        fs,
                        Symbol {
                            name: copy_string(&bind.name),
                            cell_kind,
                            type_info,
                            decl_scope: DeclScope::Local,
                            decl_span: ann.span,
                            decl_node: f.id,
                            type_annotation: None,
                        },
                    );
                }
            },
            Directive::Type(td) => {
                annotate(table, fs, &td.name, &td.type_expr);
            },
            _ => {},
        }
        i = i + 1;
    }
    build_stmts(table, &f.body, fs);
}

/// Builds the symbol table of a source unit, as `symbol_table_s` states:
/// the root scope, one scope per function and per subshell, every node
/// bound to its scope, and the top-level type annotations applied last.
pub fn build_symbol_table(source_unit: &SourceUnit) -> (t: SymbolTable)
    requires
        1 + items_scopes(items_v(source_unit.items@), 0) <= u32::MAX,
    ensures
        t.wf(),
        t.tv() == symbol_table_s(items_v(source_unit.items@), annotations_v(source_unit.annotations@)),
{
    let mut table = SymbolTable::new();
    let global = table.root_scope();
    let items = &source_unit.items;
    let ghost iv = items_v(items@);
    let ghost goal = items_table_s(iv, 0, table.tv());
    let mut i: usize = 0;
    while i < items.len()
        invariant
            table.wf(),
            i <= items@.len(),
            iv == items_v(items@),
            global == ScopeId(0),
            1 <= table.scopes_v().len(),
            table.scopes_v().len() + items_scopes(iv, i as int) <= 1 + items_scopes(iv, 0),
            1 + items_scopes(iv, 0) <= u32::MAX,
            goal == items_table_s(iv, i as int, table.tv()),
        decreases items.len() - i,
    {
        assert(iv[i as int] == item_v(items@[i as int]));
        match &items[i] {
            Item::Function(f) => {
                build_function(&mut table, f, global);
            },
            Item::Statement(st) => {
                build_statement(&mut table, st, global);
            },
        }
        i = i + 1;
    }
    let anns = &source_unit.annotations;
    let ghost avs = annotations_v(anns@);
    let ghost goal2 = top_annotations_s(avs, 0, table.tv());
    let mut k: usize = 0;
    while k < anns.len()
        invariant
            table.wf(),
            k <= anns@.len(),
            avs == annotations_v(anns@),
            global == ScopeId(0),
            1 <= table.scopes_v().len(),
            goal2 == top_annotations_s(avs, k as int, table.tv()),
        decreases anns.len() - k,
    {
        assert(avs[k as int] == annotation_v(anns@[k as int]));
        if let Directive::Type(td) = &anns[k].directive {
            annotate(&mut table, global, &td.name, &td.type_expr);
        }
        k = k + 1;
    }
    table
}


// ---------------------------------------------------------------------------
// Laws of name resolution
// ---------------------------------------------------------------------------

/// Scope `a` is `b` or one of the scopes that enclose `b`.
pub open spec fn encloses(scopes: Seq<ScopeV>, a: int, b: int) -> bool
    decreases b,
{
    if b < 0 || b >= scopes.len() {
        false
    } else if a == b {
        true
    } else {
        match scopes[b].parent {
            Some(p) => (p.0 as int) < b && encloses(scopes, a, p.0 as int),
            None => false,
        }
    }
}

// ---------------------------------------------------------------------------
// The type information of every symbol
// ---------------------------------------------------------------------------

/// A symbol's type information is what its cell kind, its type annotation
/// and its presence give.
pub open spec fn sym_consistent(sym: SymbolV) -> bool {
    sym.type_info == infer_s(sym.cell_kind, sym.type_annotation, sym.type_info.presence)
}

/// Every symbol of every scope of `t` is `sym_consistent`, and held under
/// its own name.
pub open spec fn table_consistent(t: TableV) -> bool {
    forall|s: int, n: Seq<char>|
        0 <= s < t.scopes.len() && #[trigger] t.scopes[s].symbols.contains_key(n) ==> sym_consistent(
            t.scopes[s].symbols[n],
        ) && t.scopes[s].symbols[n].name == n
}

proof fn lemma_define_consistent(t: TableV, s: nat, sym: SymbolV)
    requires
        table_consistent(t),
        s < t.scopes.len(),
        sym_consistent(sym),
    ensures
        table_consistent(define_s(t, s, sym)),
        define_s(t, s, sym).scopes.len() == t.scopes.len(),
{
    let t2 = define_s(t, s, sym);
    assert forall|x: int, n: Seq<char>|
        0 <= x < t2.scopes.len() && #[trigger] t2.scopes[x].symbols.contains_key(n) implies sym_consistent(
        t2.scopes[x].symbols[n],
    ) by {
        if x == s as int && n == sym.name {
        } else if x == s as int {
            assert(t.scopes[x].symbols.contains_key(n));
        } else {
            assert(t2.scopes[x] == t.scopes[x]);
        }
    }
}

proof fn lemma_annotate_consistent(t: TableV, s: nat, name: Seq<char>, te: TypeExprV)
    requires
        table_consistent(t),
        s < t.scopes.len(),
    ensures
        table_consistent(annotate_s(t, s, name, te)),
        annotate_s(t, s, name, te).scopes.len() == t.scopes.len(),
{
    if t.scopes[s as int].symbols.contains_key(name) {
        let sym = t.scopes[s as int].symbols[name];
        let sym2 = SymbolV {
            type_annotation: Some(te),
            type_info: infer_s(sym.cell_kind, Some(te), sym.type_info.presence),
            ..sym
        };
        lemma_define_consistent(t, s, sym2);
    }
}

proof fn lemma_push_consistent(t: TableV, parent: nat, kind: ScopeKind)
    requires
        table_consistent(t),
    ensures
        table_consistent(push_scope_s(t, parent, kind).0),
        push_scope_s(t, parent, kind).0.scopes.len() == t.scopes.len() + 1,
        push_scope_s(t, parent, kind).1 == t.scopes.len(),
{
    let t2 = push_scope_s(t, parent, kind).0;
    assert forall|x: int, n: Seq<char>|
        0 <= x < t2.scopes.len() && #[trigger] t2.scopes[x].symbols.contains_key(n) implies sym_consistent(
        t2.scopes[x].symbols[n],
    ) by {
        if x < t.scopes.len() {
            assert(t2.scopes[x] == t.scopes[x]);
        }
    }
}

proof fn lemma_stmt_consistent(st: StatementV, scope: nat, t: TableV)
    requires
        table_consistent(t),
        scope < t.scopes.len(),
    ensures
        table_consistent(stmt_table_s(st, scope, t)),
        stmt_table_s(st, scope, t).scopes.len() >= t.scopes.len(),
    decreases st, 0int,
{
    match st {
        StatementV::Assignment { id, span, name, value, decl_kind, flags, array_value } => {
            let ck = assign_cell_kind_s(flags, array_value is Some);
            let presence = if value is Some || array_value is Some {
                Presence::IsSet
            } else {
                Presence::Unset
            };
            lemma_define_consistent(
                bind_s(t, id, scope),
                scope,
                SymbolV {
                    name,
                    cell_kind: ck,
                    type_info: infer_s(ck, None, presence),
                    decl_scope: decl_scope_s(decl_kind),
                    decl_span: span,
                    decl_node: id,
                    type_annotation: None,
                },
            );
        },
        StatementV::Pipeline { id, commands, .. } => lemma_stmts_consistent(commands, 0, scope, bind_s(t, id, scope)),
        StatementV::If { id, condition, then_body, else_body, .. } => {
            lemma_stmts_consistent(condition, 0, scope, bind_s(t, id, scope));
            let t2 = stmts_table_s(condition, 0, scope, bind_s(t, id, scope));
            lemma_stmts_consistent(then_body, 0, scope, t2);
            let t3 = stmts_table_s(then_body, 0, scope, t2);
            if let Some(e) = else_body {
                lemma_stmts_consistent(e, 0, scope, t3);
            }
        },
        StatementV::For { id, span, variable, body, .. } => {
            let sym = SymbolV {
                name: variable,
                cell_kind: CellKind::Scalar,
                type_info: infer_s(CellKind::Scalar, None, Presence::IsSet),
                decl_scope: DeclScope::Implicit,
                decl_span: span,
                decl_node: id,
                type_annotation: None,
            };
            lemma_define_consistent(bind_s(t, id, scope), scope, sym);
            lemma_stmts_consistent(body, 0, scope, define_s(bind_s(t, id, scope), scope, sym));
        },
        StatementV::While { id, condition, body, .. } => {
            lemma_stmts_consistent(condition, 0, scope, bind_s(t, id, scope));
            let t2 = stmts_table_s(condition, 0, scope, bind_s(t, id, scope));
            lemma_stmts_consistent(body, 0, scope, t2);
        },
        StatementV::Case { id, arms, .. } => lemma_arms_consistent(arms, 0, scope, bind_s(t, id, scope)),
        StatementV::List { id, elements, .. } => lemma_elements_consistent(elements, 0, scope, bind_s(t, id, scope)),
        StatementV::Block { id, body, subshell, .. } => {
            let t1 = bind_s(t, id, scope);
            if subshell {
                lemma_push_consistent(t1, scope, ScopeKind::Subshell);
                let (t2, sub) = push_scope_s(t1, scope, ScopeKind::Subshell);
                lemma_stmts_consistent(body, 0, sub, t2);
            } else {
                lemma_stmts_consistent(body, 0, scope, t1);
            }
        },
        _ => {},
    }
}

proof fn lemma_stmts_consistent(ss: Seq<StatementV>, i: int, scope: nat, t: TableV)
    requires
        table_consistent(t),
        scope < t.scopes.len(),
    ensures
        table_consistent(stmts_table_s(ss, i, scope, t)),
        stmts_table_s(ss, i, scope, t).scopes.len() >= t.scopes.len(),
    decreases ss, ss.len() - i,
{
    if 0 <= i < ss.len() {
        lemma_stmt_consistent(ss[i], scope, t);
        lemma_stmts_consistent(ss, i + 1, scope, stmt_table_s(ss[i], scope, t));
    }
}

proof fn lemma_arms_consistent(arms: Seq<CaseArmV>, i: int, scope: nat, t: TableV)
    requires
        table_consistent(t),
        scope < t.scopes.len(),
    ensures
        table_consistent(arms_table_s(arms, i, scope, t)),
        arms_table_s(arms, i, scope, t).scopes.len() >= t.scopes.len(),
    decreases arms, arms.len() - i,
{
    if 0 <= i < arms.len() {
        lemma_stmts_consistent(arms[i].body, 0, scope, t);
        lemma_arms_consistent(arms, i + 1, scope, stmts_table_s(arms[i].body, 0, scope, t));
    }
}

proof fn lemma_elements_consistent(es: Seq<ListElementV>, i: int, scope: nat, t: TableV)
    requires
        table_consistent(t),
        scope < t.scopes.len(),
    ensures
        table_consistent(elements_table_s(es, i, scope, t)),
        elements_table_s(es, i, scope, t).scopes.len() >= t.scopes.len(),
    decreases es, es.len() - i,
{
    if 0 <= i < es.len() {
        lemma_stmt_consistent(es[i].statement, scope, t);
        lemma_elements_consistent(es, i + 1, scope, stmt_table_s(es[i].statement, scope, t));
    }
}

proof fn lemma_params_consistent(ps: Seq<crate::annotation::ParamV>, j: int, fs: nat, span: Span, fid: NodeId, t: TableV)
    requires
        table_consistent(t),
        fs < t.scopes.len(),
    ensures
        table_consistent(params_table_s(ps, j, fs, span, fid, t)),
        params_table_s(ps, j, fs, span, fid, t).scopes.len() == t.scopes.len(),
    decreases ps.len() - j,
{
    if 0 <= j < ps.len() {
        let te = ps[j].type_expr;
        let ck = type_cell_kind_s(te);
        let sym = SymbolV {
            name: ps[j].name,
            cell_kind: ck,
            type_info: infer_s(ck, Some(te), Presence::MaybeUnset),
            decl_scope: DeclScope::Local,
            decl_span: span,
            decl_node: fid,
            type_annotation: Some(te),
        };
        lemma_define_consistent(t, fs, sym);
        lemma_params_consistent(ps, j + 1, fs, span, fid, define_s(t, fs, sym));
    }
}

proof fn lemma_fn_annotations_consistent(anns: Seq<AnnotationV>, i: int, fs: nat, fid: NodeId, t: TableV)
    requires
        table_consistent(t),
        fs < t.scopes.len(),
    ensures
        table_consistent(fn_annotations_s(anns, i, fs, fid, t)),
        fn_annotations_s(anns, i, fs, fid, t).scopes.len() == t.scopes.len(),
    decreases anns.len() - i,
{
    if 0 <= i < anns.len() {
        let span = anns[i].span;
        let t2 = match anns[i].directive {
            DirectiveV::Sig { params, .. } => params_table_s(params, 0, fs, span, fid, t),
            DirectiveV::Bind { name, variadic, .. } => if resolve_s(t.scopes, fs as int, name) is None {
                let ck = if variadic {
                    CellKind::IndexedArray
                } else {
                    CellKind::Scalar
                };
                define_s(
                    t,
                    fs,
                    SymbolV {
                        name,
                        cell_kind: ck,
                        type_info: infer_s(ck, None, Presence::MaybeUnset),
                        decl_scope: DeclScope::Local,
                        decl_span: span,
                        decl_node: fid,
                        type_annotation: None,
                    },
                )
            } else {
                t
            },
            DirectiveV::Type { name, type_expr } => annotate_s(t, fs, name, type_expr),
            _ => t,
        };
        match anns[i].directive {
            DirectiveV::Sig { params, .. } => lemma_params_consistent(params, 0, fs, span, fid, t),
            DirectiveV::Bind { name, variadic, .. } => {
                if resolve_s(t.scopes, fs as int, name) is None {
                    let ck = if variadic {
                        CellKind::IndexedArray
                    } else {
                        CellKind::Scalar
                    };
                    lemma_define_consistent(
                        t,
                        fs,
                        SymbolV {
                            name,
                            cell_kind: ck,
                            type_info: infer_s(ck, None, Presence::MaybeUnset),
                            decl_scope: DeclScope::Local,
                            decl_span: span,
                            decl_node: fid,
                            type_annotation: None,
                        },
                    );
                }
            },
            DirectiveV::Type { name, type_expr } => lemma_annotate_consistent(t, fs, name, type_expr),
            _ => {},
        }
        lemma_fn_annotations_consistent(anns, i + 1, fs, fid, t2);
    }
}

proof fn lemma_items_consistent(items: Seq<ItemV>, i: int, t: TableV)
    requires
        table_consistent(t),
        t.scopes.len() >= 1,
    ensures
        table_consistent(items_table_s(items, i, t)),
        items_table_s(items, i, t).scopes.len() >= t.scopes.len(),
    decreases items.len() - i,
{
    if 0 <= i < items.len() {
        let t2 = match items[i] {
            ItemV::Function(f) => function_table_s(f, 0, t),
            ItemV::Statement(st) => stmt_table_s(st, 0, t),
        };
        match items[i] {
            ItemV::Function(f) => {
                lemma_push_consistent(t, 0, ScopeKind::Function);
                let (t1, fs) = push_scope_s(t, 0, ScopeKind::Function);
                let tb = bind_s(t1, f.id, fs);
                lemma_fn_annotations_consistent(f.annotations, 0, fs, f.id, tb);
                let t3 = fn_annotations_s(f.annotations, 0, fs, f.id, tb);
                lemma_stmts_consistent(f.body, 0, fs, t3);
            },
            ItemV::Statement(st) => lemma_stmt_consistent(st, 0, t),
        }
        lemma_items_consistent(items, i + 1, t2);
    }
}

proof fn lemma_top_annotations_consistent(anns: Seq<AnnotationV>, i: int, t: TableV)
    requires
        table_consistent(t),
        t.scopes.len() >= 1,
    ensures
        table_consistent(top_annotations_s(anns, i, t)),
    decreases anns.len() - i,
{
    if 0 <= i < anns.len() {
        let t2 = match anns[i].directive {
            DirectiveV::Type { name, type_expr } => annotate_s(t, 0, name, type_expr),
            _ => t,
        };
        if let DirectiveV::Type { name, type_expr } = anns[i].directive {
            lemma_annotate_consistent(t, 0, name, type_expr);
        }
        lemma_top_annotations_consistent(anns, i + 1, t2);
    }
}

/// Every symbol of the table of a source unit has the type information that
/// its cell kind, its type annotation and its presence give, and is held
/// under its own name.
pub proof fn lemma_symbol_type_info(items: Seq<ItemV>, annotations: Seq<AnnotationV>)
    ensures
        table_consistent(symbol_table_s(items, annotations)),
{
    let t0 = new_table_s();
    assert(table_consistent(t0));
    lemma_items_consistent(items, 0, t0);
    lemma_top_annotations_consistent(annotations, 0, items_table_s(items, 0, t0));
}

// ---------------------------------------------------------------------------
// Top-level type annotations
// ---------------------------------------------------------------------------

/// Annotation `a` gives `name` a type.
pub open spec fn types_name(a: AnnotationV, name: Seq<char>) -> bool {
    a.directive matches DirectiveV::Type { name: n, .. } && n == name
}

/// `sym` is `s0` but for its type annotation and type information.
pub open spec fn same_definition(sym: SymbolV, s0: SymbolV) -> bool {
    &&& sym.name == s0.name
    &&& sym.cell_kind == s0.cell_kind
    &&& sym.type_info.presence == s0.type_info.presence
    &&& sym.decl_scope == s0.decl_scope
    &&& sym.decl_span == s0.decl_span
    &&& sym.decl_node == s0.decl_node
}

proof fn lemma_top_ann_keeps(anns: Seq<AnnotationV>, k: int, t: TableV, name: Seq<char>, s0: SymbolV)
    requires
        table_consistent(t),
        t.scopes.len() >= 1,
        t.scopes[0].symbols.contains_key(name),
        same_definition(t.scopes[0].symbols[name], s0),
    ensures
        top_annotations_s(anns, k, t).scopes.len() >= 1,
        top_annotations_s(anns, k, t).scopes[0].symbols.contains_key(name),
        same_definition(top_annotations_s(anns, k, t).scopes[0].symbols[name], s0),
        (forall|m: int| k <= m < anns.len() ==> !types_name(#[trigger] anns[m], name)) ==> top_annotations_s(
            anns,
            k,
            t,
        ).scopes[0].symbols[name] == t.scopes[0].symbols[name],
    decreases anns.len() - k,
{
    if 0 <= k < anns.len() {
        let t2 = match anns[k].directive {
            DirectiveV::Type { name: n, type_expr } => annotate_s(t, 0, n, type_expr),
            _ => t,
        };
        if let DirectiveV::Type { name: n, type_expr } = anns[k].directive {
            lemma_annotate_consistent(t, 0, n, type_expr);
        }
        assert(t2.scopes.len() == t.scopes.len());
        assert(t2.scopes[0].symbols.contains_key(name));
        assert(same_definition(t2.scopes[0].symbols[name], s0));
        assert(!types_name(anns[k], name) ==> t2.scopes[0].symbols[name] == t.scopes[0].symbols[name]);
        lemma_top_ann_keeps(anns, k + 1, t2, name, s0);
    }
}

proof fn lemma_top_ann_last(anns: Seq<AnnotationV>, k: int, i: int, t: TableV, name: Seq<char>, te: TypeExprV, s0: SymbolV)
    requires
        0 <= k <= i < anns.len(),
        anns[i].directive == (DirectiveV::Type { name, type_expr: te }),
        forall|m: int| i < m < anns.len() ==> !types_name(#[trigger] anns[m], name),
        table_consistent(t),
        t.scopes.len() >= 1,
        t.scopes[0].symbols.contains_key(name),
        same_definition(t.scopes[0].symbols[name], s0),
        s0.name == name,
    ensures
        top_annotations_s(anns, k, t).scopes[0].symbols.contains_key(name),
        top_annotations_s(anns, k, t).scopes[0].symbols[name] == (SymbolV {
            type_annotation: Some(te),
            type_info: infer_s(s0.cell_kind, Some(te), s0.type_info.presence),
            ..s0
        }),
    decreases i - k,
{
    let t2 = match anns[k].directive {
        DirectiveV::Type { name: n, type_expr } => annotate_s(t, 0, n, type_expr),
        _ => t,
    };
    if let DirectiveV::Type { name: n, type_expr } = anns[k].directive {
        lemma_annotate_consistent(t, 0, n, type_expr);
    }
    assert(t2.scopes.len() == t.scopes.len());
    if k < i {
        lemma_top_ann_last(anns, k + 1, i, t2, name, te, s0);
    } else {
        let target = SymbolV {
            type_annotation: Some(te),
            type_info: infer_s(s0.cell_kind, Some(te), s0.type_info.presence),
            ..s0
        };
        assert(t2.scopes[0].symbols[name] == target);
        lemma_top_ann_keeps(anns, k + 1, t2, name, target);
    }
}

/// A top-level `#@type` annotation of a name that the top-level code defines,
/// and that no later top-level annotation types again, lands on the root
/// scope's symbol of that name: the symbol keeps its definition (kind,
/// presence, scope, span, node) and gets that type annotation and the type
/// information it gives.
pub proof fn lemma_top_type_annotation(items: Seq<ItemV>, anns: Seq<AnnotationV>, i: int, name: Seq<char>, te: TypeExprV)
    requires
        0 <= i < anns.len(),
        anns[i].directive == (DirectiveV::Type { name, type_expr: te }),
        forall|m: int| i < m < anns.len() ==> !types_name(#[trigger] anns[m], name),
        items_table_s(items, 0, new_table_s()).scopes[0].symbols.contains_key(name),
    ensures
        symbol_table_s(items, anns).scopes[0].symbols.contains_key(name),
        symbol_table_s(items, anns).scopes[0].symbols[name] == (SymbolV {
            type_annotation: Some(te),
            type_info: infer_s(
                items_table_s(items, 0, new_table_s()).scopes[0].symbols[name].cell_kind,
                Some(te),
                items_table_s(items, 0, new_table_s()).scopes[0].symbols[name].type_info.presence,
            ),
            ..items_table_s(items, 0, new_table_s()).scopes[0].symbols[name]
        }),
{
    let t0 = new_table_s();
    assert(table_consistent(t0));
    lemma_items_consistent(items, 0, t0);
    let t = items_table_s(items, 0, t0);
    let s0 = t.scopes[0].symbols[name];
    lemma_top_ann_last(anns, 0, i, t, name, te, s0);
}

// ---------------------------------------------------------------------------
// What a statement and a function add to the table
// ---------------------------------------------------------------------------

/// From `t` to `t2` scopes were only added; no scope of `t` but `scope`
/// changed, and no scope of `t` changed its id, parent or kind.
pub open spec fn table_frame(t: TableV, t2: TableV, scope: int) -> bool {
    &&& t2.scopes.len() >= t.scopes.len()
    &&& forall|x: int| 0 <= x < t.scopes.len() && x != scope ==> #[trigger] t2.scopes[x] == t.scopes[x]
    &&& forall|x: int|
        0 <= x < t.scopes.len() ==> (#[trigger] t2.scopes[x]).id == t.scopes[x].id && t2.scopes[x].parent
            == t.scopes[x].parent && t2.scopes[x].kind == t.scopes[x].kind
}

proof fn lemma_table_frame_compose(t0: TableV, t1: TableV, t2: TableV, sc: int, sc2: int)
    requires
        table_frame(t0, t1, sc),
        table_frame(t1, t2, sc2),
        sc2 == sc || sc2 >= t0.scopes.len(),
    ensures
        table_frame(t0, t2, sc),
{
    assert forall|x: int| 0 <= x < t0.scopes.len() && x != sc implies #[trigger] t2.scopes[x] == t0.scopes[x] by {
        assert(t1.scopes[x] == t0.scopes[x]);
    }
    assert forall|x: int| 0 <= x < t0.scopes.len() implies (#[trigger] t2.scopes[x]).id == t0.scopes[x].id
        && t2.scopes[x].parent == t0.scopes[x].parent && t2.scopes[x].kind == t0.scopes[x].kind by {
        assert(t1.scopes[x].id == t0.scopes[x].id);
    }
}

proof fn lemma_stmt_table_frame(st: StatementV, scope: nat, t: TableV)
    requires
        scope < t.scopes.len(),
    ensures
        table_frame(t, stmt_table_s(st, scope, t), scope as int),
    decreases st, 0int,
{
    let sc = scope as int;
    match st {
        StatementV::Pipeline { id, commands, .. } => lemma_stmts_table_frame(commands, 0, scope, bind_s(t, id, scope)),
        StatementV::If { id, condition, then_body, else_body, .. } => {
            let t1 = bind_s(t, id, scope);
            lemma_stmts_table_frame(condition, 0, scope, t1);
            let t2 = stmts_table_s(condition, 0, scope, t1);
            lemma_stmts_table_frame(then_body, 0, scope, t2);
            let t3 = stmts_table_s(then_body, 0, scope, t2);
            lemma_table_frame_compose(t, t2, t3, sc, sc);
            if let Some(e) = else_body {
                lemma_stmts_table_frame(e, 0, scope, t3);
                lemma_table_frame_compose(t, t3, stmts_table_s(e, 0, scope, t3), sc, sc);
            }
        },
        StatementV::For { id, span, variable, body, .. } => {
            let sym = SymbolV {
                name: variable,
                cell_kind: CellKind::Scalar,
                type_info: infer_s(CellKind::Scalar, None, Presence::IsSet),
                decl_scope: DeclScope::Implicit,
                decl_span: span,
                decl_node: id,
                type_annotation: None,
            };
            let t2 = define_s(bind_s(t, id, scope), scope, sym);
            lemma_stmts_table_frame(body, 0, scope, t2);
            lemma_table_frame_compose(t, t2, stmts_table_s(body, 0, scope, t2), sc, sc);
        },
        StatementV::While { id, condition, body, .. } => {
            let t1 = bind_s(t, id, scope);
            lemma_stmts_table_frame(condition, 0, scope, t1);
            let t2 = stmts_table_s(condition, 0, scope, t1);
            lemma_stmts_table_frame(body, 0, scope, t2);
            lemma_table_frame_compose(t, t2, stmts_table_s(body, 0, scope, t2), sc, sc);
        },
        StatementV::Case { id, arms, .. } => lemma_arms_table_frame(arms, 0, scope, bind_s(t, id, scope)),
        StatementV::List { id, elements, .. } => lemma_elements_table_frame(elements, 0, scope, bind_s(t, id, scope)),
        StatementV::Block { id, body, subshell, .. } => {
            let t1 = bind_s(t, id, scope);
            if subshell {
                let (t2, sub) = push_scope_s(t1, scope, ScopeKind::Subshell);
                lemma_stmts_table_frame(body, 0, sub, t2);
                lemma_table_frame_compose(t, t2, stmts_table_s(body, 0, sub, t2), sc, sub as int);
            } else {
                lemma_stmts_table_frame(body, 0, scope, t1);
            }
        },
        _ => {},
    }
}

proof fn lemma_stmts_table_frame(ss: Seq<StatementV>, i: int, scope: nat, t: TableV)
    requires
        scope < t.scopes.len(),
    ensures
        table_frame(t, stmts_table_s(ss, i, scope, t), scope as int),
    decreases ss, ss.len() - i,
{
    if 0 <= i < ss.len() {
        lemma_stmt_table_frame(ss[i], scope, t);
        let t1 = stmt_table_s(ss[i], scope, t);
        lemma_stmts_table_frame(ss, i + 1, scope, t1);
        lemma_table_frame_compose(t, t1, stmts_table_s(ss, i + 1, scope, t1), scope as int, scope as int);
    }
}

proof fn lemma_arms_table_frame(arms: Seq<CaseArmV>, i: int, scope: nat, t: TableV)
    requires
        scope < t.scopes.len(),
    ensures
        table_frame(t, arms_table_s(arms, i, scope, t), scope as int),
    decreases arms, arms.len() - i,
{
    if 0 <= i < arms.len() {
        lemma_stmts_table_frame(arms[i].body, 0, scope, t);
        let t1 = stmts_table_s(arms[i].body, 0, scope, t);
        lemma_arms_table_frame(arms, i + 1, scope, t1);
        lemma_table_frame_compose(t, t1, arms_table_s(arms, i + 1, scope, t1), scope as int, scope as int);
    }
}

proof fn lemma_elements_table_frame(es: Seq<ListElementV>, i: int, scope: nat, t: TableV)
    requires
        scope < t.scopes.len(),
    ensures
        table_frame(t, elements_table_s(es, i, scope, t), scope as int),
    decreases es, es.len() - i,
{
    if 0 <= i < es.len() {
        lemma_stmt_table_frame(es[i].statement, scope, t);
        let t1 = stmt_table_s(es[i].statement, scope, t);
        lemma_elements_table_frame(es, i + 1, scope, t1);
        lemma_table_frame_compose(t, t1, elements_table_s(es, i + 1, scope, t1), scope as int, scope as int);
    }
}

proof fn lemma_params_table_frame(ps: Seq<crate::annotation::ParamV>, j: int, fs: nat, span: Span, fid: NodeId, t: TableV)
    requires
        fs < t.scopes.len(),
    ensures
        table_frame(t, params_table_s(ps, j, fs, span, fid, t), fs as int),
    decreases ps.len() - j,
{
    if 0 <= j < ps.len() {
        let te = ps[j].type_expr;
        let ck = type_cell_kind_s(te);
        let sym = SymbolV {
            name: ps[j].name,
            cell_kind: ck,
            type_info: infer_s(ck, Some(te), Presence::MaybeUnset),
            decl_scope: DeclScope::Local,
            decl_span: span,
            decl_node: fid,
            type_annotation: Some(te),
        };
        let t2 = define_s(t, fs, sym);
        lemma_params_table_frame(ps, j + 1, fs, span, fid, t2);
        lemma_table_frame_compose(t, t2, params_table_s(ps, j + 1, fs, span, fid, t2), fs as int, fs as int);
    }
}

proof fn lemma_fn_annotations_frame(anns: Seq<AnnotationV>, i: int, fs: nat, fid: NodeId, t: TableV)
    requires
        fs < t.scopes.len(),
    ensures
        table_frame(t, fn_annotations_s(anns, i, fs, fid, t), fs as int),
    decreases anns.len() - i,
{
    if 0 <= i < anns.len() {
        let span = anns[i].span;
        let t2 = match anns[i].directive {
            DirectiveV::Sig { params, .. } => params_table_s(params, 0, fs, span, fid, t),
            DirectiveV::Bind { name, variadic, .. } => if resolve_s(t.scopes, fs as int, name) is None {
                let ck = if variadic {
                    CellKind::IndexedArray
                } else {
                    CellKind::Scalar
                };
                define_s(
                    t,
                    fs,
                    SymbolV {
                        name,
                        cell_kind: ck,
                        type_info: infer_s(ck, None, Presence::MaybeUnset),
                        decl_scope: DeclScope::Local,
                        decl_span: span,
                        decl_node: fid,
                        type_annotation: None,
                    },
                )
            } else {
                t
            },
            DirectiveV::Type { name, type_expr } => annotate_s(t, fs, name, type_expr),
            _ => t,
        };
        if let DirectiveV::Sig { params, .. } = anns[i].directive {
            lemma_params_table_frame(params, 0, fs, span, fid, t);
        }
        lemma_fn_annotations_frame(anns, i + 1, fs, fid, t2);
        lemma_table_frame_compose(t, t2, fn_annotations_s(anns, i + 1, fs, fid, t2), fs as int, fs as int);
    }
}

/// An assignment defines its name in the scope it stands in, with the cell
/// kind, presence and declaration it gives, and binds its node to that
/// scope; no other scope changes.
pub proof fn lemma_assignment_defines(st: StatementV, scope: nat, t: TableV)
    requires
        st is Assignment,
        scope < t.scopes.len(),
    ensures
        stmt_table_s(st, scope, t).scopes.len() == t.scopes.len(),
        forall|x: int| 0 <= x < t.scopes.len() && x != scope ==> #[trigger] stmt_table_s(st, scope, t).scopes[x] == t.scopes[x],
        stmt_table_s(st, scope, t).scopes[scope as int].symbols == t.scopes[scope as int].symbols.insert(
            st->Assignment_name,
            SymbolV {
                name: st->Assignment_name,
                cell_kind: assign_cell_kind_s(st->Assignment_flags, st->Assignment_array_value is Some),
                type_info: infer_s(
                    assign_cell_kind_s(st->Assignment_flags, st->Assignment_array_value is Some),
                    None,
                    if st->Assignment_value is Some || st->Assignment_array_value is Some {
                        Presence::IsSet
                    } else {
                        Presence::Unset
                    },
                ),
                decl_scope: decl_scope_s(st->Assignment_decl_kind),
                decl_span: st->Assignment_span,
                decl_node: st->Assignment_id,
                type_annotation: None,
            },
        ),
        stmt_table_s(st, scope, t).nodes == t.nodes.insert(st->Assignment_id.0, ScopeId(scope as u32)),
{
}

/// A function adds one scope, after all others, of kind `Function` under
/// `parent`; its annotations and body change no scope that was there before.
pub proof fn lemma_function_adds_scope(f: FunctionV, parent: nat, t: TableV)
    requires
        parent < t.scopes.len(),
    ensures
        function_table_s(f, parent, t).scopes.len() > t.scopes.len(),
        function_table_s(f, parent, t).scopes[t.scopes.len() as int].id == ScopeId(t.scopes.len() as u32),
        function_table_s(f, parent, t).scopes[t.scopes.len() as int].parent == Some(ScopeId(parent as u32)),
        function_table_s(f, parent, t).scopes[t.scopes.len() as int].kind == ScopeKind::Function,
        forall|x: int| 0 <= x < t.scopes.len() ==> #[trigger] function_table_s(f, parent, t).scopes[x] == t.scopes[x],
{
    let (t1, fs) = push_scope_s(t, parent, ScopeKind::Function);
    let t2 = bind_s(t1, f.id, fs);
    lemma_fn_annotations_frame(f.annotations, 0, fs, f.id, t2);
    let t3 = fn_annotations_s(f.annotations, 0, fs, f.id, t2);
    lemma_stmts_table_frame(f.body, 0, fs, t3);
    lemma_table_frame_compose(t2, t3, stmts_table_s(f.body, 0, fs, t3), fs as int, fs as int);
    let t4 = stmts_table_s(f.body, 0, fs, t3);
    assert forall|x: int| 0 <= x < t.scopes.len() implies #[trigger] t4.scopes[x] == t.scopes[x] by {
        assert(t2.scopes[x] == t.scopes[x]);
    }
}

/// A name defined in a scope denotes that definition there.
pub proof fn lemma_define_then_resolve(t: TableV, s: nat, sym: SymbolV)
    requires
        scopes_wf(t.scopes),
        s < t.scopes.len(),
    ensures
        resolve_s(define_s(t, s, sym).scopes, s as int, sym.name) == Some(sym),
{
}

/// Defining a name in scope `s` changes what names denote only within `s`
/// and the scopes it encloses, and only for that name.
pub proof fn lemma_define_frame(t: TableV, s: nat, sym: SymbolV, s2: int, n: Seq<char>)
    requires
        scopes_wf(t.scopes),
        s < t.scopes.len(),
        n != sym.name || !encloses(t.scopes, s as int, s2),
    ensures
        resolve_s(define_s(t, s, sym).scopes, s2, n) == resolve_s(t.scopes, s2, n),
    decreases s2,
{
    let t2 = define_s(t, s, sym);
    if 0 <= s2 < t.scopes.len() {
        assert(t2.scopes[s2].parent == t.scopes[s2].parent);
        if s2 == s as int {
            assert(t2.scopes[s2].symbols == t.scopes[s2].symbols.insert(sym.name, sym));
        } else {
            assert(t2.scopes[s2] == t.scopes[s2]);
        }
        if !t.scopes[s2].symbols.contains_key(n) {
            match t.scopes[s2].parent {
                Some(p) => {
                    if (p.0 as int) < s2 {
                        lemma_define_frame(t, s, sym, p.0 as int, n);
                    }
                },
                None => {},
            }
        }
    }
}

/// A new scope holds nothing: a name denotes there what it denotes in the
/// parent, and the other scopes are unchanged.
pub proof fn lemma_push_scope_resolve(t: TableV, parent: nat, kind: ScopeKind, s2: int, n: Seq<char>)
    requires
        scopes_wf(t.scopes),
        parent < t.scopes.len(),
        t.scopes.len() < u32::MAX,
    ensures
        scopes_wf(push_scope_s(t, parent, kind).0.scopes),
        resolve_s(push_scope_s(t, parent, kind).0.scopes, push_scope_s(t, parent, kind).1 as int, n) == resolve_s(
            t.scopes,
            parent as int,
            n,
        ),
        0 <= s2 < t.scopes.len() ==> resolve_s(push_scope_s(t, parent, kind).0.scopes, s2, n) == resolve_s(
            t.scopes,
            s2,
            n,
        ),
    decreases s2,
{
    let (t2, c) = push_scope_s(t, parent, kind);
    assert(t2.scopes[c as int].symbols == Map::<Seq<char>, SymbolV>::empty());
    lemma_push_old_scopes(t, parent, kind, parent as int, n);
    if 0 <= s2 < t.scopes.len() {
        lemma_push_old_scopes(t, parent, kind, s2, n);
    }
}

proof fn lemma_push_old_scopes(t: TableV, parent: nat, kind: ScopeKind, s2: int, n: Seq<char>)
    requires
        scopes_wf(t.scopes),
        parent < t.scopes.len(),
        0 <= s2 < t.scopes.len(),
    ensures
        resolve_s(push_scope_s(t, parent, kind).0.scopes, s2, n) == resolve_s(t.scopes, s2, n),
    decreases s2,
{
    let t2 = push_scope_s(t, parent, kind).0;
    assert(t2.scopes[s2] == t.scopes[s2]);
    if !t.scopes[s2].symbols.contains_key(n) {
        match t.scopes[s2].parent {
            Some(p) => {
                if (p.0 as int) < s2 {
                    lemma_push_old_scopes(t, parent, kind, p.0 as int, n);
                }
            },
            None => {},
        }
    }
}

/// What a name denotes is defined in an enclosing scope under that name.
pub proof fn lemma_resolve_found(scopes: Seq<ScopeV>, s: int, n: Seq<char>)
    requires
        scopes_wf(scopes),
        resolve_s(scopes, s, n) is Some,
    ensures
        exists|a: int| encloses(scopes, a, s) && scopes[a].symbols.contains_key(n) && resolve_s(scopes, s, n) == Some(
            scopes[a].symbols[n],
        ),
    decreases s,
{
    if scopes[s].symbols.contains_key(n) {
        assert(encloses(scopes, s, s));
    } else {
        let p = scopes[s].parent->0;
        lemma_resolve_found(scopes, p.0 as int, n);
        let a = choose|a: int| encloses(scopes, a, p.0 as int) && scopes[a].symbols.contains_key(n) && resolve_s(
            scopes,
            p.0 as int,
            n,
        ) == Some(scopes[a].symbols[n]);
        assert(encloses(scopes, a, s));
    }
}


// ---------------------------------------------------------------------------
// How many scopes a source unit needs
// ---------------------------------------------------------------------------

pub open spec fn cap_s(n: nat) -> nat {
    if n < 0x1_0000_0000 {
        n
    } else {
        0x1_0000_0000
    }
}

fn sat_add(a: u64, b: u64) -> (r: u64)
    requires
        a <= 0x1_0000_0000,
        b <= 0x1_0000_0000,
    ensures
        r == cap_s((a + b) as nat),
{
    if a + b < 0x1_0000_0000 {
        a + b
    } else {
        0x1_0000_0000
    }
}

fn count_stmts_scopes(stmts: &Vec<Statement>) -> (r: u64)
    ensures
        r == cap_s(stmts_scopes(stmts_v(stmts@), 0)),
    decreases stmts, 2int,
{
    let ghost ss = stmts_v(stmts@);
    let mut acc: u64 = 0;
    let mut i: usize = 0;
    while i < stmts.len()
        invariant
            i <= stmts@.len(),
            ss == stmts_v(stmts@),
            acc <= 0x1_0000_0000,
            cap_s((acc + stmts_scopes(ss, i as int)) as nat) == cap_s(stmts_scopes(ss, 0)),
        decreases stmts.len() - i,
    {
        proof {
            assert(decreases_to!(*stmts => stmts@));
            assert(decreases_to!(stmts@ => stmts@[i as int]));
            assert(ss[i as int] == stmt_v(stmts@[i as int]));
        }
        let c = count_stmt_scopes(&stmts[i]);
        acc = sat_add(acc, c);
        i = i + 1;
    }
    acc
}

fn count_stmt_scopes(stmt: &Statement) -> (r: u64)
    ensures
        r == cap_s(stmt_scopes(stmt_v(*stmt))),
    decreases stmt, 1int,
{
    match stmt {
        Statement::Pipeline(p) => {
            proof {
                assert(decreases_to!(*stmt => stmt->Pipeline_0));
            }
            count_stmts_scopes(&p.commands)
        },
        Statement::If(x) => {
            proof {
                assert(decreases_to!(*stmt => stmt->If_0));
            }
            let a = count_stmts_scopes(&x.condition);
            let b = count_stmts_scopes(&x.then_body);
            let c = match &x.else_body {
                Some(e) => {
                    proof {
                        assert(decreases_to!(x.else_body => x.else_body->Some_0));
                    }
                    count_stmts_scopes(e)
                },
                None => 0,
            };
            sat_add(sat_add(a, b), c)
        },
        Statement::For(x) => {
            proof {
                assert(decreases_to!(*stmt => stmt->For_0));
            }
            count_stmts_scopes(&x.body)
        },
        Statement::While(x) => {
            proof {
                assert(decreases_to!(*stmt => stmt->While_0));
            }
            let a = count_stmts_scopes(&x.condition);
            let b = count_stmts_scopes(&x.body);
            sat_add(a, b)
        },
        Statement::Case(x) => {
            let ghost av = arms_v(x.arms@);
            let mut acc: u64 = 0;
            let mut i: usize = 0;
            while i < x.arms.len()
                invariant
                    i <= x.arms@.len(),
                    *stmt == Statement::Case(*x),
                    av == arms_v(x.arms@),
                    acc <= 0x1_0000_0000,
                    cap_s((acc + arms_scopes(av, i as int)) as nat) == cap_s(arms_scopes(av, 0)),
                decreases x.arms.len() - i,
            {
                proof {
                    assert(decreases_to!(*stmt => stmt->Case_0));
                    assert(decreases_to!(stmt->Case_0 => x.arms));
                    assert(decreases_to!(x.arms => x.arms@));
                    assert(decreases_to!(x.arms@ => x.arms@[i as int]));
                    assert(decreases_to!(x.arms@[i as int] => x.arms@[i as int].body));
                    assert(av[i as int] == arm_v(x.arms@[i as int]));
                }
                let c = count_stmts_scopes(&x.arms[i].body);
                acc = sat_add(acc, c);
                i = i + 1;
            }
            acc
        },
        Statement::List(x) => {
            let ghost es = elements_v(x.elements@);
            let mut acc: u64 = 0;
            let mut i: usize = 0;
            while i < x.elements.len()
                invariant
                    i <= x.elements@.len(),
                    *stmt == Statement::List(*x),
                    es == elements_v(x.elements@),
                    acc <= 0x1_0000_0000,
                    cap_s((acc + elements_scopes(es, i as int)) as nat) == cap_s(elements_scopes(es, 0)),
                decreases x.elements.len() - i,
            {
                proof {
                    assert(decreases_to!(*stmt => stmt->List_0));
                    assert(decreases_to!(stmt->List_0 => x.elements));
                    assert(decreases_to!(x.elements => x.elements@));
                    assert(decreases_to!(x.elements@ => x.elements@[i as int]));
                    assert(decreases_to!(x.elements@[i as int] => x.elements@[i as int].statement));
                    assert(es[i as int].statement == stmt_v(x.elements@[i as int].statement));
                }
                let c = count_stmt_scopes(&x.elements[i].statement);
                acc = sat_add(acc, c);
                i = i + 1;
            }
            acc
        },
        Statement::Block(x) => {
            proof {
                assert(decreases_to!(*stmt => stmt->Block_0));
            }
            let b = count_stmts_scopes(&x.body);
            if x.subshell {
                sat_add(1, b)
            } else {
                b
            }
        },
        _ => 0,
    }
}

/// Whether the scopes of a source unit can be numbered by `u32` ids, as
/// `build_symbol_table` requires.
pub fn symbol_table_fits(source_unit: &SourceUnit) -> (b: bool)
    ensures
        b == (1 + items_scopes(items_v(source_unit.items@), 0) <= u32::MAX),
{
    let items = &source_unit.items;
    let ghost iv = items_v(items@);
    let mut acc: u64 = 0;
    let mut i: usize = 0;
    while i < items.len()
        invariant
            i <= items@.len(),
            iv == items_v(items@),
            acc <= 0x1_0000_0000,
            cap_s((acc + items_scopes(iv, i as int)) as nat) == cap_s(items_scopes(iv, 0)),
        decreases items.len() - i,
    {
        assert(iv[i as int] == item_v(items@[i as int]));
        let c = match &items[i] {
            Item::Function(f) => sat_add(1, count_stmts_scopes(&f.body)),
            Item::Statement(st) => count_stmt_scopes(st),
        };
        acc = sat_add(acc, c);
        i = i + 1;
    }
    acc < 0xffff_ffff
}


/// One item's effect on the table.
pub open spec fn item_step_s(it: ItemV, t: TableV) -> TableV {
    match it {
        ItemV::Function(f) => function_table_s(f, 0, t),
        ItemV::Statement(st) => stmt_table_s(st, 0, t),
    }
}

proof fn lemma_items_push(p: Seq<ItemV>, x: ItemV, i: int, t: TableV)
    requires
        0 <= i <= p.len(),
    ensures
        items_table_s(p.push(x), i, t) == item_step_s(x, items_table_s(p, i, t)),
    decreases p.len() - i,
{
    let q = p.push(x);
    if i < p.len() {
        assert(q[i] == p[i]);
        let t2 = match p[i] {
            ItemV::Function(f) => function_table_s(f, 0, t),
            ItemV::Statement(st) => stmt_table_s(st, 0, t),
        };
        lemma_items_push(p, x, i + 1, t2);
    } else {
        assert(q[i] == x);
        let t2 = item_step_s(x, t);
        assert(items_table_s(q, i + 1, t2) == t2);
    }
}

/// Where the last top-level item assigns a name and the last top-level
/// `#@type` annotation of that name gives it type `te`, the root symbol of
/// that name is the assignment's: its cell kind and presence, with type
/// annotation `te` and the type information that they give together.
pub proof fn lemma_type_annotation_on_assignment(
    prefix: Seq<ItemV>,
    a: StatementV,
    anns: Seq<AnnotationV>,
    i: int,
    te: TypeExprV,
)
    requires
        a is Assignment,
        0 <= i < anns.len(),
        anns[i].directive == (DirectiveV::Type { name: a->Assignment_name, type_expr: te }),
        forall|m: int| i < m < anns.len() ==> !types_name(#[trigger] anns[m], a->Assignment_name),
    ensures
        ({
            let ck = assign_cell_kind_s(a->Assignment_flags, a->Assignment_array_value is Some);
            let presence = if a->Assignment_value is Some || a->Assignment_array_value is Some {
                Presence::IsSet
            } else {
                Presence::Unset
            };
            symbol_table_s(prefix.push(ItemV::Statement(a)), anns).scopes[0].symbols[a->Assignment_name] == SymbolV {
                name: a->Assignment_name,
                cell_kind: ck,
                type_info: infer_s(ck, Some(te), presence),
                decl_scope: decl_scope_s(a->Assignment_decl_kind),
                decl_span: a->Assignment_span,
                decl_node: a->Assignment_id,
                type_annotation: Some(te),
            }
        }),
{
    let items = prefix.push(ItemV::Statement(a));
    let t0 = new_table_s();
    assert(table_consistent(t0));
    lemma_items_consistent(prefix, 0, t0);
    let tp = items_table_s(prefix, 0, t0);
    lemma_items_push(prefix, ItemV::Statement(a), 0, t0);
    lemma_assignment_defines(a, 0, tp);
    let name = a->Assignment_name;
    assert(items_table_s(items, 0, t0).scopes[0].symbols.contains_key(name));
    lemma_top_type_annotation(items, anns, i, name, te);
}

} // verus!
