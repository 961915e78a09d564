//! The use-tree analyzer: which names a unit imports from each other unit.

use crate::text::{holds_name, same_text, texts};
use vstd::prelude::*;

verus! {

/// The shape of one `use` declaration.
#[derive(Debug, PartialEq, Eq)]
pub enum UseTree {
    /// A segment and what follows it.
    Path(String, Box<UseTree>),
    /// A name that ends a path.
    Name(String),
    /// A name that ends a path, and the alias given to it.
    Rename(String, String),
    /// `*`.
    Glob,
    /// A braced list of trees.
    Group(Vec<UseTree>),
}

/// A use tree as specifications see it.
pub enum UseShape {
    Path(Seq<char>, Box<UseShape>),
    Name(Seq<char>),
    Rename(Seq<char>, Seq<char>),
    Glob,
    Group(Seq<UseShape>),
}

/// The shapes of a run of trees.
pub open spec fn shapes(trees: Seq<UseTree>) -> Seq<UseShape> {
    Seq::new(trees.len(), |i: int| trees[i].shape())
}

impl UseTree {
    /// The tree as specifications see it.
    pub open spec fn shape(&self) -> UseShape
        decreases self,
    {
        match self {
            UseTree::Path(name, rest) => UseShape::Path(name@, Box::new((**rest).shape())),
            UseTree::Name(name) => UseShape::Name(name@),
            UseTree::Rename(name, alias) => UseShape::Rename(name@, alias@),
            UseTree::Glob => UseShape::Glob,
            UseTree::Group(items) => UseShape::Group(
                Seq::new(
                    items@.len(),
                    |i: int|
                        if 0 <= i < items@.len() {
                            items@[i].shape()
                        } else {
                            UseShape::Glob
                        },
                ),
            ),
        }
    }

    /// A copy of the tree.
    pub fn duplicate(&self) -> (r: UseTree)
        ensures
            r@ == self@,
        decreases self,
    {
        match self {
            UseTree::Path(name, rest) => UseTree::Path(name.clone(), Box::new(rest.duplicate())),
            UseTree::Name(name) => UseTree::Name(name.clone()),
            UseTree::Rename(name, alias) => UseTree::Rename(name.clone(), alias.clone()),
            UseTree::Glob => UseTree::Glob,
            UseTree::Group(items) => {
                let mut copy: Vec<UseTree> = Vec::new();
                let mut i: usize = 0;
                while i < items.len()
                    invariant
                        *self == UseTree::Group(*items),
                        i <= items.len(),
                        copy@.len() == i,
                        forall|j: int| 0 <= j < i ==> (#[trigger] copy@[j])@ == items@[j]@,
                    decreases items.len() - i,
                {
                    assert(decreases_to!(*self => self->Group_0));
                    assert(decreases_to!(*items => items[i as int]));
                    copy.push(items[i].duplicate());
                    i += 1;
                }
                let r = UseTree::Group(copy);
                assert(r@->Group_0 =~= self@->Group_0);
                r
            },
        }
    }
}

impl View for UseTree {
    type V = UseShape;

    open spec fn view(&self) -> UseShape {
        self.shape()
    }
}

/// The trees that `shape` stands for once its groups are taken apart, in
/// their order. None of them is a group.
pub open spec fn leaves(shape: UseShape) -> Seq<UseShape>
    decreases shape, 0nat,
{
    match shape {
        UseShape::Group(items) => leaves_upto(items, items.len()),
        _ => seq![shape],
    }
}

/// The leaves of the first `n` of `items`.
pub open spec fn leaves_upto(items: Seq<UseShape>, n: nat) -> Seq<UseShape>
    decreases items, n,
{
    if n == 0 || n > items.len() {
        Seq::empty()
    } else {
        leaves_upto(items, (n - 1) as nat) + leaves(items[n - 1])
    }
}

/// Appends the leaves of `tree` to `out`.
pub fn collect_leaves(tree: &UseTree, out: &mut Vec<UseTree>)
    ensures
        shapes(final(out)@) == shapes(old(out)@) + leaves(tree@),
    decreases tree,
{
    match tree {
        UseTree::Group(items) => {
            let mut i: usize = 0;
            assert(shapes(out@) =~= shapes(old(out)@) + leaves_upto(tree@->Group_0, 0));
            while i < items.len()
                invariant
                    *tree == UseTree::Group(*items),
                    i <= items.len(),
                    shapes(out@) == shapes(old(out)@) + leaves_upto(tree@->Group_0, i as nat),
                decreases items.len() - i,
            {
                assert(decreases_to!(*tree => tree->Group_0));
                assert(decreases_to!(*items => items[i as int]));
                let ghost before = shapes(out@);
                collect_leaves(&items[i], out);
                assert(tree@->Group_0[i as int] == items@[i as int]@);
                assert(before + leaves(items@[i as int]@) =~= shapes(old(out)@) + leaves_upto(
                    tree@->Group_0,
                    (i + 1) as nat,
                ));
                i += 1;
            }
        },
        _ => {
            let copy = tree.duplicate();
            out.push(copy);
            assert(shapes(out@) =~= shapes(old(out)@) + seq![tree@]);
        },
    }
}

/// What is imported from one unit, as specifications see it: some names, or
/// everything.
pub enum NameSet {
    Scoped(Set<Seq<char>>),
    All,
}

impl NameSet {
    /// The names of both. Everything stays everything.
    pub open spec fn plus(self, other: NameSet) -> NameSet {
        match (self, other) {
            (NameSet::Scoped(l), NameSet::Scoped(r)) => NameSet::Scoped(l.union(r)),
            _ => NameSet::All,
        }
    }

    /// No name at all.
    pub open spec fn none() -> NameSet {
        NameSet::Scoped(Set::empty())
    }

    pub open spec fn one(name: Seq<char>) -> NameSet {
        NameSet::Scoped(Set::empty().insert(name))
    }
}

/// Merging is commutative.
pub proof fn lemma_plus_commutative(a: NameSet, b: NameSet)
    ensures
        a.plus(b) == b.plus(a),
{
    match (a, b) {
        (NameSet::Scoped(l), NameSet::Scoped(r)) => {
            assert(l.union(r) =~= r.union(l));
        },
        _ => {},
    }
}

/// Merging is associative.
pub proof fn lemma_plus_associative(a: NameSet, b: NameSet, c: NameSet)
    ensures
        a.plus(b).plus(c) == a.plus(b.plus(c)),
{
    match (a, b, c) {
        (NameSet::Scoped(x), NameSet::Scoped(y), NameSet::Scoped(z)) => {
            assert(x.union(y).union(z) =~= x.union(y.union(z)));
        },
        _ => {},
    }
}

/// The empty set of names is the identity of merging.
pub proof fn lemma_plus_identity(a: NameSet)
    ensures
        a.plus(NameSet::none()) == a,
        NameSet::none().plus(a) == a,
{
    match a {
        NameSet::Scoped(x) => {
            assert(x.union(Set::empty()) =~= x);
            assert(Set::<Seq<char>>::empty().union(x) =~= x);
        },
        _ => {},
    }
}

/// Everything absorbs whatever it is merged with.
pub proof fn lemma_plus_absorbing(a: NameSet)
    ensures
        a.plus(NameSet::All) == NameSet::All,
        NameSet::All.plus(a) == NameSet::All,
{
}

/// What a unit imports from one other unit: some names, or everything.
pub struct ModNames {
    all: bool,
    names: Vec<String>,
}

impl View for ModNames {
    type V = NameSet;

    closed spec fn view(&self) -> NameSet {
        if self.all {
            NameSet::All
        } else {
            NameSet::Scoped(texts(self.names@).to_set())
        }
    }
}

impl ModNames {
    #[verifier::type_invariant]
    spec fn distinct(self) -> bool {
        texts(self.names@).no_duplicates()
    }

    /// Everything.
    pub fn all() -> (r: ModNames)
        ensures
            r@ == NameSet::All,
    {
        ModNames { all: true, names: Vec::new() }
    }

    /// The one name `name`.
    pub fn single(name: String) -> (r: ModNames)
        ensures
            r@ == NameSet::one(name@),
    {
        let mut names: Vec<String> = Vec::new();
        names.push(name);
        assert(texts(names@).to_set() =~= Set::empty().insert(name@)) by {
            assert(texts(names@)[0] == name@);
        }
        ModNames { all: false, names }
    }

    /// Whether everything is imported.
    pub fn is_all(&self) -> (r: bool)
        ensures
            r == (self@ == NameSet::All),
    {
        self.all
    }

    /// Whether `name` is imported.
    pub fn covers(&self, name: &str) -> (r: bool)
        ensures
            r == match self@ {
                NameSet::All => true,
                NameSet::Scoped(s) => s.contains(name@),
            },
    {
        self.all || holds_name(&self.names, name)
    }

    /// How many names are listed; none where everything is imported.
    pub fn count(&self) -> (n: usize)
        ensures
            match self@ {
                NameSet::All => n == 0,
                NameSet::Scoped(s) => s.finite() && n == s.len(),
            },
    {
        proof {
            use_type_invariant(self);
            texts(self.names@).unique_seq_to_set();
        }
        if self.all {
            0
        } else {
            self.names.len()
        }
    }

    /// The names of both; everything, if either is everything.
    pub fn add(self, rhs: ModNames) -> (r: ModNames)
        ensures
            r@ == self@.plus(rhs@),
    {
        proof {
            use_type_invariant(&self);
        }
        if self.all || rhs.all {
            return ModNames::all();
        }
        let ghost left = texts(self.names@).to_set();
        let ghost right = texts(rhs.names@);
        let mut names = self.names;
        let mut i: usize = 0;
        assert(left.union(right.take(0).to_set()) =~= left);
        while i < rhs.names.len()
            invariant
                i <= rhs.names.len(),
                right == texts(rhs.names@),
                texts(names@).no_duplicates(),
                texts(names@).to_set() == left.union(right.take(i as int).to_set()),
            decreases rhs.names.len() - i,
        {
            let ghost before = texts(names@);
            assert(right[i as int] == rhs.names@[i as int]@);
            if !holds_name(&names, rhs.names[i].as_str()) {
                names.push(rhs.names[i].clone());
                assert(texts(names@) =~= before.push(right[i as int]));
            }
            proof {
                let item = right[i as int];
                assert(right.take(i + 1) =~= right.take(i as int).push(item));
                right.take(i as int).lemma_push_to_set_commute(item);
                before.lemma_push_to_set_commute(item);
                if before.contains(item) {
                    assert(before.to_set().insert(item) =~= before.to_set());
                }
                assert(texts(names@).to_set() =~= left.union(right.take(i + 1).to_set()));
            }
            i += 1;
        }
        assert(right.take(i as int) =~= right);
        ModNames { all: false, names }
    }

    /// Merges `rhs` into `self`.
    pub fn add_assign(&mut self, rhs: ModNames)
        ensures
            final(self)@ == old(self)@.plus(rhs@),
    {
        let mut taken = ModNames::default();
        core::mem::swap(self, &mut taken);
        let mut sum = taken.add(rhs);
        proof {
            lemma_plus_identity(old(self)@);
        }
        core::mem::swap(self, &mut sum);
    }

    /// What the tree behind a unit's name imports from that unit: the first
    /// segment of each path, every name where a `*` stands.
    pub fn from_nested(tree: &UseTree) -> (r: ModNames)
        ensures
            r@ == nested_names(tree@),
        decreases tree,
    {
        match tree {
            UseTree::Path(name, _) => ModNames::single(name.clone()),
            UseTree::Name(name) => ModNames::single(name.clone()),
            UseTree::Rename(name, _) => ModNames::single(name.clone()),
            UseTree::Glob => ModNames::all(),
            UseTree::Group(items) => {
                let mut sum = ModNames::default();
                let mut i: usize = 0;
                while i < items.len()
                    invariant
                        *tree == UseTree::Group(*items),
                        i <= items.len(),
                        sum@ == nested_names_upto(tree@->Group_0, i as nat),
                    decreases items.len() - i,
                {
                    assert(decreases_to!(*tree => tree->Group_0));
                    assert(decreases_to!(*items => items[i as int]));
                    assert(tree@->Group_0[i as int] == items@[i as int]@);
                    let next = ModNames::from_nested(&items[i]);
                    sum = sum.add(next);
                    i += 1;
                }
                sum
            },
        }
    }
}

impl Default for ModNames {
    /// No name at all.
    fn default() -> (r: ModNames)
        ensures
            r@ == NameSet::none(),
    {
        let r = ModNames { all: false, names: Vec::new() };
        assert(texts(r.names@).to_set() =~= Set::empty());
        r
    }
}

/// What a tree at the second level of a path imports.
pub open spec fn nested_names(shape: UseShape) -> NameSet
    decreases shape, 0nat,
{
    match shape {
        UseShape::Path(name, _) => NameSet::one(name),
        UseShape::Name(name) => NameSet::one(name),
        UseShape::Rename(name, _) => NameSet::one(name),
        UseShape::Glob => NameSet::All,
        UseShape::Group(items) => nested_names_upto(items, items.len()),
    }
}

/// What the first `n` of `items` import together.
pub open spec fn nested_names_upto(items: Seq<UseShape>, n: nat) -> NameSet
    decreases items, n,
{
    if n == 0 || n > items.len() {
        NameSet::none()
    } else {
        nested_names_upto(items, (n - 1) as nat).plus(nested_names(items[n - 1]))
    }
}

/// One `use` declaration: whether its path begins with `::`, and its tree.
#[derive(Debug, PartialEq, Eq)]
pub struct UseDecl {
    pub leading_colon: bool,
    pub tree: UseTree,
}

/// A `use` declaration as specifications see it.
pub struct UseDeclView {
    pub leading_colon: bool,
    pub tree: UseShape,
}

impl View for UseDecl {
    type V = UseDeclView;

    open spec fn view(&self) -> UseDeclView {
        UseDeclView { leading_colon: self.leading_colon, tree: self.tree@ }
    }
}

/// The views of a run of declarations.
pub open spec fn decl_views(uses: Seq<UseDecl>) -> Seq<UseDeclView> {
    Seq::new(uses.len(), |i: int| uses[i]@)
}

/// The leaves of those among the first `n` declarations whose path begins
/// with `::`, in their order.
pub open spec fn global_leaves(uses: Seq<UseDeclView>, n: nat) -> Seq<UseShape>
    decreases n,
{
    if n == 0 || n > uses.len() {
        Seq::empty()
    } else if uses[n - 1].leading_colon {
        global_leaves(uses, (n - 1) as nat) + leaves(uses[n - 1].tree)
    } else {
        global_leaves(uses, (n - 1) as nat)
    }
}

/// The leaves of the declarations whose path begins with `::`.
pub fn global_use_leaves(uses: &Vec<UseDecl>) -> (out: Vec<UseTree>)
    ensures
        shapes(out@) == global_leaves(decl_views(uses@), uses@.len()),
{
    let mut out: Vec<UseTree> = Vec::new();
    let mut i: usize = 0;
    assert(shapes(out@) =~= global_leaves(decl_views(uses@), 0));
    while i < uses.len()
        invariant
            i <= uses.len(),
            shapes(out@) == global_leaves(decl_views(uses@), i as nat),
        decreases uses.len() - i,
    {
        assert(decl_views(uses@)[i as int] == uses@[i as int]@);
        if uses[i].leading_colon {
            collect_leaves(&uses[i].tree, &mut out);
        }
        i += 1;
    }
    out
}

/// What is imported from the unit named `unit`.
pub struct UnitNames {
    pub unit: String,
    pub names: ModNames,
}

/// One line of the table of imports: a unit's name and what is imported
/// from it.
pub struct UnitNamesView {
    pub unit: Seq<char>,
    pub names: NameSet,
}

impl View for UnitNames {
    type V = UnitNamesView;

    open spec fn view(&self) -> UnitNamesView {
        UnitNamesView { unit: self.unit@, names: self.names@ }
    }
}

/// The views of a table's lines.
pub open spec fn table_views(table: Seq<UnitNames>) -> Seq<UnitNamesView> {
    Seq::new(table.len(), |i: int| table[i]@)
}

/// The index of the first line for `unit`, or the length of the table if it
/// has none.
pub open spec fn line_of(table: Seq<UnitNamesView>, unit: Seq<char>) -> int
    decreases table.len(),
{
    if table.len() == 0 || table[0].unit == unit {
        0
    } else {
        1 + line_of(table.drop_first(), unit)
    }
}

/// `table` with `names` merged into the line of `unit`; a unit that has no
/// line yet gets one at the end.
pub open spec fn merged(table: Seq<UnitNamesView>, unit: Seq<char>, names: NameSet) -> Seq<
    UnitNamesView,
> {
    let at = line_of(table, unit);
    if 0 <= at < table.len() {
        table.update(at, UnitNamesView { unit, names: table[at].names.plus(names) })
    } else {
        table.push(UnitNamesView { unit, names: NameSet::none().plus(names) })
    }
}

/// `table` with one leaf taken note of. A path adds what stands behind its
/// first segment to that unit's line. A name standing alone, renamed or
/// not, makes its line everything. Anything else leaves the table as it is.
pub open spec fn noted(table: Seq<UnitNamesView>, leaf: UseShape) -> Seq<UnitNamesView> {
    match leaf {
        UseShape::Path(unit, rest) => merged(table, unit, nested_names(*rest)),
        UseShape::Name(unit) => merged(table, unit, NameSet::All),
        UseShape::Rename(unit, _) => merged(table, unit, NameSet::All),
        _ => table,
    }
}

/// The table after the first `n` leaves.
pub open spec fn name_table(leaves: Seq<UseShape>, n: nat) -> Seq<UnitNamesView>
    decreases n,
{
    if n == 0 || n > leaves.len() {
        Seq::empty()
    } else {
        noted(name_table(leaves, (n - 1) as nat), leaves[n - 1])
    }
}

/// Whether one of the leaves is a bare `*`.
pub open spec fn holds_glob(leaves: Seq<UseShape>) -> bool {
    exists|i: int| 0 <= i < leaves.len() && #[trigger] leaves[i] is Glob
}

proof fn lemma_line_of(table: Seq<UnitNamesView>, unit: Seq<char>, at: int)
    requires
        0 <= at <= table.len(),
        forall|i: int| 0 <= i < at ==> (#[trigger] table[i]).unit != unit,
        at < table.len() ==> table[at].unit == unit,
    ensures
        line_of(table, unit) == at,
    decreases at,
{
    if at > 0 {
        lemma_line_of(table.drop_first(), unit, at - 1);
    }
}

/// Merges `names` into the line of `unit`.
fn merge_line(table: &mut Vec<UnitNames>, unit: &String, names: ModNames)
    ensures
        table_views(final(table)@) == merged(table_views(old(table)@), unit@, names@),
{
    let ghost before = table_views(table@);
    let mut at: usize = 0;
    while at < table.len() && !same_text(table[at].unit.as_str(), unit.as_str())
        invariant
            at <= table.len(),
            before == table_views(table@),
            forall|i: int| 0 <= i < at ==> (#[trigger] before[i]).unit != unit@,
        decreases table.len() - at,
    {
        assert(before[at as int] == table@[at as int]@);
        at += 1;
    }
    proof {
        if at < table.len() {
            assert(before[at as int] == table@[at as int]@);
        }
        lemma_line_of(before, unit@, at as int);
    }
    if at < table.len() {
        let line = table.remove(at);
        let sum = line.names.add(names);
        table.insert(at, UnitNames { unit: line.unit, names: sum });
        assert(table_views(table@) =~= merged(before, unit@, names@));
    } else {
        let sum = ModNames::default().add(names);
        table.push(UnitNames { unit: unit.clone(), names: sum });
        assert(table_views(table@) =~= merged(before, unit@, names@));
    }
}

/// A `use` of everything under the root, `use ::*;`, which this analyzer
/// does not support.
#[derive(Debug)]
pub struct UnsupportedGlob;

/// The table of imports of a unit: for each other unit that a declaration
/// beginning with `::` names first, what is imported from it. The lines
/// stand in the order in which the units are first named.
pub fn extract_names(uses: &Vec<UseDecl>) -> (r: Result<Vec<UnitNames>, UnsupportedGlob>)
    ensures
        ({
            let all = global_leaves(decl_views(uses@), uses@.len());
            match r {
                Ok(table) => !holds_glob(all) && table_views(table@) == name_table(all, all.len()),
                Err(_) => holds_glob(all),
            }
        }),
{
    let flat = global_use_leaves(uses);
    let ghost all = shapes(flat@);
    let mut table: Vec<UnitNames> = Vec::new();
    let mut i: usize = 0;
    assert(table_views(table@) =~= name_table(all, 0));
    while i < flat.len()
        invariant
            i <= flat.len(),
            all == shapes(flat@),
            all == global_leaves(decl_views(uses@), uses@.len()),
            forall|j: int| 0 <= j < i ==> !(#[trigger] all[j] is Glob),
            table_views(table@) == name_table(all, i as nat),
        decreases flat.len() - i,
    {
        assert(all[i as int] == flat@[i as int]@);
        match &flat[i] {
            UseTree::Path(unit, rest) => {
                let names = ModNames::from_nested(rest);
                merge_line(&mut table, unit, names);
            },
            UseTree::Name(unit) => {
                merge_line(&mut table, unit, ModNames::all());
            },
            UseTree::Rename(unit, _) => {
                merge_line(&mut table, unit, ModNames::all());
            },
            UseTree::Glob => {
                assert(all[i as int] is Glob);
                return Err(UnsupportedGlob);
            },
            UseTree::Group(_) => {},
        }
        i += 1;
    }
    Ok(table)
}

/// The declarations that take the place of the ones beginning with `::`
/// once the units they name are nested under the root: one for each leaf,
/// with `crate` put before it.
pub fn shift_use_statements(uses: &Vec<UseDecl>) -> (r: Vec<UseDecl>)
    ensures
        ({
            let all = global_leaves(decl_views(uses@), uses@.len());
            &&& r@.len() == all.len()
            &&& forall|i: int|
                0 <= i < all.len() ==> (#[trigger] r@[i])@ == (UseDeclView {
                    leading_colon: false,
                    tree: UseShape::Path("crate"@, Box::new(all[i])),
                })
        }),
{
    let mut flat = global_use_leaves(uses);
    let ghost all = shapes(flat@);
    let mut r: Vec<UseDecl> = Vec::new();
    let mut i: usize = 0;
    while i < flat.len()
        invariant
            i <= flat.len(),
            all == shapes(flat@),
            r@.len() == i,
            forall|j: int|
                0 <= j < i ==> (#[trigger] r@[j])@ == (UseDeclView {
                    leading_colon: false,
                    tree: UseShape::Path("crate"@, Box::new(all[j])),
                }),
        decreases flat.len() - i,
    {
        assert(all[i as int] == flat@[i as int]@);
        let leaf = flat[i].duplicate();
        let tree = UseTree::Path("crate".to_owned(), Box::new(leaf));
        r.push(UseDecl { leading_colon: false, tree });
        i += 1;
    }
    r
}

} // verus!
