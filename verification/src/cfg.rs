//! The conditional-compilation resolver: a node whose condition is known
//! to fail goes, a condition known to hold loses its attribute, and what is
//! not known stays as it is.

use crate::attr::{attr_list, attr_views, list_of, Attr, AttrView};
use crate::patcher::{patched, replace_ranges};
use crate::span::{EditSet, EditView, Extent, registered};
use crate::text::{count_char, count_of, holds_name, same_text, texts, to_chars};
use vstd::prelude::*;

verus! {

/// One atom of a condition, as far as the resolver tells atoms apart.
#[derive(Debug, PartialEq, Eq)]
pub enum Atom {
    /// `test`.
    Test,
    /// `proc_macro`.
    ProcMacro,
    /// A bare flag, such as `cargo_equip`.
    Flag(String),
    /// `feature = "name"`.
    Feature(String),
    /// Any other atom.
    Other,
}

/// An atom as specifications see it.
pub enum AtomView {
    Test,
    ProcMacro,
    Flag(Seq<char>),
    Feature(Seq<char>),
    Other,
}

impl View for Atom {
    type V = AtomView;

    open spec fn view(&self) -> AtomView {
        match self {
            Atom::Test => AtomView::Test,
            Atom::ProcMacro => AtomView::ProcMacro,
            Atom::Flag(name) => AtomView::Flag(name@),
            Atom::Feature(name) => AtomView::Feature(name@),
            Atom::Other => AtomView::Other,
        }
    }
}

/// What conditions are evaluated against: the active features, and
/// whether only the bundling flag counts. Where only it counts, every
/// other atom is false; else atoms that the resolver cannot decide are
/// unknown.
#[derive(Debug, PartialEq, Eq)]
pub struct CfgEnv {
    pub features: Vec<String>,
    pub flag_only: bool,
}

/// An environment as specifications see it.
pub struct CfgEnvView {
    pub features: Seq<Seq<char>>,
    pub flag_only: bool,
}

impl View for CfgEnv {
    type V = CfgEnvView;

    open spec fn view(&self) -> CfgEnvView {
        CfgEnvView { features: texts(self.features@), flag_only: self.flag_only }
    }
}

/// The flag that is set while units are bundled.
pub open spec fn is_bundling_flag(name: Seq<char>) -> bool {
    name == "cargo_equip"@
}

/// The value of one atom: `Some(true)`, `Some(false)`, or `None` where it
/// is not known. The bundling flag holds. Where only it counts, all else
/// fails. Otherwise `test` and `proc_macro` fail, a feature holds if it is
/// active, and any other atom is unknown.
pub open spec fn atom_value(atom: AtomView, env: CfgEnvView) -> Option<bool> {
    match atom {
        AtomView::Flag(name) => if is_bundling_flag(name) {
            Some(true)
        } else if env.flag_only {
            Some(false)
        } else {
            None
        },
        AtomView::Test => Some(false),
        AtomView::ProcMacro => Some(false),
        AtomView::Feature(name) => if env.flag_only {
            Some(false)
        } else {
            Some(env.features.contains(name))
        },
        AtomView::Other => if env.flag_only {
            Some(false)
        } else {
            None
        },
    }
}

/// The value of `atom` in `env`.
pub fn atom_truth(atom: &Atom, env: &CfgEnv) -> (r: Option<bool>)
    ensures
        r == atom_value(atom@, env@),
{
    match atom {
        Atom::Flag(name) => {
            if same_text(name.as_str(), "cargo_equip") {
                Some(true)
            } else if env.flag_only {
                Some(false)
            } else {
                None
            }
        },
        Atom::Test => Some(false),
        Atom::ProcMacro => Some(false),
        Atom::Feature(name) => {
            if env.flag_only {
                Some(false)
            } else {
                Some(holds_name(&env.features, name.as_str()))
            }
        },
        Atom::Other => {
            if env.flag_only {
                Some(false)
            } else {
                None
            }
        },
    }
}

/// `cfg_expr::Predicate`: one predicate of a parsed condition, opaque
/// here.
#[verifier::external_type_specification]
#[verifier::external_body]
pub struct ExPredicate<'a>(cfg_expr::Predicate<'a>);

/// A `cfg_expr::Predicate` as an atom of this library, variant for
/// variant; the variants that the resolver does not tell apart become
/// `Other`.
#[verifier::external_body]
fn atom_of(pred: &cfg_expr::Predicate<'_>) -> Atom {
    match pred {
        cfg_expr::Predicate::Test => Atom::Test,
        cfg_expr::Predicate::ProcMacro => Atom::ProcMacro,
        cfg_expr::Predicate::Flag(name) => Atom::Flag(name.to_string()),
        cfg_expr::Predicate::Feature(name) => Atom::Feature(name.to_string()),
        cfg_expr::Predicate::Target(_) => Atom::Other,
        cfg_expr::Predicate::DebugAssertions => Atom::Other,
        cfg_expr::Predicate::TargetFeature(_) => Atom::Other,
        cfg_expr::Predicate::KeyValue { .. } => Atom::Other,
    }
}

/// The value that the resolver gives to one predicate of a condition: the
/// value of the atom that the predicate is. Which atom that is, `cfg_expr`
/// decides; whichever it is, the result is its value in `env`, so that
/// nothing is unknown where only the bundling flag counts.
fn predicate_truth(pred: &cfg_expr::Predicate<'_>, env: &CfgEnv) -> (r: Option<bool>)
    ensures
        exists|atom: AtomView| r == #[trigger] atom_value(atom, env@),
{
    let atom = atom_of(pred);
    let r = atom_truth(&atom, env);
    assert(r == atom_value(atom@, env@));
    r
}

/// The value that `cfg_expr` gives to the condition `text` where each of
/// its predicates has the value that [`atom_value`] gives it in `env`:
/// nothing where `cfg_expr::Expression::parse` refuses `text`; else
/// `Some(true)`, `Some(false)`, or `None` for unknown, as `all`, `any` and
/// `not` combine them in `cfg_expr`'s logic of `Option<bool>`.
pub uninterp spec fn cfg_value(text: Seq<char>, env: CfgEnvView) -> Option<Option<bool>>;

/// Whether a text is short enough to be handed to the parser of
/// conditions: it holds at most 255 opening parentheses.
pub open spec fn is_parsable_size(text: Seq<char>) -> bool {
    count_of(text, '(') <= 255
}

/// `cfg_expr::Expression::parse`, then `eval` on the expression it gives,
/// in the three-valued logic of `Option<bool>`, with each predicate valued
/// as the resolver values it. Nothing where `parse` refuses the text.
/// `parse` counts the functions that stand directly inside one `all`,
/// `any` or `not` in eight bits, and each but the last of them brings an
/// opening parenthesis; a text with more than 255 of those is kept out.
#[verifier::external_body]
fn eval_condition(text: &str, env: &CfgEnv) -> (r: Option<Option<bool>>)
    requires
        is_parsable_size(text@),
    ensures
        r == cfg_value(text@, env@),
{
    match cfg_expr::Expression::parse(text) {
        Ok(expr) => Some(expr.eval(|pred| predicate_truth(pred, env))),
        Err(_) => None,
    }
}

/// What is known of the condition `text` in `env`: nothing where `text`
/// holds more than 255 opening parentheses or is no condition; else its
/// value.
pub open spec fn condition_verdict(text: Seq<char>, env: CfgEnvView) -> Option<Option<bool>> {
    if is_parsable_size(text) {
        cfg_value(text, env)
    } else {
        None
    }
}

/// The value of the condition `text` in `env`; nothing for a text with
/// more than 255 opening parentheses, which is not handed to the parser.
pub fn condition_value(text: &str, env: &CfgEnv) -> (r: Option<Option<bool>>)
    ensures
        r == condition_verdict(text@, env@),
{
    let chars = to_chars(text);
    if count_char(&chars, '(') <= 255 {
        eval_condition(text, env)
    } else {
        None
    }
}

/// A piece of syntax that can carry attributes: where it stands, its
/// attributes, and the pieces of that kind inside it.
#[derive(Debug, PartialEq, Eq)]
pub struct CfgNode {
    pub span: Extent,
    pub attrs: Vec<Attr>,
    pub children: Vec<CfgNode>,
}

/// A node as specifications see it.
pub struct CfgNodeView {
    pub span: Extent,
    pub attrs: Seq<AttrView>,
    pub children: Seq<CfgNodeView>,
}

impl CfgNode {
    /// The node as specifications see it.
    pub open spec fn shape(&self) -> CfgNodeView
        decreases self,
    {
        CfgNodeView {
            span: self.span,
            attrs: attr_views(self.attrs@),
            children: Seq::new(
                self.children@.len(),
                |i: int|
                    if 0 <= i < self.children@.len() {
                        self.children@[i].shape()
                    } else {
                        CfgNodeView { span: self.span, attrs: Seq::empty(), children: Seq::empty() }
                    },
            ),
        }
    }
}

impl View for CfgNode {
    type V = CfgNodeView;

    open spec fn view(&self) -> CfgNodeView {
        self.shape()
    }
}

/// The views of a run of nodes.
pub open spec fn node_views(nodes: Seq<CfgNode>) -> Seq<CfgNodeView> {
    Seq::new(nodes.len(), |i: int| nodes[i].shape())
}

proof fn lemma_child_views(node: CfgNode)
    ensures
        node@.children == node_views(node.children@),
{
    assert(node@.children =~= node_views(node.children@));
}

/// What is known of the condition of `attr`: nothing where it is not of
/// the shape `#[cfg(..)]`, or where what it holds is no condition.
pub open spec fn verdict(attr: AttrView, env: CfgEnvView) -> Option<Option<bool>> {
    match list_of(attr, "cfg"@) {
        Some(text) => condition_verdict(text, env),
        None => None,
    }
}

/// An attribute once its condition is judged: where the attribute stands,
/// and what is known of its condition: nothing where it has none, else
/// `Some(true)`, `Some(false)`, or `None` for unknown.
#[derive(Clone, Copy, Debug, PartialEq, Eq, Structural)]
pub struct Judged {
    pub span: Extent,
    pub verdict: Option<Option<bool>>,
}

/// The attributes `attrs`, each judged in `env`.
pub open spec fn judged(attrs: Seq<AttrView>, env: CfgEnvView) -> Seq<Judged> {
    Seq::new(attrs.len(), |i: int| Judged { span: attrs[i].span, verdict: verdict(attrs[i], env) })
}

/// Whether one of the first `n` conditions is known to fail.
pub open spec fn fails(known: Seq<Judged>, n: nat) -> bool
    decreases n,
{
    if n == 0 || n > known.len() {
        false
    } else {
        fails(known, (n - 1) as nat) || known[n - 1].verdict == Some(Some(false))
    }
}

/// The edit that deletes what stands in `span`.
pub open spec fn deletion(span: Extent) -> EditView {
    EditView { span, text: Seq::empty() }
}

/// `acc` with a deletion for each of the first `n` attributes whose
/// condition is known to hold.
pub open spec fn stripped(known: Seq<Judged>, n: nat, acc: Seq<EditView>) -> Seq<EditView>
    decreases n,
{
    if n == 0 || n > known.len() {
        acc
    } else {
        let before = stripped(known, (n - 1) as nat, acc);
        if known[n - 1].verdict == Some(Some(true)) {
            registered(before, deletion(known[n - 1].span))
        } else {
            before
        }
    }
}

/// What becomes of a node that stands in `span` and whose attributes are
/// judged as `known`: the edits, added to `acc`, and whether the node
/// stays. Where one condition is known to fail, the node is deleted
/// whole. Otherwise it stays, and each attribute whose condition is known
/// to hold is deleted; an attribute whose condition is unknown, or that
/// has none, is left as it is.
pub open spec fn decided(span: Extent, known: Seq<Judged>, acc: Seq<EditView>) -> (
    Seq<EditView>,
    bool,
) {
    if fails(known, known.len()) {
        (registered(acc, deletion(span)), false)
    } else {
        (stripped(known, known.len(), acc), true)
    }
}

/// `acc` with the edits for `node`. A node with a condition known to fail
/// is deleted whole, and nothing inside it is looked at. Any other node
/// loses the attributes whose condition is known to hold, and the nodes
/// inside it are resolved in turn.
pub open spec fn resolved_node(node: CfgNodeView, env: CfgEnvView, acc: Seq<EditView>) -> Seq<
    EditView,
>
    decreases node, 0nat, 0nat,
{
    let (edits, stays) = decided(node.span, judged(node.attrs, env), acc);
    if stays {
        resolved(node.children, env, node.children.len(), edits)
    } else {
        edits
    }
}

/// `acc` with the edits for the first `n` of `nodes`.
pub open spec fn resolved(
    nodes: Seq<CfgNodeView>,
    env: CfgEnvView,
    n: nat,
    acc: Seq<EditView>,
) -> Seq<EditView>
    decreases nodes, n, 1nat,
{
    if n == 0 || n > nodes.len() {
        acc
    } else {
        resolved_node(nodes[n - 1], env, resolved(nodes, env, (n - 1) as nat, acc))
    }
}

/// The attributes `attrs`, each judged in `env`.
pub fn judge(attrs: &Vec<Attr>, env: &CfgEnv) -> (r: Vec<Judged>)
    ensures
        r@ == judged(attr_views(attrs@), env@),
{
    let mut r: Vec<Judged> = Vec::new();
    let mut i: usize = 0;
    while i < attrs.len()
        invariant
            i <= attrs.len(),
            r@.len() == i,
            forall|j: int| 0 <= j < i ==> r@[j] == judged(attr_views(attrs@), env@)[j],
        decreases attrs.len() - i,
    {
        assert(attr_views(attrs@)[i as int] == attrs@[i as int]@);
        let verdict = match attr_list(&attrs[i], "cfg") {
            Some(text) => condition_value(text.as_str(), env),
            None => None,
        };
        r.push(Judged { span: attrs[i].span, verdict });
        i += 1;
    }
    assert(r@ =~= judged(attr_views(attrs@), env@));
    r
}

/// Registers the edits for a node that stands in `span` and whose
/// attributes are judged as `known`, and says whether the node stays.
pub fn decide_node(span: Extent, known: &Vec<Judged>, edits: &mut EditSet) -> (stays: bool)
    ensures
        (final(edits)@, stays) == decided(span, known@, old(edits)@),
{
    let mut failed = false;
    let mut i: usize = 0;
    while i < known.len()
        invariant
            i <= known.len(),
            failed == fails(known@, i as nat),
        decreases known.len() - i,
    {
        match known[i].verdict {
            Some(Some(false)) => {
                failed = true;
            },
            _ => {},
        }
        i += 1;
    }
    if failed {
        edits.insert(span, String::new());
        return false;
    }
    let mut i: usize = 0;
    while i < known.len()
        invariant
            i <= known.len(),
            edits@ == stripped(known@, i as nat, old(edits)@),
        decreases known.len() - i,
    {
        match known[i].verdict {
            Some(Some(true)) => {
                edits.insert(known[i].span, String::new());
            },
            _ => {},
        }
        i += 1;
    }
    true
}

/// The truth table of one condition: a node under a single attribute
/// loses the attribute and stays where the condition is known to hold,
/// goes whole where it is known to fail, and stays with its attribute
/// where the condition is unknown or the attribute holds none.
pub proof fn lemma_truth_table(span: Extent, attr: Judged, acc: Seq<EditView>)
    ensures
        attr.verdict == Some(Some(true)) ==> decided(span, seq![attr], acc) == (
            registered(acc, deletion(attr.span)),
            true,
        ),
        attr.verdict == Some(Some(false)) ==> decided(span, seq![attr], acc) == (
            registered(acc, deletion(span)),
            false,
        ),
        attr.verdict == Some(None::<bool>) || attr.verdict is None ==> decided(
            span,
            seq![attr],
            acc,
        ) == (acc, true),
{
    let known = seq![attr];
    reveal_with_fuel(fails, 2);
    reveal_with_fuel(stripped, 2);
    assert(known[0] == attr);
}

/// One condition that is known to fail removes the node, whatever the
/// other attributes say.
pub proof fn lemma_one_failure_removes(span: Extent, known: Seq<Judged>, i: int, acc: Seq<EditView>)
    requires
        0 <= i < known.len(),
        known[i].verdict == Some(Some(false)),
    ensures
        decided(span, known, acc) == (registered(acc, deletion(span)), false),
{
    lemma_fails_from(known, i, known.len());
}

proof fn lemma_fails_from(known: Seq<Judged>, i: int, n: nat)
    requires
        0 <= i < n <= known.len(),
        known[i].verdict == Some(Some(false)),
    ensures
        fails(known, n),
    decreases n,
{
    if i < n - 1 {
        lemma_fails_from(known, i, (n - 1) as nat);
    }
}

/// Registers the edits for `node`.
fn resolve_node(node: &CfgNode, env: &CfgEnv, edits: &mut EditSet)
    ensures
        final(edits)@ == resolved_node(node@, env@, old(edits)@),
    decreases node,
{
    let known = judge(&node.attrs, env);
    if decide_node(node.span, &known, edits) {
        proof {
            lemma_child_views(*node);
        }
        resolve_nodes(&node.children, env, edits);
    }
}

/// Registers the edits for `nodes`, one after the other.
fn resolve_nodes(nodes: &Vec<CfgNode>, env: &CfgEnv, edits: &mut EditSet)
    ensures
        final(edits)@ == resolved(node_views(nodes@), env@, nodes@.len(), old(edits)@),
    decreases nodes,
{
    let mut i: usize = 0;
    while i < nodes.len()
        invariant
            i <= nodes.len(),
            edits@ == resolved(node_views(nodes@), env@, i as nat, old(edits)@),
        decreases nodes.len() - i,
    {
        assert(node_views(nodes@)[i as int] == nodes@[i as int]@);
        assert(decreases_to!(*nodes => nodes[i as int]));
        resolve_node(&nodes[i], env, edits);
        i += 1;
    }
}

/// The environment in which units are resolved for bundling: the bundling
/// flag holds, `test` and `proc_macro` fail, a feature holds if it is one
/// of `features`, and all else is unknown.
pub fn bundling_env(features: &Vec<String>) -> (env: CfgEnv)
    ensures
        env@ == (CfgEnvView { features: texts(features@), flag_only: false }),
{
    let mut copy: Vec<String> = Vec::new();
    let mut i: usize = 0;
    while i < features.len()
        invariant
            i <= features.len(),
            copy@.len() == i,
            forall|j: int| 0 <= j < i ==> copy@[j]@ == features@[j]@,
        decreases features.len() - i,
    {
        copy.push(features[i].clone());
        i += 1;
    }
    assert(texts(copy@) =~= texts(features@));
    CfgEnv { features: copy, flag_only: false }
}

/// The edits that resolve the conditions on `nodes` for the active
/// `features`.
pub fn cfg_edits(nodes: &Vec<CfgNode>, features: &Vec<String>) -> (edits: EditSet)
    ensures
        edits@ == resolved(
            node_views(nodes@),
            CfgEnvView { features: texts(features@), flag_only: false },
            nodes@.len(),
            Seq::empty(),
        ),
{
    let env = bundling_env(features);
    let mut edits = EditSet::new();
    resolve_nodes(nodes, &env, &mut edits);
    edits
}

/// `code` with the conditions on `nodes` resolved for the active
/// `features`.
pub fn resolve_cfgs(code: &str, nodes: &Vec<CfgNode>, features: &Vec<String>) -> (out: String)
    ensures
        out@ == patched(
            code@,
            resolved(
                node_views(nodes@),
                CfgEnvView { features: texts(features@), flag_only: false },
                nodes@.len(),
                Seq::empty(),
            ),
        ),
{
    let edits = cfg_edits(nodes, features);
    replace_ranges(code, &edits)
}

} // verus!
