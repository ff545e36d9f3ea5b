//! Explaining a pre-parsed AST: every command of the tree is explained on
//! its own, from its first word, and so is every redirect target word.

use vstd::prelude::*;
use crate::ast::{AstNode, AstView, KeywordKind, RedirectTarget, Span, TargetView, WordView, nodes_view, lemma_nodes_view, node_view, word_view};
use crate::data::ManpageData;
use crate::matcher::{ExpansionView, MatchError, explain_command, explains, unknown_in, expansions_view, groups_view};
use crate::model::{Expansion, ExplainResult, MatchGroup, MatchGroupView};

verus! {

/// A word of the tree that gets explained as a command line of its own,
/// and whether its explanation must succeed (a command's first word) or is
/// left out when it fails (a redirect target).
pub struct Target {
    pub text: Seq<char>,
    pub required: bool,
}

/// The text of the first word or assignment among `parts`.
pub open spec fn first_text(parts: Seq<AstView>) -> Option<Seq<char>>
    decreases parts.len(),
{
    if parts.len() == 0 {
        None
    } else {
        match first_text(parts.drop_last()) {
            Some(t) => Some(t),
            None => match parts.last() {
                AstView::Word(w) => Some(w.text),
                AstView::Assignment(w) => Some(w.text),
                _ => None,
            },
        }
    }
}

/// The words that explaining `n` explains, in order.
pub open spec fn node_targets(n: AstView) -> Seq<Target>
    decreases n,
{
    match n {
        AstView::List { parts, .. } => seq_targets(parts),
        AstView::Pipeline { parts, .. } => seq_targets(parts),
        AstView::Command { parts, .. } => match first_text(parts) {
            Some(t) => seq![Target { text: t, required: true }],
            None => Seq::empty(),
        },
        AstView::Compound { list, .. } => seq_targets(list),
        AstView::Keyword { parts, .. } => seq_targets(parts),
        AstView::Function { parts, .. } => seq_targets(parts),
        AstView::Redirect { output, .. } => match output {
            TargetView::Word(w) => seq![Target { text: w.text, required: false }],
            _ => Seq::empty(),
        },
        _ => Seq::empty(),
    }
}

/// The words that explaining the nodes `s` one after another explains.
pub open spec fn seq_targets(s: Seq<AstView>) -> Seq<Target>
    decreases s,
{
    if s.len() == 0 {
        Seq::empty()
    } else {
        seq_targets(s.drop_last()) + node_targets(s.last())
    }
}

/// Explaining the required target `t` can fail with `e`: with an unknown
/// program, one that explaining its text can stop at.
pub open spec fn fails_with(d: ManpageData, t: Target, e: MatchError) -> bool {
    &&& t.required
    &&& e matches MatchError::UnknownProgram(n) ==> unknown_in(d, t.text, n@)
}

/// Some required target in `ts` can fail with `e`.
pub open spec fn some_target_fails(d: ManpageData, ts: Seq<Target>, e: MatchError) -> bool {
    exists|i: int| 0 <= i < ts.len() && #[trigger] fails_with(d, ts[i], e)
}

/// `out` is what explaining `t` can give: an explanation of its text as a
/// command line, or nothing at all where `t` is not required.
pub open spec fn target_out(
    d: ManpageData,
    t: Target,
    out: (Seq<MatchGroupView>, Seq<ExpansionView>),
) -> bool {
    ||| explains(d, t.text, out)
    ||| !t.required && out.0.len() == 0 && out.1.len() == 0
}

/// `out` is what explaining the targets `ts` in order can give: their
/// outcomes, one after another.
pub open spec fn targets_out(
    d: ManpageData,
    ts: Seq<Target>,
    out: (Seq<MatchGroupView>, Seq<ExpansionView>),
) -> bool
    decreases ts.len(),
{
    if ts.len() == 0 {
        out.0.len() == 0 && out.1.len() == 0
    } else {
        exists|g: int, e: int|
            #![trigger out.0.take(g), out.1.take(e)]
            0 <= g <= out.0.len() && 0 <= e <= out.1.len() && targets_out(
                d,
                ts.drop_last(),
                (out.0.take(g), out.1.take(e)),
            ) && target_out(d, ts.last(), (out.0.skip(g), out.1.skip(e)))
    }
}

/// `(ng, ne)` is `(og, oe)` followed by what explaining `ts` can give.
pub open spec fn extends(
    d: ManpageData,
    ts: Seq<Target>,
    og: Seq<MatchGroupView>,
    oe: Seq<ExpansionView>,
    ng: Seq<MatchGroupView>,
    ne: Seq<ExpansionView>,
) -> bool {
    &&& og.len() <= ng.len()
    &&& oe.len() <= ne.len()
    &&& ng.take(og.len() as int) == og
    &&& ne.take(oe.len() as int) == oe
    &&& targets_out(d, ts, (ng.skip(og.len() as int), ne.skip(oe.len() as int)))
}

/// `new` is `old` with what explaining `ts` can give added at the end.
pub open spec fn result_extends(
    d: ManpageData,
    ts: Seq<Target>,
    old_r: ExplainResult,
    new_r: ExplainResult,
) -> bool {
    extends(
        d,
        ts,
        groups_view(old_r.groups@),
        expansions_view(old_r.expansions@),
        groups_view(new_r.groups@),
        expansions_view(new_r.expansions@),
    )
}

proof fn lemma_targets_empty(d: ManpageData, g: Seq<MatchGroupView>, e: Seq<ExpansionView>)
    ensures
        extends(d, Seq::empty(), g, e, g, e),
{
    assert(g.take(g.len() as int) =~= g);
    assert(e.take(e.len() as int) =~= e);
    assert(g.skip(g.len() as int) =~= Seq::<MatchGroupView>::empty());
    assert(e.skip(e.len() as int) =~= Seq::<ExpansionView>::empty());
}

proof fn lemma_targets_one(d: ManpageData, t: Target, out: (Seq<MatchGroupView>, Seq<ExpansionView>))
    requires
        target_out(d, t, out),
    ensures
        targets_out(d, seq![t], out),
{
    let ts = seq![t];
    assert(ts.drop_last() =~= Seq::<Target>::empty());
    assert(out.0.skip(0) =~= out.0);
    assert(out.1.skip(0) =~= out.1);
    assert(targets_out(d, ts.drop_last(), (out.0.take(0), out.1.take(0))));
}

proof fn lemma_targets_concat(
    d: ManpageData,
    ta: Seq<Target>,
    tb: Seq<Target>,
    a: (Seq<MatchGroupView>, Seq<ExpansionView>),
    b: (Seq<MatchGroupView>, Seq<ExpansionView>),
)
    requires
        targets_out(d, ta, a),
        targets_out(d, tb, b),
    ensures
        targets_out(d, ta + tb, (a.0 + b.0, a.1 + b.1)),
    decreases tb.len(),
{
    if tb.len() == 0 {
        assert(ta + tb =~= ta);
        assert(a.0 + b.0 =~= a.0);
        assert(a.1 + b.1 =~= a.1);
    } else {
        let (g, e) = choose|g: int, e: int|
            #![trigger b.0.take(g), b.1.take(e)]
            0 <= g <= b.0.len() && 0 <= e <= b.1.len() && targets_out(
                d,
                tb.drop_last(),
                (b.0.take(g), b.1.take(e)),
            ) && target_out(d, tb.last(), (b.0.skip(g), b.1.skip(e)));
        lemma_targets_concat(d, ta, tb.drop_last(), a, (b.0.take(g), b.1.take(e)));
        let t = ta + tb;
        let o = (a.0 + b.0, a.1 + b.1);
        let g2 = a.0.len() + g;
        let e2 = a.1.len() + e;
        assert(t.drop_last() =~= ta + tb.drop_last());
        assert(t.last() == tb.last());
        assert(o.0.take(g2) =~= a.0 + b.0.take(g));
        assert(o.1.take(e2) =~= a.1 + b.1.take(e));
        assert(o.0.skip(g2) =~= b.0.skip(g));
        assert(o.1.skip(e2) =~= b.1.skip(e));
        assert(targets_out(d, t.drop_last(), (o.0.take(g2), o.1.take(e2))));
    }
}

proof fn lemma_extends_trans(
    d: ManpageData,
    ta: Seq<Target>,
    tb: Seq<Target>,
    g0: Seq<MatchGroupView>,
    e0: Seq<ExpansionView>,
    g1: Seq<MatchGroupView>,
    e1: Seq<ExpansionView>,
    g2: Seq<MatchGroupView>,
    e2: Seq<ExpansionView>,
)
    requires
        extends(d, ta, g0, e0, g1, e1),
        extends(d, tb, g1, e1, g2, e2),
    ensures
        extends(d, ta + tb, g0, e0, g2, e2),
{
    lemma_targets_concat(
        d,
        ta,
        tb,
        (g1.skip(g0.len() as int), e1.skip(e0.len() as int)),
        (g2.skip(g1.len() as int), e2.skip(e1.len() as int)),
    );
    assert(g2.take(g0.len() as int) =~= g1.take(g0.len() as int));
    assert(e2.take(e0.len() as int) =~= e1.take(e0.len() as int));
    assert(g2.skip(g0.len() as int) =~= g1.skip(g0.len() as int) + g2.skip(g1.len() as int));
    assert(e2.skip(e0.len() as int) =~= e1.skip(e0.len() as int) + e2.skip(e1.len() as int));
}

proof fn lemma_seq_targets_concat(a: Seq<AstView>, b: Seq<AstView>)
    ensures
        seq_targets(a + b) == seq_targets(a) + seq_targets(b),
    decreases b.len(),
{
    if b.len() == 0 {
        assert(a + b =~= a);
        assert(seq_targets(a) + seq_targets(b) =~= seq_targets(a));
    } else {
        lemma_seq_targets_concat(a, b.drop_last());
        assert((a + b).drop_last() =~= a + b.drop_last());
        assert((a + b).last() == b.last());
        assert(seq_targets(a + b) =~= seq_targets(a) + seq_targets(b));
    }
}

proof fn lemma_target_fails_concat(d: ManpageData, a: Seq<Target>, b: Seq<Target>, e: MatchError)
    ensures
        some_target_fails(d, a, e) ==> some_target_fails(d, a + b, e),
        some_target_fails(d, b, e) ==> some_target_fails(d, a + b, e),
{
    if some_target_fails(d, a, e) {
        let i = choose|i: int| 0 <= i < a.len() && #[trigger] fails_with(d, a[i], e);
        assert((a + b)[i] == a[i]);
    }
    if some_target_fails(d, b, e) {
        let i = choose|i: int| 0 <= i < b.len() && #[trigger] fails_with(d, b[i], e);
        assert((a + b)[a.len() + i] == b[i]);
    }
}

/// A prefix of `s` whose first word is known names the first word of `s`.
proof fn lemma_first_text_prefix(s: Seq<AstView>, n: int)
    requires
        0 <= n <= s.len(),
        first_text(s.take(n)) is Some,
    ensures
        first_text(s) == first_text(s.take(n)),
    decreases s.len(),
{
    if n < s.len() {
        assert(s.drop_last().take(n) =~= s.take(n));
        lemma_first_text_prefix(s.drop_last(), n);
    } else {
        assert(s.take(n) =~= s);
    }
}

/// Move the groups and expansions of one explanation to the end of `result`.
fn absorb(result: &mut ExplainResult, cmd: ExplainResult)
    ensures
        groups_view(final(result).groups@) == groups_view(old(result).groups@) + groups_view(
            cmd.groups@,
        ),
        expansions_view(final(result).expansions@) == expansions_view(old(result).expansions@)
            + expansions_view(cmd.expansions@),
{
    let ghost og: Seq<MatchGroup> = result.groups@;
    let ghost oe: Seq<Expansion> = result.expansions@;
    let mut cmd = cmd;
    let ghost cg: Seq<MatchGroup> = cmd.groups@;
    let ghost ce: Seq<Expansion> = cmd.expansions@;
    result.groups.append(&mut cmd.groups);
    result.expansions.append(&mut cmd.expansions);
    proof {
        assert(groups_view(result.groups@) =~= groups_view(og) + groups_view(cg));
        assert(expansions_view(result.expansions@) =~= expansions_view(oe) + expansions_view(ce));
    }
}

/// Add the outcome of explaining `t` (already known to be `cmd`) after
/// what `result` holds.
proof fn lemma_absorbed(
    d: ManpageData,
    t: Target,
    og: Seq<MatchGroupView>,
    oe: Seq<ExpansionView>,
    cg: Seq<MatchGroupView>,
    ce: Seq<ExpansionView>,
)
    requires
        target_out(d, t, (cg, ce)),
    ensures
        extends(d, seq![t], og, oe, og + cg, oe + ce),
{
    lemma_targets_one(d, t, (cg, ce));
    assert((og + cg).take(og.len() as int) =~= og);
    assert((oe + ce).take(oe.len() as int) =~= oe);
    assert((og + cg).skip(og.len() as int) =~= cg);
    assert((oe + ce).skip(oe.len() as int) =~= ce);
}

/// Explain every node in order.
fn explain_each(parts: &Vec<AstNode>, data: &ManpageData, result: &mut ExplainResult) -> (r: Result<
    (),
    MatchError,
>)
    ensures
        r is Ok ==> result_extends(*data, seq_targets(nodes_view(parts@)), *old(result), *final(result)),
        r matches Err(e) ==> (e is EmptyInput || e is UnknownProgram) && some_target_fails(
            *data,
            seq_targets(nodes_view(parts@)),
            e,
        ),
    decreases parts,
{
    let ghost pv = nodes_view(parts@);
    proof {
        lemma_nodes_view(parts@);
        lemma_targets_empty(*data, groups_view(result.groups@), expansions_view(result.expansions@));
        assert(pv.take(0) =~= Seq::<AstView>::empty());
    }
    let mut i: usize = 0;
    while i < parts.len()
        invariant
            i <= parts@.len(),
            pv == nodes_view(parts@),
            pv.len() == parts@.len(),
            forall|k: int| 0 <= k < parts@.len() ==> #[trigger] pv[k] == parts@[k]@,
            result_extends(*data, seq_targets(pv.take(i as int)), *old(result), *result),
        decreases parts@.len() - i,
    {
        proof {
            vstd::std_specs::vec::axiom_vec_index_decreases(*parts, i as int);
            assert(pv.take(i + 1).drop_last() =~= pv.take(i as int));
            assert(pv.take(i + 1).last() == pv[i as int]);
        }
        let ghost mid = *result;
        let r = explain_node(&parts[i], data, result);
        match r {
            Ok(()) => {
                proof {
                    lemma_extends_trans(
                        *data,
                        seq_targets(pv.take(i as int)),
                        node_targets(pv[i as int]),
                        groups_view(old(result).groups@),
                        expansions_view(old(result).expansions@),
                        groups_view(mid.groups@),
                        expansions_view(mid.expansions@),
                        groups_view(result.groups@),
                        expansions_view(result.expansions@),
                    );
                }
            },
            Err(e) => {
                proof {
                    lemma_target_fails_concat(
                        *data,
                        seq_targets(pv.take(i as int)),
                        node_targets(pv[i as int]),
                        e,
                    );
                    lemma_seq_targets_concat(pv.take(i + 1), pv.skip(i + 1));
                    assert(pv.take(i + 1) + pv.skip(i + 1) =~= pv);
                    lemma_target_fails_concat(
                        *data,
                        seq_targets(pv.take(i + 1)),
                        seq_targets(pv.skip(i + 1)),
                        e,
                    );
                }
                return Err(e);
            },
        }
        i += 1;
    }
    proof {
        assert(pv.take(parts@.len() as int) =~= pv);
    }
    Ok(())
}

/// Explain one node of the tree.
fn explain_node(node: &AstNode, data: &ManpageData, result: &mut ExplainResult) -> (r: Result<
    (),
    MatchError,
>)
    ensures
        r is Ok ==> result_extends(*data, node_targets(node@), *old(result), *final(result)),
        r matches Err(e) ==> (e is EmptyInput || e is UnknownProgram) && some_target_fails(
            *data,
            node_targets(node@),
            e,
        ),
    decreases node,
{
    proof {
        lemma_targets_empty(*data, groups_view(result.groups@), expansions_view(result.expansions@));
    }
    match node {
        AstNode::List { parts, .. } => explain_each(parts, data, result),
        AstNode::Pipeline { parts, .. } => explain_each(parts, data, result),
        AstNode::Command { parts, .. } => {
            // The first word or assignment names the command.
            let ghost pv = nodes_view(parts@);
            proof {
                lemma_nodes_view(parts@);
                assert(pv.take(0) =~= Seq::<AstView>::empty());
            }
            let mut i: usize = 0;
            while i < parts.len()
                invariant
                    i <= parts@.len(),
                    pv == nodes_view(parts@),
                    pv.len() == parts@.len(),
                    forall|k: int| 0 <= k < parts@.len() ==> #[trigger] pv[k] == parts@[k]@,
                    first_text(pv.take(i as int)) is None,
                    *result == *old(result),
                    node@ is Command,
                    node@->Command_parts == pv,
                decreases parts@.len() - i,
            {
                proof {
                    assert(pv.take(i + 1).drop_last() =~= pv.take(i as int));
                    assert(pv.take(i + 1).last() == pv[i as int]);
                }
                let text = match &parts[i] {
                    AstNode::Word(w) => {
                        proof {
                            assert(pv[i as int] == AstView::Word(word_view(*w)));
                        }
                        Some(w.text.as_str())
                    },
                    AstNode::Assignment(w) => {
                        proof {
                            assert(pv[i as int] == AstView::Assignment(word_view(*w)));
                        }
                        Some(w.text.as_str())
                    },
                    _ => None,
                };
                match text {
                    Some(t) => {
                        let ghost target = Target { text: t@, required: true };
                        proof {
                            assert(first_text(pv.take(i + 1)) == Some(t@));
                            lemma_first_text_prefix(pv, i + 1);
                            assert(node_targets(node@) == seq![target]);
                        }
                        match explain_command(t, data) {
                            Ok(cmd) => {
                                let ghost og = groups_view(result.groups@);
                                let ghost oe = expansions_view(result.expansions@);
                                proof {
                                    lemma_absorbed(
                                        *data,
                                        target,
                                        og,
                                        oe,
                                        groups_view(cmd.groups@),
                                        expansions_view(cmd.expansions@),
                                    );
                                }
                                absorb(result, cmd);
                                return Ok(());
                            },
                            Err(e) => {
                                proof {
                                    assert(seq![target][0] == target);
                                    assert(fails_with(*data, seq![target][0], e));
                                }
                                return Err(e);
                            },
                        }
                    },
                    None => {},
                }
                i += 1;
            }
            proof {
                assert(pv.take(parts@.len() as int) =~= pv);
            }
            Ok(())
        },
        AstNode::Compound { list, .. } => explain_each(list, data, result),
        AstNode::Keyword { parts, .. } => explain_each(parts, data, result),
        AstNode::Function { parts, .. } => explain_each(parts, data, result),
        AstNode::Redirect { output, .. } => {
            match output {
                RedirectTarget::Word(w) => {
                    let ghost target = Target { text: w.text@, required: false };
                    proof {
                        assert(crate::ast::target_view(*output) == TargetView::Word(word_view(*w)));
                        assert(node_targets(node@) == seq![target]);
                    }
                    let ghost og = groups_view(result.groups@);
                    let ghost oe = expansions_view(result.expansions@);
                    match explain_command(w.text.as_str(), data) {
                        Ok(cmd) => {
                            proof {
                                lemma_absorbed(
                                    *data,
                                    target,
                                    og,
                                    oe,
                                    groups_view(cmd.groups@),
                                    expansions_view(cmd.expansions@),
                                );
                            }
                            absorb(result, cmd);
                        },
                        Err(_) => {
                            proof {
                                lemma_absorbed(
                                    *data,
                                    target,
                                    og,
                                    oe,
                                    Seq::empty(),
                                    Seq::empty(),
                                );
                                assert(og + Seq::<MatchGroupView>::empty() =~= og);
                                assert(oe + Seq::<ExpansionView>::empty() =~= oe);
                            }
                        },
                    }
                },
                _ => {},
            }
            Ok(())
        },
        _ => Ok(()),
    }
}

/// Explain a pre-parsed AST: each command's first word (or assignment) and
/// each redirect target word is explained as a command line of its own,
/// and the groups and expansions of those explanations come out one after
/// another. A command whose first word cannot be explained fails the whole
/// call; a redirect target that cannot be explained is left out.
pub fn explain_ast_nodes(ast: &Vec<AstNode>, data: &ManpageData) -> (r: Result<
    ExplainResult,
    MatchError,
>)
    ensures
        r matches Ok(res) ==> targets_out(
            *data,
            seq_targets(nodes_view(ast@)),
            (groups_view(res.groups@), expansions_view(res.expansions@)),
        ),
        r matches Err(e) ==> (e is EmptyInput || e is UnknownProgram) && some_target_fails(
            *data,
            seq_targets(nodes_view(ast@)),
            e,
        ),
{
    let mut result = ExplainResult { groups: Vec::new(), expansions: Vec::new() };
    let ghost start = result;
    let r = explain_each(ast, data, &mut result);
    match r {
        Ok(()) => {
            proof {
                assert(groups_view(start.groups@) =~= Seq::<MatchGroupView>::empty());
                assert(expansions_view(start.expansions@) =~= Seq::<ExpansionView>::empty());
                assert(groups_view(result.groups@).skip(0) =~= groups_view(result.groups@));
                assert(expansions_view(result.expansions@).skip(0) =~= expansions_view(
                    result.expansions@,
                ));
            }
            Ok(result)
        },
        Err(e) => Err(e),
    }
}

/// The words explained for a sequence of nodes, split around its node `i`.
proof fn lemma_seq_targets_split(parts: Seq<AstView>, i: int)
    requires
        0 <= i < parts.len(),
    ensures
        seq_targets(parts) == seq_targets(parts.take(i)) + node_targets(parts[i]) + seq_targets(parts.skip(i + 1)),
{
    assert(parts =~= parts.take(i) + parts.skip(i));
    lemma_seq_targets_concat(parts.take(i), parts.skip(i));
    let rest = parts.skip(i);
    assert(rest =~= seq![parts[i]] + parts.skip(i + 1));
    lemma_seq_targets_concat(seq![parts[i]], parts.skip(i + 1));
    let one = seq![parts[i]];
    assert(one.drop_last() =~= Seq::<AstView>::empty());
    assert(one.last() == parts[i]);
    assert(seq_targets(one.drop_last()) =~= Seq::<Target>::empty());
    assert(seq_targets(one) == seq_targets(one.drop_last()) + node_targets(one.last()));
    assert(seq_targets(one) =~= node_targets(parts[i]));
}

/// Explaining a compound keyword command (`if`, `for`, `while`, `until`,
/// `case`, ...) explains each of its parts in turn: the words explained for
/// the part at `i` stand between those of the parts before it and those of
/// the parts after it, so a command inside the body is explained.
pub proof fn lemma_keyword_explains_each_part(kind: KeywordKind, span: Span, parts: Seq<AstView>, i: int)
    requires
        0 <= i < parts.len(),
    ensures
        node_targets(AstView::Keyword { kind, span, parts }) == seq_targets(parts.take(i)) + node_targets(
            parts[i],
        ) + seq_targets(parts.skip(i + 1)),
{
    lemma_seq_targets_split(parts, i);
}

/// Explaining a function definition explains each of its parts in turn,
/// its body among them.
pub proof fn lemma_function_explains_each_part(
    span: Span,
    name: WordView,
    body: Box<AstView>,
    parts: Seq<AstView>,
    i: int,
)
    requires
        0 <= i < parts.len(),
    ensures
        node_targets(AstView::Function { span, name, body, parts }) == seq_targets(parts.take(i))
            + node_targets(parts[i]) + seq_targets(parts.skip(i + 1)),
{
    lemma_seq_targets_split(parts, i);
}

} // verus!
