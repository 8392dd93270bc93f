use vstd::prelude::*;
use crate::model::{Directive, Node, TemplateError, opens, closes, node_opens, node_closes};

verus! {

/// A render-ready template: its nodes and, beside them, their jump targets.
pub struct Template {
    pub nodes: Vec<Node>,
    pub jumps: Vec<Option<usize>>,
}

/// The stack of open directive start indices after a scan of the first `i`
/// nodes, or `None` where an end tag closes nothing or the wrong directive.
pub open spec fn open_after(nodes: Seq<Node>, i: int) -> Option<Seq<int>>
    decreases i,
{
    if i <= 0 {
        Some(Seq::empty())
    } else {
        match open_after(nodes, i - 1) {
            None => None,
            Some(s) => if opens(nodes[i - 1]) is Some {
                Some(s.push(i - 1))
            } else if closes(nodes[i - 1]) is Some {
                if s.len() > 0 && opens(nodes[s.last()]) == closes(nodes[i - 1]) {
                    Some(s.drop_last())
                } else {
                    None
                }
            } else {
                Some(s)
            },
        }
    }
}

/// Whether every directive tag of `nodes` is closed by an end tag of its own kind.
pub open spec fn balanced(nodes: Seq<Node>) -> bool {
    open_after(nodes, nodes.len() as int) == Some(Seq::<int>::empty())
}

/// The start index that the directive end tag at `j` closes.
pub open spec fn partner(nodes: Seq<Node>, j: int) -> int {
    open_after(nodes, j)->0.last()
}

/// Whether the directive end tag at `j` closes the start tag at `x`, of its
/// own kind.
pub open spec fn closed_at(nodes: Seq<Node>, x: int, j: int) -> bool {
    &&& x < j
    &&& closes(nodes[j]) is Some
    &&& partner(nodes, j) == x
    &&& opens(nodes[x]) == closes(nodes[j])
}

/// Whether `closes(nodes[j])` is a loop.
pub open spec fn is_loop_end(n: Node) -> bool {
    closes(n) == Some(Directive::Loop)
}

/// The jump targets that resolution gives to `nodes`: one past its end tag
/// for each directive start; its start for each loop end; no other.
pub open spec fn resolved(nodes: Seq<Node>, jumps: Seq<Option<usize>>) -> bool {
    &&& jumps.len() == nodes.len()
    &&& forall|j: int|
        0 <= j < nodes.len() && #[trigger] closes(nodes[j]) is Some ==> jumps[partner(nodes, j)]
            == Some((j + 1) as usize)
    &&& forall|j: int|
        0 <= j < nodes.len() && #[trigger] is_loop_end(nodes[j]) ==> jumps[j] == Some(
            partner(nodes, j) as usize,
        )
    &&& forall|i: int|
        0 <= i < nodes.len() && opens(#[trigger] nodes[i]) is None && !is_loop_end(nodes[i])
            ==> jumps[i] is None
    &&& forall|x: int|
        0 <= x < nodes.len() && (#[trigger] opens(nodes[x])) is Some ==> jumps[x] is Some
            && jumps[x]->0 <= nodes.len() && closed_at(nodes, x, jumps[x]->0 - 1)
}

/// The jump targets that the interpreter needs: forward and in range at each
/// directive start, backward at each loop end.
pub open spec fn wf_jumps(nodes: Seq<Node>, jumps: Seq<Option<usize>>) -> bool {
    &&& jumps.len() == nodes.len()
    &&& forall|i: int|
        0 <= i < nodes.len() && (#[trigger] opens(nodes[i])) is Some ==> jumps[i] is Some && i
            < jumps[i]->0 <= nodes.len()
    &&& forall|i: int|
        0 <= i < nodes.len() && #[trigger] is_loop_end(nodes[i]) ==> jumps[i] is Some
            && jumps[i]->0 < i
}

impl Template {
    pub open spec fn wf(&self) -> bool {
        wf_jumps(self.nodes@, self.jumps@)
    }

    /// A template with no nodes.
    pub fn empty() -> (r: Template)
        ensures
            r.nodes@.len() == 0,
            r.wf(),
    {
        Template { nodes: Vec::new(), jumps: Vec::new() }
    }
}

pub proof fn lemma_open_after_bounds(nodes: Seq<Node>, i: int)
    requires
        0 <= i <= nodes.len(),
        open_after(nodes, i) is Some,
    ensures
        forall|k: int|
            0 <= k < open_after(nodes, i)->0.len() ==> {
                let t = #[trigger] open_after(nodes, i)->0[k];
                0 <= t < i && opens(nodes[t]) is Some
            },
    decreases i,
{
    if i > 0 {
        lemma_open_after_bounds(nodes, i - 1);
    }
}

/// Resolves the jump targets of `nodes` in one pass with a stack of open
/// directive starts.
pub fn resolve(nodes: Vec<Node>) -> (r: Result<Template, TemplateError>)
    ensures
        r is Ok <==> balanced(nodes@),
        r is Err ==> r->Err_0 == TemplateError::UnbalancedControlFlow,
        r matches Ok(t) ==> t.nodes@ == nodes@ && resolved(nodes@, t.jumps@) && t.wf(),
{
    let n = nodes.len();
    let mut jumps: Vec<Option<usize>> = Vec::new();
    let mut k: usize = 0;
    while k < n
        invariant
            k <= n == nodes@.len(),
            jumps@.len() == k,
            forall|x: int| 0 <= x < k ==> jumps@[x] is None,
        decreases n - k,
    {
        jumps.push(None);
        k = k + 1;
    }
    let mut stack: Vec<usize> = Vec::new();
    let mut i: usize = 0;
    while i < n
        invariant
            i <= n == nodes@.len(),
            jumps@.len() == n,
            open_after(nodes@, i as int) == Some(stack@.map_values(|x: usize| x as int)),
            forall|k: int|
                0 <= k < stack@.len() ==> #[trigger] stack@[k] < i && jumps@[stack@[k] as int]
                    is None,
            forall|k1: int, k2: int|
                0 <= k1 < k2 < stack@.len() ==> #[trigger] stack@[k1] < #[trigger] stack@[k2],
            forall|j: int|
                0 <= j < i && #[trigger] closes(nodes@[j]) is Some ==> jumps@[partner(nodes@, j)]
                    == Some((j + 1) as usize) && 0 <= partner(nodes@, j) < j
                    && opens(nodes@[partner(nodes@, j)]) == closes(nodes@[j]),
            forall|x: int|
                0 <= x < i && (#[trigger] opens(nodes@[x])) is Some && jumps@[x] is Some
                    ==> closed_at(nodes@, x, jumps@[x]->0 - 1),
            forall|j: int|
                0 <= j < i && #[trigger] is_loop_end(nodes@[j]) ==> jumps@[j] == Some(
                    partner(nodes@, j) as usize,
                ),
            forall|x: int|
                0 <= x < n && opens(#[trigger] nodes@[x]) is None && !is_loop_end(nodes@[x])
                    ==> jumps@[x] is None,
            forall|x: int| i <= x < n ==> #[trigger] jumps@[x] is None,
            forall|x: int|
                0 <= x < i && (#[trigger] opens(nodes@[x])) is Some && jumps@[x] is Some ==> x
                    < jumps@[x]->0 <= i,
            forall|x: int|
                0 <= x < i && (#[trigger] opens(nodes@[x])) is Some && jumps@[x] is None
                    ==> stack@.contains(x as usize),
        decreases n - i,
    {
        proof {
            lemma_open_after_bounds(nodes@, i as int);
        }
        let ghost s = stack@.map_values(|x: usize| x as int);
        let ghost old_stack = stack@;
        if let Some(_) = node_opens(&nodes[i]) {
            stack.push(i);
            proof {
                assert(stack@.map_values(|x: usize| x as int) =~= s.push(i as int));
                assert forall|x: int|
                    0 <= x < i + 1 && (#[trigger] opens(nodes@[x])) is Some && jumps@[x] is None
                    implies stack@.contains(x as usize) by {
                    if x < i {
                        let w = choose|w: int| 0 <= w < old_stack.len() && old_stack[w] == x as usize;
                        assert(stack@[w] == x as usize);
                    } else {
                        assert(stack@[stack@.len() - 1] == x as usize);
                    }
                }
            }
        } else if let Some(d) = node_closes(&nodes[i]) {
            if stack.len() == 0 {
                proof {
                    lemma_failure_persists(nodes@, i as int + 1);
                }
                return Err(TemplateError::UnbalancedControlFlow);
            }
            let t = stack[stack.len() - 1];
            assert(s.last() == t as int);
            if node_opens(&nodes[t]) != Some(d) {
                proof {
                    lemma_failure_persists(nodes@, i as int + 1);
                }
                return Err(TemplateError::UnbalancedControlFlow);
            }
            stack.pop();
            assert(stack@.map_values(|x: usize| x as int) =~= s.drop_last());
            jumps.set(t, Some(i + 1));
            if d == Directive::Loop {
                jumps.set(i, Some(t));
            }
            proof {
                assert(partner(nodes@, i as int) == t as int);
                assert(closed_at(nodes@, t as int, i as int));

                assert forall|x: int|
                    0 <= x < i + 1 && (#[trigger] opens(nodes@[x])) is Some && jumps@[x] is None
                    implies stack@.contains(x as usize) by {
                    if x != t as int {
                        assert(x < i);
                        assert(old_stack.contains(x as usize));
                        let w = choose|w: int| 0 <= w < old_stack.len() && old_stack[w] == x as usize;
                        assert(stack@[w] == x as usize);
                    }
                }
            }
        }
        i = i + 1;
    }
    if stack.len() > 0 {
        proof {
            assert(stack@.map_values(|x: usize| x as int).len() > 0);
        }
        return Err(TemplateError::UnbalancedControlFlow);
    }
    proof {
        assert(stack@.map_values(|x: usize| x as int) =~= Seq::<int>::empty());
        assert forall|x: int|
            0 <= x < n && (#[trigger] opens(nodes@[x])) is Some implies jumps@[x] is Some by {
            if jumps@[x] is None {
                assert(stack@.contains(x as usize));
            }
        }
    }
    Ok(Template { nodes, jumps })
}

/// In a balanced list every prefix scans without failure.
pub proof fn lemma_balanced_prefix(nodes: Seq<Node>, i: int)
    requires
        0 <= i <= nodes.len(),
        balanced(nodes),
    ensures
        open_after(nodes, i) is Some,
{
    if open_after(nodes, i) is None {
        lemma_failure_persists(nodes, i);
    }
}

proof fn lemma_failure_persists(nodes: Seq<Node>, i: int)
    requires
        0 <= i <= nodes.len(),
        open_after(nodes, i) is None,
    ensures
        !balanced(nodes),
    decreases nodes.len() - i,
{
    if i < nodes.len() {
        lemma_failure_persists(nodes, i + 1);
    }
}

} // verus!
