//! The decisions of an upgrade session: when to ask again for a selection, and
//! which catalog entries to upgrade, in which order.
use vstd::prelude::*;
use crate::record::Program;
use crate::selection::{elaborate_input, selection_of};
use crate::text::{trim, trimmed};

verus! {

/// What follows one line of user input at the selection prompt.
#[derive(Debug, PartialEq, Eq)]
pub enum PromptStep {
    /// The line was refused: ask again.
    Retry,
    /// The line was accepted with these indices; the prompt is done.
    Selected(Vec<usize>),
}

/// Decides on one line typed at the selection prompt, after taking white
/// space off both ends of it.
pub fn prompt_step(line: &str) -> (r: PromptStep)
    ensures
        match r {
            PromptStep::Selected(v) => selection_of(trim(line@)) == Some(v@),
            PromptStep::Retry => selection_of(trim(line@)) is None,
        },
{
    let t = trimmed(line);
    match elaborate_input(t.as_str()) {
        Ok(v) => PromptStep::Selected(v),
        Err(_) => PromptStep::Retry,
    }
}

/// The positions below `n` that `selected` holds, ascending.
pub open spec fn chosen_below(n: nat, selected: Seq<usize>) -> Seq<usize>
    decreases n,
{
    if n == 0 {
        Seq::empty()
    } else if selected.contains((n - 1) as usize) {
        chosen_below((n - 1) as nat, selected).push((n - 1) as usize)
    } else {
        chosen_below((n - 1) as nat, selected)
    }
}

fn holds_index(selected: &Vec<usize>, i: usize) -> (r: bool)
    ensures
        r == selected@.contains(i),
{
    let mut k: usize = 0;
    while k < selected.len()
        invariant
            k <= selected.len(),
            forall|t: int| 0 <= t < k ==> selected@[t] != i,
        decreases selected.len() - k,
    {
        if selected[k] == i {
            return true;
        }
        k = k + 1;
    }
    false
}

/// The catalog positions to upgrade, ascending: those that the selection
/// holds. Selected indices past the end of the catalog are passed over.
pub fn upgrade_order(programs: &Vec<Program>, selected: &Vec<usize>) -> (r: Vec<usize>)
    ensures
        r@ == chosen_below(programs.len() as nat, selected@),
{
    let mut order: Vec<usize> = Vec::new();
    let mut i: usize = 0;
    while i < programs.len()
        invariant
            i <= programs.len(),
            order@ == chosen_below(i as nat, selected@),
        decreases programs.len() - i,
    {
        if holds_index(selected, i) {
            order.push(i);
        }
        i = i + 1;
    }
    order
}

/// The upgrade order visits exactly the selected positions that lie in the
/// catalog, each once, in ascending order.
pub proof fn lemma_upgrade_order(n: nat, selected: Seq<usize>)
    requires
        n <= usize::MAX,
    ensures
        forall|k: usize| #[trigger] chosen_below(n, selected).contains(k) <==> k < n && selected.contains(k),
        forall|i: int, j: int|
            0 <= i < j < chosen_below(n, selected).len() ==> chosen_below(n, selected)[i] < chosen_below(
                n,
                selected,
            )[j],
    decreases n,
{
    if n > 0 {
        let m = (n - 1) as nat;
        lemma_upgrade_order(m, selected);
        let prev = chosen_below(m, selected);
        let cur = chosen_below(n, selected);
        assert forall|k: usize| #[trigger] cur.contains(k) <==> k < n && selected.contains(k) by {
            if selected.contains(m as usize) {
                assert(cur == prev.push(m as usize));
                if cur.contains(k) && k != m {
                    let t = choose|t: int| 0 <= t < cur.len() && cur[t] == k;
                    assert(t != prev.len());
                    assert(prev[t] == cur[t]);
                    assert(prev.contains(k));
                }
                if k < n && selected.contains(k) {
                    if k == m {
                        assert(cur[prev.len() as int] == k);
                    } else {
                        assert(prev.contains(k));
                        let t = choose|t: int| 0 <= t < prev.len() && prev[t] == k;
                        assert(cur[t] == k);
                    }
                }
            } else {
                assert(cur == prev);
                if prev.contains(k) {
                } else if k < n && selected.contains(k) {
                    assert(k != m);
                }
            }
        }
        if selected.contains(m as usize) {
            assert forall|i: int, j: int| 0 <= i < j < cur.len() implies cur[i] < cur[j] by {
                if j == prev.len() {
                    assert(prev.contains(prev[i]));
                }
            }
        }
    }
}

} // verus!
