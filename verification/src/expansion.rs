//! The directories whose children are shown inside their own tiles.
use std::collections::{HashMap, HashSet};
use vstd::prelude::*;

verus! {

/// The expanded directories, in the order in which they were expanded, each with
/// the time of its expansion.
#[derive(Debug)]
pub struct Expansion {
    expanded: HashSet<usize>,
    stack: Vec<usize>,
    started: HashMap<usize, u64>,
}

/// The expanded directories, as a mathematical value.
#[verifier::ext_equal]
pub struct ExpansionModel {
    /// The directories, the one that was expanded last at the end.
    pub stack: Seq<usize>,
    /// When they were expanded.
    pub started: Map<usize, u64>,
}

impl ExpansionModel {
    /// No directory is expanded twice, and the times are those of the expanded
    /// directories.
    pub open spec fn wf(self) -> bool {
        &&& self.stack.no_duplicates()
        &&& forall|index: usize| #[trigger]
            self.started.contains_key(index) <==> self.stack.contains(index)
    }

    /// Nothing is expanded.
    pub open spec fn none() -> ExpansionModel {
        ExpansionModel { stack: Seq::empty(), started: Map::empty() }
    }

    /// A directory is expanded, unless it is so already.
    pub open spec fn expand(self, index: usize, time: u64) -> ExpansionModel {
        if self.stack.contains(index) {
            self
        } else {
            ExpansionModel {
                stack: self.stack.push(index),
                started: self.started.insert(index, time),
            }
        }
    }

    /// The directory that was expanded last is no longer so.
    pub open spec fn collapse_last(self) -> ExpansionModel {
        if self.stack.len() == 0 {
            self
        } else {
            ExpansionModel {
                stack: self.stack.drop_last(),
                started: self.started.remove(self.stack.last()),
            }
        }
    }
}

impl View for Expansion {
    type V = ExpansionModel;

    closed spec fn view(&self) -> ExpansionModel {
        ExpansionModel { stack: self.stack@, started: self.started@ }
    }
}

impl Expansion {
    /// What holds of it between two operations.
    pub closed spec fn wf(&self) -> bool {
        &&& self@.wf()
        &&& forall|index: usize| #[trigger]
            self.expanded@.contains(index) <==> self.stack@.contains(index)
    }

    /// The expanded directories are told apart, and each has its time.
    pub proof fn law_expanded_directories_are_distinct(&self)
        requires
            self.wf(),
        ensures
            self@.wf(),
    {
    }

    /// Nothing is expanded.
    pub fn new() -> (r: Expansion)
        ensures
            r@ == ExpansionModel::none(),
            r.wf(),
    {
        broadcast use vstd::std_specs::hash::group_hash_axioms;

        let fresh = Expansion {
            expanded: HashSet::new(),
            stack: Vec::new(),
            started: HashMap::new(),
        };
        proof {
            assert(fresh@ =~= ExpansionModel::none());
        }
        fresh
    }

    /// Expands a directory; returns whether it was not expanded before.
    pub fn expand(&mut self, index: usize, time: u64) -> (is_new: bool)
        requires
            old(self).wf(),
        ensures
            final(self)@ == old(self)@.expand(index, time),
            is_new == !old(self)@.stack.contains(index),
            final(self).wf(),
    {
        broadcast use vstd::std_specs::hash::group_hash_axioms;

        let ghost before = self@;
        if self.expanded.insert(index) {
            self.stack.push(index);
            self.started.insert(index, time);
            proof {
                lemma_expand_keeps(before, index, time);
                assert(self@ =~= before.expand(index, time));
                assert forall|other: usize| #[trigger]
                    self.expanded@.contains(other) <==> self.stack@.contains(other) by {
                    lemma_push_contains(before.stack, index, other);
                }
            }
            true
        } else {
            proof {
                assert forall|other: usize| #[trigger]
                    self.expanded@.contains(other) <==> self.stack@.contains(other) by {}
            }
            false
        }
    }

    /// Collapses the directory that was expanded last, and returns it.
    pub fn collapse_last(&mut self) -> (r: Option<usize>)
        requires
            old(self).wf(),
        ensures
            final(self)@ == old(self)@.collapse_last(),
            r == if old(self)@.stack.len() > 0 {
                Some(old(self)@.stack.last())
            } else {
                None
            },
            final(self).wf(),
    {
        broadcast use vstd::std_specs::hash::group_hash_axioms;

        let ghost before = self@;
        match self.stack.pop() {
            Some(last) => {
                self.expanded.remove(&last);
                self.started.remove(&last);
                proof {
                    lemma_collapse_keeps(before);
                    assert(self@ =~= before.collapse_last());
                    assert forall|other: usize| #[trigger]
                        self.expanded@.contains(other) <==> self.stack@.contains(other) by {
                        lemma_drop_contains(before.stack, other);
                    }
                }
                Some(last)
            },
            None => {
                proof {
                    assert(self@ =~= before);
                }
                None
            },
        }
    }

    /// Collapses everything.
    pub fn clear(&mut self)
        ensures
            final(self)@ == ExpansionModel::none(),
            final(self).wf(),
    {
        *self = Expansion::new();
    }

    /// Whether a directory is expanded.
    pub fn contains(&self, index: usize) -> (r: bool)
        requires
            self.wf(),
        ensures
            r == self@.stack.contains(index),
    {
        broadcast use vstd::std_specs::hash::group_hash_axioms;

        self.expanded.contains(&index)
    }

    /// When a directory was expanded, if it is.
    pub fn started_at(&self, index: usize) -> (r: Option<u64>)
        ensures
            r == if self@.started.contains_key(index) {
                Some(self@.started[index])
            } else {
                None
            },
    {
        broadcast use vstd::std_specs::hash::group_hash_axioms;

        match self.started.get(&index) {
            Some(time) => Some(*time),
            None => None,
        }
    }

    /// The expanded directories, the one that was expanded last at the end.
    pub fn stack(&self) -> (r: &Vec<usize>)
        ensures
            r@ == self@.stack,
    {
        &self.stack
    }
}

proof fn lemma_push_contains(stack: Seq<usize>, index: usize, other: usize)
    ensures
        stack.push(index).contains(other) <==> stack.contains(other) || other == index,
{
    let longer = stack.push(index);
    if stack.contains(other) {
        let i = choose|i: int| 0 <= i < stack.len() && stack[i] == other;
        assert(longer[i] == other);
    }
    if other == index {
        assert(longer[stack.len() as int] == other);
    }
    if longer.contains(other) && other != index {
        let i = choose|i: int| 0 <= i < longer.len() && longer[i] == other;
        assert(stack[i] == other);
    }
}

proof fn lemma_drop_contains(stack: Seq<usize>, other: usize)
    requires
        stack.len() > 0,
        stack.no_duplicates(),
    ensures
        stack.drop_last().contains(other) <==> stack.contains(other) && other != stack.last(),
{
    let shorter = stack.drop_last();
    if shorter.contains(other) {
        let i = choose|i: int| 0 <= i < shorter.len() && shorter[i] == other;
        assert(stack[i] == other);
        assert(stack[i] != stack[stack.len() - 1]);
    }
    if stack.contains(other) && other != stack.last() {
        let i = choose|i: int| 0 <= i < stack.len() && stack[i] == other;
        assert(shorter[i] == other);
    }
}

proof fn lemma_expand_keeps(m: ExpansionModel, index: usize, time: u64)
    requires
        m.wf(),
    ensures
        m.expand(index, time).wf(),
{
    let n = m.expand(index, time);
    if !m.stack.contains(index) {
        assert forall|i: int, j: int|
            0 <= i < n.stack.len() && 0 <= j < n.stack.len() && i != j implies n.stack[i]
            != n.stack[j] by {
            if i < m.stack.len() && j < m.stack.len() {
                assert(m.stack[i] != m.stack[j]);
            } else if i < m.stack.len() {
                assert(m.stack[i] == n.stack[i]);
            } else {
                assert(m.stack[j] == n.stack[j]);
            }
        }
        assert forall|other: usize| #[trigger]
            n.started.contains_key(other) <==> n.stack.contains(other) by {
            lemma_push_contains(m.stack, index, other);
            assert(m.started.contains_key(other) <==> m.stack.contains(other));
        }
    }
}

proof fn lemma_collapse_keeps(m: ExpansionModel)
    requires
        m.wf(),
    ensures
        m.collapse_last().wf(),
{
    let n = m.collapse_last();
    if m.stack.len() > 0 {
        assert forall|other: usize| #[trigger]
            n.started.contains_key(other) <==> n.stack.contains(other) by {
            lemma_drop_contains(m.stack, other);
            assert(m.started.contains_key(other) <==> m.stack.contains(other));
        }
    }
}

/// To collapse what was expanded last undoes its expansion.
pub proof fn law_collapsing_undoes_expanding(m: ExpansionModel, index: usize, time: u64)
    requires
        m.wf(),
        !m.stack.contains(index),
    ensures
        m.expand(index, time).collapse_last() == m,
        m.expand(index, time).stack.last() == index,
{
    let n = m.expand(index, time).collapse_last();
    assert(n.stack =~= m.stack);
    assert(!m.started.contains_key(index));
    assert(n.started =~= m.started);
}

/// Each directory is expanded once, and its time is that of the first expansion.
pub proof fn law_expanding_twice_is_expanding_once(
    m: ExpansionModel,
    index: usize,
    time: u64,
    later: u64,
)
    requires
        m.wf(),
    ensures
        m.expand(index, time).expand(index, later) == m.expand(index, time),
        m.expand(index, time).wf(),
{
    lemma_expand_keeps(m, index, time);
    lemma_push_contains(m.stack, index, index);
}

/// A directory that is expanded comes last, with its time, and the others stay as
/// they are, in their order; it is expanded from then on. Only the last one is
/// collapsed.
pub proof fn law_expanded_directories_are_kept_in_order(
    m: ExpansionModel,
    index: usize,
    time: u64,
    other: usize,
)
    requires
        m.wf(),
    ensures
        m.expand(index, time).stack.contains(index),
        m.stack.contains(index) ==> m.expand(index, time) == m,
        !m.stack.contains(index) ==> m.expand(index, time).stack == m.stack.push(index)
            && m.expand(index, time).started.contains_key(index)
            && m.expand(index, time).started[index] == time,
        other != index ==> (m.expand(index, time).stack.contains(other) <==> m.stack.contains(
            other,
        )),
        other != index && m.stack.contains(other) ==> m.expand(index, time).started[other]
            == m.started[other],
        m.stack.len() == 0 ==> m.collapse_last() == m,
        m.stack.len() > 0 ==> m.collapse_last().stack == m.stack.take(m.stack.len() - 1)
            && !m.collapse_last().stack.contains(m.stack[m.stack.len() - 1]),
        m.stack.len() > 0 && m.collapse_last().stack.contains(other)
            ==> m.collapse_last().started[other] == m.started[other],
        !ExpansionModel::none().stack.contains(other),
        ExpansionModel::none().stack.len() == 0,
{
    lemma_push_contains(m.stack, index, index);
    lemma_push_contains(m.stack, index, other);
    if m.stack.len() > 0 {
        assert(m.stack.drop_last() =~= m.stack.take(m.stack.len() - 1));
        lemma_drop_contains(m.stack, m.stack.last());
        lemma_drop_contains(m.stack, other);
    }
}

} // verus!
