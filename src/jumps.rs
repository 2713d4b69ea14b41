//! Bracket resolution: the jump table that pairs every `[` with its `]`.
use crate::error::VmError;
use vstd::prelude::*;

verus! {

/// The loop-start instruction.
pub const OPEN: u8 = 0x5b;

/// The loop-end instruction.
pub const CLOSE: u8 = 0x5d;

pub open spec fn is_bracket(b: u8) -> bool {
    b == OPEN || b == CLOSE
}

/// How one byte changes the nesting depth.
pub open spec fn delta(b: u8) -> int {
    if b == OPEN {
        1
    } else if b == CLOSE {
        -1
    } else {
        0
    }
}

/// Opened minus closed brackets among the first `k` bytes of `p`.
pub open spec fn depth(p: Seq<u8>, k: int) -> int
    decreases k,
{
    if k <= 0 {
        0
    } else {
        depth(p, k - 1) + delta(p[k - 1])
    }
}

/// No prefix closes more brackets than it opened, and the whole program
/// closes all it opened.
pub open spec fn balanced(p: Seq<u8>) -> bool {
    &&& forall|k: int| 0 <= k <= p.len() ==> #[trigger] depth(p, k) >= 0
    &&& depth(p, p.len() as int) == 0
}

/// The `[` at `i` and the `]` at `j` delimit one loop: `j` is the first
/// position after `i` where the depth falls back to what it was before `i`.
pub open spec fn pairs(p: Seq<u8>, i: int, j: int) -> bool {
    &&& 0 <= i < j < p.len()
    &&& p[i] == OPEN
    &&& p[j] == CLOSE
    &&& depth(p, j + 1) == depth(p, i)
    &&& forall|k: int| i < k <= j ==> #[trigger] depth(p, k) > depth(p, i)
}

/// The bracket at `i` has no partner in `p`.
pub open spec fn unmatched(p: Seq<u8>, i: int) -> bool {
    &&& 0 <= i < p.len()
    &&& is_bracket(p[i])
    &&& !exists|j: int|
        #![trigger pairs(p, i, j)]
        #![trigger pairs(p, j, i)]
        pairs(p, i, j) || pairs(p, j, i)
}

/// The position of the bracket that delimits a loop together with the one at `i`.
pub open spec fn partner(p: Seq<u8>, i: int) -> int {
    choose|j: int| pairs(p, i, j) || pairs(p, j, i)
}

/// `t` holds, at each bracket of `p`, the position of its partner, and
/// nothing at any other byte.
pub open spec fn resolves(p: Seq<u8>, t: Seq<Option<usize>>) -> bool {
    &&& t.len() == p.len()
    &&& forall|i: int|
        0 <= i < p.len() ==> {
            &&& p[i] == OPEN ==> #[trigger] t[i] is Some && pairs(p, i, t[i]->0 as int)
            &&& p[i] == CLOSE ==> t[i] is Some && pairs(p, t[i]->0 as int, i)
            &&& !is_bracket(p[i]) ==> t[i] is None
        }
}

/// For each position of a program, the position of the bracket that pairs
/// with the one there, if there is a bracket there.
pub struct JumpTable {
    targets: Vec<Option<usize>>,
}

impl View for JumpTable {
    type V = Seq<Option<usize>>;

    closed spec fn view(&self) -> Seq<Option<usize>> {
        self.targets@
    }
}

impl JumpTable {
    /// Number of positions the table covers: the length of its program.
    pub fn len(&self) -> (r: usize)
        ensures
            r == self@.len(),
    {
        self.targets.len()
    }

    /// The position of the loop-end that closes the loop starting at `start`.
    pub fn forward(&self, start: usize) -> (r: Option<usize>)
        ensures
            r == (if start < self@.len() && self@[start as int] is Some && self@[start as int]->0
                > start {
                self@[start as int]
            } else {
                None
            }),
    {
        if start < self.targets.len() {
            match self.targets[start] {
                Some(end) => {
                    if end > start {
                        Some(end)
                    } else {
                        None
                    }
                },
                None => None,
            }
        } else {
            None
        }
    }

    /// The position of the loop-start that opens the loop ending at `end`.
    pub fn backward(&self, end: usize) -> (r: Option<usize>)
        ensures
            r == (if end < self@.len() && self@[end as int] is Some && self@[end as int]->0
                < end {
                self@[end as int]
            } else {
                None
            }),
    {
        if end < self.targets.len() {
            match self.targets[end] {
                Some(start) => {
                    if start < end {
                        Some(start)
                    } else {
                        None
                    }
                },
                None => None,
            }
        } else {
            None
        }
    }

    /// The partner of the bracket at `i`, for the engine's jumps.
    pub(crate) fn target(&self, i: usize) -> (r: usize)
        requires
            i < self@.len(),
            self@[i as int] is Some,
        ensures
            r == self@[i as int]->0,
    {
        match self.targets[i] {
            Some(j) => j,
            None => i,
        }
    }
}

/// A loop-start has at most one loop-end.
proof fn lemma_pair_end_unique(p: Seq<u8>, i: int, j1: int, j2: int)
    requires
        pairs(p, i, j1),
        pairs(p, i, j2),
    ensures
        j1 == j2,
{
    if j1 < j2 {
        assert(depth(p, j1 + 1) > depth(p, i));
    } else if j2 < j1 {
        assert(depth(p, j2 + 1) > depth(p, i));
    }
}

/// A loop-end has at most one loop-start.
proof fn lemma_pair_start_unique(p: Seq<u8>, i1: int, i2: int, j: int)
    requires
        pairs(p, i1, j),
        pairs(p, i2, j),
    ensures
        i1 == i2,
{
    if i1 < i2 {
        assert(depth(p, i2) > depth(p, i1));
    } else if i2 < i1 {
        assert(depth(p, i1) > depth(p, i2));
    }
}

/// A loop that starts inside another loop also ends inside it.
proof fn lemma_pairs_nest(p: Seq<u8>, a: int, b: int, c: int, d: int)
    requires
        pairs(p, a, b),
        pairs(p, c, d),
        a < c < b,
    ensures
        d < b,
{
    assert(depth(p, c) > depth(p, a));
    if d > b {
        assert(depth(p, b + 1) > depth(p, c));
    } else if d == b {
        assert(depth(p, d + 1) == depth(p, c));
    }
}

/// What a resolving table holds at a bracket is that bracket's partner.
pub proof fn lemma_target_is_partner(p: Seq<u8>, t: Seq<Option<usize>>, i: int)
    requires
        resolves(p, t),
        0 <= i < p.len(),
        is_bracket(p[i]),
    ensures
        t[i] is Some,
        t[i]->0 == partner(p, i),
        p[i] == OPEN ==> pairs(p, i, partner(p, i)),
        p[i] == CLOSE ==> pairs(p, partner(p, i), i),
{
    let j = t[i]->0 as int;
    if p[i] == OPEN {
        assert(pairs(p, i, j));
        let q = partner(p, i);
        assert(pairs(p, i, q) || pairs(p, q, i));
        lemma_pair_end_unique(p, i, j, q);
    } else {
        assert(pairs(p, j, i));
        let q = partner(p, i);
        assert(pairs(p, i, q) || pairs(p, q, i));
        lemma_pair_start_unique(p, j, q, i);
    }
}

/// In a table that resolves `p`, the entries of a loop-start and of its
/// loop-end point at each other, a loop-start points forward and a loop-end
/// backward, and two loops are either disjoint or one lies strictly inside
/// the other.
pub proof fn lemma_jump_table_well_nested(p: Seq<u8>, t: Seq<Option<usize>>)
    requires
        resolves(p, t),
    ensures
        forall|i: int|
            0 <= i < p.len() && p[i] == OPEN ==> {
                &&& #[trigger] t[i] is Some
                &&& i < t[i]->0 < p.len()
                &&& p[t[i]->0 as int] == CLOSE
                &&& t[t[i]->0 as int] == Some(i as usize)
            },
        forall|j: int|
            0 <= j < p.len() && p[j] == CLOSE ==> {
                &&& #[trigger] t[j] is Some
                &&& t[j]->0 < j
                &&& p[t[j]->0 as int] == OPEN
                &&& t[t[j]->0 as int] == Some(j as usize)
            },
        forall|a: int, c: int|
            0 <= a < c < p.len() && p[a] == OPEN && p[c] == OPEN ==> {
                ||| #[trigger] t[a]->0 < c
                ||| #[trigger] t[c]->0 < t[a]->0
            },
{
    assert forall|i: int| 0 <= i < p.len() && p[i] == OPEN implies {
        &&& #[trigger] t[i] is Some
        &&& i < t[i]->0 < p.len()
        &&& p[t[i]->0 as int] == CLOSE
        &&& t[t[i]->0 as int] == Some(i as usize)
    } by {
        let j = t[i]->0 as int;
        assert(pairs(p, i, j));
        assert(pairs(p, t[j]->0 as int, j));
        lemma_pair_start_unique(p, i, t[j]->0 as int, j);
    }
    assert forall|j: int| 0 <= j < p.len() && p[j] == CLOSE implies {
        &&& #[trigger] t[j] is Some
        &&& t[j]->0 < j
        &&& p[t[j]->0 as int] == OPEN
        &&& t[t[j]->0 as int] == Some(j as usize)
    } by {
        let i = t[j]->0 as int;
        assert(pairs(p, i, j));
        assert(pairs(p, i, t[i]->0 as int));
        lemma_pair_end_unique(p, i, j, t[i]->0 as int);
    }
    assert forall|a: int, c: int| 0 <= a < c < p.len() && p[a] == OPEN && p[c] == OPEN implies {
        ||| #[trigger] t[a]->0 < c
        ||| #[trigger] t[c]->0 < t[a]->0
    } by {
        let b = t[a]->0 as int;
        let d = t[c]->0 as int;
        assert(pairs(p, a, b));
        assert(pairs(p, c, d));
        if c < b {
            lemma_pairs_nest(p, a, b, c, d);
        } else {
            assert(c != b);
        }
    }
}

/// In a balanced program, the first position after a loop-start where the
/// depth falls back is its loop-end.
proof fn lemma_find_end(p: Seq<u8>, i: int, k: int)
    requires
        balanced(p),
        0 <= i < p.len(),
        p[i] == OPEN,
        i < k <= p.len(),
        forall|m: int| i < m <= k ==> #[trigger] depth(p, m) > depth(p, i),
    ensures
        exists|j: int| pairs(p, i, j),
    decreases p.len() - k,
{
    assert(depth(p, p.len() as int) == 0);
    assert(depth(p, i) >= 0);
    assert(k < p.len());
    assert(depth(p, k + 1) == depth(p, k) + delta(p[k]));
    if depth(p, k + 1) <= depth(p, i) {
        assert(pairs(p, i, k));
    } else {
        lemma_find_end(p, i, k + 1);
    }
}

/// In a balanced program, the last position before a loop-end where the
/// depth is what it will be after the loop-end is its loop-start.
proof fn lemma_find_start(p: Seq<u8>, j: int, k: int)
    requires
        balanced(p),
        0 <= j < p.len(),
        p[j] == CLOSE,
        0 <= k <= j,
        forall|m: int| k <= m <= j ==> #[trigger] depth(p, m) > depth(p, j + 1),
    ensures
        exists|i: int| pairs(p, i, j),
    decreases k,
{
    assert(depth(p, j + 1) >= 0);
    assert(depth(p, 0) == 0);
    assert(k > 0);
    assert(depth(p, k) == depth(p, k - 1) + delta(p[k - 1]));
    if depth(p, k - 1) <= depth(p, j + 1) {
        assert(depth(p, j + 1) == depth(p, j) + delta(p[j]));
        assert(pairs(p, k - 1, j));
    } else {
        lemma_find_start(p, j, k - 1);
    }
}

/// A program with a bracket that has no partner is not balanced, so
/// resolution rejects it.
pub proof fn lemma_unmatched_is_unbalanced(p: Seq<u8>, i: int)
    requires
        unmatched(p, i),
    ensures
        !balanced(p),
{
    if balanced(p) {
        assert(depth(p, i + 1) == depth(p, i) + delta(p[i]));
        if p[i] == OPEN {
            lemma_find_end(p, i, i + 1);
            let j = choose|j: int| pairs(p, i, j);
            assert(pairs(p, i, j) || pairs(p, j, i));
        } else {
            lemma_find_start(p, i, i);
            let h = choose|h: int| pairs(p, h, i);
            assert(pairs(p, i, h) || pairs(p, h, i));
        }
    }
}

/// Builds the jump table of `program` in one pass with a stack of the
/// loop-starts still open, or reports that its brackets do not balance.
pub fn resolve(program: &Vec<u8>) -> (r: Result<JumpTable, VmError>)
    ensures
        r is Ok <==> balanced(program@),
        r matches Ok(t) ==> resolves(program@, t@),
        r matches Err(e) ==> e == VmError::UnbalancedBrackets,
        forall|i: int| #[trigger] unmatched(program@, i) ==> r == Err::<JumpTable, VmError>(
            VmError::UnbalancedBrackets,
        ),
{
    proof {
        assert forall|i: int| #[trigger] unmatched(program@, i) implies !balanced(program@) by {
            lemma_unmatched_is_unbalanced(program@, i);
        }
    }
    let n = program.len();
    let ghost p = program@;
    let mut targets: Vec<Option<usize>> = Vec::new();
    let mut k: usize = 0;
    while k < n
        invariant
            k <= n,
            targets.len() == k,
            forall|x: int| 0 <= x < k ==> #[trigger] targets@[x] is None,
        decreases n - k,
    {
        targets.push(None);
        k = k + 1;
    }
    let mut stack: Vec<usize> = Vec::new();
    let mut i: usize = 0;
    while i < n
        invariant
            p == program@,
            n == p.len(),
            i <= n,
            targets.len() == n,
            stack.len() == depth(p, i as int),
            forall|k: int| 0 <= k <= i ==> #[trigger] depth(p, k) >= 0,
            forall|m: int|
                0 <= m < stack.len() ==> {
                    &&& #[trigger] stack@[m] < i
                    &&& p[stack@[m] as int] == OPEN
                    &&& depth(p, stack@[m] as int) == m
                    &&& forall|k: int| stack@[m] < k <= i ==> #[trigger] depth(p, k) > m
                },
            forall|m1: int, m2: int|
                0 <= m1 < m2 < stack.len() ==> #[trigger] stack@[m1] < #[trigger] stack@[m2],
            forall|x: int|
                0 <= x < i && p[x] == OPEN && !stack@.contains(x as usize) ==> {
                    &&& #[trigger] targets@[x] is Some
                    &&& pairs(p, x, targets@[x]->0 as int)
                },
            forall|x: int|
                0 <= x < i && p[x] == CLOSE ==> {
                    &&& #[trigger] targets@[x] is Some
                    &&& pairs(p, targets@[x]->0 as int, x)
                },
            forall|x: int| 0 <= x < n && !is_bracket(p[x]) ==> #[trigger] targets@[x] is None,
        decreases n - i,
    {
        let b = program[i];
        assert(depth(p, i + 1) == depth(p, i as int) + delta(p[i as int]));
        if b == OPEN {
            let ghost old_stack = stack@;
            stack.push(i);
            assert(stack@[stack.len() - 1] == i);
            assert forall|x: int|
                0 <= x < i && !#[trigger] stack@.contains(x as usize) implies !old_stack.contains(
                x as usize,
            ) by {
                if old_stack.contains(x as usize) {
                    let m = choose|m: int| 0 <= m < old_stack.len() && old_stack[m] == x as usize;
                    assert(stack@[m] == x as usize);
                }
            }
        } else if b == CLOSE {
            if stack.len() == 0 {
                assert(depth(p, i + 1) < 0);
                return Err(VmError::UnbalancedBrackets);
            }
            let ghost old_stack = stack@;
            let s = stack.pop().unwrap();
            assert(old_stack[old_stack.len() - 1] == s);
            assert(pairs(p, s as int, i as int));
            targets[s] = Some(i);
            targets[i] = Some(s);
            assert forall|x: int| 0 <= x < i + 1 && p[x] == OPEN && !stack@.contains(x as usize) implies {
                &&& #[trigger] targets@[x] is Some
                &&& pairs(p, x, targets@[x]->0 as int)
            } by {
                if x != s {
                    if old_stack.contains(x as usize) {
                        let m = choose|m: int| 0 <= m < old_stack.len() && old_stack[m] == x as usize;
                        if m < stack.len() {
                            assert(stack@[m] == x as usize);
                        } else {
                            assert(m == old_stack.len() - 1);
                        }
                    }
                }
            }
        }
        i = i + 1;
    }
    if stack.len() > 0 {
        return Err(VmError::UnbalancedBrackets);
    }
    assert(stack@ =~= Seq::<usize>::empty());
    Ok(JumpTable { targets })
}

} // verus!
