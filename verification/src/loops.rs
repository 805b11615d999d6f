//! Loop resolution: pairing every loop boundary with its partner.
//!
//! The nesting depth of a position is the number of loops that are open
//! there. A `BeginLoop` and a later `EndLoop` form a loop when the depth
//! first comes back to its value before the `BeginLoop` right after the
//! `EndLoop`. The resolver finds all loops in one pass, with a stack of the
//! loops that are still open.

use vstd::prelude::*;
use crate::instruction::BrainfuckInstructions;

verus! {

/// `i` is the place of a `BeginLoop`.
pub open spec fn is_open(s: Seq<BrainfuckInstructions>, i: int) -> bool {
    0 <= i < s.len() && s[i] == BrainfuckInstructions::BeginLoop
}

/// `i` is the place of an `EndLoop`.
pub open spec fn is_close(s: Seq<BrainfuckInstructions>, i: int) -> bool {
    0 <= i < s.len() && s[i] == BrainfuckInstructions::EndLoop
}

/// The nesting depth before instruction `k`: the number of `BeginLoop`
/// among the first `k` instructions less the number of `EndLoop` there.
pub open spec fn depth(s: Seq<BrainfuckInstructions>, k: int) -> int
    recommends
        0 <= k <= s.len(),
    decreases k,
{
    if k <= 0 {
        0
    } else if s[k - 1] == BrainfuckInstructions::BeginLoop {
        depth(s, k - 1) + 1
    } else if s[k - 1] == BrainfuckInstructions::EndLoop {
        depth(s, k - 1) - 1
    } else {
        depth(s, k - 1)
    }
}

/// From just after `open` up to and including `upto`, the depth stays
/// above its value before `open`: what `open` begins is not closed yet.
pub open spec fn open_through(s: Seq<BrainfuckInstructions>, open: int, upto: int) -> bool {
    forall|k: int| open < k <= upto ==> #[trigger] depth(s, k) > depth(s, open)
}

/// The `BeginLoop` at `open` and the `EndLoop` at `close` bound one loop.
pub open spec fn loop_pair(s: Seq<BrainfuckInstructions>, open: int, close: int) -> bool {
    &&& is_open(s, open)
    &&& is_close(s, close)
    &&& open < close
    &&& open_through(s, open, close)
    &&& depth(s, close + 1) == depth(s, open)
}

/// Every `EndLoop` closes a loop and every loop is closed.
pub open spec fn balanced(s: Seq<BrainfuckInstructions>) -> bool {
    &&& forall|k: int| 0 <= k <= s.len() ==> #[trigger] depth(s, k) >= 0
    &&& depth(s, s.len() as int) == 0
}

/// Some prefix holds more `EndLoop` than `BeginLoop`.
pub open spec fn has_unmatched_close(s: Seq<BrainfuckInstructions>) -> bool {
    exists|k: int| 0 <= k <= s.len() && #[trigger] depth(s, k) < 0
}

/// The instruction at `i` is the first `EndLoop` that closes nothing: the
/// prefix that ends with it is the shortest one with more `EndLoop` than
/// `BeginLoop`.
pub open spec fn first_unmatched_close(s: Seq<BrainfuckInstructions>, i: int) -> bool {
    &&& 0 <= i < s.len()
    &&& depth(s, i + 1) < 0
    &&& forall|k: int| 0 <= k <= i ==> #[trigger] depth(s, k) >= 0
}

/// The `BeginLoop` at `i` is never closed.
pub open spec fn never_closed(s: Seq<BrainfuckInstructions>, i: int) -> bool {
    is_open(s, i) && open_through(s, i, s.len() as int)
}

/// No prefix holds more `EndLoop` than `BeginLoop`, some `BeginLoop` is
/// never closed, and `opens` lists the places of all of those, outermost
/// first: the one that stands at depth `d` is entry `d` of the list.
pub open spec fn unclosed_opens(s: Seq<BrainfuckInstructions>, opens: Seq<usize>) -> bool {
    &&& !has_unmatched_close(s)
    &&& depth(s, s.len() as int) > 0
    &&& opens.len() == depth(s, s.len() as int)
    &&& forall|p: int, q: int| 0 <= p < q < opens.len() ==> opens[p] < opens[q]
    &&& forall|p: int| 0 <= p < opens.len() ==> never_closed(s, #[trigger] opens[p] as int)
    &&& forall|i: int| #[trigger]
        never_closed(s, i) ==> 0 <= depth(s, i) < opens.len() && opens[depth(s, i)] == i
}

/// The place of the `EndLoop` that closes the `BeginLoop` at `open`.
pub open spec fn loop_end(s: Seq<BrainfuckInstructions>, open: int) -> int {
    choose|close: int| loop_pair(s, open, close)
}

/// The place of the `BeginLoop` that the `EndLoop` at `close` closes.
pub open spec fn loop_begin(s: Seq<BrainfuckInstructions>, close: int) -> int {
    choose|open: int| loop_pair(s, open, close)
}

/// `m` maps the place of every `BeginLoop` to the place of the `EndLoop`
/// that closes it, the place of every `EndLoop` to the place of the
/// `BeginLoop` that it closes, and nothing else.
pub open spec fn is_jump_map(s: Seq<BrainfuckInstructions>, m: Map<int, int>) -> bool {
    &&& forall|i: int| #[trigger] m.dom().contains(i) <==> is_open(s, i) || is_close(s, i)
    &&& forall|i: int| #[trigger] m.dom().contains(i) && is_open(s, i) ==> loop_pair(s, i, m[i])
    &&& forall|i: int| #[trigger] m.dom().contains(i) && is_close(s, i) ==> loop_pair(s, m[i], i)
}

/// The map from every loop boundary of `s` to its partner.
pub open spec fn jump_map(s: Seq<BrainfuckInstructions>) -> Map<int, int> {
    Map::new(
        |i: int| is_open(s, i) || is_close(s, i),
        |i: int|
            if is_open(s, i) {
                loop_end(s, i)
            } else {
                loop_begin(s, i)
            },
    )
}

/// Following `m` twice from any place that it maps leads back there.
pub open spec fn is_involution(m: Map<int, int>) -> bool {
    forall|i: int| #[trigger] m.dom().contains(i) ==> m.dom().contains(m[i]) && m[m[i]] == i
}

/// A `BeginLoop` is closed by at most one `EndLoop`, and an `EndLoop`
/// closes at most one `BeginLoop`.
pub proof fn lemma_loop_pair_unique(
    s: Seq<BrainfuckInstructions>,
    open1: int,
    close1: int,
    open2: int,
    close2: int,
)
    requires
        loop_pair(s, open1, close1),
        loop_pair(s, open2, close2),
    ensures
        open1 == open2 <==> close1 == close2,
{
    if open1 == open2 {
        if close1 < close2 {
            assert(depth(s, close1 + 1) > depth(s, open2));
        } else if close2 < close1 {
            assert(depth(s, close2 + 1) > depth(s, open1));
        }
    }
    if close1 == close2 {
        if open1 < open2 {
            assert(depth(s, open2) > depth(s, open1));
        } else if open2 < open1 {
            assert(depth(s, open1) > depth(s, open2));
        }
    }
}

/// A loop's two ends name each other.
pub proof fn lemma_loop_pair_ends(s: Seq<BrainfuckInstructions>, open: int, close: int)
    requires
        loop_pair(s, open, close),
    ensures
        loop_end(s, open) == close,
        loop_begin(s, close) == open,
{
    lemma_loop_pair_unique(s, open, close, open, loop_end(s, open));
    lemma_loop_pair_unique(s, open, close, loop_begin(s, close), close);
}

/// Scanning to the right from a `BeginLoop` of a sequence whose depth
/// comes back down finds the `EndLoop` that closes it.
proof fn lemma_close_exists(s: Seq<BrainfuckInstructions>, open: int, scanned: int)
    requires
        is_open(s, open),
        open < scanned <= s.len(),
        open_through(s, open, scanned),
        depth(s, s.len() as int) <= depth(s, open),
    ensures
        exists|close: int| loop_pair(s, open, close),
    decreases s.len() - scanned,
{
    assert(depth(s, scanned) > depth(s, open));
    if depth(s, scanned + 1) > depth(s, open) {
        lemma_close_exists(s, open, scanned + 1);
    } else {
        assert(loop_pair(s, open, scanned));
    }
}

/// Scanning to the left from an `EndLoop` that is not below depth zero
/// finds the `BeginLoop` that it closes.
proof fn lemma_open_exists(s: Seq<BrainfuckInstructions>, close: int, scanned: int)
    requires
        is_close(s, close),
        0 <= scanned <= close,
        forall|k: int| scanned <= k <= close ==> #[trigger] depth(s, k) > depth(s, close + 1),
        depth(s, close + 1) >= 0,
    ensures
        exists|open: int| loop_pair(s, open, close),
    decreases scanned,
{
    assert(depth(s, scanned) > depth(s, close + 1));
    if depth(s, scanned - 1) > depth(s, close + 1) {
        lemma_open_exists(s, close, scanned - 1);
    } else {
        assert(loop_pair(s, scanned - 1, close));
    }
}

/// In a balanced sequence every `BeginLoop` is closed by an `EndLoop`
/// behind it and every `EndLoop` closes a `BeginLoop` before it.
pub proof fn lemma_balanced_loops_pair(s: Seq<BrainfuckInstructions>)
    requires
        balanced(s),
    ensures
        forall|i: int| is_open(s, i) ==> loop_pair(s, i, #[trigger] loop_end(s, i)),
        forall|i: int| is_close(s, i) ==> loop_pair(s, #[trigger] loop_begin(s, i), i),
{
    assert forall|i: int| is_open(s, i) implies loop_pair(s, i, #[trigger] loop_end(s, i)) by {
        assert(depth(s, i) >= 0);
        assert(depth(s, i + 1) > depth(s, i));
        lemma_close_exists(s, i, i + 1);
    }
    assert forall|i: int| is_close(s, i) implies loop_pair(s, #[trigger] loop_begin(s, i), i) by {
        assert(depth(s, i + 1) >= 0);
        assert(depth(s, i) > depth(s, i + 1));
        lemma_open_exists(s, i, i);
    }
}

/// The jump map of a balanced sequence is `jump_map`.
pub proof fn lemma_jump_map(s: Seq<BrainfuckInstructions>)
    requires
        balanced(s),
    ensures
        is_jump_map(s, jump_map(s)),
{
    lemma_balanced_loops_pair(s);
}

/// Every loop opens before it closes, and a jump map is its own inverse:
/// following it twice from a loop boundary leads back there.
pub proof fn lemma_jump_map_involution(s: Seq<BrainfuckInstructions>, m: Map<int, int>)
    requires
        is_jump_map(s, m),
    ensures
        forall|i: int| #[trigger] m.dom().contains(i) && is_open(s, i) ==> i < m[i] && is_close(s, m[i]),
        forall|i: int| #[trigger] m.dom().contains(i) && is_close(s, i) ==> m[i] < i && is_open(s, m[i]),
        is_involution(m),
{
    assert forall|i: int| #[trigger] m.dom().contains(i) implies m.dom().contains(m[i]) && m[m[i]]
        == i by {
        if is_open(s, i) {
            let j = m[i];
            assert(loop_pair(s, i, j));
            assert(is_close(s, j));
            assert(m.dom().contains(j));
            lemma_loop_pair_unique(s, i, j, m[j], j);
        } else {
            let j = m[i];
            assert(is_close(s, i));
            assert(loop_pair(s, j, i));
            assert(is_open(s, j));
            assert(m.dom().contains(j));
            lemma_loop_pair_unique(s, j, i, j, m[j]);
        }
    }
}

/// A sequence of instructions has at most one jump map: resolving it
/// again gives the same table.
pub proof fn lemma_jump_map_unique(
    s: Seq<BrainfuckInstructions>,
    m1: Map<int, int>,
    m2: Map<int, int>,
)
    requires
        is_jump_map(s, m1),
        is_jump_map(s, m2),
    ensures
        m1 == m2,
{
    assert forall|i: int| m1.dom().contains(i) implies #[trigger] m1[i] == m2[i] by {
        assert(m2.dom().contains(i));
        if is_open(s, i) {
            lemma_loop_pair_unique(s, i, m1[i], i, m2[i]);
        } else {
            assert(is_close(s, i));
            lemma_loop_pair_unique(s, m1[i], i, m2[i], i);
        }
    }
    assert(m1 =~= m2);
}

/// A sequence of instructions has at most one list of the loops that are
/// never closed.
pub proof fn lemma_unclosed_opens_unique(
    s: Seq<BrainfuckInstructions>,
    opens1: Seq<usize>,
    opens2: Seq<usize>,
)
    requires
        unclosed_opens(s, opens1),
        unclosed_opens(s, opens2),
    ensures
        opens1 == opens2,
{
    assert forall|p: int| 0 <= p < opens1.len() implies opens1[p] == opens2[p] by {
        let i = opens1[p] as int;
        assert(never_closed(s, i));
        assert(opens1[depth(s, i)] == i);
        if depth(s, i) < p {
            assert(opens1[depth(s, i)] < opens1[p]);
        } else if p < depth(s, i) {
            assert(opens1[p] < opens1[depth(s, i)]);
        }
        assert(opens2[depth(s, i)] == i);
    }
    assert(opens1 =~= opens2);
}

/// Why resolution failed.
#[derive(Debug, Clone, PartialEq, Eq)]
pub enum UnbalancedLoopError {
    /// The `EndLoop` at this place closes nothing.
    UnmatchedClose(usize),
    /// The `BeginLoop` at these places are never closed.
    UnmatchedOpen(Vec<usize>),
}

/// `error` says what is wrong with the loops of `s`: it names the first
/// `EndLoop` that closes nothing or, where there is none, every
/// `BeginLoop` that is never closed, outermost first.
pub open spec fn resolve_failure(s: Seq<BrainfuckInstructions>, error: UnbalancedLoopError) -> bool {
    match error {
        UnbalancedLoopError::UnmatchedClose(i) => first_unmatched_close(s, i as int),
        UnbalancedLoopError::UnmatchedOpen(opens) => unclosed_opens(s, opens@),
    }
}

/// For every loop boundary of a sequence of instructions, the place of its
/// partner.
#[derive(Debug, Clone, PartialEq, Eq)]
pub struct JumpTable {
    targets: Vec<Option<usize>>,
}

impl View for JumpTable {
    type V = Map<int, int>;

    closed spec fn view(&self) -> Map<int, int> {
        Map::new(
            |i: int| 0 <= i < self.targets@.len() && self.targets@[i] is Some,
            |i: int| self.targets@[i].unwrap() as int,
        )
    }
}

impl JumpTable {
    /// The partner of the loop boundary at `index`; `None` where no loop
    /// boundary stands.
    pub fn get(&self, index: usize) -> (r: Option<usize>)
        ensures
            match r {
                Some(target) => self@.dom().contains(index as int) && self@[index as int] == target,
                None => !self@.dom().contains(index as int),
            },
    {
        if index < self.targets.len() {
            self.targets[index]
        } else {
            None
        }
    }
}

/// What the scan knows of the loop that is `p` deep on the stack.
spec fn pending_entry(s: Seq<BrainfuckInstructions>, scanned: int, pending: Seq<usize>, p: int) -> bool {
    &&& is_open(s, pending[p] as int)
    &&& pending[p] < scanned
    &&& depth(s, pending[p] as int) == p
    &&& open_through(s, pending[p] as int, scanned)
}

/// What the scan has entered in the table for place `a`.
spec fn table_entry(s: Seq<BrainfuckInstructions>, scanned: int, entry: Option<usize>, a: int) -> bool {
    if a < scanned && is_open(s, a) {
        match entry {
            Some(b) => loop_pair(s, a, b as int),
            None => open_through(s, a, scanned),
        }
    } else if a < scanned && is_close(s, a) {
        match entry {
            Some(b) => loop_pair(s, b as int, a),
            None => false,
        }
    } else {
        entry is None
    }
}

/// Pairs every loop boundary with its partner, in one pass from left to
/// right.
///
/// Succeeds exactly on balanced sequences. Otherwise it reports the first
/// `EndLoop` that closes nothing or, where there is none, every
/// `BeginLoop` that is never closed.
pub fn resolve(instructions: &[BrainfuckInstructions]) -> (r: Result<
    JumpTable,
    UnbalancedLoopError,
>)
    ensures
        balanced(instructions@) <==> r is Ok,
        has_unmatched_close(instructions@) <==> r matches Err(
            UnbalancedLoopError::UnmatchedClose(_),
        ),
        !has_unmatched_close(instructions@) && depth(instructions@, instructions@.len() as int) > 0
            <==> r matches Err(UnbalancedLoopError::UnmatchedOpen(_)),
        match r {
            Ok(table) => table@ == jump_map(instructions@) && is_jump_map(instructions@, table@)
                && is_involution(table@),
            Err(error) => resolve_failure(instructions@, error),
        },
{
    let ghost s = instructions@;
    let n = instructions.len();
    let mut targets: Vec<Option<usize>> = Vec::new();
    while targets.len() < n
        invariant
            targets.len() <= n,
            forall|a: int| 0 <= a < targets.len() ==> targets@[a] is None,
        decreases n - targets.len(),
    {
        targets.push(None);
    }
    let mut pending: Vec<usize> = Vec::new();
    let mut i: usize = 0;
    while i < n
        invariant
            s == instructions@,
            n == s.len(),
            i <= n,
            targets.len() == n,
            forall|k: int| 0 <= k <= i ==> #[trigger] depth(s, k) >= 0,
            pending.len() == depth(s, i as int),
            forall|p: int| 0 <= p < pending.len() ==> #[trigger] pending_entry(s, i as int, pending@, p),
            forall|a: int| 0 <= a < n ==> table_entry(s, i as int, #[trigger] targets@[a], a),
        decreases n - i,
    {
        let ghost before = pending@;
        let ghost table_before = targets@;
        match instructions[i] {
            BrainfuckInstructions::BeginLoop => {
                pending.push(i);
                proof {
                    assert forall|p: int| 0 <= p < pending.len() implies #[trigger] pending_entry(
                        s,
                        i + 1,
                        pending@,
                        p,
                    ) by {
                        if p < before.len() {
                            assert(pending_entry(s, i as int, before, p));
                        }
                    }
                }
            },
            BrainfuckInstructions::EndLoop => {
                match pending.pop() {
                    None => {
                        proof {
                            assert(depth(s, i + 1) < 0);
                        }
                        return Err(UnbalancedLoopError::UnmatchedClose(i));
                    },
                    Some(open) => {
                        proof {
                            assert(pending_entry(s, i as int, before, before.len() - 1));
                            assert(loop_pair(s, open as int, i as int));
                        }
                        targets[open] = Some(i);
                        targets[i] = Some(open);
                        proof {
                            assert forall|p: int| 0 <= p < pending.len() implies #[trigger] pending_entry(
                                s,
                                i + 1,
                                pending@,
                                p,
                            ) by {
                                assert(pending_entry(s, i as int, before, p));
                            }
                            assert forall|a: int| 0 <= a < n implies table_entry(
                                s,
                                i + 1,
                                #[trigger] targets@[a],
                                a,
                            ) by {
                                assert(table_entry(s, i as int, table_before[a], a));
                                if a != open && a != i && a < i && is_open(s, a) && table_before[a] is None {
                                    if a < open {
                                        assert(depth(s, open as int) > depth(s, a));
                                    } else {
                                        assert(depth(s, a) > depth(s, open as int));
                                        assert(depth(s, i as int) > depth(s, a));
                                    }
                                }
                            }
                        }
                    },
                }
            },
            _ => {
                proof {
                    assert forall|p: int| 0 <= p < pending.len() implies #[trigger] pending_entry(
                        s,
                        i + 1,
                        pending@,
                        p,
                    ) by {
                        assert(pending_entry(s, i as int, before, p));
                    }
                }
            },
        }
        proof {
            assert forall|a: int| 0 <= a < n implies table_entry(
                s,
                i + 1,
                #[trigger] targets@[a],
                a,
            ) by {
                if !is_close(s, i as int) {
                    assert(table_entry(s, i as int, table_before[a], a));
                }
            }
        }
        i += 1;
    }
    if pending.len() > 0 {
        proof {
            assert forall|p: int, q: int| 0 <= p < q < pending.len() implies pending@[p] < pending@[q] by {
                assert(pending_entry(s, n as int, pending@, p));
                assert(pending_entry(s, n as int, pending@, q));
                if pending@[q] < pending@[p] {
                    assert(depth(s, pending@[p] as int) > depth(s, pending@[q] as int));
                }
            }
            assert forall|p: int| 0 <= p < pending.len() implies never_closed(
                s,
                #[trigger] pending@[p] as int,
            ) by {
                assert(pending_entry(s, n as int, pending@, p));
            }
            assert forall|a: int| #[trigger] never_closed(s, a) implies 0 <= depth(s, a)
                < pending.len() && pending@[depth(s, a)] == a by {
                assert(depth(s, n as int) > depth(s, a));
                let p = depth(s, a);
                assert(pending_entry(s, n as int, pending@, p));
                let e = pending@[p] as int;
                if e < a {
                    assert(depth(s, a) > depth(s, e));
                } else if a < e {
                    assert(depth(s, e) > depth(s, a));
                }
            }
        }
        return Err(UnbalancedLoopError::UnmatchedOpen(pending));
    }
    let table = JumpTable { targets };
    proof {
        assert forall|a: int| #[trigger] table@.dom().contains(a) <==> is_open(s, a) || is_close(
            s,
            a,
        ) by {
            if 0 <= a < n {
                assert(table_entry(s, n as int, targets@[a], a));
                if is_open(s, a) && targets@[a] is None {
                    assert(depth(s, n as int) > depth(s, a));
                }
            }
        }
        assert forall|a: int| #[trigger] table@.dom().contains(a) && is_open(s, a) implies loop_pair(
            s,
            a,
            table@[a],
        ) by {
            assert(table_entry(s, n as int, targets@[a], a));
        }
        assert forall|a: int| #[trigger] table@.dom().contains(a) && is_close(s, a) implies loop_pair(
            s,
            table@[a],
            a,
        ) by {
            assert(table_entry(s, n as int, targets@[a], a));
        }
        lemma_jump_map_involution(s, table@);
        lemma_jump_map(s);
        lemma_jump_map_unique(s, table@, jump_map(s));
    }
    Ok(table)
}

} // verus!
