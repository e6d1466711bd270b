//! The search frontier: nodes waiting to be expanded, each with the cost it
//! was queued with. The entry with the least cost leaves first; among equal
//! costs, the one that was queued first.
//!
//! Every entry ever queued is kept in a log, and its place in the log is
//! its ticket. The tickets of the waiting entries stand in a binary heap,
//! ordered by cost and then by ticket.
use vstd::prelude::*;

verus! {

/// One queued node of the search: the place of a coordinate in the map's
/// list, and the cost that the node is queued with.
#[derive(Clone, Copy, Debug)]
pub struct Node {
    pub coord: usize,
    pub cost: u64,
}

impl Node {
    /// The node for the coordinate at place `coord`, to be queued with the
    /// cost `f_cost`.
    pub fn from(coord: usize, f_cost: u64) -> (r: Node)
        ensures
            r == (Node { coord, cost: f_cost }),
    {
        Node { coord, cost: f_cost }
    }
}

/// Whether `i` is the place of the entry that leaves `entries` next: none
/// has a lower cost, and none before it has the same.
pub open spec fn leaves_next(entries: Seq<Node>, i: int) -> bool {
    &&& 0 <= i < entries.len()
    &&& forall|j: int| 0 <= j < entries.len() ==> entries[i].cost <= (#[trigger] entries[j]).cost
    &&& forall|j: int| 0 <= j < i ==> entries[i].cost < (#[trigger] entries[j]).cost
}

/// Whether the entry with ticket `a` leaves no later than the one with
/// ticket `b`.
spec fn earlier(log: Seq<Node>, a: usize, b: usize) -> bool {
    log[a as int].cost < log[b as int].cost || (log[a as int].cost == log[b as
        int].cost && a <= b)
}

/// The place above place `k` of the heap.
spec fn above(k: int) -> int {
    (k - 1) / 2
}

/// Whether every ticket of the heap is a ticket of the log.
spec fn within(log: Seq<Node>, heap: Seq<usize>) -> bool {
    forall|k: int| 0 <= k < heap.len() ==> (#[trigger] heap[k]) < log.len()
}

/// Whether the heap is in order but for the place `up`, which may stand
/// before the place above it, and but for the places below `down`, which
/// may stand before `down`. The places below an excepted place are in order
/// with the place above it.
spec fn ordered_but(log: Seq<Node>, heap: Seq<usize>, up: int, down: int) -> bool {
    &&& forall|k: int|
        1 <= k < heap.len() && k != up && above(k) != down ==> earlier(
            log,
            #[trigger] heap[above(k)],
            heap[k],
        )
    &&& forall|k: int|
        1 <= k < heap.len() && above(k) >= 1 && (above(k) == up || above(k) == down) ==> earlier(
            log,
            #[trigger] heap[above(above(k))],
            heap[k],
        )
}

/// Whether the heap holds the waiting tickets, each once.
spec fn holds(heap: Seq<usize>, tickets: Seq<usize>) -> bool {
    &&& forall|k: int| 0 <= k < heap.len() ==> tickets.contains(#[trigger] heap[k])
    &&& forall|i: int| 0 <= i < tickets.len() ==> heap.contains(#[trigger] tickets[i])
    &&& forall|k: int, l: int| 0 <= k < l < heap.len() ==> heap[k] != heap[l]
}

/// Whether the tickets rise.
spec fn rising(tickets: Seq<usize>) -> bool {
    forall|i: int, j: int| 0 <= i < j < tickets.len() ==> tickets[i] < tickets[j]
}

/// The heap with the tickets at places `a` and `b` exchanged.
spec fn exchanged(heap: Seq<usize>, a: int, b: int) -> Seq<usize> {
    heap.update(a, heap[b]).update(b, heap[a])
}

proof fn lemma_exchanged_holds(heap: Seq<usize>, tickets: Seq<usize>, a: int, b: int)
    requires
        holds(heap, tickets),
        0 <= a < heap.len(),
        0 <= b < heap.len(),
    ensures
        holds(exchanged(heap, a, b), tickets),
{
    let after = exchanged(heap, a, b);
    assert forall|k: int| 0 <= k < after.len() implies tickets.contains(#[trigger] after[k]) by {
        let from = if k == a {
            b
        } else if k == b {
            a
        } else {
            k
        };
        assert(after[k] == heap[from]);
    }
    assert forall|i: int| 0 <= i < tickets.len() implies after.contains(#[trigger] tickets[i]) by {
        assert(heap.contains(tickets[i]));
        let k = choose|k: int| 0 <= k < heap.len() && heap[k] == tickets[i];
        let to = if k == a {
            b
        } else if k == b {
            a
        } else {
            k
        };
        assert(after[to] == tickets[i]);
    }
    assert forall|k: int, l: int| 0 <= k < l < after.len() implies after[k] != after[l] by {
        let k0 = if k == a {
            b
        } else if k == b {
            a
        } else {
            k
        };
        let l0 = if l == a {
            b
        } else if l == b {
            a
        } else {
            l
        };
        assert(after[k] == heap[k0]);
        assert(after[l] == heap[l0]);
        if k0 < l0 {
            assert(heap[k0] != heap[l0]);
        } else {
            assert(heap[l0] != heap[k0]);
        }
    }
}

/// In an ordered heap no entry leaves before the one at the top.
proof fn lemma_top_is_earliest(log: Seq<Node>, heap: Seq<usize>, k: int)
    requires
        ordered_but(log, heap, -1, -1),
        0 <= k < heap.len(),
    ensures
        earlier(log, heap[0], heap[k]),
    decreases k,
{
    if k > 0 {
        lemma_top_is_earliest(log, heap, above(k));
        assert(earlier(log, heap[above(k)], heap[k]));
    }
}

/// Lets the ticket at place `at` rise until the heap is in order.
fn sift_up(log: &Vec<Node>, heap: &mut Vec<usize>, at: usize, Ghost(tickets): Ghost<Seq<usize>>)
    requires
        at < old(heap).len(),
        within(log@, old(heap)@),
        holds(old(heap)@, tickets),
        ordered_but(log@, old(heap)@, at as int, -1),
    ensures
        final(heap).len() == old(heap).len(),
        within(log@, final(heap)@),
        holds(final(heap)@, tickets),
        ordered_but(log@, final(heap)@, -1, -1),
{
    let mut p: usize = at;
    while p > 0
        invariant
            p < heap.len(),
            heap.len() == old(heap).len(),
            within(log@, heap@),
            holds(heap@, tickets),
            ordered_but(log@, heap@, p as int, -1),
        decreases p,
    {
        let q: usize = (p - 1) / 2;
        let a: usize = heap[q];
        let b: usize = heap[p];
        let (pa, pb): (u64, u64) = (log[a].cost, log[b].cost);
        if pa < pb || (pa == pb && a <= b) {
            assert(ordered_but(log@, heap@, -1, -1));
            return ;
        }
        let ghost before = heap@;
        heap.set(q, b);
        heap.set(p, a);
        proof {
            assert(heap@ == exchanged(before, q as int, p as int));
            lemma_exchanged_holds(before, tickets, q as int, p as int);
            assert forall|k: int|
                1 <= k < heap.len() && k != q as int implies earlier(
                log@,
                #[trigger] heap@[above(k)],
                heap@[k],
            ) by {
                if k == p as int {
                } else if above(k) == q as int {
                    assert(earlier(log@, before[above(k)], before[k]));
                } else if above(k) == p as int {
                    assert(earlier(log@, before[above(above(k))], before[k]));
                } else {
                    assert(earlier(log@, before[above(k)], before[k]));
                }
            }
            assert forall|k: int|
                1 <= k < heap.len() && above(k) >= 1 && above(k) == q as int implies earlier(
                log@,
                #[trigger] heap@[above(above(k))],
                heap@[k],
            ) by {
                assert(earlier(log@, before[above(q as int)], before[q as int]));
                if k != p as int {
                    assert(earlier(log@, before[above(k)], before[k]));
                }
            }
        }
        p = q;
    }
    assert(ordered_but(log@, heap@, -1, -1));
}

/// Lets the ticket at the top sink until the heap is in order.
fn sift_down(log: &Vec<Node>, heap: &mut Vec<usize>, Ghost(tickets): Ghost<Seq<usize>>)
    requires
        old(heap).len() > 0,
        within(log@, old(heap)@),
        holds(old(heap)@, tickets),
        ordered_but(log@, old(heap)@, -1, 0),
    ensures
        final(heap).len() == old(heap).len(),
        within(log@, final(heap)@),
        holds(final(heap)@, tickets),
        ordered_but(log@, final(heap)@, -1, -1),
{
    let n: usize = heap.len();
    let mut p: usize = 0;
    loop
        invariant
            n == heap.len(),
            n == old(heap).len(),
            p < n,
            within(log@, heap@),
            holds(heap@, tickets),
            ordered_but(log@, heap@, -1, p as int),
        ensures
            heap.len() == old(heap).len(),
            within(log@, heap@),
            holds(heap@, tickets),
            ordered_but(log@, heap@, -1, -1),
        decreases n - p,
    {
        if p >= n / 2 {
            assert(ordered_but(log@, heap@, -1, -1)) by {
                assert forall|k: int| 1 <= k < heap.len() implies above(k) != p as int by {}
            }
            break ;
        }
        let left: usize = 2 * p + 1;
        let right: usize = left + 1;
        let mut m: usize = left;
        if right < n {
            let (a, b): (usize, usize) = (heap[left], heap[right]);
            let (pa, pb): (u64, u64) = (log[a].cost, log[b].cost);
            if !(pa < pb || (pa == pb && a <= b)) {
                m = right;
            }
        }
        let a: usize = heap[p];
        let b: usize = heap[m];
        let (pa, pb): (u64, u64) = (log[a].cost, log[b].cost);
        if pa < pb || (pa == pb && a <= b) {
            assert(ordered_but(log@, heap@, -1, -1)) by {
                assert forall|k: int| 1 <= k < heap.len() && above(k) == p as int implies earlier(
                    log@,
                    #[trigger] heap@[above(k)],
                    heap@[k],
                ) by {
                    assert(k == left as int || k == right as int);
                }
            }
            break ;
        }
        let ghost before = heap@;
        heap.set(p, b);
        heap.set(m, a);
        proof {
            assert(heap@ == exchanged(before, p as int, m as int));
            lemma_exchanged_holds(before, tickets, p as int, m as int);
            assert forall|k: int|
                1 <= k < heap.len() && above(k) != m as int implies earlier(
                log@,
                #[trigger] heap@[above(k)],
                heap@[k],
            ) by {
                if k == p as int {
                    assert(earlier(log@, before[above(above(m as int))], before[m as int]));
                } else if above(k) == p as int {
                    assert(k == left as int || k == right as int);
                } else {
                    assert(earlier(log@, before[above(k)], before[k]));
                }
            }
            assert forall|k: int|
                1 <= k < heap.len() && above(k) >= 1 && above(k) == m as int implies earlier(
                log@,
                #[trigger] heap@[above(above(k))],
                heap@[k],
            ) by {
                assert(earlier(log@, before[above(k)], before[k]));
            }
        }
        p = m;
    }
}

/// The queued entries in the order in which they were queued.
pub struct Frontier {
    log: Vec<Node>,
    heap: Vec<usize>,
    tickets: Ghost<Seq<usize>>,
}

impl View for Frontier {
    type V = Seq<Node>;

    closed spec fn view(&self) -> Seq<Node> {
        Seq::new(self.tickets@.len(), |i: int| self.log[self.tickets@[i] as int])
    }
}

impl Frontier {
    /// Whether the parts of the frontier fit together.
    #[verifier::type_invariant]
    closed spec fn valid(&self) -> bool {
        &&& self.heap.len() == self.tickets@.len()
        &&& rising(self.tickets@)
        &&& within(self.log@, self.heap@)
        &&& holds(self.heap@, self.tickets@)
        &&& ordered_but(self.log@, self.heap@, -1, -1)
    }

    /// The frontier in which nothing waits.
    pub fn new() -> (r: Frontier)
        ensures
            r@ == Seq::<Node>::empty(),
    {
        let r = Frontier { log: Vec::new(), heap: Vec::new(), tickets: Ghost(Seq::empty()) };
        assert(r@ =~= Seq::<Node>::empty());
        r
    }

    /// How many entries wait.
    pub fn len(&self) -> (r: usize)
        ensures
            r == self@.len(),
    {
        proof {
            use_type_invariant(self);
        }
        self.heap.len()
    }

    /// Whether nothing waits.
    pub fn is_empty(&self) -> (r: bool)
        ensures
            r == (self@.len() == 0),
    {
        proof {
            use_type_invariant(self);
        }
        self.heap.len() == 0
    }

    /// Queues `node`, behind the entries that are there.
    pub fn push(&mut self, node: Node)
        ensures
            final(self)@ == old(self)@.push(node),
    {
        let mut taken = Frontier::new();
        core::mem::swap(self, &mut taken);
        proof {
            use_type_invariant(&taken);
        }
        let Frontier { mut log, mut heap, tickets } = taken;
        let ticket: usize = log.len();
        let ghost log0 = log@;
        let ghost heap0 = heap@;
        let ghost tickets0 = tickets@;
        log.push(node);
        let at: usize = heap.len();
        heap.push(ticket);
        let ghost tickets1 = tickets0.push(ticket);
        proof {
            assert forall|k: int| 0 <= k < heap0.len() implies #[trigger] heap0[k] < ticket by {}
            assert forall|i: int| 0 <= i < tickets0.len() implies #[trigger] tickets0[i]
                < ticket by {
                assert(heap0.contains(tickets0[i]));
            }
            assert(rising(tickets1));
            assert(within(log@, heap@));
            assert(holds(heap@, tickets1)) by {
                assert forall|k: int| 0 <= k < heap.len() implies tickets1.contains(
                    #[trigger] heap@[k],
                ) by {
                    if k < heap0.len() {
                        assert(tickets0.contains(heap0[k]));
                        let i = choose|i: int| 0 <= i < tickets0.len() && tickets0[i] == heap0[k];
                        assert(tickets1[i] == heap@[k]);
                    } else {
                        assert(tickets1[tickets0.len() as int] == heap@[k]);
                    }
                }
                assert forall|i: int| 0 <= i < tickets1.len() implies heap@.contains(
                    #[trigger] tickets1[i],
                ) by {
                    if i < tickets0.len() {
                        assert(heap0.contains(tickets0[i]));
                        let k = choose|k: int| 0 <= k < heap0.len() && heap0[k] == tickets0[i];
                        assert(heap@[k] == tickets1[i]);
                    } else {
                        assert(heap@[heap0.len() as int] == tickets1[i]);
                    }
                }
            }
            assert(ordered_but(log@, heap@, at as int, -1)) by {
                assert forall|k: int| 1 <= k < heap.len() && k != at as int implies earlier(
                    log@,
                    #[trigger] heap@[above(k)],
                    heap@[k],
                ) by {
                    assert(earlier(log0, heap0[above(k)], heap0[k]));
                }
            }
        }
        sift_up(&log, &mut heap, at, Ghost(tickets1));
        *self = Frontier { log, heap, tickets: Ghost(tickets1) };
        assert(self@ =~= old(self)@.push(node));
    }

    /// Takes out the entry that leaves next, or nothing where none is queued.
    /// The others keep their order.
    pub fn pop_min(&mut self) -> (r: Option<Node>)
        ensures
            old(self)@.len() == 0 ==> r.is_none() && final(self)@ == old(self)@,
            old(self)@.len() > 0 ==> r.is_some() && exists|i: int|
                leaves_next(old(self)@, i) && r == Some(#[trigger] old(self)@[i]) && final(self)@
                    == old(self)@.remove(i),
    {
        proof {
            use_type_invariant(&*self);
        }
        if self.heap.len() == 0 {
            return None;
        }
        let mut taken = Frontier::new();
        core::mem::swap(self, &mut taken);
        let ghost before = taken@;
        let Frontier { log, mut heap, tickets } = taken;
        let n: usize = heap.len();
        let ghost heap0 = heap@;
        let ghost tickets0 = tickets@;
        let top: usize = heap[0];
        let entry: Node = log[top];
        let last: usize = heap[n - 1];
        heap.pop();
        if n > 1 {
            heap.set(0, last);
        }
        assert(tickets0.contains(heap0[0]));
        let ghost i = choose|i: int| 0 <= i < tickets0.len() && tickets0[i] == top;
        let ghost tickets1 = tickets0.remove(i);
        proof {
            assert(rising(tickets1));
            assert(leaves_next(before, i)) by {
                assert forall|j: int| 0 <= j < tickets0.len() implies earlier(
                    log@,
                    top,
                    #[trigger] tickets0[j],
                ) by {
                    assert(heap0.contains(tickets0[j]));
                    let k = choose|k: int| 0 <= k < heap0.len() && heap0[k] == tickets0[j];
                    lemma_top_is_earliest(log@, heap0, k);
                }
                assert forall|j: int| 0 <= j < before.len() implies before[i].cost <= (
                #[trigger] before[j]).cost by {
                    assert(earlier(log@, top, tickets0[j]));
                }
                assert forall|j: int| 0 <= j < i implies before[i].cost < (
                #[trigger] before[j]).cost by {
                    assert(earlier(log@, top, tickets0[j]));
                    assert(tickets0[j] < tickets0[i]);
                }
            }
            assert(within(log@, heap@));
            assert(holds(heap@, tickets1)) by {
                assert forall|k: int| 0 <= k < heap.len() implies tickets1.contains(
                    #[trigger] heap@[k],
                ) by {
                    let from = if k == 0 {
                        n - 1
                    } else {
                        k
                    };
                    assert(heap@[k] == heap0[from]);
                    assert(heap0[from] != heap0[0]);
                    assert(tickets0.contains(heap0[from]));
                    let j = choose|j: int| 0 <= j < tickets0.len() && tickets0[j] == heap0[from];
                    if j < i {
                        assert(tickets1[j] == tickets0[j]);
                    } else {
                        assert(tickets1[j - 1] == tickets0[j]);
                    }
                }
                assert forall|j: int| 0 <= j < tickets1.len() implies heap@.contains(
                    #[trigger] tickets1[j],
                ) by {
                    let from = if j < i {
                        j
                    } else {
                        j + 1
                    };
                    assert(tickets1[j] == tickets0[from]);
                    if from < i {
                        assert(tickets0[from] < tickets0[i]);
                    } else {
                        assert(tickets0[i] < tickets0[from]);
                    }
                    assert(heap0.contains(tickets0[from]));
                    let k = choose|k: int| 0 <= k < heap0.len() && heap0[k] == tickets0[from];
                    if k == n - 1 {
                        assert(heap@[0] == tickets1[j]);
                    } else {
                        assert(heap@[k] == tickets1[j]);
                    }
                }
                assert forall|k: int, l: int| 0 <= k < l < heap.len() implies heap@[k]
                    != heap@[l] by {
                    assert(heap@[l] == heap0[l]);
                    if k == 0 {
                        assert(heap@[k] == heap0[n - 1]);
                        assert(heap0[l] != heap0[n - 1]);
                    } else {
                        assert(heap@[k] == heap0[k]);
                    }
                }
            }
            assert(ordered_but(log@, heap@, -1, 0)) by {
                assert forall|k: int| 1 <= k < heap.len() && above(k) != 0 implies earlier(
                    log@,
                    #[trigger] heap@[above(k)],
                    heap@[k],
                ) by {
                    assert(earlier(log@, heap0[above(k)], heap0[k]));
                }
            }
        }
        if n > 1 {
            sift_down(&log, &mut heap, Ghost(tickets1));
        }
        *self = Frontier { log, heap, tickets: Ghost(tickets1) };
        assert(self@ =~= before.remove(i));
        assert(leaves_next(before, i) && entry == before[i]);
        Some(entry)
    }
}

} // verus!
