//! Scanning tables: the minimized automaton of a list of expressions laid
//! out as one array of rows of 256 transitions, states numbered from the
//! start, the sink last (it has no row: a scan stops there).

use vstd::prelude::*;
use crate::regex::{RegEx, wf};
use crate::dfa::{DFA, run, first_match, vec_not_free, has_class, lemma_sink_run, lemma_run_in_range};
use crate::lex::Command;

verus! {

/// The state reached from `s` on `w` by the rows `next`, stopping at `sink`.
pub open spec fn scan_run(next: Seq<usize>, sink: int, s: int, w: Seq<u8>) -> int
    decreases w.len(),
{
    if w.len() == 0 || s == sink {
        s
    } else {
        scan_run(next, sink, next[256 * s + w[0]] as int, w.drop_first())
    }
}

/// A scanning table: transitions, the class of each state, and the
/// command of each class.
pub struct ArrayScanningTable {
    next: Vec<usize>,
    classes: Vec<Option<usize>>,
    commands: Vec<Command>,
}

/// The number of a state of the automaton in the table: the sink goes
/// last, the others move down by one.
pub open spec fn renumbered(x: int, rows: int) -> int {
    if x == 0 { rows } else { x - 1 }
}

proof fn lemma_scan_run(next: Seq<usize>, rows: Seq<Seq<usize>>, x: int, w: Seq<u8>)
    requires
        rows.len() >= 2,
        forall|s: int, a: int| 0 <= s < rows.len() && 0 <= a < 256 ==> #[trigger] rows[s][a] < rows.len(),
        forall|a: int| 0 <= a < 256 ==> #[trigger] rows[0][a] == 0,
        forall|y: int, a: int| 1 <= y < rows.len() && 0 <= a < 256 ==> next[256 * (y - 1) + a] == renumbered(#[trigger] rows[y][a] as int, rows.len() - 1),
        0 <= x < rows.len(),
    ensures
        scan_run(next, rows.len() - 1, renumbered(x, rows.len() - 1), w) == renumbered(run(rows, x, w), rows.len() - 1),
    decreases w.len(),
{
    let sink = rows.len() - 1;
    if w.len() == 0 {
    } else if x == 0 {
        lemma_sink_run(rows, w);
    } else {
        let a = w[0] as int;
        assert(next[256 * (x - 1) + a] == renumbered(rows[x][a] as int, sink));
        lemma_scan_run(next, rows, rows[x][a] as int, w.drop_first());
    }
}

impl ArrayScanningTable {
    /// The transitions: row `s` holds entries `256 * s .. 256 * s + 256`.
    pub closed spec fn spec_next(&self) -> Seq<usize> {
        self.next@
    }

    /// The class of each state.
    pub closed spec fn spec_classes(&self) -> Seq<Option<usize>> {
        self.classes@
    }

    /// The command of each class.
    pub closed spec fn spec_commands(&self) -> Seq<Command> {
        self.commands@
    }

    /// The sink: the last state.
    pub open spec fn spec_sink(&self) -> int {
        self.spec_classes().len() - 1
    }

    /// Every state but the sink has a row of transitions to states; the
    /// sink accepts nothing.
    pub open spec fn wf(&self) -> bool {
        &&& self.spec_classes().len() >= 2
        &&& self.spec_next().len() == 256 * self.spec_sink()
        &&& forall|i: int| 0 <= i < self.spec_next().len() ==> #[trigger] self.spec_next()[i] < self.spec_classes().len()
        &&& self.spec_classes()[self.spec_sink()] is None
    }

    /// The table of the minimized automaton of `regexes`, with the
    /// commands of their classes: from the start state 0, a string leads
    /// to a state whose class is the index of the first expression that
    /// matches it (for expressions free of complements).
    pub fn new(regexes: &Vec<RegEx>, commands: Vec<Command>) -> (r: Self)
        requires
            forall|k: int| 0 <= k < regexes@.len() ==> #[trigger] wf(regexes@[k]),
        ensures
            r.wf(),
            r.spec_commands() == commands@,
            forall|s: int| 0 <= s < r.spec_classes().len() ==> (#[trigger] r.spec_classes()[s] matches Some(c) ==> c < regexes@.len()),
            vec_not_free(regexes@) ==> forall|w: Seq<u8>| #[trigger] r.spec_classes()[scan_run(r.spec_next(), r.spec_sink(), 0, w)] == first_match(regexes@, w),
    {
        let d0 = DFA::from(regexes);
        let dfa = d0.minimize();
        let ghost rows = dfa.spec_next();
        let ghost cls = dfa.spec_classes();
        let states = dfa.states();
        let m = states.len();
        let nrows = m - 1;
        let mut next: Vec<usize> = Vec::new();
        let mut classes: Vec<Option<usize>> = Vec::new();
        let mut x = 1usize;
        while x < m
            invariant
                dfa.wf(),
                rows == dfa.spec_next(),
                cls == dfa.spec_classes(),
                m == rows.len(),
                nrows == m - 1,
                states@.len() == m,
                forall|s: int| 0 <= s < m ==> (#[trigger] states@[s]).next@ == rows[s] && states@[s].class == cls[s],
                1 <= x <= m,
                next@.len() == 256 * (x - 1),
                classes@.len() == x - 1,
                forall|i: int| 0 <= i < next@.len() ==> #[trigger] next@[i] < m,
                forall|y: int, a: int| 1 <= y < x && 0 <= a < 256 ==> next@[256 * (y - 1) + a] == renumbered(#[trigger] rows[y][a] as int, nrows as int),
                forall|y: int| 0 <= y < x - 1 ==> #[trigger] classes@[y] == cls[y + 1],
            decreases m - x,
        {
            let row = &states[x].next;
            let ghost base = next@.len() as int;
            let mut a = 0usize;
            while a < 256
                invariant
                    dfa.wf(),
                    rows == dfa.spec_next(),
                    m == rows.len(),
                    nrows == m - 1,
                    1 <= x < m,
                    row@ == rows[x as int],
                    base == 256 * (x - 1),
                    a <= 256,
                    next@.len() == base + a,
                    forall|i: int| 0 <= i < next@.len() ==> #[trigger] next@[i] < m,
                    forall|y: int, b: int| 1 <= y < x && 0 <= b < 256 ==> next@[256 * (y - 1) + b] == renumbered(#[trigger] rows[y][b] as int, nrows as int),
                    forall|b: int| 0 <= b < a ==> next@[base + b] == renumbered(#[trigger] rows[x as int][b] as int, nrows as int),
                decreases 256 - a,
            {
                let dst = row[a];
                assert(dst == rows[x as int][a as int]);
                let e = if dst == 0 { nrows } else { dst - 1 };
                next.push(e);
                a += 1;
            }
            classes.push(states[x].class);
            proof {
                assert forall|y: int, b: int| 1 <= y < x + 1 && 0 <= b < 256 implies next@[256 * (y - 1) + b] == renumbered(#[trigger] rows[y][b] as int, nrows as int) by {
                    if y == x {
                        assert(256 * (y - 1) + b == base + b);
                    }
                }
            }
            x += 1;
        }
        classes.push(None);
        let r = ArrayScanningTable { next, classes, commands };
        proof {
            assert forall|s: int| 0 <= s < classes@.len() implies (#[trigger] classes@[s] matches Some(c) ==> c < regexes@.len()) by {
                if s < nrows {
                    assert(classes@[s] == cls[s + 1]);
                    assert(has_class(d0.spec_classes(), cls[s + 1]));
                    let t = choose|t: int| 0 <= t < d0.spec_classes().len() && d0.spec_classes()[t] == cls[s + 1];
                }
            }
            if vec_not_free(regexes@) {
                assert forall|w: Seq<u8>| #[trigger] classes@[scan_run(next@, nrows as int, 0, w)] == first_match(regexes@, w) by {
                    lemma_scan_run(next@, rows, 1, w);
                    lemma_run_in_range(rows, 1, w);
                    let e = run(rows, 1, w);
                    if e == 0 {
                        assert(classes@[nrows as int] is None);
                    } else {
                        assert(classes@[e - 1] == cls[e]);
                    }
                    assert(cls[e] == d0.spec_classes()[run(d0.spec_next(), 1, w)]);
                }
            }
        }
        r
    }

    /// The state byte `symbol` leads to from `state` (not the sink).
    pub fn step(&self, state: usize, symbol: u8) -> (r: usize)
        requires
            self.wf(),
            state < self.spec_sink(),
        ensures
            r == self.spec_next()[256 * state + symbol],
            r < self.spec_classes().len(),
    {
        let len = self.next.len();
        proof {
            assert(256 * state + symbol < 256 * self.spec_sink()) by (nonlinear_arith)
                requires state < self.spec_sink(), symbol < 256;
        }
        self.next[256 * state + symbol as usize]
    }

    /// The class of `state`.
    pub fn class(&self, state: usize) -> (r: Option<usize>)
        requires
            state < self.spec_classes().len(),
        ensures
            r == self.spec_classes()[state as int],
    {
        self.classes[state]
    }

    /// The sink state.
    pub fn sink(&self) -> (r: usize)
        requires
            self.wf(),
        ensures
            r == self.spec_sink(),
    {
        self.classes.len() - 1
    }

    /// The number of states, the sink included.
    pub(crate) fn state_count(&self) -> (r: usize)
        ensures
            r == self.spec_classes().len(),
    {
        self.classes.len()
    }

    /// The command of class `class`.
    pub fn command(&self, class: usize) -> (r: Command)
        requires
            class < self.spec_commands().len(),
        ensures
            r == self.spec_commands()[class as int],
    {
        self.commands[class]
    }
}

} // verus!
