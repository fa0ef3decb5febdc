//! Graphviz text for the syntax tree of a regular expression, and the
//! hexadecimal notation of byte sets that its labels use.

use vstd::prelude::*;
use vstd::string::StringExecFns;
use crate::charset::{CharSet, ivs_wf, ivs_set};
use crate::dfa::DFA;
use crate::regex::{Operator, RegEx};

verus! {

/// The lowercase hexadecimal digit of `d` (below 16).
pub open spec fn hex_digit(d: nat) -> Seq<char> {
    if d == 0 { "0"@ }
    else if d == 1 { "1"@ }
    else if d == 2 { "2"@ }
    else if d == 3 { "3"@ }
    else if d == 4 { "4"@ }
    else if d == 5 { "5"@ }
    else if d == 6 { "6"@ }
    else if d == 7 { "7"@ }
    else if d == 8 { "8"@ }
    else if d == 9 { "9"@ }
    else if d == 10 { "a"@ }
    else if d == 11 { "b"@ }
    else if d == 12 { "c"@ }
    else if d == 13 { "d"@ }
    else if d == 14 { "e"@ }
    else { "f"@ }
}

/// `n` in decimal, without leading zeros.
pub open spec fn decimal(n: nat) -> Seq<char>
    decreases n,
{
    if n < 10 { hex_digit(n) } else { decimal(n / 10) + hex_digit(n % 10) }
}

/// A byte as two lowercase hexadecimal digits.
pub open spec fn hex_byte(b: u8) -> Seq<char> {
    hex_digit((b / 16) as nat) + hex_digit((b % 16) as nat)
}

/// One interval: a single byte as `0a`, a longer one as `[30..39]`.
pub open spec fn interval_text(iv: (u8, u8)) -> Seq<char> {
    if iv.0 == iv.1 {
        hex_byte(iv.0)
    } else {
        "["@ + hex_byte(iv.0) + ".."@ + hex_byte(iv.1) + "]"@
    }
}

/// The intervals of `ivs`, separated by commas.
pub open spec fn intervals_text(ivs: Seq<(u8, u8)>) -> Seq<char>
    decreases ivs.len(),
{
    if ivs.len() == 0 {
        Seq::empty()
    } else if ivs.len() == 1 {
        interval_text(ivs[0])
    } else {
        intervals_text(ivs.drop_last()) + ","@ + interval_text(ivs.last())
    }
}

/// A byte set as its intervals between braces, e.g. `{0a,[30..39]}`.
pub open spec fn set_text(cs: CharSet) -> Seq<char> {
    "{"@ + intervals_text(cs.spec_intervals()) + "}"@
}

/// The number of nodes of the syntax tree of `r`.
pub open spec fn node_count(r: RegEx) -> nat
    decreases r, 0nat,
{
    match *r.root {
        Operator::Cat(v) => 1 + count_all(v@, v@.len() as int),
        Operator::Or(v) => 1 + count_all(v@, v@.len() as int),
        Operator::And(v) => 1 + count_all(v@, v@.len() as int),
        Operator::Star(c) => 1 + node_count(c),
        Operator::Not(c) => 1 + node_count(c),
        _ => 1,
    }
}

/// The number of nodes of the first `j` trees of `s`.
pub open spec fn count_all(s: Seq<RegEx>, j: int) -> nat
    decreases s, j,
{
    if j <= 0 || j > s.len() {
        0
    } else {
        count_all(s, j - 1) + node_count(s[j - 1])
    }
}

/// The label of the root of `r`.
pub open spec fn label_text(r: RegEx) -> Seq<char> {
    match *r.root {
        Operator::Void => "\u{2205}"@,
        Operator::Epsilon => "\u{03B5}"@,
        Operator::Class(cs) => set_text(cs),
        Operator::Cat(_) => "cat"@,
        Operator::Star(_) => "star"@,
        Operator::Or(_) => "or"@,
        Operator::And(_) => "and"@,
        Operator::Not(_) => "not"@,
    }
}

/// The line that declares node `id` with label `label`.
pub open spec fn node_line(id: nat, label: Seq<char>) -> Seq<char> {
    "    s"@ + decimal(id) + "[label=\""@ + label + "\"]\n"@
}

/// The line of the edge from node `from` to node `to`.
pub open spec fn edge_line(from: nat, to: nat) -> Seq<char> {
    "    s"@ + decimal(from) + "->s"@ + decimal(to) + "\n"@
}

/// The edges from node `id` to nodes `next + 1` to `next + k`.
pub open spec fn edge_lines(id: nat, next: nat, k: nat) -> Seq<char>
    decreases k,
{
    if k == 0 {
        Seq::empty()
    } else {
        edge_lines(id, next, (k - 1) as nat) + edge_line(id, next + k)
    }
}

/// The lines of the subtree of `r`, drawn as node `id` when the last number
/// given to a node is `next`. Children are numbered in order when their parent
/// is drawn; the last child's subtree is drawn first.
pub open spec fn node_text(r: RegEx, id: nat, next: nat) -> Seq<char>
    decreases r, 0nat,
{
    let head = node_line(id, label_text(r));
    match *r.root {
        Operator::Cat(v) => head + edge_lines(id, next, v@.len()) + kids_text(v@, v@.len() as int, next, next + v@.len()),
        Operator::Or(v) => head + edge_lines(id, next, v@.len()) + kids_text(v@, v@.len() as int, next, next + v@.len()),
        Operator::And(v) => head + edge_lines(id, next, v@.len()) + kids_text(v@, v@.len() as int, next, next + v@.len()),
        Operator::Star(c) => head + edge_lines(id, next, 1) + node_text(c, next + 1, next + 1),
        Operator::Not(c) => head + edge_lines(id, next, 1) + node_text(c, next + 1, next + 1),
        _ => head,
    }
}

/// The subtrees of the first `j` trees of `s`, numbered `base + 1` to
/// `base + j`, the last first, with `counter` the last number given.
pub open spec fn kids_text(s: Seq<RegEx>, j: int, base: nat, counter: nat) -> Seq<char>
    decreases s, j,
{
    if j <= 0 || j > s.len() {
        Seq::empty()
    } else {
        node_text(s[j - 1], (base + j) as nat, counter)
            + kids_text(s, j - 1, base, (counter + node_count(s[j - 1]) - 1) as nat)
    }
}

/// The Graphviz digraph of the syntax tree of `r`.
pub open spec fn regex_dot_text(r: RegEx) -> Seq<char> {
    "digraph RegEx {\n"@ + "    node[shape=plain];\n"@ + node_text(r, 0, 0) + "}\n"@
}

fn digit_str(d: u8) -> (s: &'static str)
    requires
        d < 16,
    ensures
        s@ == hex_digit(d as nat),
{
    match d {
        0 => "0",
        1 => "1",
        2 => "2",
        3 => "3",
        4 => "4",
        5 => "5",
        6 => "6",
        7 => "7",
        8 => "8",
        9 => "9",
        10 => "a",
        11 => "b",
        12 => "c",
        13 => "d",
        14 => "e",
        _ => "f",
    }
}

pub(crate) fn push_decimal(out: &mut String, n: usize)
    ensures
        final(out)@ == old(out)@ + decimal(n as nat),
    decreases n,
{
    if n >= 10 {
        push_decimal(out, n / 10);
    }
    let d: u8 = (n % 10) as u8;
    out.append(digit_str(d));
    proof {
        if n >= 10 {
            assert(old(out)@ + decimal(n as nat) =~= old(out)@ + decimal((n / 10) as nat) + hex_digit((n % 10) as nat));
        }
    }
}

pub(crate) fn push_hex_byte(out: &mut String, b: u8)
    ensures
        final(out)@ == old(out)@ + hex_byte(b),
{
    out.append(digit_str(b / 16));
    out.append(digit_str(b % 16));
    assert(final(out)@ =~= old(out)@ + hex_byte(b));
}

fn push_interval(out: &mut String, iv: (u8, u8))
    ensures
        final(out)@ == old(out)@ + interval_text(iv),
{
    let ghost start = out@;
    if iv.0 == iv.1 {
        push_hex_byte(out, iv.0);
    } else {
        out.append("[");
        push_hex_byte(out, iv.0);
        out.append("..");
        push_hex_byte(out, iv.1);
        out.append("]");
        assert(out@ =~= start + interval_text(iv));
    }
}

/// Appends the notation of `cs` to `out`.
pub fn push_set_text(out: &mut String, cs: &CharSet)
    ensures
        final(out)@ == old(out)@ + set_text(*cs),
{
    let ghost start = out@;
    let ivs = cs.intervals();
    out.append("{");
    let mut i: usize = 0;
    while i < ivs.len()
        invariant
            i <= ivs@.len(),
            ivs@ == cs.spec_intervals(),
            out@ == start + "{"@ + intervals_text(ivs@.take(i as int)),
        decreases ivs@.len() - i,
    {
        let ghost before = out@;
        if i > 0 {
            out.append(",");
        }
        push_interval(out, ivs[i]);
        proof {
            let t = ivs@.take(i as int + 1);
            assert(t.drop_last() =~= ivs@.take(i as int));
            assert(t.last() == ivs@[i as int]);
            if i == 0 {
                assert(intervals_text(ivs@.take(0)) =~= Seq::empty());
            }
        }
        i = i + 1;
        assert(out@ =~= start + "{"@ + intervals_text(ivs@.take(i as int)));
    }
    out.append("}");
    assert(ivs@.take(ivs@.len() as int) =~= ivs@);
    assert(out@ =~= start + set_text(*cs));
}

/// The notation of `cs`, e.g. `{0a,[30..39]}`; `{}` for the empty set.
pub fn charset_text(cs: &CharSet) -> (s: String)
    ensures
        s@ == set_text(*cs),
{
    let mut s = String::new();
    push_set_text(&mut s, cs);
    assert(s@ =~= set_text(*cs));
    s
}

proof fn lemma_node_count_positive(r: RegEx)
    ensures
        node_count(r) >= 1,
{
    match *r.root {
        Operator::Cat(v) => {},
        Operator::Or(v) => {},
        Operator::And(v) => {},
        Operator::Star(c) => {},
        Operator::Not(c) => {},
        _ => {},
    }
}

proof fn lemma_count_all_at_least(s: Seq<RegEx>, j: int)
    requires
        0 <= j <= s.len(),
    ensures
        count_all(s, j) >= j,
    decreases j,
{
    if j > 0 {
        lemma_count_all_at_least(s, j - 1);
        lemma_node_count_positive(s[j - 1]);
    }
}

fn push_edge(out: &mut String, from: usize, to: usize)
    ensures
        final(out)@ == old(out)@ + edge_line(from as nat, to as nat),
{
    let ghost start = out@;
    out.append("    s");
    push_decimal(out, from);
    out.append("->s");
    push_decimal(out, to);
    out.append("\n");
    assert(out@ =~= start + edge_line(from as nat, to as nat));
}

fn push_node_line(out: &mut String, id: usize, r: &RegEx)
    ensures
        final(out)@ == old(out)@ + node_line(id as nat, label_text(*r)),
{
    let ghost start = out@;
    out.append("    s");
    push_decimal(out, id);
    out.append("[label=\"");
    let ghost before = out@;
    match &*r.root {
        Operator::Void => out.append("\u{2205}"),
        Operator::Epsilon => out.append("\u{03B5}"),
        Operator::Class(cs) => push_set_text(out, cs),
        Operator::Cat(_) => out.append("cat"),
        Operator::Star(_) => out.append("star"),
        Operator::Or(_) => out.append("or"),
        Operator::And(_) => out.append("and"),
        Operator::Not(_) => out.append("not"),
    }
    assert(out@ == before + label_text(*r));
    out.append("\"]\n");
    assert(out@ =~= start + node_line(id as nat, label_text(*r)));
}

fn write_node(r: &RegEx, id: usize, next: usize, out: &mut String) -> (end: usize)
    requires
        next + node_count(*r) <= usize::MAX + 1,
    ensures
        final(out)@ == old(out)@ + node_text(*r, id as nat, next as nat),
        end == next + node_count(*r) - 1,
    decreases *r,
{
    let ghost start = out@;
    push_node_line(out, id, r);
    let ghost head = out@;
    match &*r.root {
        Operator::Cat(v) | Operator::Or(v) | Operator::And(v) => {
            let k = v.len();
            proof {
                lemma_count_all_at_least(v@, k as int);
            }
            let mut j: usize = 0;
            while j < k
                invariant
                    j <= k,
                    k == v@.len(),
                    next + 1 + count_all(v@, k as int) <= usize::MAX + 1,
                    count_all(v@, k as int) >= k,
                    out@ == head + edge_lines(id as nat, next as nat, j as nat),
                decreases k - j,
            {
                push_edge(out, id, next + j + 1);
                j = j + 1;
                assert(out@ =~= head + edge_lines(id as nat, next as nat, j as nat));
            }
            let ghost edges = out@;
            let ghost target = edges + kids_text(v@, k as int, next as nat, (next + k) as nat);
            let mut counter: usize = next + k;
            let mut j: usize = k;
            while j > 0
                invariant
                    j <= k,
                    k == v@.len(),
                    next + 1 + count_all(v@, k as int) <= usize::MAX + 1,
                    count_all(v@, k as int) >= k,
                    counter + count_all(v@, j as int) == next + j + count_all(v@, k as int),
                    out@ + kids_text(v@, j as int, next as nat, counter as nat) == target,
                    decreases_to!(*r => v@),
                decreases j,
            {
                proof {
                    lemma_count_all_at_least(v@, j - 1);
                    lemma_node_count_positive(v@[j - 1]);
                    assert(decreases_to!(*r => v@[j - 1]));
                }
                let ghost before = out@;
                let ghost c0 = counter;
                let end = write_node(&v[j - 1], next + j, counter, out);
                proof {
                    assert(before + kids_text(v@, j as int, next as nat, c0 as nat)
                        =~= out@ + kids_text(v@, j - 1, next as nat, end as nat));
                }
                counter = end;
                j = j - 1;
            }
            assert(out@ =~= start + node_text(*r, id as nat, next as nat));
            counter
        },
        Operator::Star(c) | Operator::Not(c) => {
            proof {
                lemma_node_count_positive(*c);
            }
            push_edge(out, id, next + 1);
            assert(edge_lines(id as nat, next as nat, 0) =~= Seq::empty());
            assert(out@ =~= head + edge_lines(id as nat, next as nat, 1));
            let end = write_node(c, next + 1, next + 1, out);
            assert(out@ =~= start + node_text(*r, id as nat, next as nat));
            end
        },
        _ => next,
    }
}

/// The syntax tree of `r` as a Graphviz digraph: each node labelled with its
/// operator or byte set, an edge to each operand.
pub fn regex_dot(r: &RegEx) -> (s: String)
    requires
        node_count(*r) <= usize::MAX,
    ensures
        s@ == regex_dot_text(*r),
{
    let mut s = String::new();
    s.append("digraph RegEx {\n");
    s.append("    node[shape=plain];\n");
    let _ = write_node(r, 0, 0, &mut s);
    s.append("}\n");
    assert(s@ =~= regex_dot_text(*r));
    s
}

/// The interval list of the bytes of `s`: the one well-formed list whose
/// bytes they are.
pub open spec fn ivs_of(s: Set<u8>) -> Seq<(u8, u8)> {
    choose|ivs: Seq<(u8, u8)>| ivs_wf(ivs) && ivs_set(ivs) == s
}

/// The bytes that `row` leads to state `t`.
pub open spec fn bytes_to(row: Seq<usize>, t: int) -> Set<u8> {
    Set::new(|b: u8| row[b as int] == t)
}

/// The lines of the accepting states among states 1 to `k - 1`, labelled
/// with their class.
pub open spec fn dfa_accepting_lines(classes: Seq<Option<usize>>, k: int) -> Seq<char>
    decreases k,
{
    if k <= 1 {
        Seq::empty()
    } else {
        dfa_accepting_lines(classes, k - 1) + match classes[k - 1] {
            Some(c) => "    s"@ + decimal((k - 1) as nat) + "[label=\""@ + decimal(c as nat) + "\"];\n"@,
            None => Seq::empty(),
        }
    }
}

/// The lines of the other states among states 1 to `k - 1`.
pub open spec fn dfa_plain_lines(classes: Seq<Option<usize>>, k: int) -> Seq<char>
    decreases k,
{
    if k <= 1 {
        Seq::empty()
    } else {
        dfa_plain_lines(classes, k - 1) + if classes[k - 1] is None {
            "    s"@ + decimal((k - 1) as nat) + "[label=\"\"];\n"@
        } else {
            Seq::empty()
        }
    }
}

/// The edges from state `a` to states 1 to `t - 1`, each labelled with the
/// set of bytes that lead there.
pub open spec fn dfa_state_edges(row: Seq<usize>, a: int, t: int) -> Seq<char>
    decreases t,
{
    if t <= 1 {
        Seq::empty()
    } else {
        dfa_state_edges(row, a, t - 1) + if bytes_to(row, t - 1) != Set::<u8>::empty() {
            "    s"@ + decimal(a as nat) + "->s"@ + decimal((t - 1) as nat) + "[label=\""@ + "{"@
                + intervals_text(ivs_of(bytes_to(row, t - 1))) + "}"@ + "\"];\n"@
        } else {
            Seq::empty()
        }
    }
}

/// The edges of states 1 to `k - 1` of an automaton of `n` states.
pub open spec fn dfa_edges(next: Seq<Seq<usize>>, n: int, k: int) -> Seq<char>
    decreases k,
{
    if k <= 1 { Seq::empty() } else { dfa_edges(next, n, k - 1) + dfa_state_edges(next[k - 1], k - 1, n) }
}

/// The Graphviz digraph of an automaton: accepting states labelled with
/// their class, the sink drawn as a house, the start marked by an arrow,
/// and an edge per pair of states that some bytes lead between.
pub open spec fn dfa_dot_text(next: Seq<Seq<usize>>, classes: Seq<Option<usize>>) -> Seq<char> {
    let n = next.len() as int;
    "digraph DFA {\n    rankdir=LR;\n\n    node[shape=point]; q;\n    node[shape=invhouse]; s0[label=\"\"];\n\n    node[shape=doublecircle];\n"@
        + dfa_accepting_lines(classes, n) + "\n    node[shape=circle];\n"@ + dfa_plain_lines(classes, n)
        + "\n    s0->s0[label=\"{[00..ff]}\"];\n    q->s1;\n"@ + dfa_edges(next, n, n) + "}\n"@
}

fn push_state_edges(out: &mut String, row: &Vec<usize>, a: usize, n: usize)
    requires
        row@.len() == 256,
    ensures
        final(out)@ == old(out)@ + dfa_state_edges(row@, a as int, n as int),
{
    let ghost start = out@;
    if n <= 1 {
        return;
    }
    let mut t: usize = 1;
    assert(dfa_state_edges(row@, a as int, 1) =~= Seq::empty());
    while t < n
        invariant
            1 <= t <= n,
            row@.len() == 256,
            out@ == start + dfa_state_edges(row@, a as int, t as int),
        decreases n - t,
    {
        let mut cs = CharSet::empty();
        let mut b: usize = 0;
        while b < 256
            invariant
                b <= 256,
                row@.len() == 256,
                cs.wf(),
                forall|x: u8| #[trigger] cs@.contains(x) == ((x as int) < b && row@[x as int] == t),
            decreases 256 - b,
        {
            if row[b] == t {
                let p = CharSet::point(b as u8);
                cs = cs.union(&p);
            }
            b = b + 1;
        }
        let ghost s = bytes_to(row@, t as int);
        assert(cs@ =~= s);
        let ghost before = out@;
        if !cs.is_empty() {
            proof {
                cs.lemma_intervals();
                let ivs = ivs_of(s);
                assert(ivs_wf(cs.spec_intervals()) && ivs_set(cs.spec_intervals()) == s);
                assert(ivs_wf(ivs) && ivs_set(ivs) == s);
                crate::charset::lemma_ivs_unique(ivs, cs.spec_intervals());
            }
            out.append("    s");
            push_decimal(out, a);
            out.append("->s");
            push_decimal(out, t);
            out.append("[label=\"");
            push_set_text(out, &cs);
            out.append("\"];\n");
            assert(out@ =~= before + ("    s"@ + decimal(a as nat) + "->s"@ + decimal(t as nat) + "[label=\""@ + "{"@
                + intervals_text(ivs_of(s)) + "}"@ + "\"];\n"@));
        } else {
            assert(s == Set::<u8>::empty());
        }
        t = t + 1;
        assert(out@ =~= start + dfa_state_edges(row@, a as int, t as int));
    }
}

/// The automaton `d` as a Graphviz digraph: accepting states labelled with
/// their class, the sink drawn as a house, the start marked by an arrow,
/// and an edge per pair of states that some bytes lead between, labelled
/// with those bytes.
pub fn dfa_dot(d: &DFA) -> (s: String)
    requires
        d.wf(),
    ensures
        s@ == dfa_dot_text(d.spec_next(), d.spec_classes()),
{
    let states = d.states();
    let n = states.len();
    let ghost next = d.spec_next();
    let ghost classes = d.spec_classes();
    let mut out = String::new();
    out.append("digraph DFA {\n    rankdir=LR;\n\n    node[shape=point]; q;\n    node[shape=invhouse]; s0[label=\"\"];\n\n    node[shape=doublecircle];\n");
    let ghost c0 = out@;
    let mut k: usize = 1;
    assert(dfa_accepting_lines(classes, 1) =~= Seq::empty());
    while k < n
        invariant
            1 <= k <= n,
            n == states@.len(),
            n == classes.len(),
            forall|s: int| 0 <= s < n ==> (#[trigger] states@[s]).class == classes[s],
            out@ == c0 + dfa_accepting_lines(classes, k as int),
        decreases n - k,
    {
        match states[k].class {
            Some(c) => {
                out.append("    s");
                push_decimal(&mut out, k);
                out.append("[label=\"");
                push_decimal(&mut out, c);
                out.append("\"];\n");
            },
            None => {},
        }
        k = k + 1;
        assert(out@ =~= c0 + dfa_accepting_lines(classes, k as int));
    }
    out.append("\n    node[shape=circle];\n");
    let ghost c1 = out@;
    let mut k: usize = 1;
    assert(dfa_plain_lines(classes, 1) =~= Seq::empty());
    while k < n
        invariant
            1 <= k <= n,
            n == states@.len(),
            n == classes.len(),
            forall|s: int| 0 <= s < n ==> (#[trigger] states@[s]).class == classes[s],
            out@ == c1 + dfa_plain_lines(classes, k as int),
        decreases n - k,
    {
        if states[k].class.is_none() {
            out.append("    s");
            push_decimal(&mut out, k);
            out.append("[label=\"\"];\n");
        }
        k = k + 1;
        assert(out@ =~= c1 + dfa_plain_lines(classes, k as int));
    }
    out.append("\n    s0->s0[label=\"{[00..ff]}\"];\n    q->s1;\n");
    let ghost c2 = out@;
    let mut k: usize = 1;
    assert(dfa_edges(next, n as int, 1) =~= Seq::empty());
    while k < n
        invariant
            1 <= k <= n,
            n == states@.len(),
            n == next.len(),
            d.wf(),
            next == d.spec_next(),
            forall|s: int| 0 <= s < n ==> (#[trigger] states@[s]).next@ == next[s],
            out@ == c2 + dfa_edges(next, n as int, k as int),
        decreases n - k,
    {
        assert(states@[k as int].next@ == next[k as int]);
        push_state_edges(&mut out, &states[k].next, k, n);
        k = k + 1;
        assert(out@ =~= c2 + dfa_edges(next, n as int, k as int));
    }
    out.append("}\n");
    assert(out@ =~= dfa_dot_text(next, classes));
    out
}

} // verus!
