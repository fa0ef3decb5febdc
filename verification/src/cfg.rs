//! Context-free grammars over numbered terminals ("words") and variables,
//! augmented with an implicit start rule, and the strings of words their
//! symbols derive.

use vstd::prelude::*;

verus! {

/// A grammar symbol: a terminal (word class) or a variable (rule index).
#[derive(Clone, Copy, Debug, PartialEq, Eq, Hash, PartialOrd, Ord, Structural)]
pub enum Symbol {
    Terminal(usize),
    Variable(usize),
}

/// Why a grammar could not be built.
#[derive(Debug, PartialEq, Eq, Structural)]
pub enum GrammarError {
    /// No rule was given.
    NoRules,
    /// An alternative names a variable for which no rule was given.
    UndefinedVariable { rule: usize, alt: usize, var: usize },
}

/// A grammar. Alternatives ("productions") are numbered consecutively, rule
/// by rule; the last rule is the implicit start rule `S' -> Variable(0)`.
pub struct Grammar {
    alts: Vec<Vec<Symbol>>,
    alt_rule: Vec<usize>,
    rule_starts: Vec<usize>,
}

impl Grammar {
    /// The right-hand sides of all alternatives, in order.
    pub closed spec fn spec_alts(&self) -> Seq<Seq<Symbol>> {
        Seq::new(self.alts@.len(), |i: int| self.alts@[i]@)
    }

    /// The rule (left-hand side variable) of each alternative.
    pub closed spec fn spec_alt_rule(&self) -> Seq<usize> {
        self.alt_rule@
    }

    /// For each rule, the index of its first alternative, followed by the
    /// number of alternatives.
    pub closed spec fn spec_rule_starts(&self) -> Seq<usize> {
        self.rule_starts@
    }

    /// The number of rules, the start rule included.
    pub open spec fn spec_rule_count(&self) -> nat {
        (self.spec_rule_starts().len() - 1) as nat
    }

    /// The number of alternatives, the start alternative included.
    pub open spec fn spec_alt_count(&self) -> nat {
        self.spec_alts().len()
    }

    /// The right-hand side of alternative `a`.
    pub open spec fn spec_rhs(&self, a: int) -> Seq<Symbol> {
        self.spec_alts()[a]
    }

    /// The representation invariant.
    pub open spec fn wf(&self) -> bool {
        let n = self.spec_rule_count() as int;
        let starts = self.spec_rule_starts();
        let m = self.spec_alt_count() as int;
        &&& starts.len() >= 3
        &&& self.spec_alt_rule().len() == m
        &&& starts[0] == 0
        &&& starts[n] == m
        &&& forall|r1: int, r2: int| 0 <= r1 <= r2 <= n ==> #[trigger] starts[r1] <= #[trigger] starts[r2]
        &&& forall|a: int| 0 <= a < m ==> {
            let r = #[trigger] self.spec_alt_rule()[a];
            &&& 0 <= r < n
            &&& starts[r as int] <= a < starts[r + 1]
        }
        &&& forall|a: int, i: int| 0 <= a < m && 0 <= i < self.spec_rhs(a).len() ==> (#[trigger] self.spec_rhs(a)[i] matches Symbol::Variable(v) ==> v < n - 1)
        &&& starts[n - 1] == m - 1
        &&& self.spec_rhs(m - 1) == seq![Symbol::Variable(0)]
    }

    /// Validity depends only on the alternatives, their rules and where each
    /// rule's alternatives start.
    pub proof fn lemma_wf_congr(&self, other: &Grammar)
        requires
            self.wf(),
            other.spec_alts() == self.spec_alts(),
            other.spec_alt_rule() == self.spec_alt_rule(),
            other.spec_rule_starts() == self.spec_rule_starts(),
        ensures
            other.wf(),
    {
        assert(other.spec_rule_count() == self.spec_rule_count());
        assert(other.spec_alt_count() == self.spec_alt_count());
        assert forall|a: int| 0 <= a < other.spec_alt_count() implies #[trigger] other.spec_rhs(a) == self.spec_rhs(a) by {}
        assert forall|a: int, i: int| 0 <= a < other.spec_alt_count() && 0 <= i < other.spec_rhs(a).len() implies (#[trigger] other.spec_rhs(a)[i] matches Symbol::Variable(v) ==> v < other.spec_rule_count() - 1) by {
            assert(other.spec_rhs(a) == self.spec_rhs(a));
            assert(self.spec_rhs(a)[i] matches Symbol::Variable(v) ==> v < self.spec_rule_count() - 1);
        }
    }

    /// A copy of the grammar.
    pub fn duplicate(&self) -> (r: Self)
        ensures
            r.spec_alts() == self.spec_alts(),
            r.spec_alt_rule() == self.spec_alt_rule(),
            r.spec_rule_starts() == self.spec_rule_starts(),
    {
        let mut alts: Vec<Vec<Symbol>> = Vec::new();
        let mut i = 0usize;
        while i < self.alts.len()
            invariant
                i <= self.alts@.len(),
                alts@.len() == i,
                forall|k: int| 0 <= k < i ==> (#[trigger] alts@[k])@ == self.alts@[k]@,
            decreases self.alts@.len() - i,
        {
            let mut rhs: Vec<Symbol> = Vec::new();
            let src = &self.alts[i];
            let mut j = 0usize;
            while j < src.len()
                invariant
                    j <= src@.len(),
                    rhs@ == src@.take(j as int),
                decreases src@.len() - j,
            {
                rhs.push(src[j]);
                j += 1;
                assert(rhs@ =~= src@.take(j as int));
            }
            assert(rhs@ =~= src@);
            alts.push(rhs);
            i += 1;
        }
        let mut alt_rule: Vec<usize> = Vec::new();
        let mut a = 0usize;
        while a < self.alt_rule.len()
            invariant
                a <= self.alt_rule@.len(),
                alt_rule@ == self.alt_rule@.take(a as int),
            decreases self.alt_rule@.len() - a,
        {
            alt_rule.push(self.alt_rule[a]);
            a += 1;
            assert(alt_rule@ =~= self.alt_rule@.take(a as int));
        }
        let mut rule_starts: Vec<usize> = Vec::new();
        let mut b = 0usize;
        while b < self.rule_starts.len()
            invariant
                b <= self.rule_starts@.len(),
                rule_starts@ == self.rule_starts@.take(b as int),
            decreases self.rule_starts@.len() - b,
        {
            rule_starts.push(self.rule_starts[b]);
            b += 1;
            assert(rule_starts@ =~= self.rule_starts@.take(b as int));
        }
        assert(alt_rule@ =~= self.alt_rule@);
        assert(rule_starts@ =~= self.rule_starts@);
        let r = Grammar { alts, alt_rule, rule_starts };
        assert(r.spec_alts() =~= self.spec_alts());
        r
    }

    /// An alternative is no longer than a vector can be.
    pub proof fn lemma_rhs_len(&self, a: int)
        requires
            0 <= a < self.spec_alt_count(),
        ensures
            self.spec_rhs(a).len() <= usize::MAX,
    {
        let v = self.alts@[a];
        vstd::std_specs::vec::axiom_spec_len(&v);
    }

    /// The number of rules, the implicit start rule included.
    pub fn rule_count(&self) -> (r: usize)
        requires
            self.wf(),
        ensures
            r == self.spec_rule_count(),
            r >= 2,
    {
        self.rule_starts.len() - 1
    }

    /// The number of alternatives, the implicit start alternative included.
    pub fn alt_count(&self) -> (r: usize)
        requires
            self.wf(),
        ensures
            r == self.spec_alt_count(),
            r >= 1,
    {
        self.alts.len()
    }

    /// The right-hand side of alternative `a`.
    pub fn alt(&self, a: usize) -> (r: &Vec<Symbol>)
        requires
            self.wf(),
            a < self.spec_alt_count(),
        ensures
            r@ == self.spec_rhs(a as int),
    {
        &self.alts[a]
    }

    /// The rule (left-hand side variable) of alternative `a`.
    pub fn alt_rule(&self, a: usize) -> (r: usize)
        requires
            self.wf(),
            a < self.spec_alt_count(),
        ensures
            r == self.spec_alt_rule()[a as int],
            r < self.spec_rule_count(),
    {
        self.alt_rule[a]
    }

    /// The alternatives of rule `var`, as the half-open range `start..end`.
    pub fn alt_indices(&self, var: usize) -> (r: (usize, usize))
        requires
            self.wf(),
            var < self.spec_rule_count(),
        ensures
            r.0 == self.spec_rule_starts()[var as int],
            r.1 == self.spec_rule_starts()[var + 1],
            r.0 <= r.1 <= self.spec_alt_count(),
    {
        let count = self.rule_starts.len();
        assert(var + 1 < count);
        (self.rule_starts[var], self.rule_starts[var + 1])
    }

    /// The greatest terminal used by the grammar, if any.
    pub fn max_word(&self) -> (r: Option<usize>)
        requires
            self.wf(),
        ensures
            r is None <==> forall|a: int, i: int| 0 <= a < self.spec_alt_count() && 0 <= i < self.spec_rhs(a).len() ==> !(#[trigger] self.spec_rhs(a)[i] is Terminal),
            r matches Some(m) ==> (exists|a: int, i: int| 0 <= a < self.spec_alt_count() && 0 <= i < self.spec_rhs(a).len() && #[trigger] self.spec_rhs(a)[i] == Symbol::Terminal(m)),
            r matches Some(m) ==> (forall|a: int, i: int| 0 <= a < self.spec_alt_count() && 0 <= i < self.spec_rhs(a).len() ==> (#[trigger] self.spec_rhs(a)[i] matches Symbol::Terminal(t) ==> t <= m)),
    {
        let mut best: Option<usize> = Option::None;
        let mut a = 0usize;
        while a < self.alts.len()
            invariant
                self.wf(),
                a <= self.alts@.len(),
                best is None <==> forall|b: int, i: int| 0 <= b < a && 0 <= i < self.spec_rhs(b).len() ==> !(#[trigger] self.spec_rhs(b)[i] is Terminal),
                best matches Some(m) ==> (exists|b: int, i: int| 0 <= b < a && 0 <= i < self.spec_rhs(b).len() && #[trigger] self.spec_rhs(b)[i] == Symbol::Terminal(m)),
                best matches Some(m) ==> (forall|b: int, i: int| 0 <= b < a && 0 <= i < self.spec_rhs(b).len() ==> (#[trigger] self.spec_rhs(b)[i] matches Symbol::Terminal(t) ==> t <= m)),
            decreases self.alts@.len() - a,
        {
            let rhs = &self.alts[a];
            let mut i = 0usize;
            assert(rhs@ == self.spec_rhs(a as int));
            while i < rhs.len()
                invariant
                    self.wf(),
                    a < self.alts@.len(),
                    rhs@ == self.spec_rhs(a as int),
                    i <= rhs@.len(),
                    best is None <==> (forall|b: int, j: int| 0 <= b < a && 0 <= j < self.spec_rhs(b).len() ==> !(#[trigger] self.spec_rhs(b)[j] is Terminal)) && (forall|j: int| 0 <= j < i ==> !(#[trigger] rhs@[j] is Terminal)),
                    best matches Some(m) ==> (exists|b: int, j: int| 0 <= b <= a && 0 <= j < self.spec_rhs(b).len() && (b < a || j < i) && #[trigger] self.spec_rhs(b)[j] == Symbol::Terminal(m)),
                    best matches Some(m) ==> (forall|b: int, j: int| 0 <= b < a && 0 <= j < self.spec_rhs(b).len() ==> (#[trigger] self.spec_rhs(b)[j] matches Symbol::Terminal(t) ==> t <= m)),
                    best matches Some(m) ==> (forall|j: int| 0 <= j < i ==> (#[trigger] rhs@[j] matches Symbol::Terminal(t) ==> t <= m)),
                decreases rhs@.len() - i,
            {
                match rhs[i] {
                    Symbol::Terminal(t) => {
                        match best {
                            Option::None => {
                                best = Option::Some(t);
                            },
                            Option::Some(m) => {
                                if t > m {
                                    best = Option::Some(t);
                                }
                            },
                        }
                    },
                    Symbol::Variable(_) => {},
                }
                i += 1;
            }
            a += 1;
        }
        best
    }

    /// The number of terminals: one more than the greatest terminal, or zero.
    pub fn word_count(&self) -> (r: usize)
        requires
            self.wf(),
            forall|a: int, i: int| 0 <= a < self.spec_alt_count() && 0 <= i < self.spec_rhs(a).len() ==> (#[trigger] self.spec_rhs(a)[i] matches Symbol::Terminal(t) ==> t < usize::MAX),
        ensures
            forall|a: int, i: int| 0 <= a < self.spec_alt_count() && 0 <= i < self.spec_rhs(a).len() ==> (#[trigger] self.spec_rhs(a)[i] matches Symbol::Terminal(t) ==> t < r),
            r == 0 || exists|a: int, i: int| 0 <= a < self.spec_alt_count() && 0 <= i < self.spec_rhs(a).len() && #[trigger] self.spec_rhs(a)[i] == Symbol::Terminal((r - 1) as usize),
    {
        match self.max_word() {
            Option::None => 0,
            Option::Some(m) => m + 1,
        }
    }

    /// The number of variables: the number of rules, the start rule included.
    pub fn var_count(&self) -> (r: usize)
        requires
            self.wf(),
        ensures
            r == self.spec_rule_count(),
    {
        self.rule_count()
    }
}

/// Builds a grammar rule by rule; rule `i` defines `Symbol::Variable(i)`.
pub struct GrammarBuilder {
    rules: Vec<Vec<Vec<Symbol>>>,
}

impl GrammarBuilder {
    /// The rules given so far, each as its sequence of alternatives.
    pub closed spec fn spec_rules(&self) -> Seq<Seq<Seq<Symbol>>> {
        Seq::new(self.rules@.len(), |r: int| Seq::new(self.rules@[r]@.len(), |a: int| self.rules@[r]@[a]@))
    }

    /// A builder with no rules.
    pub fn new() -> (r: Self)
        ensures
            r.spec_rules() == Seq::<Seq<Seq<Symbol>>>::empty(),
    {
        let r = GrammarBuilder { rules: Vec::new() };
        assert(r.spec_rules() =~= Seq::<Seq<Seq<Symbol>>>::empty());
        r
    }

    /// Adds the next rule, given by its alternatives.
    pub fn rule(self, alts: &[&[Symbol]]) -> (r: Self)
        ensures
            r.spec_rules() == self.spec_rules().push(Seq::new(alts@.len(), |a: int| alts@[a]@)),
    {
        let ghost old_rules = self.spec_rules();
        let mut rules = self.rules;
        let mut rule: Vec<Vec<Symbol>> = Vec::new();
        let mut a = 0usize;
        while a < alts.len()
            invariant
                a <= alts@.len(),
                rule@.len() == a,
                forall|k: int| 0 <= k < a ==> #[trigger] rule@[k]@ == alts@[k]@,
            decreases alts@.len() - a,
        {
            let src: &[Symbol] = alts[a];
            let mut alt: Vec<Symbol> = Vec::new();
            let mut i = 0usize;
            while i < src.len()
                invariant
                    i <= src@.len(),
                    alt@ == src@.take(i as int),
                decreases src@.len() - i,
            {
                alt.push(src[i]);
                i += 1;
                assert(alt@ =~= src@.take(i as int));
            }
            assert(alt@ =~= src@);
            rule.push(alt);
            a += 1;
        }
        rules.push(rule);
        let r = GrammarBuilder { rules };
        assert(r.spec_rules() =~= old_rules.push(Seq::new(alts@.len(), |a: int| alts@[a]@))) by {
            assert forall|k: int| 0 <= k < r.spec_rules().len() implies #[trigger] r.spec_rules()[k] == old_rules.push(Seq::new(alts@.len(), |a: int| alts@[a]@))[k] by {
                if k == old_rules.len() {
                    assert(r.spec_rules()[k] =~= Seq::new(alts@.len(), |a: int| alts@[a]@));
                }
            }
        }
        r
    }

    /// The grammar of the rules given, augmented with the start rule
    /// `S' -> Variable(0)`. Fails when no rule was given, or when an
    /// alternative names a variable without a rule.
    pub fn try_build(self) -> (r: Result<Grammar, GrammarError>)
        ensures
            self.spec_rules().len() == 0 ==> r == Err::<Grammar, GrammarError>(GrammarError::NoRules),
            r is Ok <==> self.spec_rules().len() > 0 && valid_rules(self.spec_rules()),
            r matches Ok(g) ==> g.wf() && grammar_of(g, self.spec_rules()),
            r matches Err(GrammarError::UndefinedVariable { rule, alt, var }) ==> rule < self.spec_rules().len() && alt < self.spec_rules()[rule as int].len() && self.spec_rules()[rule as int][alt as int].contains(Symbol::Variable(var)) && var >= self.spec_rules().len(),
    {
        let ghost rs = self.spec_rules();
        let n = self.rules.len();
        if n == 0 {
            return Err(GrammarError::NoRules);
        }
        // validate variables
        let mut r = 0usize;
        while r < n
            invariant
                n == self.rules@.len(),
                rs == self.spec_rules(),
                n == rs.len(),
                r <= n,
                forall|q: int, a: int, i: int| 0 <= q < r && 0 <= a < rs[q].len() && 0 <= i < rs[q][a].len() ==> (#[trigger] rs[q][a][i] matches Symbol::Variable(v) ==> v < n),
            decreases n - r,
        {
            let rule = &self.rules[r];
            assert(rule@.len() == rs[r as int].len());
            let mut a = 0usize;
            while a < rule.len()
                invariant
                    n == self.rules@.len(),
                    rs == self.spec_rules(),
                    n == rs.len(),
                    r < n,
                    rule == &self.rules@[r as int],
                    a <= rule@.len(),
                    rule@.len() == rs[r as int].len(),
                    forall|q: int, b: int, i: int| 0 <= q < r && 0 <= b < rs[q].len() && 0 <= i < rs[q][b].len() ==> (#[trigger] rs[q][b][i] matches Symbol::Variable(v) ==> v < n),
                    forall|b: int, i: int| 0 <= b < a && 0 <= i < rs[r as int][b].len() ==> (#[trigger] rs[r as int][b][i] matches Symbol::Variable(v) ==> v < n),
                decreases rule@.len() - a,
            {
                let alt = &rule[a];
                assert(alt@ == rs[r as int][a as int]);
                let mut i = 0usize;
                while i < alt.len()
                    invariant
                        rs == self.spec_rules(),
                        n == rs.len(),
                        r < n,
                        a < rs[r as int].len(),
                        alt@ == rs[r as int][a as int],
                        i <= alt@.len(),
                        forall|j: int| 0 <= j < i ==> (#[trigger] alt@[j] matches Symbol::Variable(v) ==> v < n),
                    decreases alt@.len() - i,
                {
                    match alt[i] {
                        Symbol::Variable(v) => {
                            if v >= n {
                                proof {
                                    assert(rs[r as int][a as int][i as int] == Symbol::Variable(v));
                                    assert(rs[r as int][a as int].contains(Symbol::Variable(v)));
                                    assert(!valid_rules(rs));
                                }
                                return Err(GrammarError::UndefinedVariable { rule: r, alt: a, var: v });
                            }
                        },
                        Symbol::Terminal(_) => {},
                    }
                    i += 1;
                }
                a += 1;
            }
            r += 1;
        }
        assert(valid_rules(rs));
        // flatten
        let mut alts: Vec<Vec<Symbol>> = Vec::new();
        let mut alt_rule: Vec<usize> = Vec::new();
        let mut rule_starts: Vec<usize> = Vec::new();
        let mut rules = self.rules;
        let mut r = 0usize;
        let ghost mut owners: Seq<(int, int)> = Seq::empty();
        while r < n
            invariant
                n == rs.len(),
                n > 0,
                valid_rules(rs),
                rules@.len() == n,
                forall|q: int| r <= q < n ==> #[trigger] rules@[q]@.len() == rs[q].len(),
                forall|q: int, a: int| r <= q < n && 0 <= a < rs[q].len() ==> #[trigger] rules@[q]@[a]@ == rs[q][a],
                r <= n,
                rule_starts@.len() == r,
                alts@.len() == alt_rule@.len(),
                owners.len() == alts@.len(),
                forall|q: int| 0 <= q < r ==> #[trigger] rule_starts@[q] <= alts@.len(),
                forall|q1: int, q2: int| 0 <= q1 <= q2 < r ==> #[trigger] rule_starts@[q1] <= #[trigger] rule_starts@[q2],
                r > 0 ==> rule_starts@[0] == 0,
                r == 0 ==> alts@.len() == 0,
                forall|a: int| 0 <= a < alts@.len() ==> {
                    let o = #[trigger] owners[a];
                    &&& 0 <= o.0 < r
                    &&& 0 <= o.1 < rs[o.0].len()
                    &&& alts@[a]@ == rs[o.0][o.1]
                    &&& alt_rule@[a] == o.0
                    &&& rule_starts@[o.0] <= a
                    &&& (o.0 + 1 < r ==> a < rule_starts@[o.0 + 1])
                    &&& a == rule_starts@[o.0] + o.1
                },
                forall|q: int| 0 <= q < r - 1 ==> #[trigger] rule_starts@[q + 1] == rule_starts@[q] + rs[q].len(),
                r > 0 ==> alts@.len() == rule_starts@[r - 1] + rs[r - 1].len(),
            decreases n - r,
        {
            let ghost starts0 = rule_starts@;
            let ghost owners0 = owners;
            let ghost alts0 = alts@;
            let ghost alt_rule0 = alt_rule@;
            rule_starts.push(alts.len());
            let mut rule: Vec<Vec<Symbol>> = Vec::new();
            std::mem::swap(&mut rule, &mut rules[r]);
            let ghost start = alts@.len() as int;
            assert(rule_starts@ == starts0.push(start as usize));
            let mut a = 0usize;
            let m = rule.len();
            while a < m
                invariant
                    r < n,
                    n == rs.len(),
                    m == rule@.len(),
                    m == rs[r as int].len(),
                    forall|b: int| a <= b < m ==> #[trigger] rule@[b]@ == rs[r as int][b],
                    a <= m,
                    start == alts0.len(),
                    start == alt_rule0.len(),
                    start == owners0.len(),
                    alts@.len() == start + a,
                    alts@.len() == alt_rule@.len(),
                    owners.len() == alts@.len(),
                    forall|b: int| 0 <= b < start ==> #[trigger] alts@[b] == alts0[b],
                    forall|b: int| 0 <= b < start ==> #[trigger] alt_rule@[b] == alt_rule0[b],
                    forall|b: int| 0 <= b < start ==> #[trigger] owners[b] == owners0[b],
                    forall|b: int| start <= b < alts@.len() ==> #[trigger] owners[b] == (r as int, b - start) && alts@[b]@ == rs[r as int][b - start] && alt_rule@[b] == r,
                decreases m - a,
            {
                let mut alt: Vec<Symbol> = Vec::new();
                std::mem::swap(&mut alt, &mut rule[a]);
                alts.push(alt);
                alt_rule.push(r);
                proof {
                    owners = owners.push((r as int, a as int));
                }
                a += 1;
            }
            let ghost rr = r as int;
            r += 1;
            proof {
                assert forall|a: int| 0 <= a < alts@.len() implies {
                    let o = #[trigger] owners[a];
                    &&& 0 <= o.0 < r
                    &&& 0 <= o.1 < rs[o.0].len()
                    &&& alts@[a]@ == rs[o.0][o.1]
                    &&& alt_rule@[a] == o.0
                    &&& rule_starts@[o.0] <= a
                    &&& (o.0 + 1 < r ==> a < rule_starts@[o.0 + 1])
                    &&& a == rule_starts@[o.0] + o.1
                } by {
                    if a < start {
                        let o = owners0[a];
                        assert(owners[a] == o);
                        assert(alts@[a] == alts0[a]);
                        if o.0 + 1 < rr {
                        } else {
                            assert(o.0 + 1 == rr);
                            assert(rule_starts@[o.0 + 1] == start);
                        }
                    } else {
                        assert(owners[a] == (rr, a - start));
                    }
                }
                assert forall|q: int| 0 <= q < r - 1 implies #[trigger] rule_starts@[q + 1] == rule_starts@[q] + rs[q].len() by {
                    if q < rr - 1 {
                        assert(rule_starts@[q + 1] == starts0[q + 1]);
                    }
                }
                assert forall|q1: int, q2: int| 0 <= q1 <= q2 < r implies #[trigger] rule_starts@[q1] <= #[trigger] rule_starts@[q2] by {
                    if q2 < rr {
                        assert(rule_starts@[q1] == starts0[q1]);
                        assert(rule_starts@[q2] == starts0[q2]);
                    }
                }
            }
        }
        // implicit start rule
        rule_starts.push(alts.len());
        let mut start_alt: Vec<Symbol> = Vec::new();
        start_alt.push(Symbol::Variable(0));
        alts.push(start_alt);
        alt_rule.push(n);
        rule_starts.push(alts.len());
        let g = Grammar { alts, alt_rule, rule_starts };
        proof {
            let m = g.alts@.len() as int;
            let big = m - 1;
            assert(g.spec_rule_starts().len() == n + 2);
            assert(g.spec_rule_count() == n + 1);
            assert(g.spec_alt_count() == m);
            assert(g.spec_rule_starts()[n as int] == big);
            assert(g.spec_rule_starts()[n + 1] == m);
            assert(g.spec_rhs(big) =~= seq![Symbol::Variable(0)]);
            assert forall|a: int| 0 <= a < big implies g.spec_rhs(a) == rs[owners[a].0][owners[a].1] by {
                assert(g.spec_rhs(a) == g.alts@[a]@);
            }
            assert forall|q: int| 0 <= q < n implies #[trigger] g.spec_rule_starts()[q + 1] - g.spec_rule_starts()[q] == rs[q].len() by {
                if q + 1 < n {
                    assert(g.spec_rule_starts()[q + 1] == g.spec_rule_starts()[q] + rs[q].len());
                }
            }
            assert forall|q: int, a: int| #![trigger rs[q][a]] 0 <= q < n && 0 <= a < rs[q].len() implies g.spec_rhs(g.spec_rule_starts()[q] + a) == rs[q][a] by {
                let st = g.spec_rule_starts();
                let x = st[q] + a;
                assert(x < st[q + 1]);
                assert(st[q + 1] <= big);
                let o = owners[x];
                if o.0 < q {
                    assert(st[o.0 + 1] <= st[q]);
                    assert(false);
                } else if o.0 > q {
                    assert(st[q + 1] <= st[o.0]);
                    assert(false);
                }
                assert(o == (q, a));
            }
            assert forall|r1: int, r2: int| 0 <= r1 <= r2 <= n + 1 implies #[trigger] g.spec_rule_starts()[r1] <= #[trigger] g.spec_rule_starts()[r2] by {
                if r2 == n + 1 || r2 == n as int {
                } else {
                    assert(g.spec_rule_starts()[r1] == rule_starts@[r1]);
                }
            }
            assert forall|a: int| 0 <= a < m implies {
                let r = #[trigger] g.spec_alt_rule()[a];
                &&& 0 <= r < n + 1
                &&& g.spec_rule_starts()[r as int] <= a < g.spec_rule_starts()[r + 1]
            } by {
                if a < big {
                    let o = owners[a];
                    if o.0 + 1 == n {
                        assert(g.spec_rule_starts()[o.0 + 1] == big);
                    }
                }
            }
            assert forall|a: int, i: int| 0 <= a < m && 0 <= i < g.spec_rhs(a).len() implies (#[trigger] g.spec_rhs(a)[i] matches Symbol::Variable(v) ==> v < n) by {
                if a < big {
                    let o = owners[a];
                    assert(g.spec_rhs(a)[i] == rs[o.0][o.1][i]);
                }
            }
        }
        Ok(g)
    }
}

/// An alternative in the range of rule `b` belongs to rule `b`.
pub proof fn lemma_alt_rule(g: Grammar, b: int, a: int)
    requires
        g.wf(),
        0 <= b < g.spec_rule_count(),
        g.spec_rule_starts()[b] <= a < g.spec_rule_starts()[b + 1],
    ensures
        g.spec_alt_rule()[a] == b,
        a < g.spec_alt_count(),
{
    let st = g.spec_rule_starts();
    assert(st[b + 1] <= st[g.spec_rule_count() as int]);
    let r = g.spec_alt_rule()[a] as int;
    if r < b {
        assert(st[r + 1] <= st[b]);
    } else if r > b {
        assert(st[b + 1] <= st[r]);
    }
}

/// Every variable named in the rules has a rule.
pub open spec fn valid_rules(rs: Seq<Seq<Seq<Symbol>>>) -> bool {
    forall|q: int, a: int, i: int| 0 <= q < rs.len() && 0 <= a < rs[q].len() && 0 <= i < rs[q][a].len() ==> (#[trigger] rs[q][a][i] matches Symbol::Variable(v) ==> v < rs.len())
}

/// `g` holds exactly the rules `rs`, in order, followed by the start rule.
pub open spec fn grammar_of(g: Grammar, rs: Seq<Seq<Seq<Symbol>>>) -> bool {
    &&& g.spec_rule_count() == rs.len() + 1
    &&& forall|q: int| 0 <= q < rs.len() ==> #[trigger] g.spec_rule_starts()[q + 1] - g.spec_rule_starts()[q] == rs[q].len()
    &&& forall|q: int, a: int| #![trigger rs[q][a]] 0 <= q < rs.len() && 0 <= a < rs[q].len() ==> g.spec_rhs(g.spec_rule_starts()[q] + a) == rs[q][a]
}

/// Symbol `x` derives the words `w` in at most `n` nested rule applications.
pub open spec fn derives_sym(g: Grammar, x: Symbol, w: Seq<usize>, n: nat) -> bool
    decreases n, 0nat,
{
    match x {
        Symbol::Terminal(a) => w == seq![a],
        Symbol::Variable(v) => n > 0 && exists|a: int| 0 <= a < g.spec_alt_count() && #[trigger] g.spec_alt_rule()[a] == v
            && derives_seq(g, g.spec_rhs(a), w, (n - 1) as nat),
    }
}

/// The symbols `s` derive the words `w`, one after another, each in at most
/// `n` nested rule applications.
pub open spec fn derives_seq(g: Grammar, s: Seq<Symbol>, w: Seq<usize>, n: nat) -> bool
    decreases n, s.len() + 1,
{
    if s.len() == 0 {
        w.len() == 0
    } else {
        exists|k: int| 0 <= k <= w.len() && derives_sym(g, s[0], #[trigger] w.take(k), n) && derives_seq(g, s.drop_first(), w.skip(k), n)
    }
}

/// `w` is a sentence of the grammar: its start variable, `Variable(0)`, derives it.
pub open spec fn in_language(g: Grammar, w: Seq<usize>) -> bool {
    exists|n: nat| #[trigger] derives_sym(g, Symbol::Variable(0), w, n)
}

/// A derivation within `n` applications is one within any `m >= n`.
pub proof fn lemma_derives_mono(g: Grammar, s: Seq<Symbol>, w: Seq<usize>, n: nat, m: nat)
    requires
        derives_seq(g, s, w, n),
        n <= m,
    ensures
        derives_seq(g, s, w, m),
    decreases n, s.len(),
{
    if s.len() > 0 {
        let k = choose|k: int| 0 <= k <= w.len() && derives_sym(g, s[0], #[trigger] w.take(k), n) && derives_seq(g, s.drop_first(), w.skip(k), n);
        lemma_derives_mono(g, s.drop_first(), w.skip(k), n, m);
        match s[0] {
            Symbol::Terminal(_) => {},
            Symbol::Variable(v) => {
                let a = choose|a: int| 0 <= a < g.spec_alt_count() && #[trigger] g.spec_alt_rule()[a] == v
                    && derives_seq(g, g.spec_rhs(a), w.take(k), (n - 1) as nat);
                lemma_derives_mono(g, g.spec_rhs(a), w.take(k), (n - 1) as nat, (m - 1) as nat);
                assert(derives_sym(g, s[0], w.take(k), m));
            },
        }
        assert(derives_sym(g, s[0], w.take(k), m) && derives_seq(g, s.drop_first(), w.skip(k), m));
    }
}

/// One symbol, as a sequence, derives what it derives alone.
pub proof fn lemma_derives_single(g: Grammar, x: Symbol, w: Seq<usize>, n: nat)
    ensures
        derives_seq(g, seq![x], w, n) == derives_sym(g, x, w, n),
{
    let s = seq![x];
    assert(s[0] == x);
    assert(s.drop_first() =~= Seq::<Symbol>::empty());
    if derives_sym(g, x, w, n) {
        assert(w.take(w.len() as int) =~= w);
        assert(w.skip(w.len() as int).len() == 0);
        assert(derives_sym(g, s[0], w.take(w.len() as int), n) && derives_seq(g, s.drop_first(), w.skip(w.len() as int), n));
    }
    if derives_seq(g, s, w, n) {
        let k = choose|k: int| 0 <= k <= w.len() && derives_sym(g, s[0], #[trigger] w.take(k), n) && derives_seq(g, s.drop_first(), w.skip(k), n);
        assert(w.skip(k).len() == 0);
        assert(w.take(k) =~= w);
    }
}

/// Derivations of two sequences of symbols, one after the other, derive
/// the words one after the other.
pub proof fn lemma_derives_append(g: Grammar, s1: Seq<Symbol>, w1: Seq<usize>, s2: Seq<Symbol>, w2: Seq<usize>, n: nat)
    requires
        derives_seq(g, s1, w1, n),
        derives_seq(g, s2, w2, n),
    ensures
        derives_seq(g, s1 + s2, w1 + w2, n),
    decreases s1.len(),
{
    if s1.len() == 0 {
        assert(s1 + s2 =~= s2);
        assert(w1 + w2 =~= w2);
    } else {
        let k = choose|k: int| 0 <= k <= w1.len() && derives_sym(g, s1[0], #[trigger] w1.take(k), n) && derives_seq(g, s1.drop_first(), w1.skip(k), n);
        lemma_derives_append(g, s1.drop_first(), w1.skip(k), s2, w2, n);
        let s = s1 + s2;
        let w = w1 + w2;
        assert(s[0] == s1[0]);
        assert(s.drop_first() =~= s1.drop_first() + s2);
        assert(w.take(k) =~= w1.take(k));
        assert(w.skip(k) =~= w1.skip(k) + w2);
        assert(derives_sym(g, s[0], w.take(k), n) && derives_seq(g, s.drop_first(), w.skip(k), n));
    }
}

/// A derivation by two sequences of symbols, one after the other, splits
/// the words between them.
pub proof fn lemma_derives_split(g: Grammar, s1: Seq<Symbol>, s2: Seq<Symbol>, w: Seq<usize>, n: nat) -> (k: int)
    requires
        derives_seq(g, s1 + s2, w, n),
    ensures
        0 <= k <= w.len(),
        derives_seq(g, s1, w.take(k), n),
        derives_seq(g, s2, w.skip(k), n),
    decreases s1.len(),
{
    if s1.len() == 0 {
        assert(s1 + s2 =~= s2);
        assert(w.skip(0) =~= w);
        0
    } else {
        let s = s1 + s2;
        assert(s[0] == s1[0]);
        assert(s.drop_first() =~= s1.drop_first() + s2);
        let j = choose|j: int| 0 <= j <= w.len() && derives_sym(g, s[0], #[trigger] w.take(j), n) && derives_seq(g, s.drop_first(), w.skip(j), n);
        let rest = w.skip(j);
        let i = lemma_derives_split(g, s1.drop_first(), s2, rest, n);
        let k = j + i;
        assert(w.take(k).take(j) =~= w.take(j));
        assert(w.take(k).skip(j) =~= rest.take(i));
        assert(w.skip(k) =~= rest.skip(i));
        assert(derives_sym(g, s1[0], w.take(k).take(j), n) && derives_seq(g, s1.drop_first(), w.take(k).skip(j), n));
        k
    }
}

} // verus!
