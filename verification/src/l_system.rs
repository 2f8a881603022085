//! L-system rewriting: every character of the current string is replaced, in
//! parallel, by the body of the first rule whose left-hand side it matches;
//! characters without a rule are copied unchanged.

use vstd::prelude::*;

use crate::chars::{chars_of, string_of};

verus! {

/// Replace every occurrence of `from` by `to`.
#[derive(Debug, Clone)]
pub struct ReplacementRule {
    pub from: char,
    pub to: String,
}

/// Start string plus replacement rules.
#[derive(Debug, Clone)]
pub struct LSystemConfig {
    pub start: String,
    pub rules: Vec<ReplacementRule>,
}

/// What one character becomes in one rewriting step: the body of the first
/// rule whose `from` is `c`, or `c` itself when no rule matches.
pub open spec fn rule_target(rules: Seq<ReplacementRule>, c: char) -> Seq<char>
    decreases rules.len(),
{
    if rules.len() == 0 {
        seq![c]
    } else if rules[0].from == c {
        rules[0].to@
    } else {
        rule_target(rules.drop_first(), c)
    }
}

/// One parallel rewriting step over the whole string.
pub open spec fn rewrite_step(rules: Seq<ReplacementRule>, s: Seq<char>) -> Seq<char> {
    s.flat_map(|c: char| rule_target(rules, c))
}

/// `n` rewriting steps starting from `s`.
pub open spec fn rewrite(rules: Seq<ReplacementRule>, s: Seq<char>, n: nat) -> Seq<char>
    decreases n,
{
    if n == 0 {
        s
    } else {
        rewrite_step(rules, rewrite(rules, s, (n - 1) as nat))
    }
}


/// Rewriting is a homomorphism of strings: one step on a concatenation is the
/// concatenation of the steps on each part.
pub proof fn lemma_rewrite_step_concat(rules: Seq<ReplacementRule>, a: Seq<char>, b: Seq<char>)
    ensures
        rewrite_step(rules, a + b) == rewrite_step(rules, a) + rewrite_step(rules, b),
    decreases b.len(),
{
    let f = |c: char| rule_target(rules, c);
    if b.len() == 0 {
        assert(a + b =~= a);
        assert(b.map_values(f) =~= Seq::<Seq<char>>::empty());
        assert(rewrite_step(rules, b) =~= Seq::<char>::empty());
        assert(rewrite_step(rules, a) + rewrite_step(rules, b) =~= rewrite_step(rules, a));
    } else {
        let b0 = b.drop_last();
        let c = b.last();
        lemma_rewrite_step_concat(rules, a, b0);
        (a + b0).lemma_flat_map_push(f, c);
        b0.lemma_flat_map_push(f, c);
        assert((a + b0).push(c) =~= a + b);
        assert(b0.push(c) =~= b);
        assert(rewrite_step(rules, a + b) =~= rewrite_step(rules, a) + rewrite_step(rules, b));
    }
}

/// Rewriting `n` times distributes over concatenation: the two halves of a
/// string develop independently.
pub proof fn lemma_rewrite_concat(rules: Seq<ReplacementRule>, a: Seq<char>, b: Seq<char>, n: nat)
    ensures
        rewrite(rules, a + b, n) == rewrite(rules, a, n) + rewrite(rules, b, n),
    decreases n,
{
    if n > 0 {
        lemma_rewrite_concat(rules, a, b, (n - 1) as nat);
        lemma_rewrite_step_concat(
            rules,
            rewrite(rules, a, (n - 1) as nat),
            rewrite(rules, b, (n - 1) as nat),
        );
    }
}

/// Iterations compose: rewriting `m + n` times is rewriting `n` times the
/// result of rewriting `m` times. So `apply_rules(c, m + n)` equals
/// `apply_rules` run `n` times on a configuration whose start string is
/// `apply_rules(c, m)`.
pub proof fn lemma_rewrite_compose(rules: Seq<ReplacementRule>, s: Seq<char>, m: nat, n: nat)
    ensures
        rewrite(rules, s, m + n) == rewrite(rules, rewrite(rules, s, m), n),
    decreases n,
{
    if n > 0 {
        lemma_rewrite_compose(rules, s, m, (n - 1) as nat);
        assert((m + n - 1) as nat == m + (n - 1) as nat);
    }
}

/// The empty string stays empty, whatever the rules and the iteration count.
pub proof fn lemma_rewrite_empty(rules: Seq<ReplacementRule>, n: nat)
    ensures
        rewrite(rules, Seq::<char>::empty(), n) == Seq::<char>::empty(),
    decreases n,
{
    if n > 0 {
        lemma_rewrite_empty(rules, (n - 1) as nat);
        let f = |c: char| rule_target(rules, c);
        assert(Seq::<char>::empty().map_values(f) =~= Seq::<Seq<char>>::empty());
    }
}

/// A character that no rule rewrites is left as it is by one step.
pub proof fn lemma_rewrite_step_fixed_char(rules: Seq<ReplacementRule>, c: char)
    requires
        forall|i: int| 0 <= i < rules.len() ==> #[trigger] rules[i].from != c,
    ensures
        rewrite_step(rules, seq![c]) == seq![c],
    decreases rules.len(),
{
    let f = |x: char| rule_target(rules, x);
    if rules.len() > 0 {
        let rest = rules.drop_first();
        assert forall|i: int| 0 <= i < rest.len() implies #[trigger] rest[i].from != c by {
            assert(rest[i] == rules[i + 1]);
        }
        lemma_rewrite_step_fixed_char(rest, c);
        let g = |x: char| rule_target(rest, x);
        seq![c].lemma_flat_map_singleton(g);
    }
    seq![c].lemma_flat_map_singleton(f);
}

/// A character that has a rule is replaced by the body of its first rule,
/// whatever that body is: an empty body erases the character, and later
/// rules for it are ignored.
pub proof fn lemma_first_rule_applies(rules: Seq<ReplacementRule>, c: char, k: int)
    requires
        0 <= k < rules.len(),
        rules[k].from == c,
        forall|j: int| 0 <= j < k ==> #[trigger] rules[j].from != c,
    ensures
        rewrite_step(rules, seq![c]) == rules[k].to@,
    decreases k,
{
    let f = |x: char| rule_target(rules, x);
    seq![c].lemma_flat_map_singleton(f);
    lemma_first_rule_target(rules, c, k);
}

proof fn lemma_first_rule_target(rules: Seq<ReplacementRule>, c: char, k: int)
    requires
        0 <= k < rules.len(),
        rules[k].from == c,
        forall|j: int| 0 <= j < k ==> #[trigger] rules[j].from != c,
    ensures
        rule_target(rules, c) == rules[k].to@,
    decreases k,
{
    if k > 0 {
        let rest = rules.drop_first();
        assert(rules[0].from != c);
        assert forall|j: int| 0 <= j < k - 1 implies #[trigger] rest[j].from != c by {
            assert(rest[j] == rules[j + 1]);
        }
        assert(rest[k - 1] == rules[k]);
        lemma_first_rule_target(rest, c, k - 1);
    }
}

/// With no rules at all, rewriting leaves every string unchanged.
pub proof fn lemma_rewrite_without_rules(s: Seq<char>, n: nat)
    ensures
        rewrite(Seq::<ReplacementRule>::empty(), s, n) == s,
    decreases n,
{
    if n > 0 {
        lemma_rewrite_without_rules(s, (n - 1) as nat);
        lemma_rewrite_step_identity(s);
    }
}

proof fn lemma_rewrite_step_identity(s: Seq<char>)
    ensures
        rewrite_step(Seq::<ReplacementRule>::empty(), s) == s,
    decreases s.len(),
{
    let rules = Seq::<ReplacementRule>::empty();
    let f = |c: char| rule_target(rules, c);
    if s.len() == 0 {
        assert(s.map_values(f) =~= Seq::<Seq<char>>::empty());
    } else {
        lemma_rewrite_step_identity(s.drop_last());
        s.drop_last().lemma_flat_map_push(f, s.last());
        assert(s.drop_last().push(s.last()) =~= s);
        assert(rewrite_step(rules, s) =~= s);
    }
}

proof fn lemma_rule_target_skip(rules: Seq<ReplacementRule>, k: int, c: char)
    requires
        0 <= k < rules.len(),
        rules[k].from != c,
    ensures
        rule_target(rules.skip(k), c) == rule_target(rules.skip(k + 1), c),
{
    assert(rules.skip(k).drop_first() =~= rules.skip(k + 1));
}

/// Index of the first rule for `c`, if any, with its body as characters.
fn find_rule(rules: &Vec<ReplacementRule>, bodies: &Vec<Vec<char>>, c: char) -> (r: Option<usize>)
    requires
        bodies.len() == rules.len(),
        forall|i: int| 0 <= i < rules.len() ==> #[trigger] bodies[i]@ == rules[i].to@,
    ensures
        match r {
            Some(k) => k < rules.len() && rule_target(rules@, c) == bodies[k as int]@,
            None => rule_target(rules@, c) == seq![c],
        },
{
    let mut k: usize = 0;
    assert(rules@.skip(0) =~= rules@);
    while k < rules.len()
        invariant
            k <= rules.len(),
            bodies.len() == rules.len(),
            forall|i: int| 0 <= i < rules.len() ==> #[trigger] bodies[i]@ == rules[i].to@,
            rule_target(rules@, c) == rule_target(rules@.skip(k as int), c),
        decreases rules.len() - k,
    {
        if rules[k].from == c {
            return Some(k);
        }
        proof {
            lemma_rule_target_skip(rules@, k as int, c);
        }
        k = k + 1;
    }
    None
}

/// One rewriting step on a character vector.
fn rewrite_once(rules: &Vec<ReplacementRule>, bodies: &Vec<Vec<char>>, current: &Vec<char>) -> (next: Vec<char>)
    requires
        bodies.len() == rules.len(),
        forall|i: int| 0 <= i < rules.len() ==> #[trigger] bodies[i]@ == rules[i].to@,
    ensures
        next@ == rewrite_step(rules@, current@),
{
    let ghost f = |c: char| rule_target(rules@, c);
    let mut next: Vec<char> = Vec::new();
    let mut i: usize = 0;
    assert(current@.take(0) =~= Seq::<char>::empty());
    assert(Seq::<char>::empty().flat_map(f) =~= Seq::<char>::empty()) by {
        assert(Seq::<char>::empty().map_values(f) =~= Seq::<Seq<char>>::empty());
    }
    while i < current.len()
        invariant
            i <= current.len(),
            bodies.len() == rules.len(),
            forall|j: int| 0 <= j < rules.len() ==> #[trigger] bodies[j]@ == rules[j].to@,
            f == (|c: char| rule_target(rules@, c)),
            next@ == current@.take(i as int).flat_map(f),
        decreases current.len() - i,
    {
        let c = current[i];
        proof {
            current@.take(i as int).lemma_flat_map_push(f, c);
            assert(current@.take(i as int).push(c) =~= current@.take(i + 1));
        }
        match find_rule(rules, bodies, c) {
            Some(k) => {
                let body = &bodies[k];
                let mut j: usize = 0;
                let ghost before = next@;
                while j < body.len()
                    invariant
                        j <= body.len(),
                        next@ == before + body@.take(j as int),
                    decreases body.len() - j,
                {
                    next.push(body[j]);
                    proof {
                        assert(body@.take(j + 1) =~= body@.take(j as int).push(body[j as int]));
                    }
                    j = j + 1;
                }
                assert(body@.take(body.len() as int) =~= body@);
            },
            None => {
                next.push(c);
            },
        }
        i = i + 1;
    }
    assert(current@.take(current.len() as int) =~= current@);
    next
}

/// Iteratively apply the replacement rules to the start string, `iterations` times.
pub fn apply_rules(config: &LSystemConfig, iterations: usize) -> (result: String)
    ensures
        result@ == rewrite(config.rules@, config.start@, iterations as nat),
{
    let mut bodies: Vec<Vec<char>> = Vec::new();
    let mut r: usize = 0;
    while r < config.rules.len()
        invariant
            r <= config.rules.len(),
            bodies.len() == r,
            forall|i: int| 0 <= i < r ==> #[trigger] bodies[i]@ == config.rules[i].to@,
        decreases config.rules.len() - r,
    {
        bodies.push(chars_of(config.rules[r].to.as_str()));
        r = r + 1;
    }
    let mut current = chars_of(config.start.as_str());
    let mut n: usize = 0;
    while n < iterations
        invariant
            n <= iterations,
            bodies.len() == config.rules.len(),
            forall|i: int| 0 <= i < config.rules.len() ==> #[trigger] bodies[i]@ == config.rules[i].to@,
            current@ == rewrite(config.rules@, config.start@, n as nat),
        decreases iterations - n,
    {
        current = rewrite_once(&config.rules, &bodies, &current);
        n = n + 1;
    }
    string_of(current.as_slice())
}


/// Default rewriting budget, in characters, for drawings that rewrite every
/// frame: user rules can grow exponentially, and a drawing has at most about
/// this many segments.
pub const MAX_REWRITE_LEN: usize = 200000;

/// Iteration `k` is where budgeted rewriting stops: no later than
/// `iterations`, every iteration up to `k` fits in `max_len` characters, and
/// the next one (if one was asked for) would not.
pub open spec fn budget_stop(
    rules: Seq<ReplacementRule>,
    start: Seq<char>,
    iterations: nat,
    max_len: nat,
    k: nat,
) -> bool {
    &&& k <= iterations
    &&& forall|j: nat| 1 <= j <= k ==> #[trigger] rewrite(rules, start, j).len() <= max_len
    &&& k < iterations ==> rewrite(rules, start, k + 1).len() > max_len
}

/// Rewrite up to `iterations` times, stopping at the last iteration whose
/// result fits in `max_len` characters.
pub fn apply_rules_budgeted(config: &LSystemConfig, iterations: usize, max_len: usize) -> (result: String)
    ensures
        exists|k: nat|
            #[trigger] budget_stop(config.rules@, config.start@, iterations as nat, max_len as nat, k)
                && result@ == rewrite(config.rules@, config.start@, k),
{
    let mut bodies: Vec<Vec<char>> = Vec::new();
    let mut r: usize = 0;
    while r < config.rules.len()
        invariant
            r <= config.rules.len(),
            bodies.len() == r,
            forall|i: int| 0 <= i < r ==> #[trigger] bodies[i]@ == config.rules[i].to@,
        decreases config.rules.len() - r,
    {
        bodies.push(chars_of(config.rules[r].to.as_str()));
        r = r + 1;
    }
    let mut current = chars_of(config.start.as_str());
    let mut n: usize = 0;
    loop
        invariant
            n <= iterations,
            bodies.len() == config.rules.len(),
            forall|i: int| 0 <= i < config.rules.len() ==> #[trigger] bodies[i]@ == config.rules[i].to@,
            current@ == rewrite(config.rules@, config.start@, n as nat),
            forall|j: nat| 1 <= j <= n ==> #[trigger] rewrite(config.rules@, config.start@, j).len() <= max_len,
        ensures
            budget_stop(config.rules@, config.start@, iterations as nat, max_len as nat, n as nat),
            current@ == rewrite(config.rules@, config.start@, n as nat),
        decreases iterations - n,
    {
        if n >= iterations {
            break;
        }
        let next = rewrite_once(&config.rules, &bodies, &current);
        if next.len() > max_len {
            break;
        }
        current = next;
        n = n + 1;
    }
    string_of(current.as_slice())
}

/// One drawn segment of a turtle interpretation, without its geometry.
///
/// The segment starts where segment `from` ended (or at the origin when
/// `from` is `None`) and heads at a quarter turn plus `turns` times the turn
/// angle; its length is the step distance.
#[derive(Debug, Clone, Copy, PartialEq, Eq)]
pub struct TurtleSegment {
    pub from: Option<usize>,
    pub turns: i64,
}

/// The abstract turtle: where the pen is (end of a segment, or the origin),
/// the net number of turns, the saved states, and the segments drawn so far,
/// each as (start, turns).
pub struct TurtlePlan {
    pub at: Option<int>,
    pub turns: int,
    pub stack: Seq<(Option<int>, int)>,
    pub segments: Seq<(Option<int>, int)>,
}

pub open spec fn turtle_start() -> TurtlePlan {
    TurtlePlan { at: None, turns: 0, stack: Seq::empty(), segments: Seq::empty() }
}

/// Whether a character draws a segment.
pub open spec fn is_draw(c: char) -> bool {
    c == 'F' || c == 'G'
}

/// The turtle command of one character: `F`/`G` draw forward, `+`/`-` turn
/// left/right, `[` saves the state, `]` restores the last saved state (and is
/// undefined when none is saved); every other character is ignored.
pub open spec fn turtle_step(st: TurtlePlan, c: char) -> Option<TurtlePlan> {
    if is_draw(c) {
        Some(TurtlePlan {
            at: Some(st.segments.len() as int),
            segments: st.segments.push((st.at, st.turns)),
            ..st
        })
    } else if c == '+' {
        Some(TurtlePlan { turns: st.turns + 1, ..st })
    } else if c == '-' {
        Some(TurtlePlan { turns: st.turns - 1, ..st })
    } else if c == '[' {
        Some(TurtlePlan { stack: st.stack.push((st.at, st.turns)), ..st })
    } else if c == ']' {
        if st.stack.len() == 0 {
            None
        } else {
            Some(TurtlePlan {
                at: st.stack.last().0,
                turns: st.stack.last().1,
                stack: st.stack.drop_last(),
                ..st
            })
        }
    } else {
        Some(st)
    }
}

/// The turtle after reading the whole string, or `None` when a `]` has no
/// saved state to restore.
pub open spec fn turtle_run(s: Seq<char>) -> Option<TurtlePlan>
    decreases s.len(),
{
    if s.len() == 0 {
        Some(turtle_start())
    } else {
        match turtle_run(s.drop_last()) {
            Some(st) => turtle_step(st, s.last()),
            None => None,
        }
    }
}

pub open spec fn opt_index(o: Option<usize>) -> Option<int> {
    match o {
        Some(k) => Some(k as int),
        None => None,
    }
}

pub open spec fn segment_view(s: TurtleSegment) -> (Option<int>, int) {
    (opt_index(s.from), s.turns as int)
}

pub open spec fn saved_view(p: (Option<usize>, i64)) -> (Option<int>, int) {
    (opt_index(p.0), p.1 as int)
}

/// Number of drawing characters in `s`.
pub open spec fn draw_count(s: Seq<char>) -> nat
    decreases s.len(),
{
    if s.len() == 0 {
        0
    } else {
        draw_count(s.drop_last()) + if is_draw(s.last()) { 1nat } else { 0nat }
    }
}

/// Number of `[` minus number of `]` in `s`.
pub open spec fn bracket_depth(s: Seq<char>) -> int
    decreases s.len(),
{
    if s.len() == 0 {
        0
    } else {
        bracket_depth(s.drop_last()) + if s.last() == '[' {
            1int
        } else if s.last() == ']' {
            -1int
        } else {
            0int
        }
    }
}

/// No prefix of `s` closes more brackets than it opens.
pub open spec fn brackets_never_underflow(s: Seq<char>) -> bool {
    forall|k: int| 0 <= k <= s.len() ==> bracket_depth(#[trigger] s.take(k)) >= 0
}

proof fn lemma_take_drop_last(s: Seq<char>, k: int)
    requires
        0 < k <= s.len(),
    ensures
        s.take(k).drop_last() == s.take(k - 1),
        s.take(k).last() == s[k - 1],
{
    assert(s.take(k).drop_last() =~= s.take(k - 1));
}

/// A defined run has defined prefixes.
pub proof fn lemma_turtle_run_prefix(s: Seq<char>, k: int)
    requires
        0 <= k <= s.len(),
        turtle_run(s) is Some,
    ensures
        turtle_run(s.take(k)) is Some,
    decreases s.len() - k,
{
    if k == s.len() {
        assert(s.take(k) =~= s);
    } else {
        lemma_turtle_run_prefix(s, k + 1);
        lemma_take_drop_last(s, k + 1);
    }
}

/// The turtle is defined exactly on the strings that never close a bracket
/// they did not open, and then it holds one saved state per open bracket.
pub proof fn lemma_turtle_defined_iff_balanced(s: Seq<char>)
    ensures
        turtle_run(s) is Some <==> brackets_never_underflow(s),
        turtle_run(s) is Some ==> turtle_run(s).unwrap().stack.len() == bracket_depth(s),
    decreases s.len(),
{
    if s.len() == 0 {
        assert forall|k: int| 0 <= k <= s.len() implies bracket_depth(#[trigger] s.take(k)) >= 0 by {
            assert(s.take(k) =~= s);
        }
    } else {
        let p = s.drop_last();
        lemma_turtle_defined_iff_balanced(p);
        assert(s.take(s.len() as int) =~= s);
        if brackets_never_underflow(s) {
            assert forall|k: int| 0 <= k <= p.len() implies bracket_depth(#[trigger] p.take(k)) >= 0 by {
                assert(p.take(k) =~= s.take(k));
            }
        }
        if turtle_run(s) is Some {
            assert forall|k: int| 0 <= k <= s.len() implies bracket_depth(#[trigger] s.take(k)) >= 0 by {
                if k < s.len() {
                    assert(p.take(k) =~= s.take(k));
                }
            }
        }
    }
}

/// Every drawing character draws exactly one segment.
pub proof fn lemma_turtle_segment_count(s: Seq<char>)
    requires
        turtle_run(s) is Some,
    ensures
        turtle_run(s).unwrap().segments.len() == draw_count(s),
    decreases s.len(),
{
    if s.len() > 0 {
        lemma_turtle_run_prefix(s, s.len() - 1);
        lemma_take_drop_last(s, s.len() as int);
        assert(s.take(s.len() - 1) =~= s.drop_last());
        lemma_turtle_segment_count(s.drop_last());
    }
}

/// Every segment starts at the origin or at the end of an earlier segment,
/// and the pen is at the origin or at the end of a drawn segment.
pub proof fn lemma_turtle_segments_backward(s: Seq<char>)
    requires
        turtle_run(s) is Some,
    ensures
        ({
            let st = turtle_run(s).unwrap();
            &&& forall|i: int| 0 <= i < st.segments.len() ==>
                ((#[trigger] st.segments[i]).0 matches Some(j) ==> 0 <= j < i)
            &&& st.at matches Some(j) ==> 0 <= j < st.segments.len()
            &&& forall|i: int| 0 <= i < st.stack.len() ==>
                ((#[trigger] st.stack[i]).0 matches Some(j) ==> 0 <= j < st.segments.len())
        }),
    decreases s.len(),
{
    if s.len() > 0 {
        lemma_turtle_run_prefix(s, s.len() - 1);
        assert(s.take(s.len() - 1) =~= s.drop_last());
        lemma_turtle_segments_backward(s.drop_last());
        let st0 = turtle_run(s.drop_last()).unwrap();
        let st = turtle_run(s).unwrap();
        if s.last() == ']' {
            assert(st.stack.len() + 1 == st0.stack.len());
            assert forall|i: int| 0 <= i < st.stack.len() implies
                ((#[trigger] st.stack[i]).0 matches Some(j) ==> 0 <= j < st.segments.len()) by {
                assert(st.stack[i] == st0.stack[i]);
            }
            assert(st0.stack[st0.stack.len() - 1] == st0.stack.last());
        } else if s.last() == '[' {
            assert forall|i: int| 0 <= i < st.stack.len() implies
                ((#[trigger] st.stack[i]).0 matches Some(j) ==> 0 <= j < st.segments.len()) by {
                if i < st0.stack.len() {
                    assert(st.stack[i] == st0.stack[i]);
                }
            }
        } else if is_draw(s.last()) {
            assert forall|i: int| 0 <= i < st.segments.len() implies
                ((#[trigger] st.segments[i]).0 matches Some(j) ==> 0 <= j < i) by {
                if i < st0.segments.len() {
                    assert(st.segments[i] == st0.segments[i]);
                }
            }
        }
    }
}

/// Without brackets the drawing is one connected path: the first segment
/// starts at the origin and every later segment starts where the previous one
/// ended.
pub proof fn lemma_turtle_path_connected(s: Seq<char>)
    requires
        forall|k: int| 0 <= k < s.len() ==> #[trigger] s[k] != '[' && s[k] != ']',
    ensures
        turtle_run(s) is Some,
        turtle_run(s).unwrap().stack.len() == 0,
        turtle_run(s).unwrap().at == (if turtle_run(s).unwrap().segments.len() == 0 {
            None::<int>
        } else {
            Some(turtle_run(s).unwrap().segments.len() - 1)
        }),
        forall|i: int| 0 <= i < turtle_run(s).unwrap().segments.len() ==>
            (#[trigger] turtle_run(s).unwrap().segments[i]).0 == (if i == 0 {
                None::<int>
            } else {
                Some(i - 1)
            }),
    decreases s.len(),
{
    if s.len() > 0 {
        let p = s.drop_last();
        assert forall|k: int| 0 <= k < p.len() implies #[trigger] p[k] != '[' && p[k] != ']' by {
            assert(p[k] == s[k]);
        }
        lemma_turtle_path_connected(p);
        assert(s[s.len() - 1] == s.last());
        let st0 = turtle_run(p).unwrap();
        let st = turtle_run(s).unwrap();
        if is_draw(s.last()) {
            assert forall|i: int| 0 <= i < st.segments.len() implies
                (#[trigger] st.segments[i]).0 == (if i == 0 { None::<int> } else { Some(i - 1) }) by {
                if i < st0.segments.len() {
                    assert(st.segments[i] == st0.segments[i]);
                }
            }
        }
    }
}

/// Whether every `]` in `l_string` has a matching earlier `[`, so that the
/// turtle interpretation is defined.
pub fn brackets_balanced(l_string: &str) -> (ok: bool)
    ensures
        ok == (turtle_run(l_string@) is Some),
{
    let chars = chars_of(l_string);
    let mut depth: usize = 0;
    let mut i: usize = 0;
    while i < chars.len()
        invariant
            i <= chars.len(),
            chars@ == l_string@,
            turtle_run(chars@.take(i as int)) is Some,
            turtle_run(chars@.take(i as int)).unwrap().stack.len() == depth,
            depth <= i,
        decreases chars.len() - i,
    {
        let c = chars[i];
        proof {
            lemma_take_drop_last(chars@, i + 1);
        }
        if c == '[' {
            depth = depth + 1;
        } else if c == ']' {
            if depth == 0 {
                proof {
                    if turtle_run(chars@) is Some {
                        lemma_turtle_run_prefix(chars@, i + 1);
                    }
                }
                return false;
            }
            depth = depth - 1;
        }
        i = i + 1;
    }
    assert(chars@.take(chars.len() as int) =~= chars@);
    true
}

pub open spec fn plan_of(
    at: Option<usize>,
    turns: i64,
    stack: Seq<(Option<usize>, i64)>,
    segments: Seq<TurtleSegment>,
) -> TurtlePlan {
    TurtlePlan {
        at: opt_index(at),
        turns: turns as int,
        stack: stack.map_values(|p: (Option<usize>, i64)| saved_view(p)),
        segments: segments.map_values(|s: TurtleSegment| segment_view(s)),
    }
}

/// The segments that the turtle interpretation of `l_string` draws, in
/// drawing order, each with the segment whose end it starts from and its net
/// number of turns. `F` and `G` draw, `+` turns left, `-` turns right, `[`
/// saves the pen, `]` restores it; other characters are ignored.
pub fn plan_lines(l_string: &str) -> (segments: Vec<TurtleSegment>)
    requires
        turtle_run(l_string@) is Some,
        l_string@.len() <= i64::MAX,
    ensures
        segments@.map_values(|s: TurtleSegment| segment_view(s))
            == turtle_run(l_string@).unwrap().segments,
{
    let chars = chars_of(l_string);
    let mut at: Option<usize> = None;
    let mut turns: i64 = 0;
    let mut stack: Vec<(Option<usize>, i64)> = Vec::new();
    let mut segments: Vec<TurtleSegment> = Vec::new();
    let mut i: usize = 0;
    proof {
        assert(stack@.map_values(|p: (Option<usize>, i64)| saved_view(p)) =~= Seq::<(Option<int>, int)>::empty());
        assert(segments@.map_values(|s: TurtleSegment| segment_view(s)) =~= Seq::<(Option<int>, int)>::empty());
        assert(chars@.take(0) =~= Seq::<char>::empty());
    }
    while i < chars.len()
        invariant
            i <= chars.len(),
            chars@ == l_string@,
            chars.len() <= i64::MAX,
            turtle_run(chars@) is Some,
            turtle_run(chars@.take(i as int)) == Some(plan_of(at, turns, stack@, segments@)),
            -(i as int) <= turns <= i,
            forall|j: int| 0 <= j < stack.len() ==> -(i as int) <= (#[trigger] stack[j]).1 <= i,
            segments.len() <= i,
            at matches Some(k) ==> k < segments.len(),
            forall|j: int| 0 <= j < stack.len() ==> ((#[trigger] stack[j]).0 matches Some(k) ==> k < segments.len()),
        decreases chars.len() - i,
    {
        let c = chars[i];
        proof {
            lemma_take_drop_last(chars@, i + 1);
            lemma_turtle_run_prefix(chars@, i + 1);
        }
        let ghost old_stack = stack@;
        let ghost old_segments = segments@;
        let ghost old_at = at;
        let ghost old_turns = turns;
        let ghost sv = |s: TurtleSegment| segment_view(s);
        let ghost pv = |p: (Option<usize>, i64)| saved_view(p);
        if c == 'F' || c == 'G' {
            let k = segments.len();
            segments.push(TurtleSegment { from: at, turns });
            at = Some(k);
            proof {
                assert(segments@.map_values(sv) =~= old_segments.map_values(sv).push(
                    (opt_index(old_at), old_turns as int),
                ));
            }
        } else if c == '+' {
            turns = turns + 1;
        } else if c == '-' {
            turns = turns - 1;
        } else if c == '[' {
            stack.push((at, turns));
            proof {
                assert(stack@.map_values(pv) =~= old_stack.map_values(pv).push(
                    (opt_index(old_at), old_turns as int),
                ));
            }
        } else if c == ']' {
            proof {
                assert(old_stack.map_values(pv).len() == old_stack.len());
            }
            let top = stack.pop();
            match top {
                Some(saved) => {
                    at = saved.0;
                    turns = saved.1;
                    proof {
                        assert(stack@.map_values(pv) =~= old_stack.map_values(pv).drop_last());
                        assert(old_stack.map_values(pv).last() == pv(old_stack.last()));
                    }
                },
                None => {},
            }
        }
        i = i + 1;
    }
    assert(chars@.take(chars.len() as int) =~= chars@);
    segments
}

/// A rule built from a character and a string literal.
fn rule(from: char, to: &str) -> (r: ReplacementRule)
    ensures
        r.from == from,
        r.to@ == to@,
{
    ReplacementRule { from, to: to.to_owned() }
}

/// Heighway dragon curve (turn angle a right angle).
pub fn dragon_curve() -> (c: LSystemConfig)
    ensures
        c.start@ == "F"@,
        c.rules@.len() == 2,
        c.rules[0].from == 'F',
        c.rules[0].to@ == "F+G"@,
        c.rules[1].from == 'G',
        c.rules[1].to@ == "F-G"@,
{
    LSystemConfig { start: "F".to_owned(), rules: vec![rule('F', "F+G"), rule('G', "F-G")] }
}

/// Sierpinski arrowhead triangle (turn angle sixty degrees).
pub fn sierpinski() -> (c: LSystemConfig)
    ensures
        c.start@ == "F"@,
        c.rules@.len() == 2,
        c.rules[0].from == 'F',
        c.rules[0].to@ == "G-F-G"@,
        c.rules[1].from == 'G',
        c.rules[1].to@ == "F+G+F"@,
{
    LSystemConfig { start: "F".to_owned(), rules: vec![rule('F', "G-F-G"), rule('G', "F+G+F")] }
}

/// Quadratic Koch curve (turn angle a right angle).
pub fn koch() -> (c: LSystemConfig)
    ensures
        c.start@ == "F"@,
        c.rules@.len() == 1,
        c.rules[0].from == 'F',
        c.rules[0].to@ == "F-F+F+F-F"@,
{
    LSystemConfig { start: "F".to_owned(), rules: vec![rule('F', "F-F+F+F-F")] }
}

/// Branching fractal plant (turn angle a seventh of a half turn).
pub fn fractal_plant() -> (c: LSystemConfig)
    ensures
        c.start@ == "-X"@,
        c.rules@.len() == 2,
        c.rules[0].from == 'X',
        c.rules[0].to@ == "F+[[X]-X]-F[-FX]+X"@,
        c.rules[1].from == 'F',
        c.rules[1].to@ == "FF"@,
{
    LSystemConfig { start: "-X".to_owned(), rules: vec![rule('X', "F+[[X]-X]-F[-FX]+X"), rule('F', "FF")] }
}

/// Crystal-like branching (turn angle a seventh of a half turn).
pub fn crystal() -> (c: LSystemConfig)
    ensures
        c.start@ == "X"@,
        c.rules@.len() == 2,
        c.rules[0].from == 'X',
        c.rules[0].to@ == "F[+X][-X]FX"@,
        c.rules[1].from == 'F',
        c.rules[1].to@ == "FF"@,
{
    LSystemConfig { start: "X".to_owned(), rules: vec![rule('X', "F[+X][-X]FX"), rule('F', "FF")] }
}

/// Binary tree (turn angle an eighth of a turn).
pub fn binary_tree() -> (c: LSystemConfig)
    ensures
        c.start@ == "F"@,
        c.rules@.len() == 2,
        c.rules[0].from == 'F',
        c.rules[0].to@ == "G[-F]+F"@,
        c.rules[1].from == 'G',
        c.rules[1].to@ == "GG"@,
{
    LSystemConfig { start: "F".to_owned(), rules: vec![rule('F', "G[-F]+F"), rule('G', "GG")] }
}

/// Hilbert space-filling curve (turn angle a right angle).
pub fn hilbert() -> (c: LSystemConfig)
    ensures
        c.start@ == "A"@,
        c.rules@.len() == 2,
        c.rules[0].from == 'A',
        c.rules[0].to@ == "+BF-AFA-FB+"@,
        c.rules[1].from == 'B',
        c.rules[1].to@ == "-AF+BFB+FA-"@,
{
    LSystemConfig { start: "A".to_owned(), rules: vec![rule('A', "+BF-AFA-FB+"), rule('B', "-AF+BFB+FA-")] }
}

/// Bushy tree (turn angle a seventh of a half turn).
pub fn tree() -> (c: LSystemConfig)
    ensures
        c.start@ == "F"@,
        c.rules@.len() == 1,
        c.rules[0].from == 'F',
        c.rules[0].to@ == "F[+F]F[-F]F"@,
{
    LSystemConfig { start: "F".to_owned(), rules: vec![rule('F', "F[+F]F[-F]F")] }
}

/// Spiralling branch (turn angle an eighth of a turn).
pub fn my1() -> (c: LSystemConfig)
    ensures
        c.start@ == "F"@,
        c.rules@.len() == 1,
        c.rules[0].from == 'F',
        c.rules[0].to@ == "F[+F[-F[+F[-F]]]]"@,
{
    LSystemConfig { start: "F".to_owned(), rules: vec![rule('F', "F[+F[-F[+F[-F]]]]")] }
}

/// Twin-branch shrub (turn angle an eighth of a turn).
pub fn my2() -> (c: LSystemConfig)
    ensures
        c.start@ == "F"@,
        c.rules@.len() == 1,
        c.rules[0].from == 'F',
        c.rules[0].to@ == "F[+F-F][-F+F]F"@,
{
    LSystemConfig { start: "F".to_owned(), rules: vec![rule('F', "F[+F-F][-F+F]F")] }
}

/// Mirrored shrub (turn angle an eighth of a turn).
pub fn my3() -> (c: LSystemConfig)
    ensures
        c.start@ == "F"@,
        c.rules@.len() == 1,
        c.rules[0].from == 'F',
        c.rules[0].to@ == "F[-F-F][+F+F]F"@,
{
    LSystemConfig { start: "F".to_owned(), rules: vec![rule('F', "F[-F-F][+F+F]F")] }
}

/// Zig-zag triangle growth (turn angle about 2.09 radians).
pub fn my4() -> (c: LSystemConfig)
    ensures
        c.start@ == "F"@,
        c.rules@.len() == 1,
        c.rules[0].from == 'F',
        c.rules[0].to@ == "F-F+F"@,
{
    LSystemConfig { start: "F".to_owned(), rules: vec![rule('F', "F-F+F")] }
}

/// Dense weed (turn angle an eighth of a turn).
pub fn my5() -> (c: LSystemConfig)
    ensures
        c.start@ == "F"@,
        c.rules@.len() == 1,
        c.rules[0].from == 'F',
        c.rules[0].to@ == "F[F-F+F+F-F]F[F+F-F-F+F]F"@,
{
    LSystemConfig { start: "F".to_owned(), rules: vec![rule('F', "F[F-F+F+F-F]F[F+F-F-F+F]F")] }
}

/// Open hooks (turn angle an eighth of a turn).
pub fn my6() -> (c: LSystemConfig)
    ensures
        c.start@ == "F"@,
        c.rules@.len() == 1,
        c.rules[0].from == 'F',
        c.rules[0].to@ == "F[-F+F+F-]F"@,
{
    LSystemConfig { start: "F".to_owned(), rules: vec![rule('F', "F[-F+F+F-]F")] }
}

/// Koch snowflake (turn angle sixty degrees).
pub fn my7() -> (c: LSystemConfig)
    ensures
        c.start@ == "F--F--F"@,
        c.rules@.len() == 1,
        c.rules[0].from == 'F',
        c.rules[0].to@ == "F+F--F+F"@,
{
    LSystemConfig { start: "F--F--F".to_owned(), rules: vec![rule('F', "F+F--F+F")] }
}

/// Fan tree (turn angle an eighth of a turn).
pub fn my8() -> (c: LSystemConfig)
    ensures
        c.start@ == "F"@,
        c.rules@.len() == 1,
        c.rules[0].from == 'F',
        c.rules[0].to@ == "FF[+++F][---F]"@,
{
    LSystemConfig { start: "F".to_owned(), rules: vec![rule('F', "FF[+++F][---F]")] }
}

} // verus!

verus! {

// ---------------------------------------------------------------- saved pens

/// The turtle after reading `s` from state `st`, or `None` when a `]` finds
/// no saved state.
pub open spec fn run_from(st: TurtlePlan, s: Seq<char>) -> Option<TurtlePlan>
    decreases s.len(),
{
    if s.len() == 0 {
        Some(st)
    } else {
        match run_from(st, s.drop_last()) {
            Some(t) => turtle_step(t, s.last()),
            None => None,
        }
    }
}

proof fn lemma_run_from_start(s: Seq<char>)
    ensures
        turtle_run(s) == run_from(turtle_start(), s),
    decreases s.len(),
{
    if s.len() > 0 {
        lemma_run_from_start(s.drop_last());
    }
}

proof fn lemma_run_from_concat(st: TurtlePlan, a: Seq<char>, b: Seq<char>)
    ensures
        run_from(st, a + b) == match run_from(st, a) {
            Some(t) => run_from(t, b),
            None => None,
        },
    decreases b.len(),
{
    if b.len() == 0 {
        assert(a + b =~= a);
    } else {
        assert((a + b).drop_last() =~= a + b.drop_last());
        assert((a + b).last() == b.last());
        lemma_run_from_concat(st, a, b.drop_last());
    }
}

/// Reading text that never closes more brackets than it opens keeps every
/// saved state below it and adds one per bracket left open.
proof fn lemma_run_keeps_saved(st: TurtlePlan, q: Seq<char>)
    requires
        brackets_never_underflow(q),
    ensures
        run_from(st, q) is Some,
        run_from(st, q).unwrap().stack.len() == st.stack.len() + bracket_depth(q),
        run_from(st, q).unwrap().stack.subrange(0, st.stack.len() as int) == st.stack,
    decreases q.len(),
{
    assert(q.take(q.len() as int) =~= q);
    if q.len() > 0 {
        let p = q.drop_last();
        assert forall|k: int| 0 <= k <= p.len() implies bracket_depth(#[trigger] p.take(k)) >= 0 by {
            assert(p.take(k) =~= q.take(k));
        }
        lemma_run_keeps_saved(st, p);
        let t = run_from(st, p).unwrap();
        let n = st.stack.len() as int;
        let c = q.last();
        if c == '[' {
            assert(t.stack.push((t.at, t.turns)).subrange(0, n) =~= t.stack.subrange(0, n));
        } else if c == ']' {
            assert(bracket_depth(q) >= 0);
            assert(t.stack.drop_last().subrange(0, n) =~= t.stack.subrange(0, n));
        }
    }
}

/// A `]` restores the pen saved by its matching `[`: the most recent one not
/// yet closed. Reading `[`, then text whose brackets balance, then `]`,
/// brings the turtle back to the position, heading and saved states it had
/// before the `[` (whatever the text drew in between stays drawn).
pub proof fn lemma_bracket_restores_pen(p: Seq<char>, q: Seq<char>)
    requires
        turtle_run(p) is Some,
        brackets_never_underflow(q),
        bracket_depth(q) == 0,
    ensures
        turtle_run(p + seq!['['] + q + seq![']']) is Some,
        turtle_run(p + seq!['['] + q + seq![']']).unwrap().at == turtle_run(p).unwrap().at,
        turtle_run(p + seq!['['] + q + seq![']']).unwrap().turns == turtle_run(p).unwrap().turns,
        turtle_run(p + seq!['['] + q + seq![']']).unwrap().stack == turtle_run(p).unwrap().stack,
{
    let s = p + seq!['['] + q + seq![']'];
    let st = turtle_run(p).unwrap();
    lemma_run_from_start(s);
    lemma_run_from_start(p);
    lemma_run_from_concat(turtle_start(), p + seq!['['] + q, seq![']']);
    lemma_run_from_concat(turtle_start(), p + seq!['['], q);
    lemma_run_from_concat(turtle_start(), p, seq!['[']);
    let one = seq!['['];
    assert(one.drop_last() =~= Seq::<char>::empty());
    assert(run_from(st, one.drop_last()) == Some(st));
    assert(one.last() == '[');
    assert(run_from(st, one) == turtle_step(st, '['));
    let st1 = run_from(st, one).unwrap();
    assert(st1.stack == st.stack.push((st.at, st.turns)));
    lemma_run_keeps_saved(st1, q);
    let t = run_from(st1, q).unwrap();
    assert(t.stack =~= st1.stack);
    let close = seq![']'];
    assert(close.drop_last() =~= Seq::<char>::empty());
    assert(run_from(t, close.drop_last()) == Some(t));
    assert(close.last() == ']');
    assert(run_from(t, close) == turtle_step(t, ']'));
    assert(st1.stack.drop_last() =~= st.stack);
}

} // verus!
