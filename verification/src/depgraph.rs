//! The dependency graph over rule labels: paths, cycles, reachability, and
//! what a correct dependency ordering is. The laws proved here are the
//! correctness argument for the closure walk in the build context.

use crate::build_rules::RuleView;
use vstd::prelude::*;

verus! {

/// Whether the registry holds a rule named `n`.
pub open spec fn has_rule(reg: Seq<RuleView>, n: Seq<char>) -> bool {
    exists|i: int| 0 <= i < reg.len() && reg[i].name == n
}

/// The registry's rule named `n` (meaningful when `has_rule` and names are
/// distinct).
pub open spec fn rule_named(reg: Seq<RuleView>, n: Seq<char>) -> RuleView {
    reg[choose|i: int| 0 <= i < reg.len() && reg[i].name == n]
}

/// Every rule in the registry bears a different name.
pub open spec fn distinct_names(reg: Seq<RuleView>) -> bool {
    forall|i: int, j: int| 0 <= i < j < reg.len() ==> reg[i].name != reg[j].name
}

/// With distinct names, any index whose rule is named `n` is the rule
/// `rule_named` denotes.
pub proof fn lemma_rule_named_at(reg: Seq<RuleView>, n: Seq<char>, i: int)
    requires
        distinct_names(reg),
        0 <= i < reg.len(),
        reg[i].name == n,
    ensures
        has_rule(reg, n),
        rule_named(reg, n) == reg[i],
{
    assert(has_rule(reg, n));
    let j = choose|j: int| 0 <= j < reg.len() && reg[j].name == n;
    if i != j {
        assert(reg[i].name != reg[j].name);
    }
}

/// A dependency edge: the rule named `a` declares `b` as a dependency.
pub open spec fn edge(reg: Seq<RuleView>, a: Seq<char>, b: Seq<char>) -> bool {
    has_rule(reg, a) && rule_named(reg, a).dependencies.contains(b)
}

/// A walk along dependency edges.
pub open spec fn is_path(reg: Seq<RuleView>, p: Seq<Seq<char>>) -> bool {
    forall|i: int| 0 <= i < p.len() - 1 ==> edge(reg, #[trigger] p[i], p[i + 1])
}

/// A walk of at least one edge that returns to its starting label.
pub open spec fn is_cycle(reg: Seq<RuleView>, p: Seq<Seq<char>>) -> bool {
    p.len() >= 2 && is_path(reg, p) && p[0] == p[p.len() - 1]
}

/// `to` lies on some dependency walk of at least one edge from `from`.
pub open spec fn reaches(reg: Seq<RuleView>, from: Seq<char>, to: Seq<char>) -> bool {
    exists|p: Seq<Seq<char>>|
        p.len() >= 2 && is_path(reg, p) && p[0] == from && p[p.len() - 1] == to
}

/// Extending a walk by one edge keeps it a walk.
pub proof fn lemma_path_extend(reg: Seq<RuleView>, p: Seq<Seq<char>>, d: Seq<char>)
    requires
        is_path(reg, p),
        p.len() > 0,
        edge(reg, p[p.len() - 1], d),
    ensures
        is_path(reg, p.push(d)),
{
    let q = p.push(d);
    assert forall|i: int| 0 <= i < q.len() - 1 implies edge(reg, #[trigger] q[i], q[i + 1]) by {
        if i < p.len() - 1 {
            assert(edge(reg, p[i], p[i + 1]));
        }
    }
}

/// Any contiguous part of a walk is a walk.
pub proof fn lemma_path_subrange(reg: Seq<RuleView>, p: Seq<Seq<char>>, a: int, b: int)
    requires
        is_path(reg, p),
        0 <= a <= b <= p.len(),
    ensures
        is_path(reg, p.subrange(a, b)),
{
    let q = p.subrange(a, b);
    assert forall|i: int| 0 <= i < q.len() - 1 implies edge(reg, #[trigger] q[i], q[i + 1]) by {
        assert(edge(reg, p[a + i], p[a + i + 1]));
    }
}

/// A single edge is a reachability witness.
pub proof fn lemma_edge_reaches(reg: Seq<RuleView>, a: Seq<char>, b: Seq<char>)
    requires
        edge(reg, a, b),
    ensures
        reaches(reg, a, b),
{
    let p = seq![a, b];
    assert(is_path(reg, p));
    assert(p[0] == a && p[p.len() - 1] == b && p.len() >= 2);
}

/// Reachability follows edges.
pub proof fn lemma_reaches_step(reg: Seq<RuleView>, a: Seq<char>, b: Seq<char>, c: Seq<char>)
    requires
        reaches(reg, a, b),
        edge(reg, b, c),
    ensures
        reaches(reg, a, c),
{
    let p = choose|p: Seq<Seq<char>>|
        p.len() >= 2 && is_path(reg, p) && p[0] == a && p[p.len() - 1] == b;
    lemma_path_extend(reg, p, c);
    let q = p.push(c);
    assert(q.len() >= 2 && is_path(reg, q) && q[0] == a && q[q.len() - 1] == c);
}

/// Reachability composes: a walk to `b` followed by a walk to `c` is a
/// walk to `c`.
pub proof fn lemma_reaches_trans(reg: Seq<RuleView>, a: Seq<char>, b: Seq<char>, c: Seq<char>)
    requires
        reaches(reg, a, b),
        reaches(reg, b, c),
    ensures
        reaches(reg, a, c),
{
    let p1 = choose|p: Seq<Seq<char>>|
        p.len() >= 2 && is_path(reg, p) && p[0] == a && p[p.len() - 1] == b;
    let p2 = choose|p: Seq<Seq<char>>|
        p.len() >= 2 && is_path(reg, p) && p[0] == b && p[p.len() - 1] == c;
    let q = p1 + p2.subrange(1, p2.len() as int);
    assert forall|i: int| 0 <= i < q.len() - 1 implies edge(reg, #[trigger] q[i], q[i + 1]) by {
        if i < p1.len() - 1 {
            assert(edge(reg, p1[i], p1[i + 1]));
        } else if i == p1.len() - 1 {
            assert(q[i] == b && q[i + 1] == p2[1]);
            assert(edge(reg, p2[0], p2[1]));
        } else {
            let k = i - p1.len();
            assert(q[i] == p2[k + 1] && q[i + 1] == p2[k + 2]);
            assert(edge(reg, p2[k + 1], p2[k + 2]));
        }
    }
    assert(q.len() >= 2 && q[0] == a && q[q.len() - 1] == c);
}

/// A dependency cycle lies in the part of the graph the walk from `from`
/// can see: some cycle whose starting label `from` reaches.
pub open spec fn cycle_reachable(reg: Seq<RuleView>, from: Seq<char>) -> bool {
    exists|p: Seq<Seq<char>>| is_cycle(reg, p) && reaches(reg, from, p[0])
}

/// A list of distinct names all registered in a registry of distinct names
/// cannot outnumber the registry.
pub proof fn lemma_distinct_registered_bound(reg: Seq<RuleView>, names: Seq<Seq<char>>)
    requires
        names.no_duplicates(),
        forall|k: int| 0 <= k < names.len() ==> has_rule(reg, #[trigger] names[k]),
    ensures
        names.len() <= reg.len(),
{
    broadcast use vstd::seq_lib::seq_to_set_is_finite;

    let regnames = reg.map(|i: int, r: RuleView| r.name);
    assert forall|k: int| 0 <= k < names.len() implies regnames.to_set().contains(
        #[trigger] names[k],
    ) by {
        let i = choose|i: int| 0 <= i < reg.len() && reg[i].name == names[k];
        assert(regnames[i] == names[k]);
        assert(regnames.to_set().contains(regnames[i]));
    }
    names.unique_seq_to_set();
    regnames.lemma_cardinality_of_set();
    vstd::set_lib::lemma_len_subset(names.to_set(), regnames.to_set());
}

/// Every label in a stuck set is registered and has a dependency that stays
/// in the stuck set.
pub open spec fn all_point_inward(reg: Seq<RuleView>, names: Seq<Seq<char>>) -> bool {
    forall|k: int| 0 <= k < names.len() ==> has_rule(reg, #[trigger] names[k]) && exists|d: Seq<char>|
        rule_named(reg, names[k]).dependencies.contains(d) && names.contains(d)
}

/// Builds a walk of `k` edges that never leaves a set whose labels all
/// point inward.
proof fn build_long_path(
    reg: Seq<RuleView>,
    names: Seq<Seq<char>>,
    start: Seq<char>,
    k: nat,
) -> (p: Seq<Seq<char>>)
    requires
        all_point_inward(reg, names),
        names.contains(start),
    ensures
        p.len() == k + 1,
        p[0] == start,
        is_path(reg, p),
        forall|i: int| 0 <= i < p.len() ==> names.contains(#[trigger] p[i]),
    decreases k,
{
    if k == 0 {
        let p = seq![start];
        assert(is_path(reg, p));
        p
    } else {
        let q = build_long_path(reg, names, start, (k - 1) as nat);
        let last = q[q.len() - 1];
        let ki = choose|ki: int| 0 <= ki < names.len() && names[ki] == last;
        assert(names[ki] == last);
        let d = choose|d: Seq<char>|
            rule_named(reg, last).dependencies.contains(d) && names.contains(d);
        assert(edge(reg, last, d));
        lemma_path_extend(reg, q, d);
        q.push(d)
    }
}

/// A nonempty set of labels that all point inward contains a cycle: the
/// walk that never leaves the set must revisit a label.
#[verifier::rlimit(50)]
pub proof fn lemma_stuck_has_cycle(reg: Seq<RuleView>, names: Seq<Seq<char>>)
    requires
        names.len() > 0,
        names.no_duplicates(),
        all_point_inward(reg, names),
    ensures
        exists|c: Seq<Seq<char>>|
            is_cycle(reg, c) && (forall|i: int| 0 <= i < c.len() ==> names.contains(#[trigger] c[i])),
{
    broadcast use vstd::seq_lib::seq_to_set_is_finite;

    assert(names.contains(names[0]));
    let p = build_long_path(reg, names, names[0], names.len() as nat);
    if p.no_duplicates() {
        p.unique_seq_to_set();
        names.unique_seq_to_set();
        assert forall|x: Seq<char>| p.to_set().contains(x) implies names.to_set().contains(x) by {
            let i = choose|i: int| 0 <= i < p.len() && p[i] == x;
            assert(names.contains(p[i]));
        }
        vstd::set_lib::lemma_len_subset(p.to_set(), names.to_set());
        assert(false);
    }
    let (i, j) = choose|i: int, j: int|
        0 <= i < p.len() && 0 <= j < p.len() && i != j && p[i] == p[j];
    let (a, b) = if i < j {
        (i, j)
    } else {
        (j, i)
    };
    let c = p.subrange(a, b + 1);
    lemma_path_subrange(reg, p, a, b + 1);
    assert(c.len() >= 2);
    assert(c[0] == p[a] && c[c.len() - 1] == p[b]);
    assert(is_cycle(reg, c));
    assert(forall|i: int| 0 <= i < c.len() ==> names.contains(#[trigger] c[i]));
}

/// What the closure walk promises of a successful result `v` for a rule
/// `root`: every listed rule is the registered rule of its name, names are
/// listed once, every listed rule's dependencies appear earlier in the
/// list, every direct dependency of `root` appears, and only rules
/// reachable from `root` are listed.
pub open spec fn valid_dep_order(reg: Seq<RuleView>, root: RuleView, v: Seq<RuleView>) -> bool {
    &&& forall|i: int|
        0 <= i < v.len() ==> has_rule(reg, (#[trigger] v[i]).name) && v[i] == rule_named(
            reg,
            v[i].name,
        )
    &&& forall|i: int, j: int| 0 <= i < j < v.len() ==> (#[trigger] v[i]).name != (#[trigger] v[j]).name
    &&& forall|i: int, d: Seq<char>|
        0 <= i < v.len() && #[trigger] v[i].dependencies.contains(d) ==> exists|j: int|
            0 <= j < i && (#[trigger] v[j]).name == d
    &&& forall|d: Seq<char>|
        #[trigger] root.dependencies.contains(d) ==> exists|j: int|
            0 <= j < v.len() && (#[trigger] v[j]).name == d
    &&& forall|i: int| 0 <= i < v.len() ==> reaches(reg, root.name, (#[trigger] v[i]).name)
}

/// Every label on a dependency walk out of `root` appears in a valid
/// dependency order for `root`.
proof fn lemma_path_tail_in_order(
    reg: Seq<RuleView>,
    root: RuleView,
    v: Seq<RuleView>,
    p: Seq<Seq<char>>,
    k: int,
)
    requires
        valid_dep_order(reg, root, v),
        has_rule(reg, root.name),
        rule_named(reg, root.name) == root,
        is_path(reg, p),
        p.len() >= 2,
        p[0] == root.name,
        1 <= k < p.len(),
    ensures
        exists|j: int| 0 <= j < v.len() && (#[trigger] v[j]).name == p[k],
    decreases k,
{
    if k == 1 {
        assert(edge(reg, p[0], p[1]));
        assert(root.dependencies.contains(p[1]));
    } else {
        lemma_path_tail_in_order(reg, root, v, p, k - 1);
        let j = choose|j: int| 0 <= j < v.len() && (#[trigger] v[j]).name == p[k - 1];
        assert(edge(reg, p[k - 1], p[k]));
        assert(v[j] == rule_named(reg, p[k - 1]));
        assert(v[j].dependencies.contains(p[k]));
    }
}

/// Dependency ordering covers the transitive closure: every label reachable
/// from `root` along dependency edges appears in a valid dependency order
/// for `root` — so every direct and transitive dependency is placed before
/// `root` itself is ready.
pub proof fn lemma_order_covers_reachable(
    reg: Seq<RuleView>,
    root: RuleView,
    v: Seq<RuleView>,
    l: Seq<char>,
)
    requires
        valid_dep_order(reg, root, v),
        has_rule(reg, root.name),
        rule_named(reg, root.name) == root,
        reaches(reg, root.name, l),
    ensures
        exists|j: int| 0 <= j < v.len() && (#[trigger] v[j]).name == l,
{
    let p = choose|p: Seq<Seq<char>>|
        p.len() >= 2 && is_path(reg, p) && p[0] == root.name && p[p.len() - 1] == l;
    lemma_path_tail_in_order(reg, root, v, p, p.len() - 1);
}

/// Following one walk through a valid dependency order strictly lowers
/// the position at which each successive label occurs.
proof fn lemma_walk_path_down(
    reg: Seq<RuleView>,
    root: RuleView,
    v: Seq<RuleView>,
    p: Seq<Seq<char>>,
    i: int,
    j: int,
)
    requires
        valid_dep_order(reg, root, v),
        is_path(reg, p),
        0 <= i < p.len(),
        0 <= j < v.len(),
        v[j].name == p[i],
    ensures
        exists|j2: int|
            0 <= j2 < v.len() && (#[trigger] v[j2]).name == p[p.len() - 1] && (i < p.len() - 1
                ==> j2 < j),
    decreases p.len() - i,
{
    if i == p.len() - 1 {
        assert(v[j].name == p[p.len() - 1]);
    } else {
        assert(edge(reg, p[i], p[i + 1]));
        assert(v[j] == rule_named(reg, v[j].name));
        assert(v[j].dependencies.contains(p[i + 1]));
        let j1 = choose|j1: int| 0 <= j1 < j && (#[trigger] v[j1]).name == p[i + 1];
        lemma_walk_path_down(reg, root, v, p, i + 1, j1);
        let j2 = choose|j2: int|
            0 <= j2 < v.len() && (#[trigger] v[j2]).name == p[p.len() - 1] && (i + 1 < p.len() - 1
                ==> j2 < j1);
        assert(j2 < j || j2 == j1);
    }
}

/// No position of a valid dependency order can carry the start of a
/// dependency cycle: going once around the cycle would find the same
/// label strictly lower.
proof fn lemma_no_cycle_start_below(
    reg: Seq<RuleView>,
    root: RuleView,
    v: Seq<RuleView>,
    p: Seq<Seq<char>>,
    b: int,
)
    requires
        valid_dep_order(reg, root, v),
        is_cycle(reg, p),
        0 <= b <= v.len(),
    ensures
        forall|k: int| 0 <= k < b ==> (#[trigger] v[k]).name != p[0],
    decreases b,
{
    if b > 0 {
        lemma_no_cycle_start_below(reg, root, v, p, b - 1);
        if v[b - 1].name == p[0] {
            lemma_walk_path_down(reg, root, v, p, 0, b - 1);
            let j2 = choose|j2: int|
                0 <= j2 < v.len() && (#[trigger] v[j2]).name == p[p.len() - 1] && (0 < p.len() - 1
                    ==> j2 < b - 1);
            assert(v[j2].name == p[0]);
            assert(v[j2].name != p[0]);
        }
    }
}

/// A valid dependency order certifies the absence of cycles in the part
/// of the graph its root can reach.
pub proof fn lemma_order_excludes_reachable_cycle(
    reg: Seq<RuleView>,
    root: RuleView,
    v: Seq<RuleView>,
)
    requires
        valid_dep_order(reg, root, v),
        has_rule(reg, root.name),
        rule_named(reg, root.name) == root,
    ensures
        !cycle_reachable(reg, root.name),
{
    if cycle_reachable(reg, root.name) {
        let p = choose|p: Seq<Seq<char>>| is_cycle(reg, p) && reaches(reg, root.name, p[0]);
        lemma_order_covers_reachable(reg, root, v, p[0]);
        let j = choose|j: int| 0 <= j < v.len() && (#[trigger] v[j]).name == p[0];
        lemma_no_cycle_start_below(reg, root, v, p, v.len() as int);
        assert(v[j].name != p[0]);
    }
}

/// Below any position of a valid dependency order for `a`, the partner `b`
/// of a mutual dependency cannot occur: each occurrence of `b` would force
/// an occurrence of `a` below it, and that another `b` lower still.
proof fn lemma_no_mutual_partner_below(
    reg: Seq<RuleView>,
    a: RuleView,
    b: RuleView,
    v: Seq<RuleView>,
    i: int,
)
    requires
        valid_dep_order(reg, a, v),
        has_rule(reg, a.name) && rule_named(reg, a.name) == a,
        has_rule(reg, b.name) && rule_named(reg, b.name) == b,
        a.dependencies.contains(b.name),
        b.dependencies.contains(a.name),
        0 <= i <= v.len(),
    ensures
        forall|k: int| 0 <= k < i ==> (#[trigger] v[k]).name != b.name,
    decreases i,
{
    if i > 0 {
        lemma_no_mutual_partner_below(reg, a, b, v, i - 1);
        if v[i - 1].name == b.name {
            assert(v[i - 1] == rule_named(reg, v[i - 1].name));
            assert(v[i - 1].dependencies.contains(a.name));
            let j = choose|j: int| 0 <= j < i - 1 && (#[trigger] v[j]).name == a.name;
            assert(v[j] == rule_named(reg, a.name));
            assert(v[j].dependencies.contains(b.name));
            let k = choose|k: int| 0 <= k < j && (#[trigger] v[k]).name == b.name;
            assert(v[k].name != b.name);
        }
    }
}

/// Cycle detection is forced: when two registered rules depend on each
/// other, no sequence at all is a valid dependency order for either of
/// them, so closure computation cannot succeed.
pub proof fn lemma_mutual_dependency_unorderable(
    reg: Seq<RuleView>,
    a: RuleView,
    b: RuleView,
    v: Seq<RuleView>,
)
    requires
        has_rule(reg, a.name) && rule_named(reg, a.name) == a,
        has_rule(reg, b.name) && rule_named(reg, b.name) == b,
        a.dependencies.contains(b.name),
        b.dependencies.contains(a.name),
    ensures
        !valid_dep_order(reg, a, v),
{
    if valid_dep_order(reg, a, v) {
        lemma_no_mutual_partner_below(reg, a, b, v, v.len() as int);
        let j = choose|j: int| 0 <= j < v.len() && (#[trigger] v[j]).name == b.name;
        assert(v[j].name != b.name);
    }
}

} // verus!
