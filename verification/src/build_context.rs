//! The per-invocation build coordinator: it owns the output root, resolves
//! transitive dependency closures in a safe order (failing on cycles),
//! records declared outputs, and plans the copy and compile steps that a
//! runner then performs.

use crate::build_rules::{labels_view, lemma_paths_view_push, rules_view, BuildRule, RuleView};
use crate::depgraph::{
    cycle_reachable, distinct_names, edge, has_rule, is_cycle, lemma_distinct_registered_bound,
    lemma_edge_reaches, lemma_order_excludes_reachable_cycle, lemma_reaches_step,
    lemma_rule_named_at, lemma_stuck_has_cycle, reaches, rule_named, valid_dep_order,
};
use crate::errors::BuildError;
use crate::model::Label;
use crate::paths::{join_spec, paths_view, FilePath};
use crate::toolchains::{Toolchain, ToolchainView};
use vstd::prelude::*;

verus! {

/// One step a runner must perform on behalf of the plan.
pub enum BuildAction {
    /// Copy the workspace file `from` verbatim to the output location `to`.
    Copy { from: FilePath, to: FilePath },
    /// Invoke the toolchain on `sources` with the header search set
    /// `headers`, producing the object set `outputs`, with `dest` as the
    /// primary output handed to the tool.
    Compile { sources: Vec<FilePath>, headers: Vec<FilePath>, outputs: Vec<FilePath>, dest: FilePath },
}

/// The mathematical content of one planned step.
pub ghost enum ActionView {
    Copy { from: Seq<u8>, to: Seq<u8> },
    Compile { sources: Seq<Seq<u8>>, headers: Seq<Seq<u8>>, outputs: Seq<Seq<u8>>, dest: Seq<u8> },
}

impl View for BuildAction {
    type V = ActionView;

    open spec fn view(&self) -> ActionView {
        match self {
            BuildAction::Copy { from, to } => ActionView::Copy { from: from@, to: to@ },
            BuildAction::Compile { sources, headers, outputs, dest } => ActionView::Compile {
                sources: paths_view(sources@),
                headers: paths_view(headers@),
                outputs: paths_view(outputs@),
                dest: dest@,
            },
        }
    }
}

/// The views of a sequence of planned steps.
pub open spec fn actions_view(s: Seq<BuildAction>) -> Seq<ActionView> {
    s.map(|i: int, a: BuildAction| a@)
}

/// Appending a step appends its view to the plan's view.
pub proof fn lemma_actions_view_push(s: Seq<BuildAction>, a: BuildAction)
    ensures
        actions_view(s.push(a)) == actions_view(s).push(a@),
{
    assert(actions_view(s.push(a)) =~= actions_view(s).push(a@));
}

/// Whether the rule list holds a rule named `n`.
pub open spec fn name_in_rules(s: Seq<BuildRule>, n: Seq<char>) -> bool {
    exists|i: int| 0 <= i < s.len() && (#[trigger] s[i])@.name == n
}

/// Whether `r` declares some dependency that `out` does not yet hold.
pub open spec fn some_dep_missing(r: RuleView, out: Seq<BuildRule>) -> bool {
    exists|d: Seq<char>| #[trigger] r.dependencies.contains(d) && !name_in_rules(out, d)
}

/// Whether the label list holds the name `n`.
pub open spec fn label_in(s: Seq<Label>, n: Seq<char>) -> bool {
    exists|i: int| 0 <= i < s.len() && (#[trigger] s[i])@ == n
}

/// What a cycle error reports: a nonempty set of labels, each reachable
/// from `from`, among which a dependency cycle that `from` reaches lies
/// whole.
pub open spec fn cycle_error_exact(
    reg: Seq<RuleView>,
    from: Seq<char>,
    labels: Seq<Label>,
) -> bool {
    &&& labels.len() > 0
    &&& forall|i: int| 0 <= i < labels.len() ==> reaches(reg, from, (#[trigger] labels[i])@)
    &&& exists|c: Seq<Seq<char>>|
        is_cycle(reg, c) && reaches(reg, from, c[0]) && (forall|i: int|
            0 <= i < c.len() ==> label_in(labels, #[trigger] c[i]))
}

/// Membership of a name among a list of rules.
fn rules_contain_name(s: &Vec<BuildRule>, l: &Label) -> (r: bool)
    ensures
        r == name_in_rules(s@, l@),
{
    let mut i: usize = 0;
    while i < s.len()
        invariant
            i <= s@.len(),
            forall|j: int| 0 <= j < i ==> (#[trigger] s@[j])@.name != l@,
        decreases s@.len() - i,
    {
        let n = s[i].name();
        if n.same_as(l) {
            return true;
        }
        i = i + 1;
    }
    false
}

/// The list of names declared as dependencies by `rule` that are all
/// present among `out`.
fn all_deps_among(rule: &BuildRule, out: &Vec<BuildRule>) -> (r: bool)
    ensures
        r == forall|d: Seq<char>|
            #[trigger] rule@.dependencies.contains(d) ==> name_in_rules(out@, d),
{
    let deps = rule.dependencies();
    let mut k: usize = 0;
    while k < deps.len()
        invariant
            k <= deps@.len(),
            labels_view(deps@) == rule@.dependencies,
            forall|j: int| 0 <= j < k ==> name_in_rules(out@, (#[trigger] deps@[j])@),
        decreases deps@.len() - k,
    {
        if !rules_contain_name(out, &deps[k]) {
            proof {
                assert(rule@.dependencies[k as int] == deps@[k as int]@);
                assert(rule@.dependencies.contains(deps@[k as int]@));
            }
            return false;
        }
        k = k + 1;
    }
    proof {
        assert forall|d: Seq<char>| #[trigger] rule@.dependencies.contains(d) implies name_in_rules(
            out@,
            d,
        ) by {
            let m = choose|m: int| 0 <= m < rule@.dependencies.len() && rule@.dependencies[m] == d;
            assert(deps@[m]@ == rule@.dependencies[m]);
            assert(name_in_rules(out@, deps@[m]@));
        }
    }
    true
}

/// The first rule among `pend` whose dependencies are all already among
/// `out`, or the report that every pending rule still waits on one.
fn find_ready(pend: &Vec<BuildRule>, out: &Vec<BuildRule>) -> (r: Option<usize>)
    ensures
        match r {
            Some(i) => i < pend@.len() && forall|d: Seq<char>|
                #[trigger] pend@[i as int]@.dependencies.contains(d) ==> name_in_rules(out@, d),
            None => forall|i: int|
                0 <= i < pend@.len() ==> some_dep_missing((#[trigger] pend@[i])@, out@),
        },
{
    let mut i: usize = 0;
    while i < pend.len()
        invariant
            i <= pend@.len(),
            forall|j: int| 0 <= j < i ==> some_dep_missing((#[trigger] pend@[j])@, out@),
        decreases pend@.len() - i,
    {
        if all_deps_among(&pend[i], out) {
            return Some(i);
        }
        proof {
            assert(!(forall|d: Seq<char>|
                #[trigger] pend@[i as int]@.dependencies.contains(d) ==> name_in_rules(out@, d)));
            assert(some_dep_missing(pend@[i as int]@, out@));
        }
        i = i + 1;
    }
    None
}

/// The per-invocation coordinator. It owns the output root directory, the
/// active rule registry, the record of declared output paths, the plan of
/// copy and compile steps, and the toolchain selected for the rules being
/// built.
pub struct BuildContext {
    output_root: FilePath,
    rules: Vec<BuildRule>,
    declared: Vec<FilePath>,
    actions: Vec<BuildAction>,
    toolchain: Option<Toolchain>,
}

/// What a list of declared paths becomes when one more is declared:
/// unchanged when already present, appended otherwise.
pub open spec fn declared_after(d: Seq<Seq<u8>>, p: Seq<u8>) -> Seq<Seq<u8>> {
    if d.contains(p) {
        d
    } else {
        d.push(p)
    }
}

/// Declaring a path twice declares it once: the record is unchanged by the
/// second declaration.
pub proof fn lemma_declare_idempotent(d: Seq<Seq<u8>>, p: Seq<u8>)
    ensures
        declared_after(declared_after(d, p), p) == declared_after(d, p),
{
    if !d.contains(p) {
        assert(d.push(p)[d.len() as int] == p);
        assert(d.push(p).contains(p));
    }
}

impl BuildContext {
    /// The registry of rules, as their mathematical views.
    pub closed spec fn spec_rules(&self) -> Seq<RuleView> {
        rules_view(self.rules@)
    }

    /// The output root directory.
    pub closed spec fn spec_root(&self) -> Seq<u8> {
        self.output_root@
    }

    /// The declared output paths, relative to the root, in declaration
    /// order.
    pub closed spec fn spec_declared(&self) -> Seq<Seq<u8>> {
        paths_view(self.declared@)
    }

    /// The plan of steps recorded so far.
    pub closed spec fn spec_actions(&self) -> Seq<ActionView> {
        actions_view(self.actions@)
    }

    /// The toolchain selected for the rules being built, if any resolved.
    pub closed spec fn spec_toolchain(&self) -> Option<ToolchainView> {
        match self.toolchain {
            Some(t) => Some(t@),
            None => None,
        }
    }

    /// Well-formedness: rule names are unique and no output path is
    /// declared twice.
    pub open spec fn wf(&self) -> bool {
        distinct_names(self.spec_rules()) && self.spec_declared().no_duplicates()
    }

    /// A context over `rules`, rooted at `output_root`, with nothing yet
    /// declared or planned; refused when two rules share a name.
    pub fn new(output_root: FilePath, rules: Vec<BuildRule>, toolchain: Option<Toolchain>) -> (r:
        Option<BuildContext>)
        ensures
            match r {
                Some(c) => {
                    &&& c.wf()
                    &&& c.spec_rules() == rules_view(rules@)
                    &&& c.spec_root() == output_root@
                    &&& c.spec_declared() == Seq::<Seq<u8>>::empty()
                    &&& c.spec_actions() == Seq::<ActionView>::empty()
                    &&& c.spec_toolchain() == match toolchain {
                        Some(t) => Some(t@),
                        None => None::<ToolchainView>,
                    }
                },
                None => !distinct_names(rules_view(rules@)),
            },
    {
        let mut i: usize = 0;
        while i < rules.len()
            invariant
                i <= rules@.len(),
                forall|a: int, b: int|
                    0 <= a < b < rules@.len() && b < i ==> (#[trigger] rules@[a])@.name != (
                    #[trigger] rules@[b])@.name,
            decreases rules@.len() - i,
        {
            let ni = rules[i].name();
            let mut j: usize = 0;
            while j < i
                invariant
                    j <= i,
                    i < rules@.len(),
                    ni@ == rules@[i as int]@.name,
                    forall|a: int| 0 <= a < j ==> (#[trigger] rules@[a])@.name != ni@,
                decreases i - j,
            {
                if rules[j].name().same_as(&ni) {
                    proof {
                        assert(rules_view(rules@)[j as int] == rules@[j as int]@);
                        assert(rules_view(rules@)[i as int] == rules@[i as int]@);
                        assert(!distinct_names(rules_view(rules@)));
                    }
                    return None;
                }
                j = j + 1;
            }
            i = i + 1;
        }
        let c = BuildContext {
            output_root,
            rules,
            declared: Vec::new(),
            actions: Vec::new(),
            toolchain,
        };
        proof {
            assert(c.spec_declared() =~= Seq::<Seq<u8>>::empty());
            assert(c.spec_actions() =~= Seq::<ActionView>::empty());
        }
        Some(c)
    }

    /// The root directory under which all declared outputs live.
    pub fn output_path(&self) -> (r: FilePath)
        ensures
            r@ == self.spec_root(),
    {
        self.output_root.clone()
    }

    /// The toolchain bound to the rule currently building, if any.
    pub fn toolchain(&self) -> (r: &Option<Toolchain>)
        ensures
            match r {
                Some(t) => self.spec_toolchain() == Some(t@),
                None => self.spec_toolchain() is None,
            },
    {
        &self.toolchain
    }

    /// The declared output paths so far, relative to the root.
    pub fn declared(&self) -> (r: &Vec<FilePath>)
        ensures
            paths_view(r@) == self.spec_declared(),
    {
        &self.declared
    }

    /// The plan recorded so far.
    pub fn actions(&self) -> (r: &Vec<BuildAction>)
        ensures
            actions_view(r@) == self.spec_actions(),
    {
        &self.actions
    }

    /// Records `path` as prepared under the output root and returns its
    /// fully qualified output path. Idempotent: declaring the same path
    /// again records nothing new and returns the same qualified path.
    pub fn declare_output(&mut self, path: FilePath) -> (r: FilePath)
        requires
            old(self).wf(),
        ensures
            final(self).wf(),
            r@ == join_spec(old(self).spec_root(), path@),
            final(self).spec_declared() == declared_after(old(self).spec_declared(), path@),
            final(self).spec_root() == old(self).spec_root(),
            final(self).spec_rules() == old(self).spec_rules(),
            final(self).spec_actions() == old(self).spec_actions(),
            final(self).spec_toolchain() == old(self).spec_toolchain(),
    {
        let q = self.output_root.join(&path);
        let mut present = false;
        let mut i: usize = 0;
        while i < self.declared.len()
            invariant
                i <= self.declared@.len(),
                present == exists|j: int|
                    0 <= j < i && (#[trigger] self.declared@[j])@ == path@,
            decreases self.declared@.len() - i,
        {
            if self.declared[i].same_as(&path) {
                present = true;
            }
            i = i + 1;
        }
        proof {
            assert(present == self.spec_declared().contains(path@)) by {
                if self.spec_declared().contains(path@) {
                    let j = choose|j: int|
                        0 <= j < self.spec_declared().len() && self.spec_declared()[j] == path@;
                    assert(self.declared@[j]@ == path@);
                }
                if present {
                    let j = choose|j: int|
                        0 <= j < self.declared@.len() && (#[trigger] self.declared@[j])@ == path@;
                    assert(self.spec_declared()[j] == path@);
                }
            }
        }
        if !present {
            let ghost pre = self.declared@;
            self.declared.push(path);
            proof {
                lemma_paths_view_push(pre, self.declared@.last());
                assert(paths_view(self.declared@).no_duplicates());
            }
        }
        q
    }

    /// Plans a verbatim copy of each path into its declared output
    /// location. The plan step is recorded here; performing it is the
    /// runner's work, so no failure can arise at planning time.
    pub fn copy(&mut self, paths: &Vec<FilePath>) -> (r: Result<(), BuildError>)
        requires
            old(self).wf(),
        ensures
            final(self).wf(),
            r is Ok,
            final(self).spec_actions() == old(self).spec_actions() + copy_plan(
                old(self).spec_root(),
                paths_view(paths@),
            ),
            final(self).spec_root() == old(self).spec_root(),
            final(self).spec_rules() == old(self).spec_rules(),
            final(self).spec_declared() == old(self).spec_declared(),
            final(self).spec_toolchain() == old(self).spec_toolchain(),
    {
        let mut i: usize = 0;
        while i < paths.len()
            invariant
                i <= paths@.len(),
                self.wf(),
                self.spec_actions() == old(self).spec_actions() + copy_plan(
                    old(self).spec_root(),
                    paths_view(paths@).take(i as int),
                ),
                self.spec_root() == old(self).spec_root(),
                self.spec_rules() == old(self).spec_rules(),
                self.spec_declared() == old(self).spec_declared(),
                self.spec_toolchain() == old(self).spec_toolchain(),
            decreases paths@.len() - i,
        {
            let from = paths[i].clone();
            let to = self.output_root.join(&paths[i]);
            let ghost pre = self.actions@;
            self.actions.push(BuildAction::Copy { from, to });
            i = i + 1;
            proof {
                lemma_actions_view_push(pre, self.actions@.last());
                assert(self.spec_actions() =~= old(self).spec_actions() + copy_plan(
                    old(self).spec_root(),
                    paths_view(paths@).take(i as int),
                ));
            }
        }
        proof {
            assert(paths_view(paths@).take(paths@.len() as int) =~= paths_view(paths@));
        }
        Ok(())
    }

    /// Appends a compile step to the plan.
    pub fn schedule(&mut self, action: BuildAction)
        requires
            old(self).wf(),
        ensures
            final(self).wf(),
            final(self).spec_actions() == old(self).spec_actions().push(action@),
            final(self).spec_root() == old(self).spec_root(),
            final(self).spec_rules() == old(self).spec_rules(),
            final(self).spec_declared() == old(self).spec_declared(),
            final(self).spec_toolchain() == old(self).spec_toolchain(),
    {
        let ghost pre = self.actions@;
        self.actions.push(action);
        proof {
            lemma_actions_view_push(pre, self.actions@.last());
        }
    }

    /// Resolves a label in the registry.
    fn lookup_rule(&self, l: &Label) -> (r: Option<BuildRule>)
        requires
            self.wf(),
        ensures
            match r {
                Some(rule) => has_rule(self.spec_rules(), l@) && rule@ == rule_named(
                    self.spec_rules(),
                    l@,
                ),
                None => !has_rule(self.spec_rules(), l@),
            },
    {
        let mut i: usize = 0;
        while i < self.rules.len()
            invariant
                self.wf(),
                i <= self.rules@.len(),
                forall|j: int| 0 <= j < i ==> (#[trigger] self.rules@[j])@.name != l@,
            decreases self.rules@.len() - i,
        {
            let n = self.rules[i].name();
            if n.same_as(l) {
                let found = self.rules[i].clone();
                proof {
                    assert(self.spec_rules()[i as int] == self.rules@[i as int]@);
                    lemma_rule_named_at(self.spec_rules(), l@, i as int);
                }
                return Some(found);
            }
            i = i + 1;
        }
        proof {
            assert forall|j: int| 0 <= j < self.spec_rules().len() implies (#[trigger] self.spec_rules()[j]).name
                != l@ by {
                assert(self.spec_rules()[j] == self.rules@[j]@);
            }
        }
        None
    }

    /// Collects every rule reachable from `rule` along dependency labels.
    #[verifier::spinoff_prover]
    #[verifier::rlimit(100)]
    fn collect_closure(&self, rule: &BuildRule) -> (r: Result<Vec<BuildRule>, BuildError>)
        requires
            self.wf(),
            has_rule(self.spec_rules(), rule@.name),
            rule_named(self.spec_rules(), rule@.name) == rule@,
        ensures
            match r {
                Ok(seen) => {
                    &&& forall|i: int|
                        0 <= i < seen@.len() ==> has_rule(
                            self.spec_rules(),
                            (#[trigger] seen@[i])@.name,
                        ) && seen@[i]@ == rule_named(self.spec_rules(), seen@[i]@.name)
                    &&& forall|i: int, j: int|
                        0 <= i < j < seen@.len() ==> (#[trigger] seen@[i])@.name != (
                        #[trigger] seen@[j])@.name
                    &&& forall|i: int|
                        0 <= i < seen@.len() ==> reaches(
                            self.spec_rules(),
                            rule@.name,
                            (#[trigger] seen@[i])@.name,
                        )
                    &&& forall|i: int, d: Seq<char>|
                        0 <= i < seen@.len() && #[trigger] seen@[i]@.dependencies.contains(d)
                            ==> name_in_rules(seen@, d)
                    &&& forall|d: Seq<char>|
                        #[trigger] rule@.dependencies.contains(d) ==> name_in_rules(seen@, d)
                },
                Err(e) => match e {
                    BuildError::Resolution { label } => !has_rule(self.spec_rules(), label@)
                        && reaches(self.spec_rules(), rule@.name, label@),
                    _ => false,
                },
            },
    {
        let ghost regv = self.spec_rules();
        let ghost root = rule@;
        let mut work: Vec<Label> = rule.dependencies();
        let mut seen: Vec<BuildRule> = Vec::new();
        proof {
            assert forall|i: int| 0 <= i < work@.len() implies reaches(
                regv,
                root.name,
                (#[trigger] work@[i])@,
            ) by {
                assert(work@[i]@ == root.dependencies[i]);
                assert(root.dependencies.contains(work@[i]@));
                assert(edge(regv, root.name, work@[i]@));
                lemma_edge_reaches(regv, root.name, work@[i]@);
            }
            assert forall|d: Seq<char>| #[trigger] root.dependencies.contains(d) implies label_in(
                work@,
                d,
            ) by {
                let m = choose|m: int|
                    0 <= m < root.dependencies.len() && root.dependencies[m] == d;
                assert(work@[m]@ == d);
            }
        }
        while work.len() > 0
            invariant
                self.wf(),
                regv == self.spec_rules(),
                root == rule@,
                has_rule(regv, root.name),
                rule_named(regv, root.name) == root,
                forall|i: int|
                    0 <= i < seen@.len() ==> has_rule(regv, (#[trigger] seen@[i])@.name) && seen@[i]@
                        == rule_named(regv, seen@[i]@.name),
                forall|i: int, j: int|
                    0 <= i < j < seen@.len() ==> (#[trigger] seen@[i])@.name != (
                    #[trigger] seen@[j])@.name,
                forall|i: int|
                    0 <= i < seen@.len() ==> reaches(regv, root.name, (#[trigger] seen@[i])@.name),
                forall|i: int|
                    0 <= i < work@.len() ==> reaches(regv, root.name, (#[trigger] work@[i])@),
                forall|i: int, d: Seq<char>|
                    0 <= i < seen@.len() && #[trigger] seen@[i]@.dependencies.contains(d)
                        ==> name_in_rules(seen@, d) || label_in(work@, d),
                forall|d: Seq<char>|
                    #[trigger] root.dependencies.contains(d) ==> name_in_rules(seen@, d)
                        || label_in(work@, d),
                seen@.len() <= regv.len(),
            decreases regv.len() - seen@.len() + 1, work@.len(),
        {
            let ghost prework = work@;
            let l: Label = work.pop().unwrap();
            proof {
                assert(prework[prework.len() - 1] == l);
                assert(reaches(regv, root.name, l@));
                assert forall|d: Seq<char>| label_in(prework, d) implies label_in(work@, d) || d
                    == l@ by {
                    let m = choose|m: int| 0 <= m < prework.len() && (#[trigger] prework[m])@ == d;
                    if m < prework.len() - 1 {
                        assert(work@[m]@ == d);
                    }
                }
            }
            if !rules_contain_name(&seen, &l) {
                match self.lookup_rule(&l) {
                    None => {
                        return Err(BuildError::Resolution { label: l });
                    },
                    Some(found) => {
                        let deps = found.dependencies();
                        let ghost foundv = found@;
                        let ghost work_before = work@;
                        proof {
                            assert(foundv.name == l@);
                            assert forall|j: int| 0 <= j < deps@.len() implies reaches(
                                regv,
                                root.name,
                                (#[trigger] deps@[j])@,
                            ) by {
                                assert(deps@[j]@ == foundv.dependencies[j]);
                                assert(foundv.dependencies.contains(deps@[j]@));
                                assert(edge(regv, foundv.name, deps@[j]@));
                                lemma_reaches_step(regv, root.name, foundv.name, deps@[j]@);
                            }
                        }
                        let mut k: usize = 0;
                        while k < deps.len()
                            invariant
                                k <= deps@.len(),
                                labels_view(deps@) == foundv.dependencies,
                                regv == self.spec_rules(),
                                forall|j: int|
                                    0 <= j < deps@.len() ==> reaches(
                                        regv,
                                        root.name,
                                        (#[trigger] deps@[j])@,
                                    ),
                                forall|i: int|
                                    0 <= i < work_before.len() ==> reaches(
                                        regv,
                                        root.name,
                                        (#[trigger] work_before[i])@,
                                    ),
                                forall|i: int|
                                    0 <= i < work@.len() ==> reaches(
                                        regv,
                                        root.name,
                                        (#[trigger] work@[i])@,
                                    ),
                                forall|j: int|
                                    0 <= j < k ==> label_in(work@, (#[trigger] deps@[j])@),
                                forall|d: Seq<char>|
                                    #[trigger] label_in(work_before, d) ==> label_in(work@, d),
                            decreases deps@.len() - k,
                        {
                            let ghost wpre = work@;
                            work.push(deps[k].clone());
                            k = k + 1;
                            proof {
                                assert(work@[work@.len() - 1]@ == deps@[k - 1]@);
                                assert forall|d: Seq<char>| #[trigger] label_in(wpre, d) implies label_in(
                                    work@,
                                    d,
                                ) by {
                                    let m = choose|m: int|
                                        0 <= m < wpre.len() && (#[trigger] wpre[m])@ == d;
                                    assert(work@[m]@ == d);
                                }
                                assert forall|j: int| 0 <= j < k implies label_in(
                                    work@,
                                    (#[trigger] deps@[j])@,
                                ) by {
                                    if j < k - 1 {
                                        assert(label_in(wpre, deps@[j]@));
                                    } else {
                                        assert(work@[work@.len() - 1]@ == deps@[j]@);
                                    }
                                }
                            }
                        }
                        let ghost seen_before = seen@;
                        seen.push(found);
                        proof {
                            assert forall|d: Seq<char>| name_in_rules(seen_before, d) implies name_in_rules(
                                seen@,
                                d,
                            ) by {
                                let m = choose|m: int|
                                    0 <= m < seen_before.len() && (#[trigger] seen_before[m])@.name
                                        == d;
                                assert(seen@[m]@.name == d);
                            }
                            assert(seen@[seen@.len() - 1]@ == foundv);
                            assert(name_in_rules(seen@, l@));
                            assert forall|i: int, d: Seq<char>|
                                0 <= i < seen@.len() && #[trigger] seen@[i]@.dependencies.contains(
                                    d,
                                ) implies name_in_rules(seen@, d) || label_in(work@, d) by {
                                if i < seen@.len() - 1 {
                                    assert(seen_before[i]@.dependencies.contains(d));
                                    assert(name_in_rules(seen_before, d) || label_in(prework, d));
                                    if label_in(prework, d) {
                                        assert(label_in(work_before, d) || d == l@);
                                    }
                                } else {
                                    let m = choose|m: int|
                                        0 <= m < foundv.dependencies.len()
                                            && foundv.dependencies[m] == d;
                                    assert(deps@[m]@ == d);
                                    assert(label_in(work@, deps@[m]@));
                                }
                            }
                            assert forall|d: Seq<char>|
                                #[trigger] root.dependencies.contains(d) implies name_in_rules(
                                seen@,
                                d,
                            ) || label_in(work@, d) by {
                                assert(name_in_rules(seen_before, d) || label_in(prework, d));
                                if label_in(prework, d) {
                                    assert(label_in(work_before, d) || d == l@);
                                }
                            }
                            lemma_distinct_registered_bound_rules(regv, seen@);
                        }
                    },
                }
            }
        }
        proof {
            assert forall|i: int, d: Seq<char>|
                0 <= i < seen@.len() && #[trigger] seen@[i]@.dependencies.contains(d)
                    implies name_in_rules(seen@, d) by {
                assert(!label_in(work@, d));
            }
            assert forall|d: Seq<char>|
                #[trigger] rule@.dependencies.contains(d) implies name_in_rules(seen@, d) by {
                assert(!label_in(work@, d));
            }
            assert(forall|i: int|
                0 <= i < seen@.len() ==> has_rule(self.spec_rules(), (#[trigger] seen@[i])@.name)
                    && seen@[i]@ == rule_named(self.spec_rules(), seen@[i]@.name));
            assert(forall|i: int, j: int|
                0 <= i < j < seen@.len() ==> (#[trigger] seen@[i])@.name != (
                #[trigger] seen@[j])@.name);
            assert(forall|i: int|
                0 <= i < seen@.len() ==> reaches(
                    self.spec_rules(),
                    rule@.name,
                    (#[trigger] seen@[i])@.name,
                ));
        }
        Ok(seen)
    }

    /// Orders an already-collected dependency closure so that every rule
    /// follows all of its dependencies, or reports the cycle that makes
    /// that impossible.
    #[verifier::spinoff_prover]
    #[verifier::rlimit(100)]
    fn order_rules(&self, rule: &BuildRule, seen: Vec<BuildRule>) -> (r: Result<
        Vec<BuildRule>,
        BuildError,
    >)
        requires
            self.wf(),
            has_rule(self.spec_rules(), rule@.name),
            rule_named(self.spec_rules(), rule@.name) == rule@,
            forall|i: int|
                0 <= i < seen@.len() ==> has_rule(self.spec_rules(), (#[trigger] seen@[i])@.name)
                    && seen@[i]@ == rule_named(self.spec_rules(), seen@[i]@.name),
            forall|i: int, j: int|
                0 <= i < j < seen@.len() ==> (#[trigger] seen@[i])@.name != (
                #[trigger] seen@[j])@.name,
            forall|i: int|
                0 <= i < seen@.len() ==> reaches(
                    self.spec_rules(),
                    rule@.name,
                    (#[trigger] seen@[i])@.name,
                ),
            forall|i: int, d: Seq<char>|
                0 <= i < seen@.len() && #[trigger] seen@[i]@.dependencies.contains(d)
                    ==> name_in_rules(seen@, d),
            forall|d: Seq<char>|
                #[trigger] rule@.dependencies.contains(d) ==> name_in_rules(seen@, d),
        ensures
            match r {
                Ok(v) => valid_dep_order(self.spec_rules(), rule@, rules_view(v@)),
                Err(e) => match e {
                    BuildError::Cycle { labels } => cycle_error_exact(
                        self.spec_rules(),
                        rule@.name,
                        labels@,
                    ),
                    _ => false,
                },
            },
    {
        let ghost regv = self.spec_rules();
        let ghost root = rule@;
        let mut pend = seen;
        let mut out: Vec<BuildRule> = Vec::new();
        while pend.len() > 0
            invariant
                self.wf(),
                regv == self.spec_rules(),
                root == rule@,
                has_rule(regv, root.name),
                rule_named(regv, root.name) == root,
                forall|i: int|
                    0 <= i < out@.len() ==> has_rule(regv, (#[trigger] out@[i])@.name) && out@[i]@
                        == rule_named(regv, out@[i]@.name),
                forall|i: int|
                    0 <= i < pend@.len() ==> has_rule(regv, (#[trigger] pend@[i])@.name)
                        && pend@[i]@ == rule_named(regv, pend@[i]@.name),
                forall|i: int|
                    0 <= i < out@.len() ==> reaches(regv, root.name, (#[trigger] out@[i])@.name),
                forall|i: int|
                    0 <= i < pend@.len() ==> reaches(regv, root.name, (#[trigger] pend@[i])@.name),
                forall|i: int, j: int|
                    0 <= i < j < out@.len() ==> (#[trigger] out@[i])@.name != (
                    #[trigger] out@[j])@.name,
                forall|i: int, j: int|
                    0 <= i < j < pend@.len() ==> (#[trigger] pend@[i])@.name != (
                    #[trigger] pend@[j])@.name,
                forall|i: int, j: int|
                    0 <= i < out@.len() && 0 <= j < pend@.len() ==> (#[trigger] out@[i])@.name != (
                    #[trigger] pend@[j])@.name,
                forall|i: int, d: Seq<char>|
                    0 <= i < out@.len() && #[trigger] out@[i]@.dependencies.contains(d)
                        ==> name_in_rules(out@, d) || name_in_rules(pend@, d),
                forall|i: int, d: Seq<char>|
                    0 <= i < pend@.len() && #[trigger] pend@[i]@.dependencies.contains(d)
                        ==> name_in_rules(out@, d) || name_in_rules(pend@, d),
                forall|i: int, d: Seq<char>|
                    0 <= i < out@.len() && #[trigger] out@[i]@.dependencies.contains(d)
                        ==> exists|j: int| 0 <= j < i && (#[trigger] out@[j])@.name == d,
                forall|d: Seq<char>|
                    #[trigger] root.dependencies.contains(d) ==> name_in_rules(out@, d)
                        || name_in_rules(pend@, d),
            decreases pend@.len(),
        {
            match find_ready(&pend, &out) {
                Some(i) => {
                    let ghost prepend = pend@;
                    let ghost preout = out@;
                    let chosen = pend.remove(i);
                    out.push(chosen);
                    proof {
                        assert(pend@ == prepend.remove(i as int));
                        assert forall|d: Seq<char>| name_in_rules(prepend, d) implies name_in_rules(
                            pend@,
                            d,
                        ) || name_in_rules(out@, d) by {
                            let m = choose|m: int|
                                0 <= m < prepend.len() && (#[trigger] prepend[m])@.name == d;
                            if m < i {
                                assert(pend@[m]@.name == d);
                            } else if m == i {
                                assert(out@[out@.len() - 1]@.name == d);
                            } else {
                                assert(pend@[m - 1]@.name == d);
                            }
                        }
                        assert forall|d: Seq<char>| name_in_rules(pend@, d) implies name_in_rules(
                            prepend,
                            d,
                        ) by {
                            let m = choose|m: int|
                                0 <= m < pend@.len() && (#[trigger] pend@[m])@.name == d;
                            if m < i {
                                assert(prepend[m]@.name == d);
                            } else {
                                assert(prepend[m + 1]@.name == d);
                            }
                        }
                        assert forall|d: Seq<char>| name_in_rules(preout, d) implies name_in_rules(
                            out@,
                            d,
                        ) by {
                            let m = choose|m: int|
                                0 <= m < preout.len() && (#[trigger] preout[m])@.name == d;
                            assert(out@[m]@.name == d);
                        }
                        assert(out@[out@.len() - 1]@ == prepend[i as int]@);
                        assert forall|ii: int, d: Seq<char>|
                            0 <= ii < out@.len() && #[trigger] out@[ii]@.dependencies.contains(d)
                                implies exists|j: int|
                                0 <= j < ii && (#[trigger] out@[j])@.name == d by {
                            if ii < out@.len() - 1 {
                                assert(preout[ii]@.dependencies.contains(d));
                                let j = choose|j: int|
                                    0 <= j < ii && (#[trigger] preout[j])@.name == d;
                                assert(out@[j]@.name == d);
                            } else {
                                assert(prepend[i as int]@.dependencies.contains(d));
                                assert(name_in_rules(preout, d));
                                let m = choose|m: int|
                                    0 <= m < preout.len() && (#[trigger] preout[m])@.name == d;
                                assert(out@[m]@.name == d);
                            }
                        }
                    }
                },
                None => {
                    let ghost pnames = pend@.map(|i: int, r: BuildRule| r@.name);
                    proof {
                        assert forall|k: int| 0 <= k < pnames.len() implies has_rule(
                            regv,
                            #[trigger] pnames[k],
                        ) && exists|d: Seq<char>|
                            rule_named(regv, pnames[k]).dependencies.contains(d)
                                && pnames.contains(d) by {
                            assert(pnames[k] == pend@[k]@.name);
                            assert(some_dep_missing(pend@[k]@, out@));
                            let d = choose|d: Seq<char>|
                                #[trigger] pend@[k]@.dependencies.contains(d) && !name_in_rules(
                                    out@,
                                    d,
                                );
                            assert(name_in_rules(pend@, d));
                            let m = choose|m: int|
                                0 <= m < pend@.len() && (#[trigger] pend@[m])@.name == d;
                            assert(pnames[m] == d);
                            assert(pnames.contains(d));
                            assert(rule_named(regv, pnames[k]) == pend@[k]@);
                        }
                        assert forall|a: int, b: int|
                            0 <= a < pnames.len() && 0 <= b < pnames.len() && a != b implies pnames[a]
                            != pnames[b] by {
                            if a < b {
                                assert(pend@[a]@.name != pend@[b]@.name);
                            } else {
                                assert(pend@[b]@.name != pend@[a]@.name);
                            }
                        }
                        assert(pnames.no_duplicates());
                        assert(pnames.len() > 0);
                        lemma_stuck_has_cycle(regv, pnames);
                    }
                    let mut ls: Vec<Label> = Vec::new();
                    let mut m: usize = 0;
                    while m < pend.len()
                        invariant
                            m <= pend@.len(),
                            ls@.len() == m,
                            forall|j: int| 0 <= j < m ==> (#[trigger] ls@[j])@ == pend@[j]@.name,
                        decreases pend@.len() - m,
                    {
                        ls.push(pend[m].name());
                        m = m + 1;
                    }
                    proof {
                        let c = choose|c: Seq<Seq<char>>|
                            is_cycle(regv, c) && (forall|i: int|
                                0 <= i < c.len() ==> pnames.contains(#[trigger] c[i]));
                        assert(pnames.contains(c[0]));
                        let k0 = choose|k0: int| 0 <= k0 < pnames.len() && pnames[k0] == c[0];
                        assert(pnames[k0] == pend@[k0]@.name);
                        assert(reaches(regv, root.name, c[0]));
                        assert(ls@.len() > 0);
                        assert forall|i: int| 0 <= i < ls@.len() implies reaches(
                            regv,
                            root.name,
                            (#[trigger] ls@[i])@,
                        ) by {
                            assert(ls@[i]@ == pend@[i]@.name);
                        }
                        assert forall|i: int| 0 <= i < c.len() implies label_in(
                            ls@,
                            #[trigger] c[i],
                        ) by {
                            let mm = choose|mm: int|
                                0 <= mm < pnames.len() && pnames[mm] == c[i];
                            assert(ls@[mm]@ == pend@[mm]@.name);
                            assert(ls@[mm]@ == c[i]);
                        }
                        assert(cycle_error_exact(regv, root.name, ls@));
                    }
                    return Err(BuildError::Cycle { labels: ls });
                },
            }
        }
        proof {
            let ov = rules_view(out@);
            assert forall|i: int| 0 <= i < ov.len() implies has_rule(regv, (#[trigger] ov[i]).name)
                && ov[i] == rule_named(regv, ov[i].name) && reaches(regv, root.name, ov[i].name) by {
                assert(ov[i] == out@[i]@);
            }
            assert forall|i: int, j: int| 0 <= i < j < ov.len() implies (#[trigger] ov[i]).name != (
            #[trigger] ov[j]).name by {
                assert(ov[i] == out@[i]@ && ov[j] == out@[j]@);
            }
            assert forall|i: int, d: Seq<char>|
                0 <= i < ov.len() && #[trigger] ov[i].dependencies.contains(d) implies exists|j: int|
                0 <= j < i && (#[trigger] ov[j]).name == d by {
                assert(ov[i] == out@[i]@);
                let j = choose|j: int| 0 <= j < i && (#[trigger] out@[j])@.name == d;
                assert(ov[j] == out@[j]@);
                assert(ov[j].name == d);
            }
            assert forall|d: Seq<char>| #[trigger] root.dependencies.contains(d) implies exists|
                j: int,
            | 0 <= j < ov.len() && (#[trigger] ov[j]).name == d by {
                let m = choose|m: int|
                    0 <= m < out@.len() && (#[trigger] out@[m])@.name == d;
                assert(ov[m] == out@[m]@);
                assert(ov[m].name == d);
            }
            assert(valid_dep_order(regv, root, ov));
        }
        Ok(out)
    }

    pub fn transitive_dependencies(&self, rule: &BuildRule) -> (r: Result<
        Vec<BuildRule>,
        BuildError,
    >)
        requires
            self.wf(),
            has_rule(self.spec_rules(), rule@.name),
            rule_named(self.spec_rules(), rule@.name) == rule@,
        ensures
            match r {
                Ok(v) => valid_dep_order(self.spec_rules(), rule@, rules_view(v@))
                    && !cycle_reachable(self.spec_rules(), rule@.name),
                Err(e) => match e {
                    BuildError::Resolution { label } => !has_rule(self.spec_rules(), label@)
                        && reaches(self.spec_rules(), rule@.name, label@),
                    BuildError::Cycle { labels } => cycle_error_exact(
                        self.spec_rules(),
                        rule@.name,
                        labels@,
                    ),
                    _ => false,
                },
            },
            (!cycle_reachable(self.spec_rules(), rule@.name) && (forall|l: Seq<char>|
                #[trigger] reaches(self.spec_rules(), rule@.name, l) ==> has_rule(
                    self.spec_rules(),
                    l,
                ))) ==> r is Ok,
    {
        let seen = match self.collect_closure(rule) {
            Ok(s) => s,
            Err(e) => {
                return Err(e);
            },
        };
        match self.order_rules(rule, seen) {
            Ok(v) => {
                proof {
                    lemma_order_excludes_reachable_cycle(
                        self.spec_rules(),
                        rule@,
                        rules_view(v@),
                    );
                }
                Ok(v)
            },
            Err(e) => Err(e),
        }
    }

}

/// The plan steps that copy each of `ps` under `root`.
pub open spec fn copy_plan(root: Seq<u8>, ps: Seq<Seq<u8>>) -> Seq<ActionView> {
    ps.map(|i: int, p: Seq<u8>| ActionView::Copy { from: p, to: join_spec(root, p) })
}

/// A list of distinct, registered rules cannot outnumber the registry.
proof fn lemma_distinct_registered_bound_rules(reg: Seq<RuleView>, s: Seq<BuildRule>)
    requires
        forall|i: int| 0 <= i < s.len() ==> has_rule(reg, (#[trigger] s[i])@.name),
        forall|i: int, j: int|
            0 <= i < j < s.len() ==> (#[trigger] s[i])@.name != (#[trigger] s[j])@.name,
    ensures
        s.len() <= reg.len(),
{
    let names = s.map(|i: int, r: BuildRule| r@.name);
    assert forall|a: int, b: int|
        0 <= a < names.len() && 0 <= b < names.len() && a != b implies names[a] != names[b] by {
        if a < b {
            assert(s[a]@.name != s[b]@.name);
        } else {
            assert(s[b]@.name != s[a]@.name);
        }
    }
    assert(names.no_duplicates());
    assert forall|k: int| 0 <= k < names.len() implies has_rule(reg, #[trigger] names[k]) by {
        assert(names[k] == s[k]@.name);
    }
    lemma_distinct_registered_bound(reg, names);
}


/// `ps`, each qualified under the directory `dir`.
pub open spec fn qualify_all(dir: Seq<u8>, ps: Seq<Seq<u8>>) -> Seq<Seq<u8>> {
    ps.map(|i: int, p: Seq<u8>| join_spec(dir, p))
}

/// The inputs (or outputs) of a rule, selected by `want_inputs`.
pub open spec fn sel_files(r: RuleView, want_inputs: bool) -> Seq<Seq<u8>> {
    if want_inputs {
        crate::build_rules::spec_inputs(r)
    } else {
        crate::build_rules::spec_outputs(r)
    }
}

/// Every input (or output) file of every rule reachable from `root`,
/// qualified under `dir`: the transitive header or object search set.
pub open spec fn closure_files(
    reg: Seq<RuleView>,
    root: RuleView,
    dir: Seq<u8>,
    want_inputs: bool,
) -> Set<Seq<u8>> {
    Set::new(
        |q: Seq<u8>|
            exists|n: Seq<char>, p: Seq<u8>|
                reaches(reg, root.name, n) && has_rule(reg, n) && #[trigger] sel_files(
                    rule_named(reg, n),
                    want_inputs,
                ).contains(p) && q == join_spec(dir, p),
    )
}

/// The set of a concatenation is the union of the sets.
pub proof fn lemma_concat_to_set(a: Seq<Seq<u8>>, b: Seq<Seq<u8>>)
    ensures
        (a + b).to_set() == a.to_set() + b.to_set(),
{
    assert forall|x: Seq<u8>| (a + b).to_set().contains(x) implies (a.to_set() + b.to_set()).contains(
        x,
    ) by {
        let i = choose|i: int| 0 <= i < (a + b).len() && (a + b)[i] == x;
        if i < a.len() {
            assert(a[i] == x);
            assert(a.to_set().contains(x));
        } else {
            assert(b[i - a.len()] == x);
            assert(b.to_set().contains(x));
        }
    }
    assert forall|x: Seq<u8>| (a.to_set() + b.to_set()).contains(x) implies (a + b).to_set().contains(
        x,
    ) by {
        if a.to_set().contains(x) {
            let i = choose|i: int| 0 <= i < a.len() && a[i] == x;
            assert((a + b)[i] == x);
        } else {
            let i = choose|i: int| 0 <= i < b.len() && b[i] == x;
            assert((a + b)[a.len() + i] == x);
        }
    }
    assert((a + b).to_set() =~= a.to_set() + b.to_set());
}

/// Collects, without duplicates, every input (or output) file of the rules
/// in `deps`, each qualified under `dir`.
#[verifier::spinoff_prover]
#[verifier::rlimit(100)]
pub(crate) fn collect_closure_files(
    ctx: &BuildContext,
    rule: &BuildRule,
    deps: &Vec<BuildRule>,
    dir: &FilePath,
    want_inputs: bool,
) -> (r: Vec<FilePath>)
    requires
        ctx.wf(),
        has_rule(ctx.spec_rules(), rule@.name),
        rule_named(ctx.spec_rules(), rule@.name) == rule@,
        valid_dep_order(ctx.spec_rules(), rule@, rules_view(deps@)),
    ensures
        paths_view(r@).to_set() == closure_files(ctx.spec_rules(), rule@, dir@, want_inputs),
{
    let ghost regv = ctx.spec_rules();
    let ghost root = rule@;
    let mut acc: Vec<FilePath> = Vec::new();
    let mut i: usize = 0;
    while i < deps.len()
        invariant
            i <= deps@.len(),
            regv == ctx.spec_rules(),
            root == rule@,
            ctx.wf(),
            has_rule(regv, root.name),
            rule_named(regv, root.name) == root,
            valid_dep_order(regv, root, rules_view(deps@)),
            forall|q: Seq<u8>|
                #[trigger] crate::paths::has_path(acc@, q) ==> closure_files(
                    regv,
                    root,
                    dir@,
                    want_inputs,
                ).contains(q),
            forall|k: int, p: Seq<u8>|
                0 <= k < i && #[trigger] sel_files(deps@[k]@, want_inputs).contains(p)
                    ==> crate::paths::has_path(acc@, join_spec(dir@, p)),
        decreases deps@.len() - i,
    {
        let arts = deps[i].outputs(ctx);
        let art = &arts[0];
        let files: &Vec<FilePath> = if want_inputs {
            &art.inputs
        } else {
            &art.outputs
        };
        proof {
            assert(paths_view(files@) == sel_files(deps@[i as int]@, want_inputs));
            assert(rules_view(deps@)[i as int] == deps@[i as int]@);
            assert(reaches(regv, root.name, deps@[i as int]@.name));
            assert(has_rule(regv, deps@[i as int]@.name));
            assert(rule_named(regv, deps@[i as int]@.name) == deps@[i as int]@);
        }
        let mut k: usize = 0;
        while k < files.len()
            invariant
                k <= files@.len(),
                regv == ctx.spec_rules(),
                ctx.wf(),
                paths_view(files@) == sel_files(deps@[i as int]@, want_inputs),
                i < deps@.len(),
                reaches(regv, root.name, deps@[i as int]@.name),
                has_rule(regv, deps@[i as int]@.name),
                rule_named(regv, deps@[i as int]@.name) == deps@[i as int]@,
                forall|q: Seq<u8>|
                    #[trigger] crate::paths::has_path(acc@, q) ==> closure_files(
                        regv,
                        root,
                        dir@,
                        want_inputs,
                    ).contains(q),
                forall|kk: int, p: Seq<u8>|
                    0 <= kk < i && #[trigger] sel_files(deps@[kk]@, want_inputs).contains(p)
                        ==> crate::paths::has_path(acc@, join_spec(dir@, p)),
                forall|m: int|
                    0 <= m < k ==> crate::paths::has_path(
                        acc@,
                        join_spec(dir@, (#[trigger] files@[m])@),
                    ),
            decreases files@.len() - k,
        {
            let q = dir.join(&files[k]);
            let ghost qv = q@;
            let ghost pre = acc@;
            let fresh = !crate::paths::contains_path(&acc, &q);
            if fresh {
                acc.push(q);
            }
            k = k + 1;
            proof {
                assert forall|qq: Seq<u8>| #[trigger] crate::paths::has_path(pre, qq)
                    implies crate::paths::has_path(acc@, qq) by {
                    let m = choose|m: int| 0 <= m < pre.len() && (#[trigger] pre[m])@ == qq;
                    assert(acc@[m]@ == qq);
                }
                if fresh {
                    assert(acc@[acc@.len() - 1]@ == qv);
                }
                assert(crate::paths::has_path(acc@, qv));
                assert(qv == join_spec(dir@, files@[k - 1]@));
                assert(paths_view(files@)[k - 1] == files@[k - 1]@);
                assert(sel_files(deps@[i as int]@, want_inputs).contains(files@[k - 1]@));
                assert forall|qq: Seq<u8>| #[trigger] crate::paths::has_path(acc@, qq)
                    implies closure_files(regv, root, dir@, want_inputs).contains(qq) by {
                    if !crate::paths::has_path(pre, qq) {
                        let m = choose|m: int| 0 <= m < acc@.len() && (#[trigger] acc@[m])@ == qq;
                        assert(m == acc@.len() - 1);
                        assert(qq == qv);
                        assert(sel_files(
                            rule_named(regv, deps@[i as int]@.name),
                            want_inputs,
                        ).contains(files@[k - 1]@));
                    }
                }
            }
        }
        i = i + 1;
    }
    proof {
        assert forall|q: Seq<u8>| paths_view(acc@).to_set().contains(q) implies closure_files(
            regv,
            root,
            dir@,
            want_inputs,
        ).contains(q) by {
            let m = choose|m: int| 0 <= m < paths_view(acc@).len() && paths_view(acc@)[m] == q;
            assert(acc@[m]@ == q);
            assert(crate::paths::has_path(acc@, q));
        }
        assert forall|q: Seq<u8>| closure_files(regv, root, dir@, want_inputs).contains(q)
            implies paths_view(acc@).to_set().contains(q) by {
            let (n, p) = choose|n: Seq<char>, p: Seq<u8>|
                reaches(regv, root.name, n) && has_rule(regv, n) && #[trigger] sel_files(
                    rule_named(regv, n),
                    want_inputs,
                ).contains(p) && q == join_spec(dir@, p);
            crate::depgraph::lemma_order_covers_reachable(regv, root, rules_view(deps@), n);
            let j = choose|j: int|
                0 <= j < rules_view(deps@).len() && (#[trigger] rules_view(deps@)[j]).name == n;
            assert(rules_view(deps@)[j] == deps@[j]@);
            assert(deps@[j]@ == rule_named(regv, n));
            assert(sel_files(deps@[j]@, want_inputs).contains(p));
            assert(crate::paths::has_path(acc@, join_spec(dir@, p)));
            let m = choose|m: int| 0 <= m < acc@.len() && (#[trigger] acc@[m])@ == q;
            assert(paths_view(acc@)[m] == q);
        }
        assert(paths_view(acc@).to_set() =~= closure_files(regv, root, dir@, want_inputs));
    }
    acc
}


/// Appending an element inserts it into the sequence's set.
pub proof fn lemma_push_to_set(s: Seq<Seq<u8>>, p: Seq<u8>)
    ensures
        s.push(p).to_set() == s.to_set().insert(p),
{
    assert forall|x: Seq<u8>| s.push(p).to_set().contains(x) implies s.to_set().insert(p).contains(
        x,
    ) by {
        let i = choose|i: int| 0 <= i < s.push(p).len() && s.push(p)[i] == x;
        if i < s.len() {
            assert(s[i] == x);
            assert(s.to_set().contains(x));
        }
    }
    assert forall|x: Seq<u8>| s.to_set().insert(p).contains(x) implies s.push(p).to_set().contains(
        x,
    ) by {
        if s.to_set().contains(x) {
            let i = choose|i: int| 0 <= i < s.len() && s[i] == x;
            assert(s.push(p)[i] == x);
        } else {
            assert(s.push(p)[s.len() as int] == x);
        }
    }
    assert(s.push(p).to_set() =~= s.to_set().insert(p));
}

/// Declaring a path inserts it into the declared set.
pub proof fn lemma_declared_after_set(d: Seq<Seq<u8>>, p: Seq<u8>)
    ensures
        declared_after(d, p).to_set() == d.to_set().insert(p),
{
    if d.contains(p) {
        assert(d.to_set().contains(p));
        assert(declared_after(d, p).to_set() =~= d.to_set().insert(p));
    } else {
        lemma_push_to_set(d, p);
    }
}

/// Whether two coordinator states agree on everything observable.
pub open spec fn ctx_same(a: BuildContext, b: BuildContext) -> bool {
    &&& a.spec_rules() == b.spec_rules()
    &&& a.spec_root() == b.spec_root()
    &&& a.spec_declared() == b.spec_declared()
    &&& a.spec_actions() == b.spec_actions()
    &&& a.spec_toolchain() == b.spec_toolchain()
}


/// When a whole-closure build is owed success: no cycle in reach, every
/// reachable label registered, and a toolchain selected unless the rule
/// and everything it reaches is header-only.
pub open spec fn closure_buildable(
    reg: Seq<RuleView>,
    root: RuleView,
    tc: Option<ToolchainView>,
) -> bool {
    &&& !cycle_reachable(reg, root.name)
    &&& forall|l: Seq<char>| #[trigger] reaches(reg, root.name, l) ==> has_rule(reg, l)
    &&& (tc is Some || (root.sources.len() == 0 && (forall|n: Seq<char>|
        #[trigger] reaches(reg, root.name, n) ==> rule_named(reg, n).sources.len() == 0)))
}

/// A cycle error reported against a reachable rule is a cycle error
/// against the rule that reached it.
proof fn lemma_cycle_error_lift(
    reg: Seq<RuleView>,
    from1: Seq<char>,
    from2: Seq<char>,
    labels: Seq<Label>,
)
    requires
        cycle_error_exact(reg, from2, labels),
        reaches(reg, from1, from2),
    ensures
        cycle_error_exact(reg, from1, labels),
{
    assert forall|i: int| 0 <= i < labels.len() implies reaches(
        reg,
        from1,
        (#[trigger] labels[i])@,
    ) by {
        crate::depgraph::lemma_reaches_trans(reg, from1, from2, labels[i]@);
    }
    let c = choose|c: Seq<Seq<char>>|
        is_cycle(reg, c) && reaches(reg, from2, c[0]) && (forall|i: int|
            0 <= i < c.len() ==> label_in(labels, #[trigger] c[i]));
    crate::depgraph::lemma_reaches_trans(reg, from1, from2, c[0]);
    assert(is_cycle(reg, c) && reaches(reg, from1, c[0]) && (forall|i: int|
        0 <= i < c.len() ==> label_in(labels, #[trigger] c[i])));
}

/// Whatever makes a whole closure buildable from `root` makes it
/// buildable from any rule `root` reaches.
proof fn lemma_closure_buildable_sub(
    reg: Seq<RuleView>,
    root: RuleView,
    cur: RuleView,
    tc: Option<ToolchainView>,
)
    requires
        closure_buildable(reg, root, tc),
        reaches(reg, root.name, cur.name),
        rule_named(reg, cur.name) == cur,
    ensures
        !cycle_reachable(reg, cur.name),
        forall|l: Seq<char>| #[trigger] reaches(reg, cur.name, l) ==> has_rule(reg, l),
        cur.sources.len() == 0 || tc is Some,
{
    if cycle_reachable(reg, cur.name) {
        let p = choose|p: Seq<Seq<char>>| is_cycle(reg, p) && reaches(reg, cur.name, p[0]);
        crate::depgraph::lemma_reaches_trans(reg, root.name, cur.name, p[0]);
    }
    assert forall|l: Seq<char>| #[trigger] reaches(reg, cur.name, l) implies has_rule(reg, l) by {
        crate::depgraph::lemma_reaches_trans(reg, root.name, cur.name, l);
    }
}

impl BuildContext {
    /// Builds one rule of a closure on behalf of `run_build`, lifting
    /// every claim to the closure's root `rule`.
    #[verifier::spinoff_prover]
    #[verifier::rlimit(100)]
    fn build_in_closure(&mut self, rule: &BuildRule, cur: &BuildRule) -> (r: Result<
        (),
        BuildError,
    >)
        requires
            old(self).wf(),
            has_rule(old(self).spec_rules(), rule@.name),
            rule_named(old(self).spec_rules(), rule@.name) == rule@,
            has_rule(old(self).spec_rules(), cur@.name),
            rule_named(old(self).spec_rules(), cur@.name) == cur@,
            cur@ == rule@ || reaches(old(self).spec_rules(), rule@.name, cur@.name),
        ensures
            final(self).wf(),
            final(self).spec_rules() == old(self).spec_rules(),
            final(self).spec_root() == old(self).spec_root(),
            final(self).spec_toolchain() == old(self).spec_toolchain(),
            final(self).spec_actions().len() >= old(self).spec_actions().len(),
            final(self).spec_actions().take(old(self).spec_actions().len() as int) == old(
                self,
            ).spec_actions(),
            r is Ok ==> final(self).spec_declared().to_set() == old(
                self,
            ).spec_declared().to_set() + crate::build_rules::spec_outputs(cur@).to_set(),
            r is Err ==> match r->Err_0 {
                BuildError::Resolution { label } => (!has_rule(old(self).spec_rules(), label@)
                    && reaches(old(self).spec_rules(), rule@.name, label@)) || (
                old(self).spec_toolchain() is None && has_rule(old(self).spec_rules(), label@)
                    && rule_named(old(self).spec_rules(), label@).sources.len() > 0 && (label@
                    == rule@.name || reaches(old(self).spec_rules(), rule@.name, label@))),
                BuildError::Cycle { labels } => cycle_error_exact(
                    old(self).spec_rules(),
                    rule@.name,
                    labels@,
                ),
                _ => false,
            },
            closure_buildable(old(self).spec_rules(), rule@, old(self).spec_toolchain())
                ==> r is Ok,
    {
        let ghost regv = old(self).spec_rules();
        let r = cur.build(self);
        proof {
            match &r {
                Ok(_) => (),
                Err(e) => {
                    match e {
                        BuildError::Resolution { label } => {
                            if !has_rule(regv, label@) {
                                if cur@ != rule@ {
                                    crate::depgraph::lemma_reaches_trans(
                                        regv,
                                        rule@.name,
                                        cur@.name,
                                        label@,
                                    );
                                }
                            } else {
                                assert(label@ == cur@.name);
                                assert(rule_named(regv, label@) == cur@);
                            }
                        },
                        BuildError::Cycle { labels } => {
                            if cur@ != rule@ {
                                lemma_cycle_error_lift(regv, rule@.name, cur@.name, labels@);
                            }
                        },
                        _ => (),
                    }
                    if closure_buildable(regv, rule@, old(self).spec_toolchain()) {
                        if cur@ != rule@ {
                            lemma_closure_buildable_sub(
                                regv,
                                rule@,
                                cur@,
                                old(self).spec_toolchain(),
                            );
                        }
                        assert(false);
                    }
                },
            }
        }
        r
    }

    /// Builds `rule` and everything it depends on, each rule after all of
    /// its dependencies. The plan is only ever extended. On success every
    /// output of every rule in the closure, and of `rule` itself, has been
    /// declared under the output root — nothing is missing — and no cycle
    /// lies in reach of the rule; and success is owed whenever
    /// `closure_buildable` holds.
    #[verifier::spinoff_prover]
    #[verifier::rlimit(100)]
    pub fn run_build(&mut self, rule: &BuildRule) -> (r: Result<(), BuildError>)
        requires
            old(self).wf(),
            has_rule(old(self).spec_rules(), rule@.name),
            rule_named(old(self).spec_rules(), rule@.name) == rule@,
        ensures
            final(self).wf(),
            final(self).spec_rules() == old(self).spec_rules(),
            final(self).spec_root() == old(self).spec_root(),
            final(self).spec_toolchain() == old(self).spec_toolchain(),
            final(self).spec_actions().len() >= old(self).spec_actions().len(),
            final(self).spec_actions().take(old(self).spec_actions().len() as int) == old(
                self,
            ).spec_actions(),
            match r {
                Ok(()) => {
                    &&& !cycle_reachable(old(self).spec_rules(), rule@.name)
                    &&& forall|p: Seq<u8>|
                        #[trigger] crate::build_rules::spec_outputs(rule@).contains(p)
                            ==> final(self).spec_declared().to_set().contains(p)
                    &&& forall|n: Seq<char>, p: Seq<u8>|
                        reaches(old(self).spec_rules(), rule@.name, n)
                            && #[trigger] crate::build_rules::spec_outputs(
                            rule_named(old(self).spec_rules(), n),
                        ).contains(p) ==> final(self).spec_declared().to_set().contains(p)
                },
                Err(e) => match e {
                    BuildError::Resolution { label } => (!has_rule(
                        old(self).spec_rules(),
                        label@,
                    ) && reaches(old(self).spec_rules(), rule@.name, label@)) || (
                    old(self).spec_toolchain() is None && has_rule(old(self).spec_rules(), label@)
                        && rule_named(old(self).spec_rules(), label@).sources.len() > 0 && (label@
                        == rule@.name || reaches(old(self).spec_rules(), rule@.name, label@))),
                    BuildError::Cycle { labels } => cycle_error_exact(
                        old(self).spec_rules(),
                        rule@.name,
                        labels@,
                    ),
                    _ => false,
                },
            },
            closure_buildable(old(self).spec_rules(), rule@, old(self).spec_toolchain())
                ==> r is Ok,
    {
        let ghost regv = old(self).spec_rules();
        let ghost n0 = old(self).spec_actions().len();
        let order = match self.transitive_dependencies(rule) {
            Ok(v) => v,
            Err(e) => {
                proof {
                    assert(self.spec_actions().take(n0 as int) =~= old(self).spec_actions());
                }
                return Err(e);
            },
        };
        let mut i: usize = 0;
        while i < order.len()
            invariant
                i <= order@.len(),
                self.wf(),
                regv == old(self).spec_rules(),
                n0 == old(self).spec_actions().len(),
                self.spec_rules() == old(self).spec_rules(),
                self.spec_root() == old(self).spec_root(),
                self.spec_toolchain() == old(self).spec_toolchain(),
                self.spec_actions().len() >= n0,
                self.spec_actions().take(n0 as int) == old(self).spec_actions(),
                has_rule(regv, rule@.name),
                rule_named(regv, rule@.name) == rule@,
                valid_dep_order(regv, rule@, rules_view(order@)),
                forall|k: int, p: Seq<u8>|
                    0 <= k < i && #[trigger] crate::build_rules::spec_outputs(
                        order@[k]@,
                    ).contains(p) ==> self.spec_declared().to_set().contains(p),
            decreases order@.len() - i,
        {
            let cur = order[i].clone();
            proof {
                assert(rules_view(order@)[i as int] == order@[i as int]@);
            }
            let ghost pre_actions = self.spec_actions();
            match self.build_in_closure(rule, &cur) {
                Ok(_) => (),
                Err(e) => {
                    proof {
                        assert(self.spec_actions().take(n0 as int) =~= pre_actions.take(
                            n0 as int,
                        ));
                    }
                    return Err(e);
                },
            }
            i = i + 1;
            proof {
                assert(crate::build_rules::spec_outputs(order@[i - 1]@)
                    =~= crate::build_rules::spec_outputs(cur@));
                assert(self.spec_actions().take(n0 as int) =~= pre_actions.take(n0 as int));
            }
        }
        let ghost pre_actions = self.spec_actions();
        match self.build_in_closure(rule, rule) {
            Ok(_) => (),
            Err(e) => {
                proof {
                    assert(self.spec_actions().take(n0 as int) =~= pre_actions.take(n0 as int));
                }
                return Err(e);
            },
        }
        proof {
            lemma_order_excludes_reachable_cycle(regv, rule@, rules_view(order@));
            assert(self.spec_actions().take(n0 as int) =~= pre_actions.take(n0 as int));
            assert forall|n: Seq<char>, p: Seq<u8>|
                reaches(regv, rule@.name, n) && #[trigger] crate::build_rules::spec_outputs(
                    rule_named(regv, n),
                ).contains(p) implies self.spec_declared().to_set().contains(p) by {
                crate::depgraph::lemma_order_covers_reachable(
                    regv,
                    rule@,
                    rules_view(order@),
                    n,
                );
                let j = choose|j: int|
                    0 <= j < rules_view(order@).len() && (#[trigger] rules_view(order@)[j]).name
                        == n;
                assert(rules_view(order@)[j] == order@[j]@);
                assert(order@[j]@ == rule_named(regv, n));
                assert(crate::build_rules::spec_outputs(order@[j]@).contains(p));
            }
        }
        Ok(())
    }
}
} // verus!
