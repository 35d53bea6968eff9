//! Build rules: the closed set of rule variants and their shared contract
//! (inputs, outputs, build). `Library` is the variant implemented here.

use crate::build_artifact::Artifact;
use crate::model::Label;
use crate::paths::{paths_view, with_ext_spec, obj_ext, FilePath};
use vstd::prelude::*;

verus! {

/// The mathematical content of a rule: its label, file lists, dependency
/// labels and change flag.
pub ghost struct RuleView {
    pub name: Seq<char>,
    pub sources: Seq<Seq<u8>>,
    pub headers: Seq<Seq<u8>>,
    pub dependencies: Seq<Seq<char>>,
    pub has_changed: bool,
}

/// The full input set of a rule: headers first, then sources.
pub open spec fn spec_inputs(r: RuleView) -> Seq<Seq<u8>> {
    r.headers + r.sources
}

/// Each path rewritten to the object extension.
pub open spec fn objs(ps: Seq<Seq<u8>>) -> Seq<Seq<u8>> {
    ps.map(|i: int, s: Seq<u8>| with_ext_spec(s, obj_ext()))
}

/// The full output set of a rule: each source rewritten to the object
/// extension, then the headers passed through.
pub open spec fn spec_outputs(r: RuleView) -> Seq<Seq<u8>> {
    objs(r.sources) + r.headers
}

/// The views of a sequence of labels.
pub open spec fn labels_view(s: Seq<Label>) -> Seq<Seq<char>> {
    s.map(|i: int, l: Label| l@)
}

/// A library rule: sources compiled to objects, headers passed through.
/// Rules are immutable values; the `set_*` operations return new values.
pub struct Library {
    name: Label,
    sources: Vec<FilePath>,
    headers: Vec<FilePath>,
    dependencies: Vec<Label>,
    has_changed: bool,
}

impl View for Library {
    type V = RuleView;

    closed spec fn view(&self) -> RuleView {
        RuleView {
            name: self.name@,
            sources: paths_view(self.sources@),
            headers: paths_view(self.headers@),
            dependencies: labels_view(self.dependencies@),
            has_changed: self.has_changed,
        }
    }
}

impl Clone for Library {
    fn clone(&self) -> (r: Self)
        ensures
            r@ == self@,
    {
        let r = Library {
            name: self.name.clone(),
            sources: clone_paths(&self.sources),
            headers: clone_paths(&self.headers),
            dependencies: clone_labels(&self.dependencies),
            has_changed: self.has_changed,
        };
        proof {
            assert(r@.name =~= self@.name);
        }
        r
    }
}

/// Appending a path appends its byte string to the list's view.
pub proof fn lemma_paths_view_push(s: Seq<FilePath>, p: FilePath)
    ensures
        paths_view(s.push(p)) == paths_view(s).push(p@),
{
    assert(paths_view(s.push(p)) =~= paths_view(s).push(p@));
}

/// Appending a label appends its name to the list's view.
pub proof fn lemma_labels_view_push(s: Seq<Label>, l: Label)
    ensures
        labels_view(s.push(l)) == labels_view(s).push(l@),
{
    assert(labels_view(s.push(l)) =~= labels_view(s).push(l@));
}

/// Clones a path list, keeping every byte string.
pub fn clone_paths(v: &Vec<FilePath>) -> (r: Vec<FilePath>)
    ensures
        paths_view(r@) == paths_view(v@),
{
    let mut out: Vec<FilePath> = Vec::new();
    let mut i: usize = 0;
    while i < v.len()
        invariant
            i <= v@.len(),
            paths_view(out@) == paths_view(v@).take(i as int),
        decreases v@.len() - i,
    {
        let ghost pre = out@;
        out.push(v[i].clone());
        i = i + 1;
        proof {
            lemma_paths_view_push(pre, out@.last());
            assert(paths_view(out@) =~= paths_view(v@).take(i as int));
        }
    }
    proof {
        assert(paths_view(v@).take(v@.len() as int) =~= paths_view(v@));
    }
    out
}

/// Clones a label list, keeping every name.
pub fn clone_labels(v: &Vec<Label>) -> (r: Vec<Label>)
    ensures
        labels_view(r@) == labels_view(v@),
{
    let mut out: Vec<Label> = Vec::new();
    let mut i: usize = 0;
    while i < v.len()
        invariant
            i <= v@.len(),
            labels_view(out@) == labels_view(v@).take(i as int),
        decreases v@.len() - i,
    {
        let ghost pre = out@;
        out.push(v[i].clone());
        i = i + 1;
        proof {
            lemma_labels_view_push(pre, out@.last());
            assert(labels_view(out@) =~= labels_view(v@).take(i as int));
        }
    }
    proof {
        assert(labels_view(v@).take(v@.len() as int) =~= labels_view(v@));
    }
    out
}

impl Library {
    /// A fresh library rule named `name`, with no files and no dependencies.
    pub fn new(name: Label) -> (r: Library)
        ensures
            r@.name == name@,
            r@.sources == Seq::<Seq<u8>>::empty(),
            r@.headers == Seq::<Seq<u8>>::empty(),
            r@.dependencies == Seq::<Seq<char>>::empty(),
            r@.has_changed == false,
    {
        let r = Library {
            name,
            sources: Vec::new(),
            headers: Vec::new(),
            dependencies: Vec::new(),
            has_changed: false,
        };
        proof {
            assert(r@.sources =~= Seq::<Seq<u8>>::empty());
            assert(r@.headers =~= Seq::<Seq<u8>>::empty());
            assert(r@.dependencies =~= Seq::<Seq<char>>::empty());
        }
        r
    }

    /// A copy of this rule under another name.
    pub fn set_name(&self, name: Label) -> (r: Library)
        ensures
            r@ == (RuleView { name: name@, ..self@ }),
    {
        let r = Library { name, ..self.clone() };
        r
    }

    /// A copy of this rule with the given source files.
    pub fn set_sources(&self, sources: Vec<FilePath>) -> (r: Library)
        ensures
            r@ == (RuleView { sources: paths_view(sources@), ..self@ }),
    {
        let r = Library { sources, ..self.clone() };
        r
    }

    /// A copy of this rule with the given header files.
    pub fn set_headers(&self, headers: Vec<FilePath>) -> (r: Library)
        ensures
            r@ == (RuleView { headers: paths_view(headers@), ..self@ }),
    {
        let r = Library { headers, ..self.clone() };
        r
    }

    /// A copy of this rule with the given dependency labels.
    pub fn set_dependencies(&self, dependencies: Vec<Label>) -> (r: Library)
        ensures
            r@ == (RuleView { dependencies: labels_view(dependencies@), ..self@ }),
    {
        let r = Library { dependencies, ..self.clone() };
        r
    }

    /// The rule's label.
    pub fn name(&self) -> (r: Label)
        ensures
            r@ == self@.name,
    {
        self.name.clone()
    }

    /// The rule's source files.
    pub fn sources(&self) -> (r: Vec<FilePath>)
        ensures
            paths_view(r@) == self@.sources,
    {
        clone_paths(&self.sources)
    }

    /// The rule's header files.
    pub fn headers(&self) -> (r: Vec<FilePath>)
        ensures
            paths_view(r@) == self@.headers,
    {
        clone_paths(&self.headers)
    }

    /// The rule's dependency labels.
    pub fn dependencies(&self) -> (r: Vec<Label>)
        ensures
            labels_view(r@) == self@.dependencies,
    {
        clone_labels(&self.dependencies)
    }

    /// Whether the rule's inputs changed since the last build.
    pub fn has_changed(&self) -> (r: bool)
        ensures
            r == self@.has_changed,
    {
        self.has_changed
    }

    /// The rule's full input set: headers first, then sources.
    pub fn inputs(&self) -> (r: Vec<FilePath>)
        ensures
            paths_view(r@) == spec_inputs(self@),
    {
        let mut out = clone_paths(&self.headers);
        let mut i: usize = 0;
        while i < self.sources.len()
            invariant
                i <= self@.sources.len(),
                paths_view(out@) == self@.headers + self@.sources.take(i as int),
            decreases self@.sources.len() - i,
        {
            let ghost pre = out@;
            out.push(self.sources[i].clone());
            i = i + 1;
            proof {
                lemma_paths_view_push(pre, out@.last());
                assert(paths_view(out@) =~= self@.headers + self@.sources.take(i as int));
            }
        }
        proof {
            assert(self@.headers + self@.sources.take(self@.sources.len() as int) =~= spec_inputs(
                self@,
            ));
        }
        out
    }

    /// The artifacts this rule produces: exactly one, whose inputs are the
    /// rule's full input set and whose outputs are the sources rewritten to
    /// the object extension plus the headers passed through. A rule with
    /// headers and no sources is a pure pass-through: its artifact's
    /// outputs equal its header list.
    pub fn outputs(&self, ctx: &crate::build_context::BuildContext) -> (r: Vec<Artifact>)
        ensures
            r@.len() == 1,
            r@[0]@.inputs == spec_inputs(self@),
            r@[0]@.outputs == spec_outputs(self@),
    {
        let ext = FilePath::obj_extension();
        let mut outs: Vec<FilePath> = Vec::new();
        let mut i: usize = 0;
        while i < self.sources.len()
            invariant
                i <= self@.sources.len(),
                ext@ == obj_ext(),
                paths_view(outs@).len() == i,
                forall|j: int|
                    0 <= j < i ==> paths_view(outs@)[j] == with_ext_spec(
                        self@.sources[j],
                        obj_ext(),
                    ),
            decreases self@.sources.len() - i,
        {
            let ghost pre = outs@;
            outs.push(self.sources[i].with_extension(&ext));
            i = i + 1;
            proof {
                lemma_paths_view_push(pre, outs@.last());
            }
        }
        let mut k: usize = 0;
        while k < self.headers.len()
            invariant
                k <= self@.headers.len(),
                paths_view(outs@).len() == self@.sources.len() + k,
                forall|j: int|
                    0 <= j < self@.sources.len() ==> paths_view(outs@)[j] == with_ext_spec(
                        self@.sources[j],
                        obj_ext(),
                    ),
                forall|j: int|
                    0 <= j < k ==> paths_view(outs@)[self@.sources.len() + j] == self@.headers[j],
            decreases self@.headers.len() - k,
        {
            let ghost pre = outs@;
            outs.push(self.headers[k].clone());
            k = k + 1;
            proof {
                lemma_paths_view_push(pre, outs@.last());
            }
        }
        proof {
            assert(paths_view(outs@) =~= spec_outputs(self@));
        }
        let a = Artifact { inputs: self.inputs(), outputs: outs };
        let mut r: Vec<Artifact> = Vec::new();
        r.push(a);
        r
    }

    /// The incremental build of a library: resolve the transitive
    /// dependency closure, declare and copy this rule's headers into the
    /// output tree, and — when there are sources — hand the toolchain one
    /// compile invocation over the full header and object search sets,
    /// with the first declared object path as its primary output. A rule
    /// with no sources succeeds after the copy alone, never invoking a
    /// toolchain.
    #[verifier::spinoff_prover]
    #[verifier::rlimit(100)]
    pub fn build(&self, ctx: &mut crate::build_context::BuildContext) -> (r: Result<
        (),
        crate::errors::BuildError,
    >)
        requires
            old(ctx).wf(),
            crate::depgraph::has_rule(old(ctx).spec_rules(), self@.name),
            crate::depgraph::rule_named(old(ctx).spec_rules(), self@.name) == self@,
        ensures
            final(ctx).wf(),
            final(ctx).spec_rules() == old(ctx).spec_rules(),
            final(ctx).spec_root() == old(ctx).spec_root(),
            final(ctx).spec_toolchain() == old(ctx).spec_toolchain(),
            match r {
                Ok(()) => {
                    &&& !crate::depgraph::cycle_reachable(old(ctx).spec_rules(), self@.name)
                    &&& final(ctx).spec_declared().to_set() == old(ctx).spec_declared().to_set()
                        + spec_outputs(self@).to_set()
                    &&& self@.sources.len() == 0 ==> final(ctx).spec_actions() == old(
                        ctx,
                    ).spec_actions() + crate::build_context::copy_plan(
                        old(ctx).spec_root(),
                        self@.headers,
                    )
                    &&& self@.sources.len() > 0 ==> {
                        &&& old(ctx).spec_toolchain() is Some
                        &&& final(ctx).spec_actions().len() == old(ctx).spec_actions().len()
                            + self@.headers.len() + 1
                        &&& final(ctx).spec_actions().drop_last() == old(ctx).spec_actions()
                            + crate::build_context::copy_plan(old(ctx).spec_root(), self@.headers)
                        &&& final(ctx).spec_actions().last() matches crate::build_context::ActionView::Compile {
                            sources,
                            headers,
                            outputs,
                            dest,
                        } && {
                            &&& sources == self@.sources
                            &&& headers.to_set() == crate::build_context::qualify_all(
                                old(ctx).spec_root(),
                                self@.headers,
                            ).to_set() + crate::build_context::closure_files(
                                old(ctx).spec_rules(),
                                self@,
                                old(ctx).spec_root(),
                                true,
                            )
                            &&& outputs.to_set() == crate::build_context::qualify_all(
                                old(ctx).spec_root(),
                                objs(self@.sources),
                            ).to_set() + crate::build_context::closure_files(
                                old(ctx).spec_rules(),
                                self@,
                                old(ctx).spec_root(),
                                false,
                            )
                            &&& dest == crate::paths::join_spec(
                                old(ctx).spec_root(),
                                with_ext_spec(self@.sources[0], obj_ext()),
                            )
                        }
                    }
                },
                Err(e) => match e {
                    crate::errors::BuildError::Resolution { label } => crate::build_context::ctx_same(
                        *final(ctx),
                        *old(ctx),
                    ) && ((!crate::depgraph::has_rule(old(ctx).spec_rules(), label@)
                        && crate::depgraph::reaches(old(ctx).spec_rules(), self@.name, label@)) || (
                    label@ == self@.name && old(ctx).spec_toolchain() is None
                        && self@.sources.len() > 0)),
                    crate::errors::BuildError::Cycle { labels } => crate::build_context::ctx_same(
                        *final(ctx),
                        *old(ctx),
                    ) && crate::build_context::cycle_error_exact(
                        old(ctx).spec_rules(),
                        self@.name,
                        labels@,
                    ),
                    _ => false,
                },
            },
            (!crate::depgraph::cycle_reachable(old(ctx).spec_rules(), self@.name) && (forall|
                l: Seq<char>,
            |
                #[trigger] crate::depgraph::reaches(old(ctx).spec_rules(), self@.name, l)
                    ==> crate::depgraph::has_rule(old(ctx).spec_rules(), l)) && (self@.sources.len()
                == 0 || old(ctx).spec_toolchain() is Some)) ==> r is Ok,
    {
        let ghost regv = old(ctx).spec_rules();
        let ghost rootv = old(ctx).spec_root();
        let wrapped = BuildRule::Library(self.clone());
        let deps = match ctx.transitive_dependencies(&wrapped) {
            Ok(v) => v,
            Err(e) => {
                return Err(e);
            },
        };
        let tc_opt: Option<crate::toolchains::Toolchain> = if self.sources.len() > 0 {
            match ctx.toolchain() {
                Some(t) => Some(t.clone()),
                None => {
                    return Err(crate::errors::BuildError::Resolution { label: self.name.clone() });
                },
            }
        } else {
            None
        };
        let root_dir = ctx.output_path();
        let theaders = crate::build_context::collect_closure_files(
            ctx,
            &wrapped,
            &deps,
            &root_dir,
            true,
        );
        let mut hdrs: Vec<FilePath> = Vec::new();
        let mut i: usize = 0;
        while i < self.headers.len()
            invariant
                i <= self@.headers.len(),
                ctx.wf(),
                regv == old(ctx).spec_rules(),
                rootv == old(ctx).spec_root(),
                ctx.spec_rules() == old(ctx).spec_rules(),
                ctx.spec_root() == old(ctx).spec_root(),
                ctx.spec_toolchain() == old(ctx).spec_toolchain(),
                ctx.spec_actions() == old(ctx).spec_actions(),
                ctx.spec_declared().to_set() == old(ctx).spec_declared().to_set()
                    + self@.headers.take(i as int).to_set(),
                paths_view(hdrs@).len() == i,
                forall|j: int|
                    0 <= j < i ==> paths_view(hdrs@)[j] == crate::paths::join_spec(
                        rootv,
                        self@.headers[j],
                    ),
            decreases self@.headers.len() - i,
        {
            let ghost pre_seq = ctx.spec_declared();
            let ghost preh = hdrs@;
            let q = ctx.declare_output(self.headers[i].clone());
            hdrs.push(q);
            i = i + 1;
            proof {
                lemma_paths_view_push(preh, hdrs@.last());
                crate::build_context::lemma_declared_after_set(pre_seq, self@.headers[i - 1]);
                assert(self@.headers.take(i as int) =~= self@.headers.take(i - 1).push(
                    self@.headers[i - 1],
                ));
                crate::build_context::lemma_push_to_set(
                    self@.headers.take(i - 1),
                    self@.headers[i - 1],
                );
                assert(ctx.spec_declared().to_set() =~= old(ctx).spec_declared().to_set()
                    + self@.headers.take(i as int).to_set());
            }
        }
        let files = clone_paths(&self.headers);
        match ctx.copy(&files) {
            Ok(_) => (),
            Err(e) => {
                return Err(e);
            },
        }
        proof {
            assert(self@.headers.take(self@.headers.len() as int) =~= self@.headers);
        }
        if self.sources.len() == 0 {
            proof {
                assert(objs(self@.sources).len() == 0);
                assert(spec_outputs(self@) =~= self@.headers);
            }
            return Ok(());
        }
        let tbeams = crate::build_context::collect_closure_files(
            ctx,
            &wrapped,
            &deps,
            &root_dir,
            false,
        );
        let ext = FilePath::obj_extension();
        let mut beam_files: Vec<FilePath> = Vec::new();
        let mut k: usize = 0;
        while k < self.sources.len()
            invariant
                k <= self@.sources.len(),
                ctx.wf(),
                ext@ == obj_ext(),
                regv == old(ctx).spec_rules(),
                rootv == old(ctx).spec_root(),
                ctx.spec_rules() == old(ctx).spec_rules(),
                ctx.spec_root() == old(ctx).spec_root(),
                ctx.spec_toolchain() == old(ctx).spec_toolchain(),
                ctx.spec_actions() == old(ctx).spec_actions() + crate::build_context::copy_plan(
                    rootv,
                    self@.headers,
                ),
                ctx.spec_declared().to_set() == old(ctx).spec_declared().to_set()
                    + self@.headers.to_set() + objs(self@.sources).take(k as int).to_set(),
                paths_view(beam_files@).len() == k,
                forall|j: int|
                    0 <= j < k ==> paths_view(beam_files@)[j] == crate::paths::join_spec(
                        rootv,
                        objs(self@.sources)[j],
                    ),
            decreases self@.sources.len() - k,
        {
            let ghost preb = beam_files@;
            let ghost pre_seq = ctx.spec_declared();
            let b = self.sources[k].with_extension(&ext);
            proof {
                assert(objs(self@.sources)[k as int] == with_ext_spec(
                    self@.sources[k as int],
                    obj_ext(),
                ));
            }
            let q = ctx.declare_output(b);
            beam_files.push(q);
            k = k + 1;
            proof {
                lemma_paths_view_push(preb, beam_files@.last());
                crate::build_context::lemma_declared_after_set(
                    pre_seq,
                    objs(self@.sources)[k - 1],
                );
                assert(objs(self@.sources).take(k as int) =~= objs(self@.sources).take(
                    k - 1,
                ).push(objs(self@.sources)[k - 1]));
                crate::build_context::lemma_push_to_set(
                    objs(self@.sources).take(k - 1),
                    objs(self@.sources)[k - 1],
                );
                assert(ctx.spec_declared().to_set() =~= old(ctx).spec_declared().to_set()
                    + self@.headers.to_set() + objs(self@.sources).take(k as int).to_set());
            }
        }
        let dest = beam_files[0].clone();
        proof {
            assert(paths_view(beam_files@)[0] == beam_files@[0]@);
            assert(dest@ == crate::paths::join_spec(rootv, objs(self@.sources)[0]));
            assert(objs(self@.sources)[0] == with_ext_spec(self@.sources[0], obj_ext()));
        }
        let mut m: usize = 0;
        while m < tbeams.len()
            invariant
                m <= tbeams@.len(),
                ctx.wf(),
                regv == old(ctx).spec_rules(),
                rootv == old(ctx).spec_root(),
                ctx.spec_rules() == old(ctx).spec_rules(),
                ctx.spec_root() == old(ctx).spec_root(),
                ctx.spec_toolchain() == old(ctx).spec_toolchain(),
                paths_view(beam_files@) == crate::build_context::qualify_all(
                    rootv,
                    objs(self@.sources),
                ) + paths_view(tbeams@).take(m as int),
            decreases tbeams@.len() - m,
        {
            let ghost preb = beam_files@;
            beam_files.push(tbeams[m].clone());
            m = m + 1;
            proof {
                lemma_paths_view_push(preb, beam_files@.last());
                assert(paths_view(beam_files@) =~= crate::build_context::qualify_all(
                    rootv,
                    objs(self@.sources),
                ) + paths_view(tbeams@).take(m as int));
            }
        }
        let mut headers_full = hdrs;
        let mut m2: usize = 0;
        while m2 < theaders.len()
            invariant
                m2 <= theaders@.len(),
                ctx.wf(),
                regv == old(ctx).spec_rules(),
                rootv == old(ctx).spec_root(),
                ctx.spec_rules() == old(ctx).spec_rules(),
                ctx.spec_root() == old(ctx).spec_root(),
                ctx.spec_toolchain() == old(ctx).spec_toolchain(),
                paths_view(headers_full@) == crate::build_context::qualify_all(
                    rootv,
                    self@.headers,
                ) + paths_view(theaders@).take(m2 as int),
            decreases theaders@.len() - m2,
        {
            let ghost preh = headers_full@;
            headers_full.push(theaders[m2].clone());
            m2 = m2 + 1;
            proof {
                lemma_paths_view_push(preh, headers_full@.last());
                assert(paths_view(headers_full@) =~= crate::build_context::qualify_all(
                    rootv,
                    self@.headers,
                ) + paths_view(theaders@).take(m2 as int));
            }
        }
        let tc = tc_opt.unwrap();
        let job = tc.compile(&self.sources, &headers_full, &beam_files, &dest);
        ctx.schedule(job);
        proof {
            assert(paths_view(theaders@).take(theaders@.len() as int) =~= paths_view(theaders@));
            assert(paths_view(tbeams@).take(tbeams@.len() as int) =~= paths_view(tbeams@));
            crate::build_context::lemma_concat_to_set(
                crate::build_context::qualify_all(rootv, self@.headers),
                paths_view(theaders@),
            );
            crate::build_context::lemma_concat_to_set(
                crate::build_context::qualify_all(rootv, objs(self@.sources)),
                paths_view(tbeams@),
            );
            crate::build_context::lemma_concat_to_set(objs(self@.sources), self@.headers);
            assert(objs(self@.sources).take(self@.sources.len() as int) =~= objs(self@.sources));
            assert(crate::build_context::qualify_all(rootv, objs(self@.sources))[0]
                == crate::paths::join_spec(rootv, objs(self@.sources)[0]));
            assert(spec_outputs(self@).to_set() =~= self@.headers.to_set() + objs(
                self@.sources,
            ).to_set());
        }
        Ok(())
    }

    /// The post-build execution hook: a library has nothing to run.
    pub fn run(&self) -> (r: Result<(), crate::errors::BuildError>)
        ensures
            r is Ok,
    {
        Ok(())
    }
}

/// The closed set of rule variants. New rule kinds extend this set; the
/// graph algorithm dispatches over it exhaustively.
pub enum BuildRule {
    Library(Library),
}

impl View for BuildRule {
    type V = RuleView;

    open spec fn view(&self) -> RuleView {
        match self {
            BuildRule::Library(l) => l@,
        }
    }
}

impl Clone for BuildRule {
    fn clone(&self) -> (r: Self)
        ensures
            r@ == self@,
    {
        match self {
            BuildRule::Library(l) => BuildRule::Library(l.clone()),
        }
    }
}

impl BuildRule {
    /// The rule's label.
    pub fn name(&self) -> (r: Label)
        ensures
            r@ == self@.name,
    {
        match self {
            BuildRule::Library(l) => l.name(),
        }
    }

    /// The rule's dependency labels.
    pub fn dependencies(&self) -> (r: Vec<Label>)
        ensures
            labels_view(r@) == self@.dependencies,
    {
        match self {
            BuildRule::Library(l) => l.dependencies(),
        }
    }

    /// The rule's full input set.
    pub fn inputs(&self) -> (r: Vec<FilePath>)
        ensures
            paths_view(r@) == spec_inputs(self@),
    {
        match self {
            BuildRule::Library(l) => l.inputs(),
        }
    }

    /// The artifacts the rule produces.
    pub fn outputs(&self, ctx: &crate::build_context::BuildContext) -> (r: Vec<Artifact>)
        ensures
            r@.len() == 1,
            r@[0]@.inputs == spec_inputs(self@),
            r@[0]@.outputs == spec_outputs(self@),
    {
        match self {
            BuildRule::Library(l) => l.outputs(ctx),
        }
    }

    /// The incremental build of the rule: the variant's own `build`.
    pub fn build(&self, ctx: &mut crate::build_context::BuildContext) -> (r: Result<
        (),
        crate::errors::BuildError,
    >)
        requires
            old(ctx).wf(),
            crate::depgraph::has_rule(old(ctx).spec_rules(), self@.name),
            crate::depgraph::rule_named(old(ctx).spec_rules(), self@.name) == self@,
        ensures
            final(ctx).wf(),
            final(ctx).spec_rules() == old(ctx).spec_rules(),
            final(ctx).spec_root() == old(ctx).spec_root(),
            final(ctx).spec_toolchain() == old(ctx).spec_toolchain(),
            r is Ok ==> final(ctx).spec_declared().to_set() == old(ctx).spec_declared().to_set()
                + spec_outputs(self@).to_set(),
            r is Ok ==> !crate::depgraph::cycle_reachable(old(ctx).spec_rules(), self@.name),
            r is Err ==> match r->Err_0 {
                crate::errors::BuildError::Resolution { label } => (!crate::depgraph::has_rule(
                    old(ctx).spec_rules(),
                    label@,
                ) && crate::depgraph::reaches(old(ctx).spec_rules(), self@.name, label@)) || (
                label@ == self@.name && old(ctx).spec_toolchain() is None && self@.sources.len()
                    > 0),
                crate::errors::BuildError::Cycle { labels } => crate::build_context::cycle_error_exact(
                    old(ctx).spec_rules(),
                    self@.name,
                    labels@,
                ),
                _ => false,
            },
            final(ctx).spec_actions().len() >= old(ctx).spec_actions().len(),
            final(ctx).spec_actions().take(old(ctx).spec_actions().len() as int) == old(
                ctx,
            ).spec_actions(),
            (!crate::depgraph::cycle_reachable(old(ctx).spec_rules(), self@.name) && (forall|
                l: Seq<char>,
            |
                #[trigger] crate::depgraph::reaches(old(ctx).spec_rules(), self@.name, l)
                    ==> crate::depgraph::has_rule(old(ctx).spec_rules(), l)) && (self@.sources.len()
                == 0 || old(ctx).spec_toolchain() is Some)) ==> r is Ok,
    {
        let r = match self {
            BuildRule::Library(l) => l.build(ctx),
        };
        proof {
            let n0 = old(ctx).spec_actions().len();
            match &r {
                Ok(_) => {
                    if self@.sources.len() == 0 {
                        assert(ctx.spec_actions().take(n0 as int) =~= old(ctx).spec_actions());
                    } else {
                        assert forall|j: int| 0 <= j < n0 implies ctx.spec_actions().take(
                            n0 as int,
                        )[j] == old(ctx).spec_actions()[j] by {
                            assert(ctx.spec_actions()[j] == ctx.spec_actions().drop_last()[j]);
                        }
                        assert(ctx.spec_actions().take(n0 as int) =~= old(ctx).spec_actions());
                    }
                },
                Err(_) => {
                    assert(ctx.spec_actions().take(n0 as int) =~= old(ctx).spec_actions());
                },
            }
        }
        r
    }

    /// The post-build execution hook of the rule.
    pub fn run(&self) -> (r: Result<(), crate::errors::BuildError>)
        ensures
            r is Ok,
    {
        match self {
            BuildRule::Library(l) => l.run(),
        }
    }
}

/// The views of a sequence of rules.
pub open spec fn rules_view(s: Seq<BuildRule>) -> Seq<RuleView> {
    s.map(|i: int, r: BuildRule| r@)
}

} // verus!
