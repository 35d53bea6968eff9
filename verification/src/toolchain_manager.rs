//! The process-wide toolchain registry: concurrent maps from rule labels
//! to registered archives and resolved toolchains.

use crate::build_rules::BuildRule;
use crate::model::Label;
use crate::paths::FilePath;
use crate::toolchains::{Archive, ArchiveView, Toolchain, ToolchainView};
use vstd::prelude::*;

verus! {

/// The concurrent map the registry is built on.
#[verifier::external_type_specification]
#[verifier::external_body]
#[verifier::reject_recursive_types(K)]
#[verifier::reject_recursive_types(V)]
#[verifier::reject_recursive_types(S)]
pub struct ExDashMap<K, V, S>(dashmap::DashMap<K, V, S>);

/// The map from label strings to resolved toolchains.
pub type ToolchainMap = dashmap::DashMap<String, Toolchain>;

/// The map from label strings to registered archives.
pub type ArchiveMap = dashmap::DashMap<String, Archive>;

/// What a toolchain map holds: each registered name to the toolchain's
/// content.
pub uninterp spec fn toolchain_entries(m: ToolchainMap) -> Map<Seq<char>, ToolchainView>;

/// What an archive map holds: each registered name to the archive's
/// content.
pub uninterp spec fn archive_entries(m: ArchiveMap) -> Map<Seq<char>, ArchiveView>;

/// Relies on dashmap::DashMap::new: a fresh map holds nothing.
#[verifier::external_body]
fn new_toolchain_map() -> (m: ToolchainMap)
    ensures
        forall|k: Seq<char>| !toolchain_entries(m).contains_key(k),
{
    dashmap::DashMap::new()
}

/// Relies on dashmap::DashMap::new: a fresh map holds nothing.
#[verifier::external_body]
fn new_archive_map() -> (m: ArchiveMap)
    ensures
        forall|k: Seq<char>| !archive_entries(m).contains_key(k),
{
    dashmap::DashMap::new()
}

/// Relies on dashmap::DashMap::insert: afterwards the map holds the old
/// entries plus this one, keyed by the string's characters.
#[verifier::external_body]
fn insert_toolchain(m: &mut ToolchainMap, k: String, v: Toolchain)
    ensures
        toolchain_entries(*final(m)) == toolchain_entries(*old(m)).insert(k@, v@),
{
    m.insert(k, v);
}

/// Relies on dashmap::DashMap::insert: afterwards the map holds the old
/// entries plus this one, keyed by the string's characters.
#[verifier::external_body]
fn insert_archive(m: &mut ArchiveMap, k: String, v: Archive)
    ensures
        archive_entries(*final(m)) == archive_entries(*old(m)).insert(k@, v@),
{
    m.insert(k, v);
}

/// Relies on dashmap::DashMap::get: the entry under the key, if one is
/// registered.
#[verifier::external_body]
fn get_toolchain(m: &ToolchainMap, k: &String) -> (r: Option<Toolchain>)
    ensures
        match r {
            Some(t) => toolchain_entries(*m).contains_key(k@) && t@ == toolchain_entries(*m)[k@],
            None => !toolchain_entries(*m).contains_key(k@),
        },
{
    m.get(k).map(|e| e.value().clone())
}

/// Relies on dashmap::DashMap::get: the entry under the key, if one is
/// registered.
#[verifier::external_body]
fn get_archive(m: &ArchiveMap, k: &String) -> (r: Option<Archive>)
    ensures
        match r {
            Some(a) => archive_entries(*m).contains_key(k@) && a@ == archive_entries(*m)[k@],
            None => !archive_entries(*m).contains_key(k@),
        },
{
    m.get(k).map(|e| e.value().clone())
}

/// Whether `t` is the content of some registered toolchain.
pub open spec fn registered_toolchain(m: Map<Seq<char>, ToolchainView>, t: ToolchainView) -> bool {
    exists|k: Seq<char>| #[trigger] m.contains_key(k) && m[k] == t
}

/// Whether `rv` is the declared identity of some registered toolchain.
pub open spec fn registered_target(m: Map<Seq<char>, ToolchainView>, rv: crate::build_rules::RuleView) -> bool {
    exists|k: Seq<char>| #[trigger] m.contains_key(k) && m[k].rule == rv
}

/// Relies on dashmap::DashMap::iter: one clone per entry, each entry
/// yielded exactly once, in no promised order.
#[verifier::external_body]
fn all_toolchains(m: &ToolchainMap) -> (r: Vec<Toolchain>)
    ensures
        r@.len() == toolchain_entries(*m).dom().len(),
        forall|i: int|
            0 <= i < r@.len() ==> registered_toolchain(toolchain_entries(*m), (#[trigger] r@[i])@),
        forall|k: Seq<char>|
            #[trigger] toolchain_entries(*m).contains_key(k) ==> exists|i: int|
                0 <= i < r@.len() && (#[trigger] r@[i])@ == toolchain_entries(*m)[k],
{
    m.iter().map(|e| e.value().clone()).collect()
}

/// Relies on dashmap::DashMap::iter: one clone per entry, each entry
/// yielded exactly once, in no promised order.
#[verifier::external_body]
fn all_archives(m: &ArchiveMap) -> (r: Vec<Archive>)
    ensures
        r@.len() == archive_entries(*m).dom().len(),
        forall|i: int|
            0 <= i < r@.len() ==> registered_archive(archive_entries(*m), (#[trigger] r@[i])@),
        forall|k: Seq<char>|
            #[trigger] archive_entries(*m).contains_key(k) ==> exists|i: int|
                0 <= i < r@.len() && (#[trigger] r@[i])@ == archive_entries(*m)[k],
{
    m.iter().map(|e| e.value().clone()).collect()
}

/// Whether `a` is the content of some registered archive.
pub open spec fn registered_archive(m: Map<Seq<char>, ArchiveView>, a: ArchiveView) -> bool {
    exists|k: Seq<char>| #[trigger] m.contains_key(k) && m[k] == a
}

/// The process-wide registry: archives registered by workspace loading,
/// and the toolchains resolved from them, both keyed by label. Queried
/// read-only once loading is done.
pub struct ToolchainManager {
    toolchains: ToolchainMap,
    archives: ArchiveMap,
}

impl ToolchainManager {
    /// The registered toolchains, by name.
    pub closed spec fn spec_toolchains(&self) -> Map<Seq<char>, ToolchainView> {
        toolchain_entries(self.toolchains)
    }

    /// The registered archives, by name.
    pub closed spec fn spec_archives(&self) -> Map<Seq<char>, ArchiveView> {
        archive_entries(self.archives)
    }

    /// An empty registry.
    pub fn new() -> (r: ToolchainManager)
        ensures
            forall|k: Seq<char>| !r.spec_toolchains().contains_key(k),
            forall|k: Seq<char>| !r.spec_archives().contains_key(k),
    {
        ToolchainManager { toolchains: new_toolchain_map(), archives: new_archive_map() }
    }

    /// Registers an archive under `name`, replacing any earlier entry.
    pub fn register_archive(&mut self, name: Label, archive: Archive)
        ensures
            final(self).spec_archives() == old(self).spec_archives().insert(name@, archive@),
            final(self).spec_toolchains() == old(self).spec_toolchains(),
    {
        let key = name.as_string().clone();
        insert_archive(&mut self.archives, key, archive);
    }

    /// Registers the toolchain for `rule`: when an archive is already
    /// registered under the rule's label, binds it, rooted at
    /// `cache_root`, to the rule and stores the toolchain. With no such
    /// archive the registration is silently skipped — archives must be
    /// registered first.
    pub fn register_toolchain(&mut self, rule: BuildRule, cache_root: FilePath)
        ensures
            final(self).spec_archives() == old(self).spec_archives(),
            old(self).spec_archives().contains_key(rule@.name) ==> final(self).spec_toolchains()
                == old(self).spec_toolchains().insert(
                rule@.name,
                ToolchainView {
                    rule: rule@,
                    archive: old(self).spec_archives()[rule@.name],
                    cache_root: cache_root@,
                },
            ),
            !old(self).spec_archives().contains_key(rule@.name) ==> final(self).spec_toolchains()
                == old(self).spec_toolchains(),
    {
        let name = rule.name();
        let key = name.as_string().clone();
        match get_archive(&self.archives, &key) {
            Some(archive) => {
                let toolchain = Toolchain::new(rule, archive, cache_root);
                insert_toolchain(&mut self.toolchains, key, toolchain);
            },
            None => (),
        }
    }

    /// The toolchain registered under `label`, if any; absence is a
    /// normal outcome for labels that name no toolchain.
    pub fn get(&self, label: &Label) -> (r: Option<Toolchain>)
        ensures
            match r {
                Some(t) => self.spec_toolchains().contains_key(label@) && t@
                    == self.spec_toolchains()[label@],
                None => !self.spec_toolchains().contains_key(label@),
            },
    {
        get_toolchain(&self.toolchains, label.as_string())
    }

    /// The declared identities of every registered toolchain: one per
    /// registered entry.
    pub fn targets(&self) -> (r: Vec<BuildRule>)
        ensures
            r@.len() == self.spec_toolchains().dom().len(),
            forall|i: int|
                0 <= i < r@.len() ==> registered_target(
                    self.spec_toolchains(),
                    (#[trigger] r@[i])@,
                ),
            forall|k: Seq<char>|
                #[trigger] self.spec_toolchains().contains_key(k) ==> exists|i: int|
                    0 <= i < r@.len() && (#[trigger] r@[i])@ == self.spec_toolchains()[k].rule,
    {
        let tcs = all_toolchains(&self.toolchains);
        let mut out: Vec<BuildRule> = Vec::new();
        let mut i: usize = 0;
        while i < tcs.len()
            invariant
                i <= tcs@.len(),
                out@.len() == i,
                forall|j: int| 0 <= j < i ==> (#[trigger] out@[j])@ == tcs@[j]@.rule,
            decreases tcs@.len() - i,
        {
            out.push(tcs[i].as_target());
            i = i + 1;
        }
        proof {
            assert forall|j: int| 0 <= j < out@.len() implies registered_target(
                self.spec_toolchains(),
                (#[trigger] out@[j])@,
            ) by {
                let k = choose|k: Seq<char>|
                    #[trigger] self.spec_toolchains().contains_key(k)
                        && self.spec_toolchains()[k] == tcs@[j]@;
                assert(self.spec_toolchains()[k].rule == out@[j]@);
            }
            assert forall|k: Seq<char>|
                #[trigger] self.spec_toolchains().contains_key(k) implies exists|i2: int|
                0 <= i2 < out@.len() && (#[trigger] out@[i2])@ == self.spec_toolchains()[k].rule by {
                let i2 = choose|i2: int|
                    0 <= i2 < tcs@.len() && (#[trigger] tcs@[i2])@ == self.spec_toolchains()[k];
                assert(out@[i2]@ == self.spec_toolchains()[k].rule);
            }
        }
        out
    }

    /// One copy of every registered archive.
    pub fn archives(&self) -> (r: Vec<Archive>)
        ensures
            r@.len() == self.spec_archives().dom().len(),
            forall|i: int|
                0 <= i < r@.len() ==> registered_archive(self.spec_archives(), (#[trigger] r@[i])@),
            forall|k: Seq<char>|
                #[trigger] self.spec_archives().contains_key(k) ==> exists|i: int|
                    0 <= i < r@.len() && (#[trigger] r@[i])@ == self.spec_archives()[k],
    {
        all_archives(&self.archives)
    }

    /// One copy of every registered toolchain.
    pub fn toolchains(&self) -> (r: Vec<Toolchain>)
        ensures
            r@.len() == self.spec_toolchains().dom().len(),
            forall|i: int|
                0 <= i < r@.len() ==> registered_toolchain(
                    self.spec_toolchains(),
                    (#[trigger] r@[i])@,
                ),
            forall|k: Seq<char>|
                #[trigger] self.spec_toolchains().contains_key(k) ==> exists|i: int|
                    0 <= i < r@.len() && (#[trigger] r@[i])@ == self.spec_toolchains()[k],
    {
        all_toolchains(&self.toolchains)
    }
}

} // verus!
