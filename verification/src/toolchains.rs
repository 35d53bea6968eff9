//! Toolchains and their archives: the downloadable, checksum-verified,
//! unpackable payload a rule compiles with, and the invocation it exposes.

use crate::build_rules::{BuildRule, RuleView};
use crate::paths::FilePath;
use vstd::prelude::*;

verus! {

/// The hex digest that the SHA-1 function assigns to a byte string. The
/// digest depends on the bytes alone; its value is stated nowhere and is
/// observable only by running the hash.
pub uninterp spec fn sha1_hex_of(data: Seq<u8>) -> Seq<char>;

/// Relies on crypto::sha1::Sha1 with crypto::digest::Digest::input and
/// Digest::result_str: the returned hex string is a function of the input
/// bytes alone.
#[verifier::external_body]
fn sha1_hex(data: &Vec<u8>) -> (r: String)
    ensures
        r@ == sha1_hex_of(data@),
{
    let mut hasher = crypto::sha1::Sha1::new();
    crypto::digest::Digest::input(&mut hasher, data.as_slice());
    crypto::digest::Digest::result_str(&mut hasher)
}

/// The mathematical content of an archive: its three describing strings.
pub ghost struct ArchiveView {
    pub url: Seq<char>,
    pub sha1: Seq<char>,
    pub prefix: Seq<char>,
}

/// A downloadable toolchain payload: where to fetch it, the SHA-1 hex
/// digest it must have, and the prefix its unpacked contents live under.
/// Immutable; the `with_*` operations return modified copies.
pub struct Archive {
    url: String,
    sha1: String,
    prefix: String,
}

impl View for Archive {
    type V = ArchiveView;

    closed spec fn view(&self) -> ArchiveView {
        ArchiveView { url: self.url@, sha1: self.sha1@, prefix: self.prefix@ }
    }
}

impl Clone for Archive {
    fn clone(&self) -> (r: Self)
        ensures
            r@ == self@,
    {
        Archive { url: self.url.clone(), sha1: self.sha1.clone(), prefix: self.prefix.clone() }
    }
}

impl Default for Archive {
    /// An archive with every field empty.
    fn default() -> (r: Archive)
        ensures
            r@.url.len() == 0,
            r@.sha1.len() == 0,
            r@.prefix.len() == 0,
    {
        Archive { url: String::new(), sha1: String::new(), prefix: String::new() }
    }
}

impl Archive {
    /// The download location.
    pub fn url(&self) -> (r: String)
        ensures
            r@ == self@.url,
    {
        self.url.clone()
    }

    /// The declared SHA-1 hex digest of the payload.
    pub fn sha1(&self) -> (r: String)
        ensures
            r@ == self@.sha1,
    {
        self.sha1.clone()
    }

    /// The prefix the unpacked contents live under.
    pub fn prefix(&self) -> (r: String)
        ensures
            r@ == self@.prefix,
    {
        self.prefix.clone()
    }

    /// The fixed on-disk name of the downloaded payload.
    pub fn file_name(&self) -> (r: String)
        ensures
            r@ == "toolchain.tar.gz"@,
    {
        "toolchain.tar.gz".to_owned()
    }

    /// A copy of this archive with another download location.
    pub fn with_url(self, url: String) -> (r: Archive)
        ensures
            r@ == (ArchiveView { url: url@, ..self@ }),
    {
        Archive { url, ..self }
    }

    /// A copy of this archive with another declared digest.
    pub fn with_sha1(self, sha1: String) -> (r: Archive)
        ensures
            r@ == (ArchiveView { sha1: sha1@, ..self@ }),
    {
        Archive { sha1, ..self }
    }

    /// A copy of this archive with another prefix.
    pub fn with_prefix(self, prefix: String) -> (r: Archive)
        ensures
            r@ == (ArchiveView { prefix: prefix@, ..self@ }),
    {
        Archive { prefix, ..self }
    }

    /// Whether a computed hex digest equals the declared one, character for
    /// character: case and format must match exactly.
    pub fn matches_declared(&self, digest: &String) -> (r: bool)
        ensures
            r == (digest@ == self@.sha1),
    {
        *digest == self.sha1
    }

    /// The checksum gate: whether the payload bytes hash to the declared
    /// SHA-1 digest. A caller must refuse to unpack when this is false.
    pub fn checksum_bytes(&self, data: &Vec<u8>) -> (r: bool)
        ensures
            r == (sha1_hex_of(data@) == self@.sha1),
    {
        let digest = sha1_hex(data);
        self.matches_declared(&digest)
    }
}

/// The mathematical content of a toolchain: its rule, archive and cache
/// root.
pub ghost struct ToolchainView {
    pub rule: RuleView,
    pub archive: ArchiveView,
    pub cache_root: Seq<u8>,
}

/// An invocable compiler bound to a rule's identity, a verified archive and
/// a cache root. Usable only once its archive has been downloaded,
/// checksum-verified and unpacked under the cache root.
pub struct Toolchain {
    rule: BuildRule,
    archive: Archive,
    cache_root: FilePath,
}

impl View for Toolchain {
    type V = ToolchainView;

    closed spec fn view(&self) -> ToolchainView {
        ToolchainView { rule: self.rule@, archive: self.archive@, cache_root: self.cache_root@ }
    }
}

impl Clone for Toolchain {
    fn clone(&self) -> (r: Self)
        ensures
            r@ == self@,
    {
        Toolchain {
            rule: self.rule.clone(),
            archive: self.archive.clone(),
            cache_root: self.cache_root.clone(),
        }
    }
}

impl Toolchain {
    /// Binds `archive`, rooted at `cache_root`, to the identity `rule`.
    pub fn new(rule: BuildRule, archive: Archive, cache_root: FilePath) -> (r: Toolchain)
        ensures
            r@ == (ToolchainView { rule: rule@, archive: archive@, cache_root: cache_root@ }),
    {
        Toolchain { rule, archive, cache_root }
    }

    /// The rule describing the toolchain's declared identity.
    pub fn as_target(&self) -> (r: BuildRule)
        ensures
            r@ == self@.rule,
    {
        self.rule.clone()
    }

    /// The archive backing this toolchain.
    pub fn archive(&self) -> (r: Archive)
        ensures
            r@ == self@.archive,
    {
        self.archive.clone()
    }

    /// The cache directory the archive is unpacked under.
    pub fn cache_root(&self) -> (r: FilePath)
        ensures
            r@ == self@.cache_root,
    {
        self.cache_root.clone()
    }

    /// The compile invocation this toolchain is handed: `sources` compiled
    /// against the header search set `headers`, producing the object set
    /// `outputs`, with `dest` as the primary output. Performing it is the
    /// runner's work.
    pub fn compile(
        &self,
        sources: &Vec<FilePath>,
        headers: &Vec<FilePath>,
        outputs: &Vec<FilePath>,
        dest: &FilePath,
    ) -> (r: crate::build_context::BuildAction)
        ensures
            r@ == (crate::build_context::ActionView::Compile {
                sources: crate::paths::paths_view(sources@),
                headers: crate::paths::paths_view(headers@),
                outputs: crate::paths::paths_view(outputs@),
                dest: dest@,
            }),
    {
        crate::build_context::BuildAction::Compile {
            sources: crate::build_rules::clone_paths(sources),
            headers: crate::build_rules::clone_paths(headers),
            outputs: crate::build_rules::clone_paths(outputs),
            dest: dest.clone(),
        }
    }
}

} // verus!
